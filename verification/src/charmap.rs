//! The character-to-position index that the evaluator reads: for
//! each leading character, the position of its first occurrence in
//! the grid.

use vstd::prelude::*;

verus! {

use crate::geometry::KeyPos;

/// First-occurrence lookup in an association list.
pub open spec fn spec_cpm_get(s: Seq<(char, KeyPos)>, c: char) -> Option<KeyPos>
    decreases s.len(),
{
    if s.len() == 0 {
        None
    } else if s[0].0 == c {
        Some(s[0].1)
    } else {
        spec_cpm_get(s.drop_first(), c)
    }
}

/// Whether the list holds the key.
pub open spec fn spec_cpm_has(s: Seq<(char, KeyPos)>, c: char) -> bool {
    exists|i: int| 0 <= i < s.len() && s[i].0 == c
}

/// A character-to-position index with pairwise-distinct keys.
#[derive(Clone, Debug)]
pub struct CharPosMap {
    /// The entries; keys are pairwise distinct.
    pub entries: Vec<(char, KeyPos)>,
}

/// Pairwise-distinct keys.
pub open spec fn spec_cpm_distinct(s: Seq<(char, KeyPos)>) -> bool {
    forall|i: int, j: int| 0 <= i < j < s.len() ==> s[i].0 != s[j].0
}

/// The key's first entry is what the lookup returns.
proof fn lemma_cpm_get_at(s: Seq<(char, KeyPos)>, c: char, i: int)
    requires
        0 <= i < s.len(),
        s[i].0 == c,
        forall|j: int| 0 <= j < i ==> s[j].0 != c,
    ensures
        spec_cpm_get(s, c) == Some(s[i].1),
    decreases i,
{
    if i > 0 {
        lemma_cpm_get_at(s.drop_first(), c, i - 1);
    }
}

/// An absent key looks up to nothing.
proof fn lemma_cpm_get_absent(s: Seq<(char, KeyPos)>, c: char)
    requires
        !spec_cpm_has(s, c),
    ensures
        spec_cpm_get(s, c) is None,
    decreases s.len(),
{
    if s.len() > 0 {
        assert(forall|i: int| 0 <= i < s.drop_first().len() ==> s.drop_first()[i] == s[i + 1]);
        lemma_cpm_get_absent(s.drop_first(), c);
    }
}

/// Appending a fresh key changes only that key's lookup.
proof fn lemma_cpm_push(s: Seq<(char, KeyPos)>, c: char, kp: KeyPos, d: char)
    requires
        !spec_cpm_has(s, c),
    ensures
        spec_cpm_get(s.push((c, kp)), d) == if d == c {
            Some(kp)
        } else {
            spec_cpm_get(s, d)
        },
    decreases s.len(),
{
    let t = s.push((c, kp));
    assert(t.len() == s.len() + 1);
    if s.len() == 0 {
        assert(t[0] == (c, kp));
        if d == c {
            assert(spec_cpm_get(t, d) == Some(kp));
        } else {
            assert(t.drop_first() =~= Seq::<(char, KeyPos)>::empty());
            assert(spec_cpm_get(t, d) == spec_cpm_get(t.drop_first(), d));
            assert(spec_cpm_get(t, d) is None);
        }
    } else {
        assert(t[0] == s[0]);
        assert(t.drop_first() =~= s.drop_first().push((c, kp)));
        assert(!spec_cpm_has(s.drop_first(), c)) by {
            if spec_cpm_has(s.drop_first(), c) {
                let i = choose|i: int| 0 <= i < s.drop_first().len() && s.drop_first()[i].0 == c;
                assert(s[i + 1].0 == c);
            }
        };
        lemma_cpm_push(s.drop_first(), c, kp, d);
        if s[0].0 == d {
            assert(spec_cpm_get(t, d) == Some(s[0].1));
            assert(spec_cpm_get(s, d) == Some(s[0].1));
            assert(s[0].0 != c);
        } else {
            assert(spec_cpm_get(t, d) == spec_cpm_get(t.drop_first(), d));
            assert(spec_cpm_get(s, d) == spec_cpm_get(s.drop_first(), d));
        }
    }
}

impl CharPosMap {
    /// An empty index.
    pub fn new() -> (m: Self)
        ensures
            m.entries@.len() == 0,
            spec_cpm_distinct(m.entries@),
    {
        CharPosMap { entries: Vec::new() }
    }

    /// The position recorded for a character, if any.
    pub fn get(&self, c: char) -> (r: Option<KeyPos>)
        ensures
            r == spec_cpm_get(self.entries@, c),
    {
        let n = self.entries.len();
        let mut i: usize = 0;
        while i < n
            invariant
                n == self.entries@.len(),
                0 <= i <= n,
                forall|j: int| 0 <= j < i ==> self.entries@[j].0 != c,
            decreases n - i,
        {
            let (key, kp) = self.entries[i];
            if key == c {
                proof {
                    lemma_cpm_get_at(self.entries@, c, i as int);
                }
                return Some(kp);
            }
            i = i + 1;
        }
        proof {
            lemma_cpm_get_absent(self.entries@, c);
        }
        None
    }

    /// Record a position for a character not yet present.
    pub fn put_new(&mut self, c: char, kp: KeyPos)
        requires
            spec_cpm_distinct(old(self).entries@),
            !spec_cpm_has(old(self).entries@, c),
        ensures
            spec_cpm_distinct(final(self).entries@),
            final(self).entries@ == old(self).entries@.push((c, kp)),
            forall|d: char|
                spec_cpm_get(final(self).entries@, d) == if d == c {
                    Some(kp)
                } else {
                    spec_cpm_get(old(self).entries@, d)
                },
            forall|d: char|
                spec_cpm_has(final(self).entries@, d) == (spec_cpm_has(old(self).entries@, d) || d
                    == c),
    {
        let ghost s0 = self.entries@;
        self.entries.push((c, kp));
        proof {
            assert(self.entries@ =~= s0.push((c, kp)));
            assert forall|d: char|
                spec_cpm_get(self.entries@, d) == (if d == c {
                    Some(kp)
                } else {
                    spec_cpm_get(s0, d)
                }) by {
                lemma_cpm_push(s0, c, kp, d);
            };
            assert forall|d: char|
                spec_cpm_has(self.entries@, d) == (spec_cpm_has(s0, d) || d == c) by {
                if spec_cpm_has(s0, d) {
                    let i = choose|i: int| 0 <= i < s0.len() && s0[i].0 == d;
                    assert(self.entries@[i].0 == d);
                }
                if spec_cpm_has(self.entries@, d) {
                    let i = choose|i: int|
                        0 <= i < self.entries@.len() && self.entries@[i].0 == d;
                    if i < s0.len() {
                        assert(s0[i].0 == d);
                    }
                }
                assert(self.entries@[s0.len() as int].0 == c);
            };
            assert forall|i: int, j: int|
                0 <= i < j < self.entries@.len() implies self.entries@[i].0
                != self.entries@[j].0 by {
                if j < s0.len() {
                } else {
                    assert(self.entries@[j].0 == c);
                    assert(s0[i].0 != c);
                }
            };
        }
    }

    /// Whether the index holds the character.
    pub fn has(&self, c: char) -> (b: bool)
        ensures
            b == spec_cpm_has(self.entries@, c),
    {
        let n = self.entries.len();
        let mut i: usize = 0;
        while i < n
            invariant
                n == self.entries@.len(),
                0 <= i <= n,
                forall|j: int| 0 <= j < i ==> self.entries@[j].0 != c,
            decreases n - i,
        {
            let (key, _) = self.entries[i];
            if key == c {
                return true;
            }
            i = i + 1;
        }
        false
    }
}

/// The lookup returns a value exactly when the key is present.
pub proof fn lemma_cpm_get_some_iff_has(s: Seq<(char, KeyPos)>, c: char)
    ensures
        (spec_cpm_get(s, c) is Some) == spec_cpm_has(s, c),
    decreases s.len(),
{
    if s.len() > 0 {
        assert(forall|i: int| 0 <= i < s.drop_first().len() ==> s.drop_first()[i] == s[i + 1]);
        lemma_cpm_get_some_iff_has(s.drop_first(), c);
        if s[0].0 != c && spec_cpm_has(s, c) {
            let i = choose|i: int| 0 <= i < s.len() && s[i].0 == c;
            assert(s.drop_first()[i - 1].0 == c);
        }
    }
}

} // verus!
