//! Corpus statistics: occurrence counts of 1- to 4-grams over a
//! text, and the hiragana symbol list ordered by descending
//! frequency.

use vstd::prelude::*;

verus! {

use vstd::seq_lib::group_to_multiset_ensures;
use crate::stdx::{str_chars, string_push};
use crate::symbol::{is_hiragana, spec_is_hiragana};

/// An n-gram key, 1 <= n <= 4; unused trailing characters are null.
#[derive(Clone, Copy, Debug, PartialEq, Eq, Structural, Hash)]
pub struct Gram {
    /// Number of characters, 1 to 4.
    pub len: u8,
    /// The characters; those at positions >= len are null.
    pub c0: char,
    /// Second character, if len >= 2.
    pub c1: char,
    /// Third character, if len >= 3.
    pub c2: char,
    /// Fourth character, if len >= 4.
    pub c3: char,
}

/// A well-formed n-gram key: length in range, padding null.
pub open spec fn gram_wf(g: Gram) -> bool {
    &&& 1 <= g.len <= 4
    &&& (g.len < 2 ==> g.c1 == '\u{0}')
    &&& (g.len < 3 ==> g.c2 == '\u{0}')
    &&& (g.len < 4 ==> g.c3 == '\u{0}')
}

/// The characters of an n-gram key, as a sequence.
pub open spec fn gram_seq(g: Gram) -> Seq<char> {
    seq![g.c0, g.c1, g.c2, g.c3].take(g.len as int)
}

/// Two well-formed keys of equal length with equal characters are equal.
pub proof fn lemma_gram_seq_injective(a: Gram, b: Gram)
    requires
        gram_wf(a),
        gram_wf(b),
        a.len == b.len,
        gram_seq(a) == gram_seq(b),
    ensures
        a == b,
{
    assert forall|i: int| 0 <= i < a.len implies gram_seq(a)[i] == gram_seq(b)[i] by {}
    if a.len >= 1 {
        assert(gram_seq(a)[0] == a.c0 && gram_seq(b)[0] == b.c0);
    }
    if a.len >= 2 {
        assert(gram_seq(a)[1] == a.c1 && gram_seq(b)[1] == b.c1);
    }
    if a.len >= 3 {
        assert(gram_seq(a)[2] == a.c2 && gram_seq(b)[2] == b.c2);
    }
    if a.len >= 4 {
        assert(gram_seq(a)[3] == a.c3 && gram_seq(b)[3] == b.c3);
    }
}

impl Gram {
    /// A 1-gram key.
    pub fn g1(c0: char) -> (g: Self)
        ensures
            g == spec_g1(c0),
            gram_wf(g),
    {
        Gram { len: 1, c0, c1: '\u{0}', c2: '\u{0}', c3: '\u{0}' }
    }

    /// A 2-gram key.
    pub fn g2(c0: char, c1: char) -> (g: Self)
        ensures
            g == spec_g2(c0, c1),
            gram_wf(g),
    {
        Gram { len: 2, c0, c1, c2: '\u{0}', c3: '\u{0}' }
    }

    /// A 3-gram key.
    pub fn g3(c0: char, c1: char, c2: char) -> (g: Self)
        ensures
            g == spec_g3(c0, c1, c2),
            gram_wf(g),
    {
        Gram { len: 3, c0, c1, c2, c3: '\u{0}' }
    }

    /// A 4-gram key.
    pub fn g4(c0: char, c1: char, c2: char, c3: char) -> (g: Self)
        ensures
            g == spec_g4(c0, c1, c2, c3),
            gram_wf(g),
    {
        Gram { len: 4, c0, c1, c2, c3 }
    }
}

impl Gram {
    /// Classify a character list as an n-gram key: one to four
    /// characters, none the placeholder noise mark.
    pub fn from_chars(chars: &Vec<char>) -> (r: Option<Gram>)
        ensures
            r is Some <==> (1 <= chars@.len() <= 4 && forall|j: int|
                0 <= j < chars@.len() ==> chars@[j] != '\u{3013}'),
            r is Some ==> gram_wf(r->0) && r->0.len == chars@.len() && gram_seq(r->0) == chars@,
    {
        let n = chars.len();
        if n == 0 || n > 4 {
            return None;
        }
        let mut j: usize = 0;
        while j < n
            invariant
                n == chars@.len(),
                0 <= j <= n,
                forall|t: int| 0 <= t < j ==> chars@[t] != '\u{3013}',
            decreases n - j,
        {
            if chars[j] == '\u{3013}' {
                return None;
            }
            j = j + 1;
        }
        let g = if n == 1 {
            Gram::g1(chars[0])
        } else if n == 2 {
            Gram::g2(chars[0], chars[1])
        } else if n == 3 {
            Gram::g3(chars[0], chars[1], chars[2])
        } else {
            Gram::g4(chars[0], chars[1], chars[2], chars[3])
        };
        proof {
            assert(gram_seq(g) =~= chars@);
        }
        Some(g)
    }
}

/// A 1-gram key.
pub open spec fn spec_g1(c0: char) -> Gram {
    Gram { len: 1, c0, c1: '\u{0}', c2: '\u{0}', c3: '\u{0}' }
}

/// A 2-gram key.
pub open spec fn spec_g2(c0: char, c1: char) -> Gram {
    Gram { len: 2, c0, c1, c2: '\u{0}', c3: '\u{0}' }
}

/// A 3-gram key.
pub open spec fn spec_g3(c0: char, c1: char, c2: char) -> Gram {
    Gram { len: 3, c0, c1, c2, c3: '\u{0}' }
}

/// A 4-gram key.
pub open spec fn spec_g4(c0: char, c1: char, c2: char, c3: char) -> Gram {
    Gram { len: 4, c0, c1, c2, c3 }
}

/// Count stored for a key in an entry sequence: the count of its
/// first occurrence, 0 when absent.
pub open spec fn spec_lookup(s: Seq<(Gram, usize)>, g: Gram) -> usize
    decreases s.len(),
{
    if s.len() == 0 {
        0
    } else if s[0].0 == g {
        s[0].1
    } else {
        spec_lookup(s.drop_first(), g)
    }
}

/// Whether an entry sequence holds the key.
pub open spec fn spec_has_key(s: Seq<(Gram, usize)>, g: Gram) -> bool {
    exists|i: int| 0 <= i < s.len() && s[i].0 == g
}

/// Sum of all counts in an entry sequence.
pub open spec fn spec_entry_total(s: Seq<(Gram, usize)>) -> int
    decreases s.len(),
{
    if s.len() == 0 {
        0
    } else {
        s[0].1 + spec_entry_total(s.drop_first())
    }
}

/// Pairwise-distinct keys.
pub open spec fn spec_distinct_keys(s: Seq<(Gram, usize)>) -> bool {
    forall|i: int, j: int| 0 <= i < j < s.len() ==> s[i].0 != s[j].0
}

/// When the key first occurs at index i, the lookup returns that entry.
proof fn lemma_lookup_at(s: Seq<(Gram, usize)>, g: Gram, i: int)
    requires
        0 <= i < s.len(),
        s[i].0 == g,
        forall|j: int| 0 <= j < i ==> s[j].0 != g,
    ensures
        spec_lookup(s, g) == s[i].1,
    decreases i,
{
    if i > 0 {
        lemma_lookup_at(s.drop_first(), g, i - 1);
    }
}

/// When the key occurs nowhere, the lookup returns 0.
proof fn lemma_lookup_absent(s: Seq<(Gram, usize)>, g: Gram)
    requires
        !spec_has_key(s, g),
    ensures
        spec_lookup(s, g) == 0,
    decreases s.len(),
{
    if s.len() > 0 {
        assert(forall|i: int|
            0 <= i < s.drop_first().len() ==> s.drop_first()[i] == s[i + 1]);
        lemma_lookup_absent(s.drop_first(), g);
    }
}

/// Updating the entry at i changes only that key's lookup.
proof fn lemma_lookup_update(s: Seq<(Gram, usize)>, i: int, c: usize, g: Gram)
    requires
        0 <= i < s.len(),
        spec_distinct_keys(s),
    ensures
        spec_lookup(s.update(i, (s[i].0, c)), g) == if g == s[i].0 {
            c
        } else {
            spec_lookup(s, g)
        },
    decreases i,
{
    let t = s.update(i, (s[i].0, c));
    if i == 0 {
        if g != s[0].0 {
            assert(t.drop_first() =~= s.drop_first());
        }
    } else {
        assert(t.drop_first() =~= s.drop_first().update(i - 1, (s[i].0, c)));
        assert(s.drop_first()[i - 1] == s[i]);
        lemma_lookup_update(s.drop_first(), i - 1, c, g);
    }
}

/// Appending a fresh key changes only that key's lookup.
proof fn lemma_lookup_push(s: Seq<(Gram, usize)>, g: Gram, c: usize, h: Gram)
    ensures
        spec_lookup(s.push((g, c)), h) == if h == g && !spec_has_key(s, g) {
            c
        } else {
            spec_lookup(s, h)
        },
    decreases s.len(),
{
    let t = s.push((g, c));
    assert(t.len() == s.len() + 1);
    if s.len() == 0 {
        assert(t[0] == (g, c));
        if h == g {
            assert(spec_lookup(t, h) == c);
        } else {
            assert(t.drop_first() =~= Seq::<(Gram, usize)>::empty());
            assert(spec_lookup(t, h) == spec_lookup(t.drop_first(), h));
            assert(spec_lookup(t, h) == 0);
        }
    } else {
        assert(t[0] == s[0]);
        assert(t.drop_first() =~= s.drop_first().push((g, c)));
        lemma_lookup_push(s.drop_first(), g, c, h);
        if s[0].0 == g {
            assert(spec_has_key(s, g));
        } else {
            assert(spec_has_key(s, g) == spec_has_key(s.drop_first(), g)) by {
                if spec_has_key(s, g) {
                    let i = choose|i: int| 0 <= i < s.len() && s[i].0 == g;
                    assert(i > 0 && s.drop_first()[i - 1].0 == g);
                }
                if spec_has_key(s.drop_first(), g) {
                    let i = choose|i: int|
                        0 <= i < s.drop_first().len() && s.drop_first()[i].0 == g;
                    assert(s[i + 1].0 == g);
                }
            };
        }
        if s[0].0 == h {
            assert(spec_lookup(t, h) == s[0].1);
            assert(spec_lookup(s, h) == s[0].1);
        } else {
            assert(spec_lookup(t, h) == spec_lookup(t.drop_first(), h));
            assert(spec_lookup(s, h) == spec_lookup(s.drop_first(), h));
        }
    }
}

/// Totals under update and push.
proof fn lemma_total_update(s: Seq<(Gram, usize)>, i: int, c: usize)
    requires
        0 <= i < s.len(),
    ensures
        spec_entry_total(s.update(i, (s[i].0, c))) == spec_entry_total(s) - s[i].1 + c,
    decreases i,
{
    let t = s.update(i, (s[i].0, c));
    if i == 0 {
        assert(t[0] == (s[0].0, c));
        assert(t.drop_first() =~= s.drop_first());
    } else {
        assert(t[0] == s[0]);
        assert(t.drop_first() =~= s.drop_first().update(i - 1, (s[i].0, c)));
        assert(s.drop_first()[i - 1] == s[i]);
        lemma_total_update(s.drop_first(), i - 1, c);
    }
}

/// Totals under push.
proof fn lemma_total_push(s: Seq<(Gram, usize)>, g: Gram, c: usize)
    ensures
        spec_entry_total(s.push((g, c))) == spec_entry_total(s) + c,
    decreases s.len(),
{
    let t = s.push((g, c));
    assert(t.len() == s.len() + 1);
    assert(spec_entry_total(t) == t[0].1 + spec_entry_total(t.drop_first()));
    if s.len() == 0 {
        assert(t[0] == (g, c));
        assert(t.drop_first() =~= Seq::<(Gram, usize)>::empty());
        assert(spec_entry_total(t.drop_first()) == 0);
    } else {
        assert(t[0] == s[0]);
        assert(t.drop_first() =~= s.drop_first().push((g, c)));
        lemma_total_push(s.drop_first(), g, c);
    }
}

/// Every count is bounded by the total.
proof fn lemma_count_le_total(s: Seq<(Gram, usize)>, i: int)
    requires
        0 <= i < s.len(),
    ensures
        s[i].1 <= spec_entry_total(s),
        spec_entry_total(s) >= 0,
    decreases s.len(),
{
    lemma_total_nonneg(s);
    if i == 0 {
        lemma_total_nonneg(s.drop_first());
    } else {
        assert(s.drop_first()[i - 1] == s[i]);
        lemma_count_le_total(s.drop_first(), i - 1);
    }
}

/// The total is non-negative.
pub proof fn lemma_total_nonneg(s: Seq<(Gram, usize)>)
    ensures
        spec_entry_total(s) >= 0,
    decreases s.len(),
{
    if s.len() > 0 {
        lemma_total_nonneg(s.drop_first());
    }
}

/// The lookup of a present key is bounded by the total.
pub proof fn lemma_lookup_le_total(s: Seq<(Gram, usize)>, g: Gram)
    ensures
        0 <= spec_lookup(s, g) <= spec_entry_total(s),
        spec_entry_total(s) >= 0,
    decreases s.len(),
{
    lemma_total_nonneg(s);
    if s.len() > 0 {
        lemma_total_nonneg(s.drop_first());
        if s[0].0 != g {
            lemma_lookup_le_total(s.drop_first(), g);
        }
    }
}

/// An n-gram frequency table: a list of (key, count) entries with
/// pairwise-distinct keys.
#[derive(Clone, Debug)]
pub struct NgramMap {
    /// The entries; keys are pairwise distinct.
    pub entries: Vec<(Gram, usize)>,
}

impl NgramMap {
    /// Distinct keys, all well-formed of the given length.
    pub open spec fn wf(&self, n: u8) -> bool {
        &&& spec_distinct_keys(self.entries@)
        &&& forall|i: int|
            0 <= i < self.entries@.len() ==> gram_wf(#[trigger] self.entries@[i].0)
                && self.entries@[i].0.len == n
    }

    /// An empty table.
    pub fn new() -> (m: Self)
        ensures
            m.entries@.len() == 0,
            forall|n: u8| m.wf(n),
            spec_entry_total(m.entries@) == 0,
    {
        NgramMap { entries: Vec::new() }
    }

    /// Number of distinct keys.
    pub fn len(&self) -> (n: usize)
        ensures
            n == self.entries@.len(),
    {
        self.entries.len()
    }

    /// Count stored for the key, 0 when absent.
    pub fn get(&self, g: Gram) -> (c: usize)
        requires
            spec_distinct_keys(self.entries@),
        ensures
            c == spec_lookup(self.entries@, g),
            c <= spec_entry_total(self.entries@),
    {
        proof {
            lemma_lookup_le_total(self.entries@, g);
        }
        let n = self.entries.len();
        let mut i: usize = 0;
        while i < n
            invariant
                n == self.entries@.len(),
                0 <= i <= n,
                forall|j: int| 0 <= j < i ==> self.entries@[j].0 != g,
            decreases n - i,
        {
            let (key, count) = self.entries[i];
            if key == g {
                proof {
                    lemma_lookup_at(self.entries@, g, i as int);
                    lemma_count_le_total(self.entries@, i as int);
                }
                return count;
            }
            i = i + 1;
        }
        proof {
            assert(!spec_has_key(self.entries@, g));
            lemma_lookup_absent(self.entries@, g);
        }
        0
    }

    /// Index of the key's first entry, or the entry count when absent.
    fn find_key(&self, g: Gram) -> (r: usize)
        ensures
            r <= self.entries@.len(),
            r < self.entries@.len() ==> self.entries@[r as int].0 == g,
            forall|j: int| 0 <= j < r ==> self.entries@[j].0 != g,
            r == self.entries@.len() ==> !spec_has_key(self.entries@, g),
    {
        let n = self.entries.len();
        let mut i: usize = 0;
        while i < n
            invariant
                n == self.entries@.len(),
                0 <= i <= n,
                forall|j: int| 0 <= j < i ==> self.entries@[j].0 != g,
            decreases n - i,
        {
            let (key, _) = self.entries[i];
            if key == g {
                return i;
            }
            i = i + 1;
        }
        n
    }

    /// Whether the table holds the key.
    pub fn contains_key(&self, g: Gram) -> (b: bool)
        ensures
            b == spec_has_key(self.entries@, g),
    {
        let n = self.entries.len();
        let mut i: usize = 0;
        while i < n
            invariant
                n == self.entries@.len(),
                0 <= i <= n,
                forall|j: int| 0 <= j < i ==> self.entries@[j].0 != g,
            decreases n - i,
        {
            let (key, _) = self.entries[i];
            if key == g {
                return true;
            }
            i = i + 1;
        }
        false
    }

    /// Add `by` to the key's count, inserting the key when absent.
    pub fn bump(&mut self, g: Gram, by: usize)
        requires
            old(self).wf(g.len),
            gram_wf(g),
            spec_entry_total(old(self).entries@) + by <= usize::MAX,
        ensures
            final(self).wf(g.len),
            spec_entry_total(final(self).entries@) == spec_entry_total(old(self).entries@) + by,
            forall|h: Gram|
                spec_lookup(final(self).entries@, h) == spec_lookup(old(self).entries@, h) + (
                if h == g {
                    by as int
                } else {
                    0
                }),
            forall|h: Gram|
                spec_has_key(final(self).entries@, h) == (spec_has_key(old(self).entries@, h) || h
                    == g),
    {
        let ghost s0 = self.entries@;
        let n = self.entries.len();
        let found = self.find_key(g);
        if found < n {
            let (key, count) = self.entries[found];
            proof {
                lemma_lookup_at(s0, g, found as int);
                lemma_count_le_total(s0, found as int);
            }
            self.entries[found] = (g, count + by);
            proof {
                assert(self.entries@ =~= s0.update(found as int, (s0[found as int].0, (count
                    + by) as usize)));
                assert forall|h: Gram|
                    spec_lookup(self.entries@, h) == spec_lookup(s0, h) + (if h == g {
                        by as int
                    } else {
                        0
                    }) by {
                    lemma_lookup_update(s0, found as int, (count + by) as usize, h);
                    if h == g {
                        lemma_lookup_at(s0, g, found as int);
                    }
                };
                lemma_total_update(s0, found as int, (count + by) as usize);
                assert forall|h: Gram|
                    spec_has_key(self.entries@, h) == (spec_has_key(s0, h) || h == g) by {
                    if spec_has_key(s0, h) {
                        let k = choose|k: int| 0 <= k < s0.len() && s0[k].0 == h;
                        assert(self.entries@[k].0 == h);
                    }
                    if spec_has_key(self.entries@, h) {
                        let k = choose|k: int|
                            0 <= k < self.entries@.len() && self.entries@[k].0 == h;
                        assert(s0[k].0 == h || h == g);
                    }
                    assert(spec_has_key(s0, g));
                };
                assert forall|i2: int| 0 <= i2 < self.entries@.len() implies gram_wf(
                    #[trigger] self.entries@[i2].0,
                ) && self.entries@[i2].0.len == g.len by {
                    assert(gram_wf(s0[i2].0) && s0[i2].0.len == g.len);
                    assert(self.entries@[i2].0 == s0[i2].0);
                };
            }
            return ;
        }
        proof {
            assert(!spec_has_key(s0, g));
            lemma_lookup_absent(s0, g);
            lemma_lookup_le_total(s0, g);
        }
        self.entries.push((g, by));
        proof {
            assert(self.entries@ =~= s0.push((g, by)));
            assert forall|h: Gram|
                spec_lookup(self.entries@, h) == spec_lookup(s0, h) + (if h == g {
                    by as int
                } else {
                    0
                }) by {
                lemma_lookup_push(s0, g, by, h);
                if h == g {
                    lemma_lookup_absent(s0, g);
                }
            };
            lemma_total_push(s0, g, by);
            assert forall|h: Gram|
                spec_has_key(self.entries@, h) == (spec_has_key(s0, h) || h == g) by {
                if spec_has_key(s0, h) {
                    let k = choose|k: int| 0 <= k < s0.len() && s0[k].0 == h;
                    assert(self.entries@[k].0 == h);
                }
                if spec_has_key(self.entries@, h) {
                    let k = choose|k: int|
                        0 <= k < self.entries@.len() && self.entries@[k].0 == h;
                    if k < s0.len() {
                        assert(s0[k].0 == h);
                    }
                }
                assert(self.entries@[s0.len() as int].0 == g);
            };
            assert forall|i2: int| 0 <= i2 < self.entries@.len() implies gram_wf(
                #[trigger] self.entries@[i2].0,
            ) && self.entries@[i2].0.len == g.len by {
                if i2 < s0.len() {
                    assert(gram_wf(s0[i2].0) && s0[i2].0.len == g.len);
                }
            };
        }
    }

    /// Sum of all counts.
    pub fn total(&self) -> (t: usize)
        requires
            spec_entry_total(self.entries@) <= usize::MAX,
        ensures
            t == spec_entry_total(self.entries@),
    {
        let n = self.entries.len();
        let mut acc: usize = 0;
        let mut i: usize = 0;
        proof {
            lemma_total_prefix(self.entries@, 0);
            lemma_total_nonneg(self.entries@);
        }
        while i < n
            invariant
                n == self.entries@.len(),
                0 <= i <= n,
                spec_entry_total(self.entries@) <= usize::MAX,
                acc == spec_entry_total(self.entries@.take(i as int)),
                acc <= spec_entry_total(self.entries@),
            decreases n - i,
        {
            proof {
                lemma_total_take_succ(self.entries@, i as int);
                lemma_total_prefix_le(self.entries@, i + 1);
            }
            acc = acc + self.entries[i].1;
            i = i + 1;
        }
        proof {
            assert(self.entries@.take(n as int) =~= self.entries@);
        }
        acc
    }
}

/// With distinct keys, the entry at an index is what lookup returns.
pub proof fn lemma_lookup_index(s: Seq<(Gram, usize)>, k: int)
    requires
        spec_distinct_keys(s),
        0 <= k < s.len(),
    ensures
        spec_lookup(s, s[k].0) == s[k].1,
{
    lemma_lookup_at(s, s[k].0, k);
}

/// The total of an empty prefix is 0.
proof fn lemma_total_prefix(s: Seq<(Gram, usize)>, i: int)
    requires
        i == 0,
    ensures
        spec_entry_total(s.take(0)) == 0,
{
    assert(s.take(0) =~= Seq::<(Gram, usize)>::empty());
}

/// Extending a prefix by one entry adds that entry's count.
pub proof fn lemma_total_take_succ(s: Seq<(Gram, usize)>, i: int)
    requires
        0 <= i < s.len(),
    ensures
        spec_entry_total(s.take(i + 1)) == spec_entry_total(s.take(i)) + s[i].1,
    decreases i,
{
    if i == 0 {
        assert(s.take(1) =~= seq![s[0]]);
        assert(s.take(1).drop_first() =~= Seq::<(Gram, usize)>::empty());
        assert(s.take(0) =~= Seq::<(Gram, usize)>::empty());
    } else {
        assert(s.take(i + 1).drop_first() =~= s.drop_first().take(i));
        assert(s.take(i).drop_first() =~= s.drop_first().take(i - 1));
        assert(s.drop_first()[i - 1] == s[i]);
        lemma_total_take_succ(s.drop_first(), i - 1);
    }
}

/// A prefix total is bounded by the whole total.
pub proof fn lemma_total_prefix_le(s: Seq<(Gram, usize)>, i: int)
    requires
        0 <= i <= s.len(),
    ensures
        spec_entry_total(s.take(i)) <= spec_entry_total(s),
    decreases s.len() - i,
{
    if i == s.len() {
        assert(s.take(i) =~= s);
    } else {
        lemma_total_take_succ(s, i);
        lemma_total_prefix_le(s, i + 1);
    }
}

/// Number of occurrences of the n-gram `g` among the windows of `s`
/// that start before `upto`.
pub open spec fn spec_count_upto(s: Seq<char>, g: Seq<char>, upto: int) -> int
    decreases upto,
{
    if upto <= 0 {
        0
    } else {
        spec_count_upto(s, g, upto - 1) + if upto - 1 + g.len() <= s.len() && s.subrange(
            upto - 1,
            upto - 1 + g.len() as int,
        ) == g {
            1int
        } else {
            0int
        }
    }
}

/// Number of occurrences of the n-gram `g` in `s`.
pub open spec fn spec_gram_count(s: Seq<char>, g: Seq<char>) -> int {
    spec_count_upto(s, g, s.len() - g.len() + 1)
}

/// Occurrence counts are non-negative and bounded by the window count.
pub proof fn lemma_count_upto_bounds(s: Seq<char>, g: Seq<char>, upto: int)
    ensures
        0 <= spec_count_upto(s, g, upto),
        spec_count_upto(s, g, upto) <= if upto <= 0 {
            0
        } else {
            upto
        },
    decreases upto,
{
    if upto > 0 {
        lemma_count_upto_bounds(s, g, upto - 1);
    }
}

/// Descending order by count.
pub open spec fn spec_sorted_pairs_desc(s: Seq<(char, usize)>) -> bool {
    forall|a: int, b: int| 0 <= a < b < s.len() ==> s[a].1 >= s[b].1
}

/// Insert a pair into a count-sorted list, keeping it sorted.
fn insert_pair_desc(out: &mut Vec<(char, usize)>, x: (char, usize))
    requires
        spec_sorted_pairs_desc(old(out)@),
        old(out)@.len() < usize::MAX,
    ensures
        spec_sorted_pairs_desc(final(out)@),
        exists|k: int|
            0 <= k <= old(out)@.len() && final(out)@ == #[trigger] old(out)@.insert(k, x),
{
    let n = out.len();
    let mut k: usize = 0;
    while k < n && out[k].1 >= x.1
        invariant
            n == out@.len(),
            0 <= k <= n,
            forall|j: int| 0 <= j < k ==> out@[j].1 >= x.1,
            spec_sorted_pairs_desc(out@),
        decreases n - k,
    {
        k = k + 1;
    }
    let ghost s0 = out@;
    let ghost kk = k as int;
    out.insert(k, x);
    proof {
        s0.insert_ensures(kk, x);
        assert forall|a: int, b: int| 0 <= a < b < out@.len() implies out@[a].1 >= out@[b].1 by {
            if b < kk {
            } else if a < kk && b == kk {
            } else if a < kk && b > kk {
                assert(out@[b] == s0[b - 1]);
            } else if a == kk {
                assert(out@[b] == s0[b - 1]);
                assert(s0[b - 1].1 <= x.1);
            } else {
                assert(out@[a] == s0[a - 1] && out@[b] == s0[b - 1]);
            }
        };
    }
}

/// Corpus statistics: 1- to 4-gram occurrence counts and the
/// hiragana characters of the corpus ordered by descending
/// frequency.
#[derive(Clone, Debug)]
pub struct CorpusStats {
    /// Character occurrence counts.
    pub char_freq: NgramMap,
    /// 2-gram occurrence counts.
    pub bigram_freq: NgramMap,
    /// 3-gram occurrence counts.
    pub trigram_freq: NgramMap,
    /// 4-gram occurrence counts.
    pub fourgram_freq: NgramMap,
    /// Hiragana characters ordered by descending count.
    pub hiragana_by_freq: Vec<char>,
}

/// Bound on the total count of each frequency table, so that every
/// weighted sum the evaluator forms stays within machine integers.
pub open spec fn spec_corpus_total_max() -> int {
    0x1000_0000
}

impl CorpusStats {
    /// Well-formed statistics: distinct keys of the right length in
    /// every table, and bounded totals.
    pub open spec fn wf(&self) -> bool {
        &&& self.char_freq.wf(1)
        &&& self.bigram_freq.wf(2)
        &&& self.trigram_freq.wf(3)
        &&& self.fourgram_freq.wf(4)
        &&& spec_entry_total(self.char_freq.entries@) <= spec_corpus_total_max()
        &&& spec_entry_total(self.bigram_freq.entries@) <= spec_corpus_total_max()
        &&& spec_entry_total(self.trigram_freq.entries@) <= spec_corpus_total_max()
        &&& spec_entry_total(self.fourgram_freq.entries@) <= spec_corpus_total_max()
    }

    /// Empty statistics.
    pub fn new() -> (c: Self)
        ensures
            c.wf(),
            c.char_freq.entries@.len() == 0,
            c.bigram_freq.entries@.len() == 0,
            c.trigram_freq.entries@.len() == 0,
            c.fourgram_freq.entries@.len() == 0,
            c.hiragana_by_freq@.len() == 0,
    {
        CorpusStats {
            char_freq: NgramMap::new(),
            bigram_freq: NgramMap::new(),
            trigram_freq: NgramMap::new(),
            fourgram_freq: NgramMap::new(),
            hiragana_by_freq: Vec::new(),
        }
    }

    /// Record `count` further occurrences of an n-gram.  The caller
    /// keeps totals under the corpus bound.
    pub fn record(&mut self, g: Gram, count: usize)
        requires
            old(self).wf(),
            gram_wf(g),
            count + spec_entry_total(
                if g.len == 1 {
                    old(self).char_freq.entries@
                } else if g.len == 2 {
                    old(self).bigram_freq.entries@
                } else if g.len == 3 {
                    old(self).trigram_freq.entries@
                } else {
                    old(self).fourgram_freq.entries@
                },
            ) <= spec_corpus_total_max(),
        ensures
            final(self).wf(),
            final(self).hiragana_by_freq == old(self).hiragana_by_freq,
            g.len == 1 ==> final(self).freq_map_after_record_is(old(self).char_freq, g, count)
                && final(self).bigram_freq == old(self).bigram_freq && final(self).trigram_freq
                == old(self).trigram_freq && final(self).fourgram_freq == old(self).fourgram_freq,
            g.len == 2 ==> final(self).freq_map_after_record_is(old(self).bigram_freq, g, count)
                && final(self).char_freq == old(self).char_freq && final(self).trigram_freq == old(
                self,
            ).trigram_freq && final(self).fourgram_freq == old(self).fourgram_freq,
            g.len == 3 ==> final(self).freq_map_after_record_is(old(self).trigram_freq, g, count)
                && final(self).char_freq == old(self).char_freq && final(self).bigram_freq == old(
                self,
            ).bigram_freq && final(self).fourgram_freq == old(self).fourgram_freq,
            g.len == 4 ==> final(self).freq_map_after_record_is(old(self).fourgram_freq, g, count)
                && final(self).char_freq == old(self).char_freq && final(self).bigram_freq == old(
                self,
            ).bigram_freq && final(self).trigram_freq == old(self).trigram_freq,
    {
        if g.len == 1 {
            self.char_freq.bump(g, count);
        } else if g.len == 2 {
            self.bigram_freq.bump(g, count);
        } else if g.len == 3 {
            self.trigram_freq.bump(g, count);
        } else {
            self.fourgram_freq.bump(g, count);
        }
    }

    /// The stated table is the old one with `count` added on key `g`.
    pub open spec fn freq_map_after_record_is(&self, m0: NgramMap, g: Gram, count: usize) -> bool {
        let m1 = if g.len == 1 {
            self.char_freq
        } else if g.len == 2 {
            self.bigram_freq
        } else if g.len == 3 {
            self.trigram_freq
        } else {
            self.fourgram_freq
        };
        &&& spec_entry_total(m1.entries@) == spec_entry_total(m0.entries@) + count
        &&& forall|h: Gram|
            spec_lookup(m1.entries@, h) == spec_lookup(m0.entries@, h) + (if h == g {
                count as int
            } else {
                0
            })
        &&& forall|h: Gram|
            spec_has_key(m1.entries@, h) == (spec_has_key(m0.entries@, h) || h == g)
    }

    /// The table that holds n-grams of the given length.
    pub open spec fn ngram_map(&self, n: u8) -> NgramMap {
        if n == 1 {
            self.char_freq
        } else if n == 2 {
            self.bigram_freq
        } else if n == 3 {
            self.trigram_freq
        } else {
            self.fourgram_freq
        }
    }

    /// Whether a character passes the hiragana-frequency-list filter.
    pub open spec fn spec_hira_pass(c: char) -> bool {
        spec_is_hiragana(c) && c != '、' && c != '。'
    }

    /// Statistics of a text: n-gram counts of every window of length
    /// 1 to 4, and the hiragana list sorted by descending count.
    pub fn from_text(text: &str) -> (c: Self)
        requires
            text@.len() <= spec_corpus_total_max(),
        ensures
            c.wf(),
            forall|g: Gram|
                gram_wf(g) && 1 <= g.len <= 4 ==> spec_lookup(c.ngram_map(g.len).entries@, g)
                    == spec_gram_count(text@, gram_seq(g)),
            forall|g: Gram|
                gram_wf(g) && 1 <= g.len <= 4 ==> (spec_has_key(c.ngram_map(g.len).entries@, g)
                    <==> spec_gram_count(text@, gram_seq(g)) > 0),
            spec_entry_total(c.char_freq.entries@) == text@.len(),
            spec_entry_total(c.bigram_freq.entries@) == if text@.len() >= 2 {
                text@.len() - 1
            } else {
                0int
            },
            spec_entry_total(c.trigram_freq.entries@) == if text@.len() >= 3 {
                text@.len() - 2
            } else {
                0int
            },
            spec_entry_total(c.fourgram_freq.entries@) == if text@.len() >= 4 {
                text@.len() - 3
            } else {
                0int
            },
            c.hira_list_wf(),
    {
        let cs = str_chars(text);
        let n0 = cs.len();
        let mut m1 = NgramMap::new();
        let mut i: usize = 0;
        while i < n0
            invariant
                cs@ == text@,
                n0 == cs@.len(),
                n0 <= spec_corpus_total_max(),
                0 <= i <= n0,
                m1.wf(1),
                spec_entry_total(m1.entries@) == i,
                forall|g: Gram|
                    gram_wf(g) && g.len == 1 ==> spec_lookup(m1.entries@, g) == spec_count_upto(
                        text@,
                        gram_seq(g),
                        i as int,
                    ),
                forall|g: Gram|
                    gram_wf(g) && g.len == 1 ==> (spec_has_key(m1.entries@, g) <==> spec_count_upto(
                        text@,
                        gram_seq(g),
                        i as int,
                    ) > 0),
            decreases n0 - i,
        {
            let g = Gram::g1(cs[i]);
            m1.bump(g, 1);
            proof {
                assert(gram_seq(g) =~= text@.subrange(i as int, i as int + 1));
                assert forall|g2: Gram| gram_wf(g2) && g2.len == 1 implies spec_lookup(
                    m1.entries@,
                    g2,
                ) == spec_count_upto(text@, gram_seq(g2), i as int + 1) && (spec_has_key(
                    m1.entries@,
                    g2,
                ) <==> spec_count_upto(text@, gram_seq(g2), i as int + 1) > 0) by {
                    lemma_count_upto_bounds(text@, gram_seq(g2), i as int);
                    if g2 != g && text@.subrange(i as int, i as int + 1) == gram_seq(g2) {
                        lemma_gram_seq_injective(g2, g);
                    }
                };
            }
            i = i + 1;
        }
        let mut m2 = NgramMap::new();
        if n0 >= 2 {
            let bound = n0 - 1;
            let mut i2: usize = 0;
            while i2 < bound
                invariant
                    cs@ == text@,
                    n0 == cs@.len(),
                    n0 <= spec_corpus_total_max(),
                    bound == n0 - 1,
                    n0 >= 2,
                    0 <= i2 <= bound,
                    m2.wf(2),
                    spec_entry_total(m2.entries@) == i2,
                    forall|g: Gram|
                        gram_wf(g) && g.len == 2 ==> spec_lookup(m2.entries@, g)
                            == spec_count_upto(text@, gram_seq(g), i2 as int),
                    forall|g: Gram|
                        gram_wf(g) && g.len == 2 ==> (spec_has_key(m2.entries@, g)
                            <==> spec_count_upto(text@, gram_seq(g), i2 as int) > 0),
                decreases bound - i2,
            {
                let g = Gram::g2(cs[i2], cs[i2 + 1]);
                m2.bump(g, 1);
                proof {
                    assert(gram_seq(g) =~= text@.subrange(i2 as int, i2 as int + 2));
                    assert forall|g2: Gram| gram_wf(g2) && g2.len == 2 implies spec_lookup(
                        m2.entries@,
                        g2,
                    ) == spec_count_upto(text@, gram_seq(g2), i2 as int + 1) && (spec_has_key(
                        m2.entries@,
                        g2,
                    ) <==> spec_count_upto(text@, gram_seq(g2), i2 as int + 1) > 0) by {
                        lemma_count_upto_bounds(text@, gram_seq(g2), i2 as int);
                        if g2 != g && i2 as int + 2 <= text@.len() && text@.subrange(
                            i2 as int,
                            i2 as int + 2,
                        ) == gram_seq(g2) {
                            lemma_gram_seq_injective(g2, g);
                        }
                    };
                }
                i2 = i2 + 1;
            }
        }
        let mut m3 = NgramMap::new();
        if n0 >= 3 {
            let bound = n0 - 2;
            let mut i3: usize = 0;
            while i3 < bound
                invariant
                    cs@ == text@,
                    n0 == cs@.len(),
                    n0 <= spec_corpus_total_max(),
                    bound == n0 - 2,
                    n0 >= 3,
                    0 <= i3 <= bound,
                    m3.wf(3),
                    spec_entry_total(m3.entries@) == i3,
                    forall|g: Gram|
                        gram_wf(g) && g.len == 3 ==> spec_lookup(m3.entries@, g)
                            == spec_count_upto(text@, gram_seq(g), i3 as int),
                    forall|g: Gram|
                        gram_wf(g) && g.len == 3 ==> (spec_has_key(m3.entries@, g)
                            <==> spec_count_upto(text@, gram_seq(g), i3 as int) > 0),
                decreases bound - i3,
            {
                let g = Gram::g3(cs[i3], cs[i3 + 1], cs[i3 + 2]);
                m3.bump(g, 1);
                proof {
                    assert(gram_seq(g) =~= text@.subrange(i3 as int, i3 as int + 3));
                    assert forall|g2: Gram| gram_wf(g2) && g2.len == 3 implies spec_lookup(
                        m3.entries@,
                        g2,
                    ) == spec_count_upto(text@, gram_seq(g2), i3 as int + 1) && (spec_has_key(
                        m3.entries@,
                        g2,
                    ) <==> spec_count_upto(text@, gram_seq(g2), i3 as int + 1) > 0) by {
                        lemma_count_upto_bounds(text@, gram_seq(g2), i3 as int);
                        if g2 != g && i3 as int + 3 <= text@.len() && text@.subrange(
                            i3 as int,
                            i3 as int + 3,
                        ) == gram_seq(g2) {
                            lemma_gram_seq_injective(g2, g);
                        }
                    };
                }
                i3 = i3 + 1;
            }
        }
        let mut m4 = NgramMap::new();
        if n0 >= 4 {
            let bound = n0 - 3;
            let mut i4: usize = 0;
            while i4 < bound
                invariant
                    cs@ == text@,
                    n0 == cs@.len(),
                    n0 <= spec_corpus_total_max(),
                    bound == n0 - 3,
                    n0 >= 4,
                    0 <= i4 <= bound,
                    m4.wf(4),
                    spec_entry_total(m4.entries@) == i4,
                    forall|g: Gram|
                        gram_wf(g) && g.len == 4 ==> spec_lookup(m4.entries@, g)
                            == spec_count_upto(text@, gram_seq(g), i4 as int),
                    forall|g: Gram|
                        gram_wf(g) && g.len == 4 ==> (spec_has_key(m4.entries@, g)
                            <==> spec_count_upto(text@, gram_seq(g), i4 as int) > 0),
                decreases bound - i4,
            {
                let g = Gram::g4(cs[i4], cs[i4 + 1], cs[i4 + 2], cs[i4 + 3]);
                m4.bump(g, 1);
                proof {
                    assert(gram_seq(g) =~= text@.subrange(i4 as int, i4 as int + 4));
                    assert forall|g2: Gram| gram_wf(g2) && g2.len == 4 implies spec_lookup(
                        m4.entries@,
                        g2,
                    ) == spec_count_upto(text@, gram_seq(g2), i4 as int + 1) && (spec_has_key(
                        m4.entries@,
                        g2,
                    ) <==> spec_count_upto(text@, gram_seq(g2), i4 as int + 1) > 0) by {
                        lemma_count_upto_bounds(text@, gram_seq(g2), i4 as int);
                        if g2 != g && i4 as int + 4 <= text@.len() && text@.subrange(
                            i4 as int,
                            i4 as int + 4,
                        ) == gram_seq(g2) {
                            lemma_gram_seq_injective(g2, g);
                        }
                    };
                }
                i4 = i4 + 1;
            }
        }
        let hira = Self::hiragana_sorted(&m1);
        CorpusStats {
            char_freq: m1,
            bigram_freq: m2,
            trigram_freq: m3,
            fourgram_freq: m4,
            hiragana_by_freq: hira,
        }
    }

    /// The hiragana list agrees with the character counts: distinct
    /// hiragana characters of the corpus, sorted by descending count.
    pub open spec fn hira_list_wf(&self) -> bool {
        let l = self.hiragana_by_freq@;
        let s = self.char_freq.entries@;
        &&& forall|a: int, b: int| 0 <= a < b < l.len() ==> l[a] != l[b]
        &&& forall|a: int|
            0 <= a < l.len() ==> Self::spec_hira_pass(#[trigger] l[a]) && spec_has_key(
                s,
                spec_g1(l[a]),
            )
        &&& forall|a: int, b: int|
            0 <= a < b < l.len() ==> spec_lookup(s, spec_g1(l[a])) >= spec_lookup(s, spec_g1(l[b]))
        &&& forall|ch: char|
            Self::spec_hira_pass(ch) && spec_has_key(s, spec_g1(ch)) ==> l.contains(ch)
    }

    /// The hiragana characters of a character table, sorted by
    /// descending count.
    fn hiragana_sorted(m1: &NgramMap) -> (hira: Vec<char>)
        requires
            m1.wf(1),
        ensures
            ({
                let l = hira@;
                let s = m1.entries@;
                &&& (forall|a: int, b: int| 0 <= a < b < l.len() ==> l[a] != l[b])
                &&& (forall|a: int|
                    0 <= a < l.len() ==> Self::spec_hira_pass(#[trigger] l[a]) && spec_has_key(
                        s,
                        spec_g1(l[a]),
                    ))
                &&& (forall|a: int, b: int|
                    0 <= a < b < l.len() ==> spec_lookup(s, spec_g1(l[a])) >= spec_lookup(
                        s,
                        spec_g1(l[b]),
                    ))
                &&& (forall|ch: char|
                    Self::spec_hira_pass(ch) && spec_has_key(s, spec_g1(ch)) ==> l.contains(ch))
            }),
    {
        let ghost s1 = m1.entries@;
        let n = m1.entries.len();
        let mut pairs: Vec<(char, usize)> = Vec::new();
        let mut k: usize = 0;
        while k < n
            invariant
                n == s1.len(),
                m1.entries@ == s1,
                m1.wf(1),
                0 <= k <= n,
                spec_sorted_pairs_desc(pairs@),
                forall|y: (char, usize)|
                    #[trigger] pairs@.contains(y) <==> exists|j: int|
                        0 <= j < k && #[trigger] s1[j].0.c0 == y.0 && s1[j].1 == y.1
                            && Self::spec_hira_pass(s1[j].0.c0),
                forall|a: int, b: int| 0 <= a < b < pairs@.len() ==> pairs@[a].0 != pairs@[b].0,
                pairs@.len() <= k,
            decreases n - k,
        {
            let (g, cnt) = m1.entries[k];
            if is_hiragana(g.c0) && g.c0 != '、' && g.c0 != '。' {
                let ghost p0 = pairs@;
                let x = (g.c0, cnt);
                insert_pair_desc(&mut pairs, x);
                proof {
                    let ins = choose|ins: int|
                        0 <= ins <= p0.len() && pairs@ == #[trigger] p0.insert(ins, x);
                    p0.insert_ensures(ins, x);
                    assert forall|y: (char, usize)| #[trigger] pairs@.contains(y) implies (exists|
                        j: int,
                    |
                        0 <= j < k + 1 && #[trigger] s1[j].0.c0 == y.0 && s1[j].1 == y.1
                            && Self::spec_hira_pass(s1[j].0.c0)) by {
                        let t = choose|t: int| 0 <= t < pairs@.len() && pairs@[t] == y;
                        if t == ins {
                            assert(s1[k as int].0.c0 == y.0 && s1[k as int].1 == y.1);
                        } else if t < ins {
                            assert(p0[t] == y);
                            assert(p0.contains(y));
                        } else {
                            assert(p0[t - 1] == y);
                            assert(p0.contains(y));
                        }
                    };
                    assert forall|y: (char, usize)|
                        (exists|j: int|
                            0 <= j < k + 1 && #[trigger] s1[j].0.c0 == y.0 && s1[j].1 == y.1
                                && Self::spec_hira_pass(s1[j].0.c0)) implies #[trigger] pairs@
                        .contains(y) by {
                        let j = choose|j: int|
                            0 <= j < k + 1 && #[trigger] s1[j].0.c0 == y.0 && s1[j].1 == y.1
                                && Self::spec_hira_pass(s1[j].0.c0);
                        if j == k {
                            assert(pairs@[ins] == x);
                            assert(y == x);
                        } else {
                            assert(p0.contains(y));
                            let t = choose|t: int| 0 <= t < p0.len() && p0[t] == y;
                            if t < ins {
                                assert(pairs@[t] == y);
                            } else {
                                assert(pairs@[t + 1] == y);
                            }
                        }
                    };
                    assert forall|a: int, b: int| 0 <= a < b < pairs@.len() implies pairs@[a].0
                        != pairs@[b].0 by {
                        if pairs@[a].0 == pairs@[b].0 {
                            let ya = pairs@[a];
                            let yb = pairs@[b];
                            assert(pairs@.contains(ya));
                            assert(pairs@.contains(yb));
                            let ja = choose|j: int|
                                0 <= j < k + 1 && #[trigger] s1[j].0.c0 == ya.0 && s1[j].1 == ya.1
                                    && Self::spec_hira_pass(s1[j].0.c0);
                            let jb = choose|j: int|
                                0 <= j < k + 1 && #[trigger] s1[j].0.c0 == yb.0 && s1[j].1 == yb.1
                                    && Self::spec_hira_pass(s1[j].0.c0);
                            assert(s1[ja].0 == spec_g1(ya.0));
                            assert(s1[jb].0 == spec_g1(yb.0));
                            assert(ja == jb);
                            assert(ya == yb);
                            if a < ins && b < ins {
                                assert(p0[a] == ya && p0[b] == yb);
                            } else if a > ins && b > ins {
                                assert(p0[a - 1] == ya && p0[b - 1] == yb);
                            } else if a < ins && b > ins {
                                assert(p0[a] == ya && p0[b - 1] == yb);
                            } else {
                                assert(ya == x && yb == x);
                                if a == ins {
                                    assert(p0[b - 1] == yb);
                                    assert(p0.contains(yb));
                                } else {
                                    assert(p0[a] == ya);
                                    assert(p0.contains(ya));
                                }
                                let j2 = choose|j: int|
                                    0 <= j < k && #[trigger] s1[j].0.c0 == x.0 && s1[j].1 == x.1
                                        && Self::spec_hira_pass(s1[j].0.c0);
                                assert(s1[j2].0 == spec_g1(x.0));
                                assert(s1[k as int].0 == spec_g1(x.0));
                                assert(false);
                            }
                            assert(false);
                        }
                    };
                }
            } else {
                proof {
                    assert forall|y: (char, usize)| #[trigger]
                        pairs@.contains(y) implies (exists|j: int|
                        0 <= j < k + 1 && #[trigger] s1[j].0.c0 == y.0 && s1[j].1 == y.1
                            && Self::spec_hira_pass(s1[j].0.c0)) by {};
                    assert forall|y: (char, usize)|
                        (exists|j: int|
                            0 <= j < k + 1 && #[trigger] s1[j].0.c0 == y.0 && s1[j].1 == y.1
                                && Self::spec_hira_pass(s1[j].0.c0)) implies #[trigger] pairs@
                        .contains(y) by {
                        let j = choose|j: int|
                            0 <= j < k + 1 && #[trigger] s1[j].0.c0 == y.0 && s1[j].1 == y.1
                                && Self::spec_hira_pass(s1[j].0.c0);
                        assert(j < k);
                    };
                }
            }
            k = k + 1;
        }
        let mut hira: Vec<char> = Vec::new();
        let np = pairs.len();
        let mut t: usize = 0;
        while t < np
            invariant
                np == pairs@.len(),
                0 <= t <= np,
                hira@.len() == t,
                forall|a: int| 0 <= a < t ==> hira@[a] == pairs@[a].0,
            decreases np - t,
        {
            hira.push(pairs[t].0);
            t = t + 1;
        }
        proof {
            assert forall|a: int|
                0 <= a < hira@.len() implies Self::spec_hira_pass(#[trigger] hira@[a])
                && spec_has_key(s1, spec_g1(hira@[a])) by {
                let y = pairs@[a];
                assert(pairs@.contains(y));
                let j = choose|j: int|
                    0 <= j < n && #[trigger] s1[j].0.c0 == y.0 && s1[j].1 == y.1
                        && Self::spec_hira_pass(s1[j].0.c0);
                assert(s1[j].0 == spec_g1(y.0));
            };
            assert forall|a: int, b: int| 0 <= a < b < hira@.len() implies spec_lookup(
                s1,
                spec_g1(hira@[a]),
            ) >= spec_lookup(s1, spec_g1(hira@[b])) by {
                let ya = pairs@[a];
                let yb = pairs@[b];
                assert(pairs@.contains(ya) && pairs@.contains(yb));
                let ja = choose|j: int|
                    0 <= j < n && #[trigger] s1[j].0.c0 == ya.0 && s1[j].1 == ya.1
                        && Self::spec_hira_pass(s1[j].0.c0);
                let jb = choose|j: int|
                    0 <= j < n && #[trigger] s1[j].0.c0 == yb.0 && s1[j].1 == yb.1
                        && Self::spec_hira_pass(s1[j].0.c0);
                assert(s1[ja].0 == spec_g1(ya.0));
                assert(s1[jb].0 == spec_g1(yb.0));
                lemma_lookup_index(s1, ja);
                lemma_lookup_index(s1, jb);
            };
            assert forall|ch: char|
                Self::spec_hira_pass(ch) && spec_has_key(s1, spec_g1(ch)) implies hira@.contains(
                ch,
            ) by {
                let j = choose|j: int| 0 <= j < s1.len() && s1[j].0 == spec_g1(ch);
                let y = (ch, s1[j].1);
                assert(s1[j].0.c0 == ch);
                assert(pairs@.contains(y));
                let t2 = choose|t2: int| 0 <= t2 < pairs@.len() && pairs@[t2] == y;
                assert(hira@[t2] == ch);
            };
        }
        hira
    }

    /// Record the two auxiliary symbols (the full-width semicolon and
    /// the middle dot) with count 1 when the corpus lacks them, so
    /// that the evaluator sees a frequency for every fixed symbol.
    pub fn add_symbol_chars(&mut self)
        requires
            old(self).wf(),
            spec_entry_total(old(self).char_freq.entries@) + 2 <= spec_corpus_total_max(),
        ensures
            final(self).wf(),
            final(self).bigram_freq == old(self).bigram_freq,
            final(self).trigram_freq == old(self).trigram_freq,
            final(self).fourgram_freq == old(self).fourgram_freq,
            final(self).hiragana_by_freq == old(self).hiragana_by_freq,
            forall|g: Gram|
                spec_lookup(final(self).char_freq.entries@, g) == (if (g == spec_g1('；') || g
                    == spec_g1('・')) && !spec_has_key(old(self).char_freq.entries@, g) {
                    1int
                } else {
                    spec_lookup(old(self).char_freq.entries@, g) as int
                }),
            forall|g: Gram|
                spec_has_key(final(self).char_freq.entries@, g) == (spec_has_key(
                    old(self).char_freq.entries@,
                    g,
                ) || ((g == spec_g1('；') || g == spec_g1('・')) && !spec_has_key(
                    old(self).char_freq.entries@,
                    g,
                ))),
    {
        let ghost s0 = self.char_freq.entries@;
        let g_semi = Gram::g1('；');
        if !self.char_freq.contains_key(g_semi) {
            proof {
                lemma_lookup_absent(s0, g_semi);
            }
            self.char_freq.bump(g_semi, 1);
        }
        let ghost smid = self.char_freq.entries@;
        let g_dot = Gram::g1('・');
        if !self.char_freq.contains_key(g_dot) {
            proof {
                lemma_lookup_absent(smid, g_dot);
            }
            self.char_freq.bump(g_dot, 1);
        }
        proof {
            assert forall|g: Gram|
                spec_lookup(self.char_freq.entries@, g) == (if (g == spec_g1('；') || g
                    == spec_g1('・')) && !spec_has_key(s0, g) {
                    1int
                } else {
                    spec_lookup(s0, g) as int
                }) by {
                assert(spec_lookup(smid, g) == if g == spec_g1('；') && !spec_has_key(s0, g) {
                    1int
                } else {
                    spec_lookup(s0, g) as int
                });
            };
        }
    }

    /// Rebuild the hiragana frequency list from the character
    /// counts: distinct hiragana of the corpus, sorted by
    /// descending count.
    pub fn rebuild_hiragana_list(&mut self)
        requires
            old(self).wf(),
        ensures
            final(self).wf(),
            final(self).char_freq == old(self).char_freq,
            final(self).bigram_freq == old(self).bigram_freq,
            final(self).trigram_freq == old(self).trigram_freq,
            final(self).fourgram_freq == old(self).fourgram_freq,
            final(self).hira_list_wf(),
    {
        self.hiragana_by_freq = Self::hiragana_sorted(&self.char_freq);
    }

    /// Total character occurrences.
    pub fn total_chars(&self) -> (t: usize)
        requires
            self.wf(),
        ensures
            t == spec_entry_total(self.char_freq.entries@),
    {
        self.char_freq.total()
    }

    /// Total 2-gram occurrences.
    pub fn total_bigrams(&self) -> (t: usize)
        requires
            self.wf(),
        ensures
            t == spec_entry_total(self.bigram_freq.entries@),
    {
        self.bigram_freq.total()
    }

    /// Total 3-gram occurrences.
    pub fn total_trigrams(&self) -> (t: usize)
        requires
            self.wf(),
        ensures
            t == spec_entry_total(self.trigram_freq.entries@),
    {
        self.trigram_freq.total()
    }

    /// The hiragana characters of the corpus, by descending frequency.
    pub fn get_hiragana_by_freq(&self) -> (r: &Vec<char>)
        ensures
            r@ == self.hiragana_by_freq@,
    {
        &self.hiragana_by_freq
    }

    /// Parse one n-gram file line of the form `count TAB chars TAB n`.
    pub fn parse_ngram_line(line: &str) -> (r: Option<(usize, String)>)
        ensures
            r is Some <==> spec_parse_ngram_line(line@) is Some,
            r is Some ==> (r->0).0 == (spec_parse_ngram_line(line@)->0).0 && ((r->0).1)@ == (
            spec_parse_ngram_line(line@)->0).1,
    {
        let cs = str_chars(line);
        let n = cs.len();
        let mut t1: usize = 0;
        while t1 < n && cs[t1] != '\t'
            invariant
                n == cs@.len(),
                0 <= t1 <= n,
                forall|j: int| 0 <= j < t1 ==> cs@[j] != '\t',
            decreases n - t1,
        {
            t1 = t1 + 1;
        }
        proof {
            lemma_find_tab_at(cs@, 0, t1 as int);
        }
        if t1 == n {
            return None;
        }
        let mut t2: usize = t1 + 1;
        while t2 < n && cs[t2] != '\t'
            invariant
                n == cs@.len(),
                t1 + 1 <= t2 <= n,
                forall|j: int| t1 + 1 <= j < t2 ==> cs@[j] != '\t',
            decreases n - t2,
        {
            t2 = t2 + 1;
        }
        proof {
            lemma_find_tab_at(cs@, t1 as int + 1, t2 as int);
        }
        let ghost field0 = line@.subrange(0, t1 as int);
        if t1 == 0 {
            return None;
        }
        let start: usize = if cs[0] == '+' {
            1
        } else {
            0
        };
        let ghost body = if field0.len() > 0 && field0[0] == '+' {
            field0.subrange(1, field0.len() as int)
        } else {
            field0
        };
        proof {
            assert(body.len() == t1 - start);
            assert(forall|j: int|
                0 <= j < body.len() ==> body[j] == line@[j + start as int]);
        }
        if t1 == start {
            return None;
        }
        let mut acc: usize = 0;
        let mut idx: usize = start;
        while idx < t1
            invariant
                n == cs@.len(),
                cs@ == line@,
                field0 == line@.subrange(0, t1 as int),
                spec_find_tab(line@, 0) == t1,
                spec_find_tab(line@, t1 as int + 1) == t2,
                t1 + 1 <= t2 <= n,
                field0.len() == t1,
                start <= 1,
                body.len() == t1 - start,
                forall|j: int| 0 <= j < body.len() ==> body[j] == line@[j + start as int],
                body == (if field0.len() > 0 && field0[0] == '+' {
                    field0.subrange(1, field0.len() as int)
                } else {
                    field0
                }),
                start < t1 < n,
                start <= idx <= t1,
                forall|j: int|
                    0 <= j < idx - start ==> 48 <= #[trigger] body[j] as u32 && body[j] as u32
                        <= 57,
                acc == spec_digits_num(body, idx - start as int),
            decreases t1 - idx,
        {
            let c = cs[idx];
            let u = c as u32;
            proof {
                assert(body[idx - start as int] == cs@[idx as int]);
            }
            if u < 48 || u > 57 {
                proof {
                    assert(!spec_all_digits(body));
                }
                return None;
            }
            let d: usize = (u - 48) as usize;
            if acc > (usize::MAX - d) / 10 {
                proof {
                    assert(acc * 10 + d > usize::MAX) by (nonlinear_arith)
                        requires
                            acc > (usize::MAX - d) / 10,
                            d <= usize::MAX,
                            acc >= 0,
                            d >= 0,
                    ;
                    assert(spec_digits_num(body, idx - start as int + 1) == acc * 10 + d);
                    if spec_all_digits(body) {
                        lemma_digits_num_monotone(body, idx - start as int + 1, body.len() as int);
                    }
                }
                return None;
            }
            proof {
                assert(acc * 10 + d <= usize::MAX) by (nonlinear_arith)
                    requires
                        acc <= (usize::MAX - d) / 10,
                        d <= usize::MAX,
                        acc >= 0,
                        d >= 0,
                ;
            }
            acc = acc * 10 + d;
            idx = idx + 1;
        }
        let mut field1 = String::new();
        let mut p: usize = t1 + 1;
        while p < t2
            invariant
                n == cs@.len(),
                cs@ == line@,
                t1 + 1 <= p <= t2 <= n,
                field1@ == line@.subrange(t1 as int + 1, p as int),
            decreases t2 - p,
        {
            let ghost before = field1@;
            string_push(&mut field1, cs[p]);
            proof {
                assert(field1@ =~= line@.subrange(t1 as int + 1, p as int + 1));
            }
            p = p + 1;
        }
        proof {
            assert(field1@ =~= line@.subrange(t1 as int + 1, t2 as int));
            assert(spec_all_digits(body));
            assert(spec_digits_num(body, body.len() as int) == acc);
        }
        Some((acc, field1))
    }

    /// A one-line description of the table sizes.
    pub fn summary(&self) -> (s: String)
        requires
            self.wf(),
        ensures
            s@ == "Corpus Stats:\n  1-gram types: "@ + spec_usize_string(
                self.char_freq.entries@.len() as int,
            ) + "\n  2-gram types: "@ + spec_usize_string(self.bigram_freq.entries@.len() as int)
                + "\n  3-gram types: "@ + spec_usize_string(self.trigram_freq.entries@.len() as int)
                + "\n  4-gram types: "@ + spec_usize_string(
                self.fourgram_freq.entries@.len() as int,
            ) + "\n  Total chars: "@ + spec_usize_string(
                spec_entry_total(self.char_freq.entries@),
            ) + "\n  Hiragana chars: "@ + spec_usize_string(self.hiragana_by_freq@.len() as int),
    {
        let mut out = String::new();
        out.append("Corpus Stats:\n  1-gram types: ");
        let p1 = usize_string(self.char_freq.len());
        out.append(p1.as_str());
        out.append("\n  2-gram types: ");
        let p2 = usize_string(self.bigram_freq.len());
        out.append(p2.as_str());
        out.append("\n  3-gram types: ");
        let p3 = usize_string(self.trigram_freq.len());
        out.append(p3.as_str());
        out.append("\n  4-gram types: ");
        let p4 = usize_string(self.fourgram_freq.len());
        out.append(p4.as_str());
        out.append("\n  Total chars: ");
        let p5 = usize_string(self.total_chars());
        out.append(p5.as_str());
        out.append("\n  Hiragana chars: ");
        let p6 = usize_string(self.hiragana_by_freq.len());
        out.append(p6.as_str());
        out
    }
}

/// Index of the first tab at or after `from`, or the length.
pub open spec fn spec_find_tab(s: Seq<char>, from: int) -> int
    decreases s.len() - from,
{
    if from < 0 || from >= s.len() {
        s.len() as int
    } else if s[from] == '\t' {
        from
    } else {
        spec_find_tab(s, from + 1)
    }
}

/// The first tab at or after `from` is at `i`.
proof fn lemma_find_tab_at(s: Seq<char>, from: int, i: int)
    requires
        0 <= from <= i <= s.len(),
        forall|j: int| from <= j < i ==> s[j] != '\t',
        i < s.len() ==> s[i] == '\t',
    ensures
        spec_find_tab(s, from) == i,
    decreases i - from,
{
    if from < i {
        lemma_find_tab_at(s, from + 1, i);
    }
}

/// All characters are decimal digits.
pub open spec fn spec_all_digits(s: Seq<char>) -> bool {
    forall|j: int| 0 <= j < s.len() ==> 48 <= #[trigger] s[j] as u32 && s[j] as u32 <= 57
}

/// Value of the first `upto` digit characters read as a decimal number.
pub open spec fn spec_digits_num(s: Seq<char>, upto: int) -> int
    decreases upto,
{
    if upto <= 0 {
        0
    } else {
        spec_digits_num(s, upto - 1) * 10 + (s[upto - 1] as u32 - 48)
    }
}

/// Reading more digits never shrinks the value.
proof fn lemma_digits_num_monotone(s: Seq<char>, i: int, j: int)
    requires
        0 <= i <= j,
        spec_digits_num(s, i) >= 0,
        forall|t: int| i <= t < j ==> 48 <= #[trigger] s[t] as u32 && s[t] as u32 <= 57,
    ensures
        spec_digits_num(s, j) >= spec_digits_num(s, i),
    decreases j - i,
{
    if j > i {
        lemma_digits_num_monotone(s, i, j - 1);
        assert(spec_digits_num(s, j - 1) * 10 >= spec_digits_num(s, j - 1)) by (nonlinear_arith)
            requires
                spec_digits_num(s, j - 1) >= 0,
        ;
    }
}

/// What a line of an n-gram file parses to: the leading decimal
/// count before the first tab (an optional leading plus sign
/// allowed, as machine-integer parsing allows it), and the
/// characters between the first and second tab; nothing when a tab
/// is missing, the count is not a decimal number, or it does not
/// fit the machine.
pub open spec fn spec_parse_ngram_line(s: Seq<char>) -> Option<(usize, Seq<char>)> {
    let t1 = spec_find_tab(s, 0);
    if t1 == s.len() {
        None
    } else {
        let field0 = s.subrange(0, t1);
        let body = if field0.len() > 0 && field0[0] == '+' {
            field0.subrange(1, field0.len() as int)
        } else {
            field0
        };
        let t2 = spec_find_tab(s, t1 + 1);
        let field1 = s.subrange(t1 + 1, t2);
        if body.len() == 0 || !spec_all_digits(body) {
            None
        } else if spec_digits_num(body, body.len() as int) > usize::MAX {
            None
        } else {
            Some((spec_digits_num(body, body.len() as int) as usize, field1))
        }
    }
}

/// The decimal digit character of a value below ten.
pub open spec fn spec_digit_char(d: int) -> char {
    if d == 0 { '0' }
    else if d == 1 { '1' }
    else if d == 2 { '2' }
    else if d == 3 { '3' }
    else if d == 4 { '4' }
    else if d == 5 { '5' }
    else if d == 6 { '6' }
    else if d == 7 { '7' }
    else if d == 8 { '8' }
    else { '9' }
}

/// Decimal digit sequence of a non-negative number.
pub open spec fn spec_usize_string(n: int) -> Seq<char>
    decreases n,
{
    if n < 10 {
        seq![spec_digit_char(n)]
    } else {
        spec_usize_string(n / 10).push(spec_digit_char(n % 10))
    }
}

/// The decimal digit character of a value below ten.
fn digit_char(d: usize) -> (c: char)
    requires
        d < 10,
    ensures
        c == spec_digit_char(d as int),
{
    match d {
        0 => '0',
        1 => '1',
        2 => '2',
        3 => '3',
        4 => '4',
        5 => '5',
        6 => '6',
        7 => '7',
        8 => '8',
        _ => '9',
    }
}

/// Decimal representation of a number.
pub fn usize_string(n: usize) -> (s: String)
    ensures
        s@ == spec_usize_string(n as int),
    decreases n,
{
    if n < 10 {
        let mut s = String::new();
        string_push(&mut s, digit_char(n));
        proof {
            assert(s@ =~= seq![spec_digit_char(n as int)]);
        }
        s
    } else {
        let mut s = usize_string(n / 10);
        string_push(&mut s, digit_char(n % 10));
        s
    }
}

} // verus!
