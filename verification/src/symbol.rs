//! The symbol placed on a key: a single kana, a two-character kana
//! digraph (a base kana followed by a small ya/yu/yo), one of the
//! fixed punctuation or shift-trigger marks, or the blank token.

use vstd::prelude::*;

verus! {

use crate::geometry::{spec_col_of, spec_layer_of, spec_row_of};

/// A key's symbol: one or two characters.  `tail` is the null
/// character when the symbol is a single character; the blank token
/// is the ideographic space with a null tail.
#[derive(Clone, Copy, Debug, PartialEq, Eq, Structural, Hash)]
pub struct Symbol {
    /// First (or only) character.
    pub head: char,
    /// Second character of a digraph, or the null character.
    pub tail: char,
}

/// The blank token.
pub open spec fn spec_blank() -> Symbol {
    Symbol { head: '\u{3000}', tail: '\u{0}' }
}

/// A one-character symbol.
pub open spec fn spec_single(c: char) -> Symbol {
    Symbol { head: c, tail: '\u{0}' }
}

impl Symbol {
    /// The blank token.
    pub fn blank() -> (s: Self)
        ensures
            s == spec_blank(),
    {
        Symbol { head: '\u{3000}', tail: '\u{0}' }
    }

    /// A one-character symbol.
    pub fn single(c: char) -> (s: Self)
        ensures
            s == spec_single(c),
    {
        Symbol { head: c, tail: '\u{0}' }
    }

    /// A two-character digraph.
    pub fn pair(a: char, b: char) -> (s: Self)
        ensures
            s == (Symbol { head: a, tail: b }),
    {
        Symbol { head: a, tail: b }
    }

    /// Whether this is the blank token.
    pub fn is_blank(&self) -> (b: bool)
        ensures
            b == (*self == spec_blank()),
    {
        self.head == '\u{3000}' && self.tail == '\u{0}'
    }

    /// Whether this is one of the eight fixed symbols.
    pub fn is_fixed_symbol(&self) -> (b: bool)
        ensures
            b == spec_is_fixed_symbol(*self),
    {
        self.tail == '\u{0}' && (self.head == '★' || self.head == '☆' || self.head == '◆'
            || self.head == '、' || self.head == '。' || self.head == 'ー' || self.head == '・'
            || self.head == ';')
    }
}

/// Whether a symbol is one of the eight hardcoded fixed symbols:
/// the three shift triggers, comma, period, the long-vowel mark,
/// the middle dot and the semicolon.
pub open spec fn spec_is_fixed_symbol(s: Symbol) -> bool {
    s.tail == '\u{0}' && (s.head == '★' || s.head == '☆' || s.head == '◆' || s.head == '、'
        || s.head == '。' || s.head == 'ー' || s.head == '・' || s.head == ';')
}

/// The symbol hardcoded at a fixed flat cell index; blank elsewhere.
pub open spec fn spec_fixed_symbol_at(p: int) -> Symbol {
    let layer = spec_layer_of(p);
    let row = spec_row_of(p);
    let col = spec_col_of(p);
    if layer == 0 && row == 1 && col == 2 {
        spec_single('★')
    } else if layer == 0 && row == 1 && col == 7 {
        spec_single('☆')
    } else if layer == 0 && row == 2 && col == 9 {
        spec_single('◆')
    } else if layer == 0 && row == 2 && col == 7 {
        spec_single('、')
    } else if layer == 0 && row == 2 && col == 8 {
        spec_single('。')
    } else if layer == 0 && row == 1 && col == 10 {
        spec_single('ー')
    } else if layer == 1 && row == 1 && col == 10 {
        spec_single('・')
    } else if layer == 3 && row == 1 && col == 10 {
        spec_single(';')
    } else {
        spec_blank()
    }
}

/// The symbol hardcoded at a fixed flat cell index.
pub fn fixed_symbol_at(p: usize) -> (s: Symbol)
    requires
        p < 124,
    ensures
        s == spec_fixed_symbol_at(p as int),
{
    if p == 12 {
        Symbol::single('★')
    } else if p == 17 {
        Symbol::single('☆')
    } else if p == 30 {
        Symbol::single('◆')
    } else if p == 28 {
        Symbol::single('、')
    } else if p == 29 {
        Symbol::single('。')
    } else if p == 20 {
        Symbol::single('ー')
    } else if p == 51 {
        Symbol::single('・')
    } else if p == 113 {
        Symbol::single(';')
    } else {
        Symbol::blank()
    }
}

/// Consonant and vowel of a kana, as romanization phonemes.  `None`
/// in the first component marks a pure vowel, `None` in the second
/// the moraic nasal; `(None, None)` marks a character that does not
/// decompose.
pub open spec fn spec_romaji_phonemes(c: char) -> (Option<char>, Option<char>) {
    if c == 'あ' { (None, Some('a')) }
    else if c == 'い' { (None, Some('i')) }
    else if c == 'う' { (None, Some('u')) }
    else if c == 'え' { (None, Some('e')) }
    else if c == 'お' { (None, Some('o')) }
    else if c == 'か' { (Some('k'), Some('a')) }
    else if c == 'き' { (Some('k'), Some('i')) }
    else if c == 'く' { (Some('k'), Some('u')) }
    else if c == 'け' { (Some('k'), Some('e')) }
    else if c == 'こ' { (Some('k'), Some('o')) }
    else if c == 'さ' { (Some('s'), Some('a')) }
    else if c == 'し' { (Some('s'), Some('i')) }
    else if c == 'す' { (Some('s'), Some('u')) }
    else if c == 'せ' { (Some('s'), Some('e')) }
    else if c == 'そ' { (Some('s'), Some('o')) }
    else if c == 'た' { (Some('t'), Some('a')) }
    else if c == 'ち' { (Some('t'), Some('i')) }
    else if c == 'つ' { (Some('t'), Some('u')) }
    else if c == 'て' { (Some('t'), Some('e')) }
    else if c == 'と' { (Some('t'), Some('o')) }
    else if c == 'な' { (Some('n'), Some('a')) }
    else if c == 'に' { (Some('n'), Some('i')) }
    else if c == 'ぬ' { (Some('n'), Some('u')) }
    else if c == 'ね' { (Some('n'), Some('e')) }
    else if c == 'の' { (Some('n'), Some('o')) }
    else if c == 'は' { (Some('h'), Some('a')) }
    else if c == 'ひ' { (Some('h'), Some('i')) }
    else if c == 'ふ' { (Some('h'), Some('u')) }
    else if c == 'へ' { (Some('h'), Some('e')) }
    else if c == 'ほ' { (Some('h'), Some('o')) }
    else if c == 'ま' { (Some('m'), Some('a')) }
    else if c == 'み' { (Some('m'), Some('i')) }
    else if c == 'む' { (Some('m'), Some('u')) }
    else if c == 'め' { (Some('m'), Some('e')) }
    else if c == 'も' { (Some('m'), Some('o')) }
    else if c == 'や' { (Some('y'), Some('a')) }
    else if c == 'ゆ' { (Some('y'), Some('u')) }
    else if c == 'よ' { (Some('y'), Some('o')) }
    else if c == 'ら' { (Some('r'), Some('a')) }
    else if c == 'り' { (Some('r'), Some('i')) }
    else if c == 'る' { (Some('r'), Some('u')) }
    else if c == 'れ' { (Some('r'), Some('e')) }
    else if c == 'ろ' { (Some('r'), Some('o')) }
    else if c == 'わ' { (Some('w'), Some('a')) }
    else if c == 'を' { (Some('w'), Some('o')) }
    else if c == 'ん' { (Some('n'), None) }
    else if c == 'が' { (Some('g'), Some('a')) }
    else if c == 'ぎ' { (Some('g'), Some('i')) }
    else if c == 'ぐ' { (Some('g'), Some('u')) }
    else if c == 'げ' { (Some('g'), Some('e')) }
    else if c == 'ご' { (Some('g'), Some('o')) }
    else if c == 'ざ' { (Some('z'), Some('a')) }
    else if c == 'じ' { (Some('z'), Some('i')) }
    else if c == 'ず' { (Some('z'), Some('u')) }
    else if c == 'ぜ' { (Some('z'), Some('e')) }
    else if c == 'ぞ' { (Some('z'), Some('o')) }
    else if c == 'だ' { (Some('d'), Some('a')) }
    else if c == 'ぢ' { (Some('d'), Some('i')) }
    else if c == 'づ' { (Some('d'), Some('u')) }
    else if c == 'で' { (Some('d'), Some('e')) }
    else if c == 'ど' { (Some('d'), Some('o')) }
    else if c == 'ば' { (Some('b'), Some('a')) }
    else if c == 'び' { (Some('b'), Some('i')) }
    else if c == 'ぶ' { (Some('b'), Some('u')) }
    else if c == 'べ' { (Some('b'), Some('e')) }
    else if c == 'ぼ' { (Some('b'), Some('o')) }
    else if c == 'ぱ' { (Some('p'), Some('a')) }
    else if c == 'ぴ' { (Some('p'), Some('i')) }
    else if c == 'ぷ' { (Some('p'), Some('u')) }
    else if c == 'ぺ' { (Some('p'), Some('e')) }
    else if c == 'ぽ' { (Some('p'), Some('o')) }
    else { (None, None) }
}

/// Consonant and vowel romanization phonemes of a kana.
pub fn romaji_phonemes(c: char) -> (r: (Option<char>, Option<char>))
    ensures
        r == spec_romaji_phonemes(c),
{
    match c {
        'あ' => (None, Some('a')),
        'い' => (None, Some('i')),
        'う' => (None, Some('u')),
        'え' => (None, Some('e')),
        'お' => (None, Some('o')),
        'か' => (Some('k'), Some('a')),
        'き' => (Some('k'), Some('i')),
        'く' => (Some('k'), Some('u')),
        'け' => (Some('k'), Some('e')),
        'こ' => (Some('k'), Some('o')),
        'さ' => (Some('s'), Some('a')),
        'し' => (Some('s'), Some('i')),
        'す' => (Some('s'), Some('u')),
        'せ' => (Some('s'), Some('e')),
        'そ' => (Some('s'), Some('o')),
        'た' => (Some('t'), Some('a')),
        'ち' => (Some('t'), Some('i')),
        'つ' => (Some('t'), Some('u')),
        'て' => (Some('t'), Some('e')),
        'と' => (Some('t'), Some('o')),
        'な' => (Some('n'), Some('a')),
        'に' => (Some('n'), Some('i')),
        'ぬ' => (Some('n'), Some('u')),
        'ね' => (Some('n'), Some('e')),
        'の' => (Some('n'), Some('o')),
        'は' => (Some('h'), Some('a')),
        'ひ' => (Some('h'), Some('i')),
        'ふ' => (Some('h'), Some('u')),
        'へ' => (Some('h'), Some('e')),
        'ほ' => (Some('h'), Some('o')),
        'ま' => (Some('m'), Some('a')),
        'み' => (Some('m'), Some('i')),
        'む' => (Some('m'), Some('u')),
        'め' => (Some('m'), Some('e')),
        'も' => (Some('m'), Some('o')),
        'や' => (Some('y'), Some('a')),
        'ゆ' => (Some('y'), Some('u')),
        'よ' => (Some('y'), Some('o')),
        'ら' => (Some('r'), Some('a')),
        'り' => (Some('r'), Some('i')),
        'る' => (Some('r'), Some('u')),
        'れ' => (Some('r'), Some('e')),
        'ろ' => (Some('r'), Some('o')),
        'わ' => (Some('w'), Some('a')),
        'を' => (Some('w'), Some('o')),
        'ん' => (Some('n'), None),
        'が' => (Some('g'), Some('a')),
        'ぎ' => (Some('g'), Some('i')),
        'ぐ' => (Some('g'), Some('u')),
        'げ' => (Some('g'), Some('e')),
        'ご' => (Some('g'), Some('o')),
        'ざ' => (Some('z'), Some('a')),
        'じ' => (Some('z'), Some('i')),
        'ず' => (Some('z'), Some('u')),
        'ぜ' => (Some('z'), Some('e')),
        'ぞ' => (Some('z'), Some('o')),
        'だ' => (Some('d'), Some('a')),
        'ぢ' => (Some('d'), Some('i')),
        'づ' => (Some('d'), Some('u')),
        'で' => (Some('d'), Some('e')),
        'ど' => (Some('d'), Some('o')),
        'ば' => (Some('b'), Some('a')),
        'び' => (Some('b'), Some('i')),
        'ぶ' => (Some('b'), Some('u')),
        'べ' => (Some('b'), Some('e')),
        'ぼ' => (Some('b'), Some('o')),
        'ぱ' => (Some('p'), Some('a')),
        'ぴ' => (Some('p'), Some('i')),
        'ぷ' => (Some('p'), Some('u')),
        'ぺ' => (Some('p'), Some('e')),
        'ぽ' => (Some('p'), Some('o')),
        _ => (None, None),
    }
}

/// Whether a character is a vowel kana, including the small variants.
pub open spec fn spec_is_vowel_kana(c: char) -> bool {
    c == 'あ' || c == 'い' || c == 'う' || c == 'え' || c == 'お' || c == 'ぁ' || c == 'ぃ'
        || c == 'ぅ' || c == 'ぇ' || c == 'ぉ'
}

/// Whether a character is a vowel kana, including the small variants.
pub fn is_vowel_kana(c: char) -> (b: bool)
    ensures
        b == spec_is_vowel_kana(c),
{
    c == 'あ' || c == 'い' || c == 'う' || c == 'え' || c == 'お' || c == 'ぁ' || c == 'ぃ'
        || c == 'ぅ' || c == 'ぇ' || c == 'ぉ'
}

/// Whether a character is hiragana (or the long-vowel mark).
pub open spec fn spec_is_hiragana(c: char) -> bool {
    (0x3041 <= c as u32 && c as u32 <= 0x3093) || c == 'ー' || c == 'ゔ'
}

/// Whether a character is hiragana (or the long-vowel mark).
pub fn is_hiragana(c: char) -> (b: bool)
    ensures
        b == spec_is_hiragana(c),
{
    let u = c as u32;
    (0x3041 <= u && u <= 0x3093) || c == 'ー' || c == 'ゔ'
}

} // verus!
