//! The layout grid: four layers of key cells, the fixed and blank
//! cells, construction (seed layout, random layout), indexing and
//! validation.

use vstd::prelude::*;

verus! {

use crate::geometry::{
    lemma_free_count_mono, lemma_free_count_value, spec_free_count, spec_is_blank,
    spec_is_blank_idx, spec_is_fixed, spec_is_fixed_idx, spec_is_free_idx, spec_layer_of,
    spec_row_of, spec_col_of, spec_pos_of, spec_cell_index, key_pos_wf, KeyPos, cell_index,
    pos_of_cell,
};
use crate::spec_cols_for_row;
use crate::symbol::{spec_blank, spec_fixed_symbol_at, spec_is_fixed_symbol, spec_single, Symbol,
    fixed_symbol_at};
use crate::rng::{chacha_stream, SeededRng};
use crate::charmap::{CharPosMap, spec_cpm_get, spec_cpm_distinct, lemma_cpm_get_some_iff_has};

/// The per-metric scores of an evaluated layout, each on a 0 to 100
/// scale in millionths (100_000_000 is a full score).
#[derive(Clone, Copy, Debug, PartialEq, Eq, Structural)]
pub struct EvaluationScores {
    /// Row-skip avoidance.
    pub row_skip: u64,
    /// Home-row usage share.
    pub home_position: u64,
    /// Keystroke-effort efficiency.
    pub total_keystrokes: u64,
    /// Same-finger-bigram avoidance.
    pub same_finger: u64,
    /// No-shift keystroke share.
    pub single_key: u64,
    /// Similarity to the touch-typing reference layout.
    pub colemak_similarity: u64,
    /// Frequency-weighted position-cost score.
    pub position_cost: u64,
    /// Similarity to the historical kana reference layout.
    pub tsuki_similarity: u64,
    /// Vowel/consonant consistency across layers.
    pub memorability: u64,
    /// Hand-alternation share.
    pub alternating: u64,
    /// Trigram roll share.
    pub roll: u64,
    /// Redirect avoidance.
    pub redirect_low: u64,
    /// Inward-roll share.
    pub inroll: u64,
    /// Adjacent-finger roll share.
    pub arpeggio: u64,
    /// Balance of load between the two primary shift layers.
    pub shift_balance: u64,
}

impl EvaluationScores {
    /// All-zero scores.
    pub open spec fn spec_zero() -> EvaluationScores {
        EvaluationScores {
            row_skip: 0,
            home_position: 0,
            total_keystrokes: 0,
            same_finger: 0,
            single_key: 0,
            colemak_similarity: 0,
            position_cost: 0,
            tsuki_similarity: 0,
            memorability: 0,
            alternating: 0,
            roll: 0,
            redirect_low: 0,
            inroll: 0,
            arpeggio: 0,
            shift_balance: 0,
        }
    }

    /// All-zero scores.
    pub fn zero() -> (r: Self)
        ensures
            r == Self::spec_zero(),
    {
        EvaluationScores {
            row_skip: 0,
            home_position: 0,
            total_keystrokes: 0,
            same_finger: 0,
            single_key: 0,
            colemak_similarity: 0,
            position_cost: 0,
            tsuki_similarity: 0,
            memorability: 0,
            alternating: 0,
            roll: 0,
            redirect_low: 0,
            inroll: 0,
            arpeggio: 0,
            shift_balance: 0,
        }
    }
}

impl Default for EvaluationScores {
    /// All-zero scores.
    fn default() -> (r: Self)
        ensures
            r == Self::spec_zero(),
    {
        Self::zero()
    }
}

/// A candidate layout: the 124 cells in flat order (layer by layer,
/// row by row), with the fitness and score breakdown of its last
/// evaluation.
#[derive(Clone, Debug)]
pub struct Layout {
    /// The cells, `spec_cell_index` gives the order.
    pub cells: Vec<Symbol>,
    /// Fitness from the last evaluation, in millionths.
    pub fitness: u64,
    /// Score breakdown from the last evaluation.
    pub scores: EvaluationScores,
}

/// The grid has its 124 cells.
pub open spec fn spec_cells_wf(cells: Seq<Symbol>) -> bool {
    cells.len() == 124
}

/// Every fixed cell holds its hardcoded symbol.
pub open spec fn spec_fixed_ok(cells: Seq<Symbol>) -> bool {
    forall|p: int| 0 <= p < 124 && spec_is_fixed_idx(p) ==> cells[p] == spec_fixed_symbol_at(p)
}

/// Every forced-blank cell holds the blank token.
pub open spec fn spec_blank_ok(cells: Seq<Symbol>) -> bool {
    forall|p: int| 0 <= p < 124 && spec_is_blank_idx(p) ==> cells[p] == spec_blank()
}

/// No symbol except the blank token occurs twice among the free cells.
pub open spec fn spec_free_no_dup(cells: Seq<Symbol>) -> bool {
    forall|p: int, q: int|
        0 <= p < q < 124 && spec_is_free_idx(p) && spec_is_free_idx(q) && cells[p] != spec_blank()
            ==> cells[p] != cells[q]
}

/// A non-blank symbol sits on some free cell.
pub open spec fn spec_free_present(cells: Seq<Symbol>, s: Symbol) -> bool {
    s != spec_blank() && exists|p: int| 0 <= p < 124 && spec_is_free_idx(p) && cells[p] == s
}

/// No symbol except the blank token occurs twice among the free
/// cells, and no free cell holds a fixed symbol.
pub open spec fn spec_free_cells_ok(cells: Seq<Symbol>) -> bool {
    &&& spec_free_no_dup(cells)
    &&& forall|p: int|
        0 <= p < 124 && spec_is_free_idx(p) ==> !spec_is_fixed_symbol(#[trigger] cells[p])
}

/// A structurally valid layout: the grid shape, the fixed cells, the
/// blank cells, and no duplicate symbol among the free cells.
pub open spec fn spec_layout_valid(cells: Seq<Symbol>) -> bool {
    &&& spec_cells_wf(cells)
    &&& spec_fixed_ok(cells)
    &&& spec_blank_ok(cells)
    &&& spec_free_cells_ok(cells)
}

/// The fixed cells are exactly these eight flat indices, the forced
/// blanks exactly these four.
pub proof fn lemma_special_idx_sets(p: int)
    requires
        0 <= p < 124,
    ensures
        spec_is_fixed_idx(p) == (p == 12 || p == 17 || p == 20 || p == 28 || p == 29 || p == 30
            || p == 51 || p == 113),
        spec_is_blank_idx(p) == (p == 82 || p == 102 || p == 112 || p == 123),
{
}

impl Default for Layout {
    /// An all-blank grid with zero scores.
    fn default() -> (r: Self)
        ensures
            spec_cells_wf(r.cells@),
            forall|p: int| 0 <= p < 124 ==> r.cells@[p] == spec_blank(),
            r.fitness == 0,
            r.scores == EvaluationScores::spec_zero(),
    {
        let mut cells: Vec<Symbol> = Vec::new();
        let mut i: usize = 0;
        while i < 124
            invariant
                0 <= i <= 124,
                cells@.len() == i,
                forall|p: int| 0 <= p < i ==> cells@[p] == spec_blank(),
            decreases 124 - i,
        {
            cells.push(Symbol::blank());
            i = i + 1;
        }
        Layout { cells, fitness: 0, scores: EvaluationScores::zero() }
    }
}


/// The hand-tuned seed grid, cell by cell in flat order.
pub open spec fn spec_seed_grid() -> Seq<Symbol> {
    seq![
        Symbol { head: 'あ', tail: '\u{0}' },
        Symbol { head: 'と', tail: '\u{0}' },
        Symbol { head: 'に', tail: '\u{0}' },
        Symbol { head: 'る', tail: '\u{0}' },
        Symbol { head: 'を', tail: '\u{0}' },
        Symbol { head: 'ち', tail: '\u{0}' },
        Symbol { head: 'こ', tail: '\u{0}' },
        Symbol { head: 'く', tail: '\u{0}' },
        Symbol { head: 'て', tail: '\u{0}' },
        Symbol { head: 'さ', tail: '\u{0}' },
        Symbol { head: 'か', tail: '\u{0}' },
        Symbol { head: 'う', tail: '\u{0}' },
        Symbol { head: '★', tail: '\u{0}' },
        Symbol { head: 'し', tail: '\u{0}' },
        Symbol { head: 'た', tail: '\u{0}' },
        Symbol { head: 'き', tail: '\u{0}' },
        Symbol { head: 'ん', tail: '\u{0}' },
        Symbol { head: '☆', tail: '\u{0}' },
        Symbol { head: 'い', tail: '\u{0}' },
        Symbol { head: 'の', tail: '\u{0}' },
        Symbol { head: 'ー', tail: '\u{0}' },
        Symbol { head: 'れ', tail: '\u{0}' },
        Symbol { head: 'で', tail: '\u{0}' },
        Symbol { head: 'が', tail: '\u{0}' },
        Symbol { head: 'な', tail: '\u{0}' },
        Symbol { head: 'だ', tail: '\u{0}' },
        Symbol { head: 'ら', tail: '\u{0}' },
        Symbol { head: 'は', tail: '\u{0}' },
        Symbol { head: '、', tail: '\u{0}' },
        Symbol { head: '。', tail: '\u{0}' },
        Symbol { head: '◆', tail: '\u{0}' },
        Symbol { head: 'べ', tail: '\u{0}' },
        Symbol { head: 'ど', tail: '\u{0}' },
        Symbol { head: 'わ', tail: '\u{0}' },
        Symbol { head: 'し', tail: 'ゅ' },
        Symbol { head: 'ぐ', tail: '\u{0}' },
        Symbol { head: 'ぞ', tail: '\u{0}' },
        Symbol { head: 'ぎ', tail: '\u{0}' },
        Symbol { head: 'ぽ', tail: '\u{0}' },
        Symbol { head: 'き', tail: 'ゅ' },
        Symbol { head: 'ぺ', tail: '\u{0}' },
        Symbol { head: 'せ', tail: '\u{0}' },
        Symbol { head: 'じ', tail: '\u{0}' },
        Symbol { head: 'す', tail: '\u{0}' },
        Symbol { head: 'つ', tail: '\u{0}' },
        Symbol { head: 'ぶ', tail: '\u{0}' },
        Symbol { head: 'ふ', tail: '\u{0}' },
        Symbol { head: 'っ', tail: '\u{0}' },
        Symbol { head: 'ほ', tail: '\u{0}' },
        Symbol { head: 'ろ', tail: '\u{0}' },
        Symbol { head: 'ざ', tail: '\u{0}' },
        Symbol { head: '・', tail: '\u{0}' },
        Symbol { head: 'じ', tail: 'ゅ' },
        Symbol { head: 'ず', tail: '\u{0}' },
        Symbol { head: 'む', tail: '\u{0}' },
        Symbol { head: 'ひ', tail: '\u{0}' },
        Symbol { head: 'ぷ', tail: '\u{0}' },
        Symbol { head: 'び', tail: '\u{0}' },
        Symbol { head: 'み', tail: '\u{0}' },
        Symbol { head: 'に', tail: 'ゅ' },
        Symbol { head: 'ち', tail: 'ゅ' },
        Symbol { head: 'ぬ', tail: '\u{0}' },
        Symbol { head: 'り', tail: 'ゅ' },
        Symbol { head: 'ぱ', tail: '\u{0}' },
        Symbol { head: 'ぃ', tail: '\u{0}' },
        Symbol { head: 'げ', tail: '\u{0}' },
        Symbol { head: 'ぜ', tail: '\u{0}' },
        Symbol { head: 'り', tail: 'ょ' },
        Symbol { head: 'ご', tail: '\u{0}' },
        Symbol { head: 'や', tail: '\u{0}' },
        Symbol { head: 'め', tail: '\u{0}' },
        Symbol { head: 'ゆ', tail: '\u{0}' },
        Symbol { head: 'ち', tail: 'ょ' },
        Symbol { head: 'そ', tail: '\u{0}' },
        Symbol { head: 'よ', tail: '\u{0}' },
        Symbol { head: 'も', tail: '\u{0}' },
        Symbol { head: 'ね', tail: '\u{0}' },
        Symbol { head: 'し', tail: 'ょ' },
        Symbol { head: 'ま', tail: '\u{0}' },
        Symbol { head: 'り', tail: '\u{0}' },
        Symbol { head: 'お', tail: '\u{0}' },
        Symbol { head: 'け', tail: '\u{0}' },
        Symbol { head: '\u{3000}', tail: '\u{0}' },
        Symbol { head: 'き', tail: 'ゃ' },
        Symbol { head: 'ぎ', tail: 'ょ' },
        Symbol { head: 'ひ', tail: 'ょ' },
        Symbol { head: 'ば', tail: '\u{0}' },
        Symbol { head: 'ぼ', tail: '\u{0}' },
        Symbol { head: 'し', tail: 'ゃ' },
        Symbol { head: 'え', tail: '\u{0}' },
        Symbol { head: 'じ', tail: 'ょ' },
        Symbol { head: 'き', tail: 'ょ' },
        Symbol { head: 'へ', tail: '\u{0}' },
        Symbol { head: 'ひ', tail: 'ゅ' },
        Symbol { head: 'り', tail: 'ゃ' },
        Symbol { head: 'ぎ', tail: 'ゃ' },
        Symbol { head: 'み', tail: 'ゅ' },
        Symbol { head: 'に', tail: 'ゃ' },
        Symbol { head: 'ぢ', tail: 'ゃ' },
        Symbol { head: 'み', tail: 'ょ' },
        Symbol { head: 'ヴ', tail: '\u{0}' },
        Symbol { head: 'ぴ', tail: 'ょ' },
        Symbol { head: '\u{3000}', tail: '\u{0}' },
        Symbol { head: 'び', tail: 'ょ' },
        Symbol { head: 'じ', tail: 'ゃ' },
        Symbol { head: 'ぇ', tail: '\u{0}' },
        Symbol { head: 'ぴ', tail: '\u{0}' },
        Symbol { head: 'ぢ', tail: '\u{0}' },
        Symbol { head: 'び', tail: 'ゅ' },
        Symbol { head: 'づ', tail: '\u{0}' },
        Symbol { head: 'ぁ', tail: '\u{0}' },
        Symbol { head: 'ち', tail: 'ゃ' },
        Symbol { head: '\u{3000}', tail: '\u{0}' },
        Symbol { head: ';', tail: '\u{0}' },
        Symbol { head: 'び', tail: 'ゃ' },
        Symbol { head: 'ぅ', tail: '\u{0}' },
        Symbol { head: 'ぎ', tail: 'ゅ' },
        Symbol { head: 'ぴ', tail: 'ゅ' },
        Symbol { head: 'ぴ', tail: 'ゃ' },
        Symbol { head: 'み', tail: 'ゃ' },
        Symbol { head: 'ぉ', tail: '\u{0}' },
        Symbol { head: 'ひ', tail: 'ゃ' },
        Symbol { head: 'に', tail: 'ょ' },
        Symbol { head: '\u{3000}', tail: '\u{0}' },
    ]
}

impl Layout {
    /// Whether a cell is forced blank by a physical conflict with a
    /// shift trigger.
    pub fn is_blank_position(layer: usize, row: usize, col: usize) -> (b: bool)
        ensures
            b == spec_is_blank(layer as int, row as int, col as int),
    {
        match layer {
            2 => row == 1 && col == 10,
            3 => col == 9,
            _ => false,
        }
    }

    /// Whether a cell's content is hardcoded.
    pub fn is_fixed_position(layer: usize, row: usize, col: usize) -> (b: bool)
        ensures
            b == spec_is_fixed(layer as int, row as int, col as int),
    {
        if layer == 0 && row == 1 && (col == 2 || col == 7) {
            return true;
        }
        if layer == 0 && row == 2 && col == 9 {
            return true;
        }
        if layer == 0 && row == 2 && (col == 7 || col == 8) {
            return true;
        }
        if layer == 0 && row == 1 && col == 10 {
            return true;
        }
        if layer == 1 && row == 1 && col == 10 {
            return true;
        }
        if layer == 3 && row == 1 && col == 10 {
            return true;
        }
        false
    }

    /// The symbol at a position.
    pub fn get(&self, layer: usize, row: usize, col: usize) -> (s: Symbol)
        requires
            spec_cells_wf(self.cells@),
            layer < 4,
            row < 3,
            col < spec_cols_for_row(row as int),
        ensures
            s == self.cells@[spec_cell_index(layer as int, row as int, col as int)],
    {
        let p = cell_index(layer, row, col);
        self.cells[p]
    }

    /// Write every fixed cell's hardcoded symbol and force every
    /// blank cell blank; free cells keep their content.
    pub fn enforce_fixed_cells(&mut self)
        requires
            spec_cells_wf(old(self).cells@),
        ensures
            spec_cells_wf(final(self).cells@),
            spec_fixed_ok(final(self).cells@),
            spec_blank_ok(final(self).cells@),
            forall|p: int|
                0 <= p < 124 && spec_is_free_idx(p) ==> final(self).cells@[p] == old(
                    self,
                ).cells@[p],
            final(self).fitness == old(self).fitness,
            final(self).scores == old(self).scores,
    {
        let ghost c0 = self.cells@;
        let mut p: usize = 0;
        while p < 124
            invariant
                spec_cells_wf(self.cells@),
                0 <= p <= 124,
                forall|q: int| 0 <= q < p && spec_is_fixed_idx(q) ==> self.cells@[q]
                    == spec_fixed_symbol_at(q),
                forall|q: int| 0 <= q < p && spec_is_blank_idx(q) ==> self.cells@[q]
                    == spec_blank(),
                forall|q: int|
                    0 <= q < 124 && spec_is_free_idx(q) ==> self.cells@[q] == c0[q],
                self.fitness == old(self).fitness,
                self.scores == old(self).scores,
                forall|q: int| p <= q < 124 ==> self.cells@[q] == c0[q],
            decreases 124 - p,
        {
            let kp = pos_of_cell(p);
            if Self::is_fixed_position(kp.layer, kp.row, kp.col) {
                let s = fixed_symbol_at(p);
                self.cells[p] = s;
            } else if Self::is_blank_position(kp.layer, kp.row, kp.col) {
                self.cells[p] = Symbol::blank();
            }
            p = p + 1;
        }
    }

    /// The hand-tuned seed layout: every fixed cell correct, every
    /// forced-blank cell blank.
    #[verifier::rlimit(100)]
    pub fn improved_custom() -> (r: Self)
        ensures
            r.cells@ == spec_seed_grid(),
            spec_cells_wf(r.cells@),
            spec_fixed_ok(r.cells@),
            spec_blank_ok(r.cells@),
            r.fitness == 0,
            r.scores == EvaluationScores::spec_zero(),
    {
        let mut c: Vec<Symbol> = Vec::new();
        // layer 0, row 0
        c.push(Symbol::single('あ'));
        c.push(Symbol::single('と'));
        c.push(Symbol::single('に'));
        c.push(Symbol::single('る'));
        c.push(Symbol::single('を'));
        c.push(Symbol::single('ち'));
        c.push(Symbol::single('こ'));
        c.push(Symbol::single('く'));
        c.push(Symbol::single('て'));
        c.push(Symbol::single('さ'));
        // layer 0, row 1
        c.push(Symbol::single('か'));
        c.push(Symbol::single('う'));
        c.push(Symbol::single('★'));
        c.push(Symbol::single('し'));
        c.push(Symbol::single('た'));
        c.push(Symbol::single('き'));
        c.push(Symbol::single('ん'));
        c.push(Symbol::single('☆'));
        c.push(Symbol::single('い'));
        c.push(Symbol::single('の'));
        c.push(Symbol::single('ー'));
        // layer 0, row 2
        c.push(Symbol::single('れ'));
        c.push(Symbol::single('で'));
        c.push(Symbol::single('が'));
        c.push(Symbol::single('な'));
        c.push(Symbol::single('だ'));
        c.push(Symbol::single('ら'));
        c.push(Symbol::single('は'));
        c.push(Symbol::single('、'));
        c.push(Symbol::single('。'));
        c.push(Symbol::single('◆'));
        proof {
            assert(c@.len() == 31);
            assert(c@ =~= spec_seed_grid().take(31));
        }
        // layer 1, row 0
        c.push(Symbol::single('べ'));
        c.push(Symbol::single('ど'));
        c.push(Symbol::single('わ'));
        c.push(Symbol::pair('し', 'ゅ'));
        c.push(Symbol::single('ぐ'));
        c.push(Symbol::single('ぞ'));
        c.push(Symbol::single('ぎ'));
        c.push(Symbol::single('ぽ'));
        c.push(Symbol::pair('き', 'ゅ'));
        c.push(Symbol::single('ぺ'));
        // layer 1, row 1
        c.push(Symbol::single('せ'));
        c.push(Symbol::single('じ'));
        c.push(Symbol::single('す'));
        c.push(Symbol::single('つ'));
        c.push(Symbol::single('ぶ'));
        c.push(Symbol::single('ふ'));
        c.push(Symbol::single('っ'));
        c.push(Symbol::single('ほ'));
        c.push(Symbol::single('ろ'));
        c.push(Symbol::single('ざ'));
        c.push(Symbol::single('・'));
        // layer 1, row 2
        c.push(Symbol::pair('じ', 'ゅ'));
        c.push(Symbol::single('ず'));
        c.push(Symbol::single('む'));
        c.push(Symbol::single('ひ'));
        c.push(Symbol::single('ぷ'));
        c.push(Symbol::single('び'));
        c.push(Symbol::single('み'));
        c.push(Symbol::pair('に', 'ゅ'));
        c.push(Symbol::pair('ち', 'ゅ'));
        c.push(Symbol::single('ぬ'));
        proof {
            assert(c@.len() == 62);
            assert(c@ =~= spec_seed_grid().take(62));
        }
        // layer 2, row 0
        c.push(Symbol::pair('り', 'ゅ'));
        c.push(Symbol::single('ぱ'));
        c.push(Symbol::single('ぃ'));
        c.push(Symbol::single('げ'));
        c.push(Symbol::single('ぜ'));
        c.push(Symbol::pair('り', 'ょ'));
        c.push(Symbol::single('ご'));
        c.push(Symbol::single('や'));
        c.push(Symbol::single('め'));
        c.push(Symbol::single('ゆ'));
        // layer 2, row 1
        c.push(Symbol::pair('ち', 'ょ'));
        c.push(Symbol::single('そ'));
        c.push(Symbol::single('よ'));
        c.push(Symbol::single('も'));
        c.push(Symbol::single('ね'));
        c.push(Symbol::pair('し', 'ょ'));
        c.push(Symbol::single('ま'));
        c.push(Symbol::single('り'));
        c.push(Symbol::single('お'));
        c.push(Symbol::single('け'));
        c.push(Symbol::blank());
        // layer 2, row 2
        c.push(Symbol::pair('き', 'ゃ'));
        c.push(Symbol::pair('ぎ', 'ょ'));
        c.push(Symbol::pair('ひ', 'ょ'));
        c.push(Symbol::single('ば'));
        c.push(Symbol::single('ぼ'));
        c.push(Symbol::pair('し', 'ゃ'));
        c.push(Symbol::single('え'));
        c.push(Symbol::pair('じ', 'ょ'));
        c.push(Symbol::pair('き', 'ょ'));
        c.push(Symbol::single('へ'));
        proof {
            assert(c@.len() == 93);
            assert(c@ =~= spec_seed_grid().take(93));
        }
        // layer 3, row 0
        c.push(Symbol::pair('ひ', 'ゅ'));
        c.push(Symbol::pair('り', 'ゃ'));
        c.push(Symbol::pair('ぎ', 'ゃ'));
        c.push(Symbol::pair('み', 'ゅ'));
        c.push(Symbol::pair('に', 'ゃ'));
        c.push(Symbol::pair('ぢ', 'ゃ'));
        c.push(Symbol::pair('み', 'ょ'));
        c.push(Symbol::single('ヴ'));
        c.push(Symbol::pair('ぴ', 'ょ'));
        c.push(Symbol::blank());
        // layer 3, row 1
        c.push(Symbol::pair('び', 'ょ'));
        c.push(Symbol::pair('じ', 'ゃ'));
        c.push(Symbol::single('ぇ'));
        c.push(Symbol::single('ぴ'));
        c.push(Symbol::single('ぢ'));
        c.push(Symbol::pair('び', 'ゅ'));
        c.push(Symbol::single('づ'));
        c.push(Symbol::single('ぁ'));
        c.push(Symbol::pair('ち', 'ゃ'));
        c.push(Symbol::blank());
        c.push(Symbol::single(';'));
        // layer 3, row 2
        c.push(Symbol::pair('び', 'ゃ'));
        c.push(Symbol::single('ぅ'));
        c.push(Symbol::pair('ぎ', 'ゅ'));
        c.push(Symbol::pair('ぴ', 'ゅ'));
        c.push(Symbol::pair('ぴ', 'ゃ'));
        c.push(Symbol::pair('み', 'ゃ'));
        c.push(Symbol::single('ぉ'));
        c.push(Symbol::pair('ひ', 'ゃ'));
        c.push(Symbol::pair('に', 'ょ'));
        c.push(Symbol::blank());
        proof {
            assert(c@.len() == 124);
            assert(c@ =~= spec_seed_grid().take(124));
            assert(spec_seed_grid().take(124) =~= spec_seed_grid());
        }
        proof {
            assert forall|p: int|
                0 <= p < 124 && spec_is_fixed_idx(p) implies c@[p] == spec_fixed_symbol_at(
                p,
            ) by {
                lemma_special_idx_sets(p);
                if p == 12 {
                    assert(spec_seed_grid()[12] == spec_fixed_symbol_at(12));
                }
                if p == 17 {
                    assert(spec_seed_grid()[17] == spec_fixed_symbol_at(17));
                }
                if p == 20 {
                    assert(spec_seed_grid()[20] == spec_fixed_symbol_at(20));
                }
                if p == 28 {
                    assert(spec_seed_grid()[28] == spec_fixed_symbol_at(28));
                }
                if p == 29 {
                    assert(spec_seed_grid()[29] == spec_fixed_symbol_at(29));
                }
                if p == 30 {
                    assert(spec_seed_grid()[30] == spec_fixed_symbol_at(30));
                }
                if p == 51 {
                    assert(spec_seed_grid()[51] == spec_fixed_symbol_at(51));
                }
                if p == 113 {
                    assert(spec_seed_grid()[113] == spec_fixed_symbol_at(113));
                }
            };
            assert forall|p: int|
                0 <= p < 124 && spec_is_blank_idx(p) implies c@[p] == spec_blank() by {
                lemma_special_idx_sets(p);
                if p == 82 {
                    assert(spec_seed_grid()[82] == spec_blank());
                }
                if p == 102 {
                    assert(spec_seed_grid()[102] == spec_blank());
                }
                if p == 112 {
                    assert(spec_seed_grid()[112] == spec_blank());
                }
                if p == 123 {
                    assert(spec_seed_grid()[123] == spec_blank());
                }
            };
        }
        let layout = Layout { cells: c, fitness: 0, scores: EvaluationScores::zero() };
        layout
    }

    /// First cell, scanning flat order from `from`, that holds
    /// exactly this symbol.
    pub open spec fn spec_find_symbol(cells: Seq<Symbol>, s: Symbol, from: int) -> Option<KeyPos>
        decreases cells.len() - from,
    {
        if from < 0 || from >= cells.len() {
            None
        } else if cells[from] == s {
            Some(spec_pos_of(from))
        } else {
            Self::spec_find_symbol(cells, s, from + 1)
        }
    }

    /// The position of the first cell holding the symbol.
    pub fn find_char(&self, s: Symbol) -> (r: Option<KeyPos>)
        requires
            spec_cells_wf(self.cells@),
        ensures
            r == Self::spec_find_symbol(self.cells@, s, 0),
    {
        let mut p: usize = 0;
        while p < 124
            invariant
                spec_cells_wf(self.cells@),
                0 <= p <= 124,
                forall|q: int| 0 <= q < p ==> self.cells@[q] != s,
            decreases 124 - p,
        {
            if self.cells[p] == s {
                let kp = pos_of_cell(p);
                proof {
                    Self::lemma_find_symbol_at(self.cells@, s, 0, p as int);
                }
                return Some(kp);
            }
            p = p + 1;
        }
        proof {
            Self::lemma_find_symbol_none(self.cells@, s, 0);
        }
        None
    }

    /// The first occurrence of a symbol, located by scanning.
    proof fn lemma_find_symbol_at(cells: Seq<Symbol>, s: Symbol, from: int, i: int)
        requires
            0 <= from <= i < cells.len(),
            cells[i] == s,
            forall|j: int| from <= j < i ==> cells[j] != s,
        ensures
            Self::spec_find_symbol(cells, s, from) == Some(spec_pos_of(i)),
        decreases i - from,
    {
        if from < i {
            Self::lemma_find_symbol_at(cells, s, from + 1, i);
        }
    }

    /// A symbol that occurs nowhere after `from` is not found.
    proof fn lemma_find_symbol_none(cells: Seq<Symbol>, s: Symbol, from: int)
        requires
            from >= 0,
            forall|j: int| from <= j < cells.len() ==> cells[j] != s,
        ensures
            Self::spec_find_symbol(cells, s, from) is None,
        decreases cells.len() - from,
    {
        if from < cells.len() {
            Self::lemma_find_symbol_none(cells, s, from + 1);
        }
    }

    /// First cell in `[from, upto)` whose leading character is `c`;
    /// the blank and null characters are never indexed.
    pub open spec fn spec_first_head_in(cells: Seq<Symbol>, c: char, from: int, upto: int) -> Option<
        KeyPos,
    >
        decreases upto - from,
    {
        if from < 0 || from >= upto || upto > cells.len() {
            None
        } else if cells[from].head == c && c != '\u{3000}' && c != '\u{0}' {
            Some(spec_pos_of(from))
        } else {
            Self::spec_first_head_in(cells, c, from + 1, upto)
        }
    }

    /// The position of each leading character's first occurrence.
    pub open spec fn spec_char_pos(cells: Seq<Symbol>, c: char) -> Option<KeyPos> {
        Self::spec_first_head_in(cells, c, 0, 124)
    }

    /// Scanning one more cell extends the search result.
    proof fn lemma_first_head_extend(cells: Seq<Symbol>, c: char, from: int, p: int)
        requires
            0 <= from <= p < cells.len(),
        ensures
            Self::spec_first_head_in(cells, c, from, p + 1) == if Self::spec_first_head_in(
                cells,
                c,
                from,
                p,
            ) is Some {
                Self::spec_first_head_in(cells, c, from, p)
            } else if cells[p].head == c && c != '\u{3000}' && c != '\u{0}' {
                Some(spec_pos_of(p))
            } else {
                None::<KeyPos>
            },
        decreases p - from,
    {
        if from == p {
            assert(Self::spec_first_head_in(cells, c, from, p) is None);
            if cells[p].head == c && c != '\u{3000}' && c != '\u{0}' {
                assert(Self::spec_first_head_in(cells, c, from, p + 1) == Some(spec_pos_of(p)));
            } else {
                assert(Self::spec_first_head_in(cells, c, p + 1, p + 1) is None);
                assert(Self::spec_first_head_in(cells, c, from, p + 1) is None);
            }
        } else {
            Self::lemma_first_head_extend(cells, c, from + 1, p);
            if cells[from].head == c && c != '\u{3000}' && c != '\u{0}' {
                assert(Self::spec_first_head_in(cells, c, from, p + 1) == Some(spec_pos_of(from)));
                assert(Self::spec_first_head_in(cells, c, from, p) == Some(spec_pos_of(from)));
            } else {
                assert(Self::spec_first_head_in(cells, c, from, p + 1)
                    == Self::spec_first_head_in(cells, c, from + 1, p + 1));
                assert(Self::spec_first_head_in(cells, c, from, p) == Self::spec_first_head_in(
                    cells,
                    c,
                    from + 1,
                    p,
                ));
            }
        }
    }

    /// Build the character-to-position index: for each leading
    /// character (the blank and null characters excepted), the
    /// position of its first occurrence in flat cell order.
    pub fn build_char_map(&self) -> (r: CharPosMap)
        requires
            spec_cells_wf(self.cells@),
        ensures
            spec_cpm_distinct(r.entries@),
            forall|c: char| spec_cpm_get(r.entries@, c) == Self::spec_char_pos(self.cells@, c),
            forall|i: int| 0 <= i < r.entries@.len() ==> key_pos_wf(#[trigger] r.entries@[i].1),
    {
        let mut map = CharPosMap::new();
        let mut p: usize = 0;
        proof {
            assert forall|c: char|
                spec_cpm_get(map.entries@, c) == Self::spec_first_head_in(
                    self.cells@,
                    c,
                    0,
                    0,
                ) by {};
        }
        while p < 124
            invariant
                spec_cells_wf(self.cells@),
                0 <= p <= 124,
                spec_cpm_distinct(map.entries@),
                forall|c: char|
                    spec_cpm_get(map.entries@, c) == Self::spec_first_head_in(
                        self.cells@,
                        c,
                        0,
                        p as int,
                    ),
                forall|i: int|
                    0 <= i < map.entries@.len() ==> key_pos_wf(#[trigger] map.entries@[i].1),
            decreases 124 - p,
        {
            let s = self.cells[p];
            let h = s.head;
            let ghost m0 = map.entries@;
            if h != '\u{3000}' && h != '\u{0}' && !map.has(h) {
                proof {
                    lemma_cpm_get_some_iff_has(m0, h);
                }
                let kp = pos_of_cell(p);
                map.put_new(h, kp);
            }
            proof {
                assert forall|c: char|
                    spec_cpm_get(map.entries@, c) == Self::spec_first_head_in(
                        self.cells@,
                        c,
                        0,
                        p as int + 1,
                    ) by {
                    Self::lemma_first_head_extend(self.cells@, c, 0, p as int);
                    lemma_cpm_get_some_iff_has(m0, c);
                };
            }
            p = p + 1;
        }
        map
    }
}

/// No symbol other than the blank token occurs twice.
pub open spec fn spec_distinct_nonblank(s: Seq<Symbol>) -> bool {
    forall|i: int, j: int|
        0 <= i < j < s.len() && s[i] == s[j] ==> s[i] == spec_blank()
}

/// A symbol universe the search can place: pairwise-distinct
/// symbols, none blank, none fixed.
pub open spec fn spec_universe_ok(s: Seq<Symbol>) -> bool {
    &&& forall|i: int, j: int| 0 <= i < j < s.len() ==> s[i] != s[j]
    &&& forall|i: int|
        0 <= i < s.len() ==> s[i] != spec_blank() && !spec_is_fixed_symbol(#[trigger] s[i])
}

/// Inserting into a sequence inserts into its multiset.
pub proof fn lemma_insert_to_multiset<A>(s: Seq<A>, i: int, x: A)
    requires
        0 <= i <= s.len(),
    ensures
        s.insert(i, x).to_multiset() =~= s.to_multiset().insert(x),
    decreases s.len(),
{
    broadcast use vstd::seq_lib::group_to_multiset_ensures;
    broadcast use vstd::multiset::group_multiset_axioms;

    let t = s.insert(i, x);
    s.insert_ensures(i, x);
    t.remove_ensures(i);
    assert(t.remove(i) =~= s);
    assert(t[i] == x);
    assert(t.remove(i).to_multiset() =~= t.to_multiset().remove(t[i]));
    assert(t.contains(x)) by {
        assert(t[i] == x);
    };
    assert(t.to_multiset().count(x) > 0);
    assert forall|y: A| t.to_multiset().count(y) == s.to_multiset().insert(x).count(y) by {
        if y == x {
            assert(s.to_multiset().count(x) == t.to_multiset().remove(x).count(x));
        } else {
            assert(s.to_multiset().count(y) == t.to_multiset().remove(x).count(y));
        }
    };
}

/// Distinctness away from the blank token, read off the multiset.
proof fn lemma_distinct_nonblank_to_counts(s: Seq<Symbol>)
    requires
        spec_distinct_nonblank(s),
    ensures
        forall|x: Symbol|
            x != spec_blank() ==> #[trigger] s.to_multiset().count(x) <= 1,
    decreases s.len(),
{
    broadcast use vstd::seq_lib::group_to_multiset_ensures;
    broadcast use vstd::multiset::group_multiset_axioms;

    if s.len() > 0 {
        let dl = s.drop_last();
        let last = s.last();
        assert(dl.push(last) =~= s);
        assert(spec_distinct_nonblank(dl)) by {
            assert(forall|i: int| 0 <= i < dl.len() ==> dl[i] == s[i]);
        };
        lemma_distinct_nonblank_to_counts(dl);
        assert forall|x: Symbol|
            x != spec_blank() implies #[trigger] s.to_multiset().count(x) <= 1 by {
            assert(s.to_multiset() =~= dl.to_multiset().insert(last));
            if x == last {
                assert(!dl.contains(x)) by {
                    if dl.contains(x) {
                        let i = choose|i: int| 0 <= i < dl.len() && dl[i] == x;
                        assert(s[i] == x && s[s.len() - 1] == x);
                    }
                };
                assert(dl.to_multiset().count(x) == 0);
            }
        };
    }
}

/// Bounded multiset counts give distinctness away from the blank.
proof fn lemma_counts_to_distinct_nonblank(s: Seq<Symbol>)
    requires
        forall|x: Symbol|
            x != spec_blank() ==> #[trigger] s.to_multiset().count(x) <= 1,
    ensures
        spec_distinct_nonblank(s),
{
    broadcast use vstd::seq_lib::group_to_multiset_ensures;
    broadcast use vstd::multiset::group_multiset_axioms;

    assert forall|i: int, j: int|
        0 <= i < j < s.len() && s[i] == s[j] implies s[i] == spec_blank() by {
        if s[i] != spec_blank() {
            let s0 = s.subrange(0, j);
            let s1 = s.subrange(j, s.len() as int);
            assert(s =~= s0 + s1);
            vstd::seq_lib::lemma_multiset_commutative(s0, s1);
            assert(s0[i] == s[i]);
            assert(s0.contains(s[i]));
            assert(s1[0] == s[j]);
            assert(s1.contains(s[i]));
            assert(s0.to_multiset().count(s[i]) >= 1);
            assert(s1.to_multiset().count(s[i]) >= 1);
            assert(s.to_multiset().count(s[i]) >= 2);
        }
    };
}

/// Swap two cells of a symbol vector.
fn swap_symbols(v: &mut Vec<Symbol>, i: usize, j: usize)
    requires
        i < old(v)@.len(),
        j < old(v)@.len(),
    ensures
        final(v)@ == old(v)@.update(i as int, old(v)@[j as int]).update(j as int, old(v)@[i as int]),
        final(v)@.to_multiset() == old(v)@.to_multiset(),
        final(v)@.len() == old(v)@.len(),
{
    broadcast use vstd::seq_lib::group_to_multiset_ensures;
    broadcast use vstd::multiset::group_multiset_axioms;

    let ghost s0 = v@;
    let a = v[i];
    let b = v[j];
    v[i] = b;
    v[j] = a;
    proof {
        let t = s0.update(i as int, s0[j as int]).update(j as int, s0[i as int]);
        assert(v@ =~= t);
        if i == j {
            assert(t =~= s0);
        } else {
            let lo: int = if i < j { i as int } else { j as int };
            let hi: int = if i < j { j as int } else { i as int };
            assert(t.remove(hi) =~= s0.remove(hi).update(lo, s0[hi]));
            let u = s0.remove(hi);
            let w = t.remove(hi);
            assert(w =~= u.update(lo, s0[hi]));
            assert(u.remove(lo) =~= w.remove(lo));
            assert(u[lo] == s0[lo] && w[lo] == s0[hi]);
            assert(t[hi] == s0[lo]);
            assert(u.to_multiset() =~= s0.to_multiset().remove(s0[hi]));
            assert(w.to_multiset() =~= t.to_multiset().remove(s0[lo]));
            assert(u.remove(lo).to_multiset() =~= u.to_multiset().remove(u[lo]));
            assert(w.remove(lo).to_multiset() =~= w.to_multiset().remove(w[lo]));
            assert(s0.contains(s0[hi]) && s0.contains(s0[lo]));
            assert(t.contains(s0[hi])) by {
                assert(t[lo] == s0[hi]);
            };
            assert(t.contains(s0[lo])) by {
                assert(t[hi] == s0[lo]);
            };
            assert forall|y: Symbol| t.to_multiset().count(y) == s0.to_multiset().count(y) by {
                assert(u.remove(lo).to_multiset() == w.remove(lo).to_multiset());
                assert(s0.to_multiset().remove(s0[hi]).remove(s0[lo]).count(y) == t.to_multiset()
                    .remove(s0[lo]).remove(s0[hi]).count(y));
            };
            assert(t.to_multiset() =~= s0.to_multiset());
        }
    }
}

/// The sequence after the first `i` steps of the seeded shuffle:
/// step `i` swaps position `i - 1` with a position drawn from the
/// rest of the sequence by the `(idx + i - 1)`-th value of the
/// generator's stream.
pub open spec fn spec_shuffle_prefix(v: Seq<Symbol>, seed: u64, idx: nat, i: int) -> Seq<Symbol>
    decreases i,
{
    if i <= 0 {
        v
    } else {
        let prev = spec_shuffle_prefix(v, seed, idx, i - 1);
        if i > v.len() {
            prev
        } else {
            let j = (i - 1) + chacha_stream(seed, (idx + i - 1) as nat) as int % (v.len() - (i
                - 1));
            prev.update(i - 1, prev[j]).update(j, prev[i - 1])
        }
    }
}

/// The seeded shuffle of a sequence.
pub open spec fn spec_shuffle(v: Seq<Symbol>, seed: u64, idx: nat) -> Seq<Symbol> {
    spec_shuffle_prefix(v, seed, idx, v.len() as int)
}

/// Every shuffle prefix keeps the length.
pub proof fn lemma_shuffle_prefix_len(v: Seq<Symbol>, seed: u64, idx: nat, i: int)
    ensures
        spec_shuffle_prefix(v, seed, idx, i).len() == v.len(),
    decreases i,
{
    if i > 0 {
        lemma_shuffle_prefix_len(v, seed, idx, i - 1);
        if i <= v.len() {
            assert(0 <= chacha_stream(seed, (idx + i - 1) as nat) as int % (v.len() - (i - 1))
                < v.len() - (i - 1)) by (nonlinear_arith)
                requires
                    v.len() - (i - 1) >= 1,
            ;
        }
    }
}

/// Shuffle a symbol vector with draws from the generator: the exact
/// seeded shuffle, which in particular keeps the multiset of
/// symbols.
pub fn shuffle_symbols(rng: &mut SeededRng, v: &mut Vec<Symbol>)
    ensures
        final(v)@ == spec_shuffle(old(v)@, old(rng).seed(), old(rng).idx()),
        final(v)@.to_multiset() == old(v)@.to_multiset(),
        final(v)@.len() == old(v)@.len(),
        final(rng).seed() == old(rng).seed(),
        final(rng).idx() == old(rng).idx() + old(v)@.len(),
{
    let ghost v0 = old(v)@;
    let ghost seed0 = old(rng).seed();
    let ghost idx0 = old(rng).idx();
    let n = v.len();
    let mut i: usize = 0;
    while i < n
        invariant
            n == v0.len(),
            0 <= i <= n,
            v@ == spec_shuffle_prefix(v0, seed0, idx0, i as int),
            v@.to_multiset() == v0.to_multiset(),
            v@.len() == v0.len(),
            rng.seed() == seed0,
            rng.idx() == idx0 + i,
        decreases n - i,
    {
        let off = rng.next_below(n - i);
        let j = i + off;
        let ghost before = v@;
        swap_symbols(v, i, j);
        proof {
            lemma_shuffle_prefix_len(v0, seed0, idx0, i as int);
            assert(v@ == spec_shuffle_prefix(v0, seed0, idx0, i as int + 1));
        }
        i = i + 1;
    }
}

/// The universe as the placement sees it: truncated to the 112 free
/// cells, or padded with blank tokens up to them.
pub open spec fn spec_padded_universe(symbols: Seq<Symbol>) -> Seq<Symbol> {
    if symbols.len() >= 112 {
        symbols.take(112)
    } else {
        symbols + Seq::new((112 - symbols.len()) as nat, |t: int| spec_blank())
    }
}

/// The symbols on the free cells below `p`, in flat cell order.
pub open spec fn spec_free_symbols(cells: Seq<Symbol>, p: int) -> Seq<Symbol>
    decreases p,
{
    if p <= 0 {
        Seq::empty()
    } else if spec_is_free_idx(p - 1) {
        spec_free_symbols(cells, p - 1).push(cells[p - 1])
    } else {
        spec_free_symbols(cells, p - 1)
    }
}

/// The free-symbol sequence has one entry per free cell.
pub proof fn lemma_free_symbols_len(cells: Seq<Symbol>, p: int)
    ensures
        spec_free_symbols(cells, p).len() == if p <= 0 {
            0int
        } else {
            spec_free_count(p)
        },
    decreases p,
{
    if p > 0 {
        lemma_free_symbols_len(cells, p - 1);
    }
}

/// Two grids equal on their free cells list the same free symbols.
pub proof fn lemma_free_symbols_congruent(c1: Seq<Symbol>, c2: Seq<Symbol>, p: int)
    requires
        forall|q: int| 0 <= q < p && spec_is_free_idx(q) ==> c1[q] == c2[q],
    ensures
        spec_free_symbols(c1, p) == spec_free_symbols(c2, p),
    decreases p,
{
    if p > 0 {
        lemma_free_symbols_congruent(c1, c2, p - 1);
    }
}

impl Layout {
    /// A random layout: the universe, truncated or padded with
    /// blanks to the 112 free cells, shuffled, and written into the
    /// free cells in flat order; fixed cells get their hardcoded
    /// symbols and forced-blank cells stay blank.
    pub fn random_with_chars(rng: &mut SeededRng, symbols: &Vec<Symbol>) -> (r: Self)
        ensures
            spec_cells_wf(r.cells@),
            spec_fixed_ok(r.cells@),
            spec_blank_ok(r.cells@),
            spec_free_symbols(r.cells@, 124) == spec_shuffle(
                spec_padded_universe(symbols@),
                old(rng).seed(),
                old(rng).idx(),
            ),
            spec_free_symbols(r.cells@, 124).to_multiset() == spec_padded_universe(
                symbols@,
            ).to_multiset(),
            spec_universe_ok(symbols@) ==> spec_free_cells_ok(r.cells@),
            forall|p: int|
                0 <= p < 124 && spec_is_free_idx(p) ==> r.cells@[p] == spec_blank()
                    || symbols@.contains(#[trigger] r.cells@[p]),
            final(rng).seed() == old(rng).seed(),
            final(rng).idx() == old(rng).idx() + 112,
    {
        broadcast use vstd::seq_lib::group_to_multiset_ensures;
        broadcast use vstd::multiset::group_multiset_axioms;

        let mut work: Vec<Symbol> = Vec::new();
        let limit: usize = if symbols.len() < 112 {
            symbols.len()
        } else {
            112
        };
        let mut k: usize = 0;
        while k < limit
            invariant
                limit <= symbols@.len(),
                0 <= k <= limit,
                work@.len() == k,
                forall|t: int| 0 <= t < k ==> work@[t] == symbols@[t],
            decreases limit - k,
        {
            work.push(symbols[k]);
            k = k + 1;
        }
        while work.len() < 112
            invariant
                limit <= symbols@.len(),
                limit <= work@.len() <= 112,
                forall|t: int| 0 <= t < limit ==> work@[t] == symbols@[t],
                forall|t: int| limit <= t < work@.len() ==> work@[t] == spec_blank(),
            decreases 112 - work@.len(),
        {
            work.push(Symbol::blank());
        }
        let ghost work0 = work@;
        proof {
            assert(work0.len() == 112);
            assert(work0 =~= spec_padded_universe(symbols@));
            if spec_universe_ok(symbols@) {
                assert(spec_distinct_nonblank(work0)) by {
                    assert forall|i: int, j: int|
                        0 <= i < j < work0.len() && work0[i] == work0[j] implies work0[i]
                        == spec_blank() by {
                        if j < limit {
                            assert(work0[i] == symbols@[i] && work0[j] == symbols@[j]);
                        } else if i < limit {
                            assert(work0[j] == spec_blank());
                        }
                    };
                };
                lemma_distinct_nonblank_to_counts(work0);
            }
            assert forall|t: int|
                0 <= t < work0.len() implies work0[t] == spec_blank() || symbols@.contains(
                #[trigger] work0[t]) by {
                if t < limit {
                    assert(work0[t] == symbols@[t]);
                }
            };
        }
        shuffle_symbols(rng, &mut work);
        proof {
            if spec_universe_ok(symbols@) {
                lemma_counts_to_distinct_nonblank(work@);
            }
            assert forall|t: int|
                0 <= t < work@.len() implies work@[t] == spec_blank() || symbols@.contains(
                #[trigger] work@[t]) by {
                assert(work@.contains(work@[t]));
                assert(work@.to_multiset().count(work@[t]) > 0);
                assert(work0.to_multiset().count(work@[t]) > 0);
                assert(work0.contains(work@[t]));
                let u = choose|u: int| 0 <= u < work0.len() && work0[u] == work@[t];
                assert(work0[u] == spec_blank() || symbols@.contains(work0[u]));
            };
        }
        let mut layout = Layout::default();
        let mut char_idx: usize = 0;
        let ghost mut assigned: Seq<int> = Seq::empty();
        let mut p: usize = 0;
        while p < 124
            invariant
                spec_cells_wf(layout.cells@),
                work@.len() == 112,
                spec_universe_ok(symbols@) ==> spec_distinct_nonblank(work@),
                forall|t: int|
                    0 <= t < work@.len() ==> work@[t] == spec_blank() || symbols@.contains(
                    #[trigger] work@[t]),
                0 <= p <= 124,
                char_idx <= 112,
                char_idx == spec_free_count(p as int),
                spec_free_symbols(layout.cells@, p as int) == work@.take(char_idx as int),
                assigned.len() == char_idx,
                forall|t: int| 0 <= t < assigned.len() ==> 0 <= #[trigger] assigned[t] < p
                    && spec_is_free_idx(assigned[t]),
                forall|t1: int, t2: int|
                    0 <= t1 < t2 < assigned.len() ==> assigned[t1] < assigned[t2],
                forall|t: int|
                    0 <= t < assigned.len() ==> layout.cells@[#[trigger] assigned[t]] == work@[t],
                forall|q: int|
                    0 <= q < p && spec_is_free_idx(q) && layout.cells@[q] != spec_blank()
                        ==> exists|t: int| 0 <= t < assigned.len() && #[trigger] assigned[t] == q,
                forall|q: int| p <= q < 124 ==> layout.cells@[q] == spec_blank(),
            decreases 124 - p,
        {
            let ghost assigned0 = assigned;
            let ghost cells0 = layout.cells@;
            let kp = pos_of_cell(p);
            if !Self::is_fixed_position(kp.layer, kp.row, kp.col) && !Self::is_blank_position(
                kp.layer,
                kp.row,
                kp.col,
            ) {
                proof {
                    lemma_free_count_mono(p as int + 1, 124);
                    lemma_free_count_value();
                    assert(spec_free_count(p as int + 1) == spec_free_count(p as int) + 1);
                    assert(char_idx < 112);
                }
                if char_idx < 112 {
                    layout.cells[p] = work[char_idx];
                    proof {
                        assigned = assigned.push(p as int);
                        assert(assigned[assigned.len() - 1] == p as int);
                        assert(layout.cells@[p as int] == work@[char_idx as int]);
                        assert(spec_free_symbols(layout.cells@, p as int) == spec_free_symbols(
                            cells0,
                            p as int,
                        )) by {
                            lemma_free_symbols_congruent(layout.cells@, cells0, p as int);
                        };
                        assert(spec_free_symbols(layout.cells@, p as int + 1) =~= work@.take(
                            char_idx as int + 1,
                        ));
                    }
                    char_idx = char_idx + 1;
                }
            }
            proof {
                assert forall|q: int|
                    0 <= q < p + 1 && spec_is_free_idx(q) && layout.cells@[q] != spec_blank()
                        implies exists|t: int|
                    0 <= t < assigned.len() && #[trigger] assigned[t] == q by {
                    if q < p {
                        assert(cells0[q] == layout.cells@[q]);
                        let t0 = choose|t: int|
                            0 <= t < assigned0.len() && #[trigger] assigned0[t] == q;
                        assert(assigned[t0] == q);
                    } else {
                        assert(q == p);
                        if layout.cells@[q] != spec_blank() {
                            assert(assigned[assigned.len() - 1] == q);
                        }
                    }
                };
            }
            p = p + 1;
        }
        proof {
            lemma_free_count_value();
            assert(char_idx == 112);
            assert(spec_free_symbols(layout.cells@, 124) == work@) by {
                assert(work@.take(112) =~= work@);
            };
        }
        let ghost placed = layout.cells@;
        layout.enforce_fixed_cells();
        proof {
            assert(spec_free_symbols(layout.cells@, 124) == spec_free_symbols(placed, 124)) by {
                lemma_free_symbols_congruent(layout.cells@, placed, 124);
            };
            assert(spec_free_symbols(layout.cells@, 124) == spec_shuffle(
                spec_padded_universe(symbols@),
                old(rng).seed(),
                old(rng).idx(),
            ));
            if spec_universe_ok(symbols@) {
                assert forall|p2: int, q2: int|
                    0 <= p2 < q2 < 124 && spec_is_free_idx(p2) && spec_is_free_idx(q2)
                        && layout.cells@[p2] != spec_blank() implies layout.cells@[p2]
                    != layout.cells@[q2] by {
                    if layout.cells@[q2] != spec_blank() && layout.cells@[p2]
                        == layout.cells@[q2] {
                        let t1 = choose|t: int|
                            0 <= t < assigned.len() && #[trigger] assigned[t] == p2;
                        let t2 = choose|t: int|
                            0 <= t < assigned.len() && #[trigger] assigned[t] == q2;
                        assert(layout.cells@[p2] == work@[t1]);
                        assert(layout.cells@[q2] == work@[t2]);
                        assert(t1 != t2);
                        if t1 < t2 {
                            assert(work@[t1] == spec_blank());
                        } else {
                            assert(work@[t2] == spec_blank());
                        }
                    }
                };
            }
            assert forall|p2: int|
                0 <= p2 < 124 && spec_is_free_idx(p2) implies layout.cells@[p2] == spec_blank()
                || symbols@.contains(#[trigger] layout.cells@[p2]) by {
                if layout.cells@[p2] != spec_blank() {
                    let t = choose|t: int| 0 <= t < assigned.len() && #[trigger] assigned[t] == p2;
                    assert(layout.cells@[p2] == work@[t]);
                }
            };
            if spec_universe_ok(symbols@) {
                assert forall|p2: int|
                    0 <= p2 < 124 && spec_is_free_idx(p2) implies !spec_is_fixed_symbol(
                    #[trigger] layout.cells@[p2]) by {
                    if layout.cells@[p2] != spec_blank() {
                        let i = choose|i: int|
                            0 <= i < symbols@.len() && symbols@[i] == layout.cells@[p2];
                    }
                };
            }
        }
        layout
    }

    /// A random layout over the default hiragana symbol universe.
    pub fn random(rng: &mut SeededRng) -> (r: Self)
        ensures
            spec_cells_wf(r.cells@),
            spec_fixed_ok(r.cells@),
            spec_blank_ok(r.cells@),
            final(rng).seed() == old(rng).seed(),
            final(rng).idx() == old(rng).idx() + 112,
    {
        let universe = default_symbol_universe();
        Self::random_with_chars(rng, &universe)
    }
}


/// The default placeable symbol universe, as a sequence.
pub open spec fn spec_default_universe() -> Seq<Symbol> {
    seq![
        Symbol { head: 'い', tail: '\u{0}' },
        Symbol { head: 'う', tail: '\u{0}' },
        Symbol { head: 'ん', tail: '\u{0}' },
        Symbol { head: 'し', tail: '\u{0}' },
        Symbol { head: 'か', tail: '\u{0}' },
        Symbol { head: 'の', tail: '\u{0}' },
        Symbol { head: 'と', tail: '\u{0}' },
        Symbol { head: 'た', tail: '\u{0}' },
        Symbol { head: 'て', tail: '\u{0}' },
        Symbol { head: 'く', tail: '\u{0}' },
        Symbol { head: 'な', tail: '\u{0}' },
        Symbol { head: 'に', tail: '\u{0}' },
        Symbol { head: 'き', tail: '\u{0}' },
        Symbol { head: 'は', tail: '\u{0}' },
        Symbol { head: 'こ', tail: '\u{0}' },
        Symbol { head: 'る', tail: '\u{0}' },
        Symbol { head: 'が', tail: '\u{0}' },
        Symbol { head: 'で', tail: '\u{0}' },
        Symbol { head: 'っ', tail: '\u{0}' },
        Symbol { head: 'す', tail: '\u{0}' },
        Symbol { head: 'ま', tail: '\u{0}' },
        Symbol { head: 'じ', tail: '\u{0}' },
        Symbol { head: 'り', tail: '\u{0}' },
        Symbol { head: 'も', tail: '\u{0}' },
        Symbol { head: 'つ', tail: '\u{0}' },
        Symbol { head: 'お', tail: '\u{0}' },
        Symbol { head: 'ら', tail: '\u{0}' },
        Symbol { head: 'を', tail: '\u{0}' },
        Symbol { head: 'さ', tail: '\u{0}' },
        Symbol { head: 'あ', tail: '\u{0}' },
        Symbol { head: 'れ', tail: '\u{0}' },
        Symbol { head: 'だ', tail: '\u{0}' },
        Symbol { head: 'ち', tail: '\u{0}' },
        Symbol { head: 'せ', tail: '\u{0}' },
        Symbol { head: 'け', tail: '\u{0}' },
        Symbol { head: 'よ', tail: '\u{0}' },
        Symbol { head: 'ど', tail: '\u{0}' },
        Symbol { head: 'そ', tail: '\u{0}' },
        Symbol { head: 'え', tail: '\u{0}' },
        Symbol { head: 'わ', tail: '\u{0}' },
        Symbol { head: 'み', tail: '\u{0}' },
        Symbol { head: 'め', tail: '\u{0}' },
        Symbol { head: 'ひ', tail: '\u{0}' },
        Symbol { head: 'ば', tail: '\u{0}' },
        Symbol { head: 'や', tail: '\u{0}' },
        Symbol { head: 'ろ', tail: '\u{0}' },
        Symbol { head: 'ほ', tail: '\u{0}' },
        Symbol { head: 'ふ', tail: '\u{0}' },
        Symbol { head: 'ぶ', tail: '\u{0}' },
        Symbol { head: 'ね', tail: '\u{0}' },
        Symbol { head: 'ご', tail: '\u{0}' },
        Symbol { head: 'ぎ', tail: '\u{0}' },
        Symbol { head: 'げ', tail: '\u{0}' },
        Symbol { head: 'む', tail: '\u{0}' },
        Symbol { head: 'ず', tail: '\u{0}' },
        Symbol { head: 'び', tail: '\u{0}' },
        Symbol { head: 'ざ', tail: '\u{0}' },
        Symbol { head: 'ぐ', tail: '\u{0}' },
        Symbol { head: 'ぜ', tail: '\u{0}' },
        Symbol { head: 'へ', tail: '\u{0}' },
        Symbol { head: 'べ', tail: '\u{0}' },
        Symbol { head: 'ゆ', tail: '\u{0}' },
        Symbol { head: 'ぼ', tail: '\u{0}' },
        Symbol { head: 'ぷ', tail: '\u{0}' },
        Symbol { head: 'ぞ', tail: '\u{0}' },
        Symbol { head: 'ぱ', tail: '\u{0}' },
        Symbol { head: 'ぽ', tail: '\u{0}' },
        Symbol { head: 'づ', tail: '\u{0}' },
        Symbol { head: 'ぴ', tail: '\u{0}' },
        Symbol { head: 'ぬ', tail: '\u{0}' },
        Symbol { head: 'ぺ', tail: '\u{0}' },
        Symbol { head: 'ヴ', tail: '\u{0}' },
        Symbol { head: 'ぢ', tail: '\u{0}' },
        Symbol { head: 'ぁ', tail: '\u{0}' },
        Symbol { head: 'ぃ', tail: '\u{0}' },
        Symbol { head: 'ぅ', tail: '\u{0}' },
        Symbol { head: 'ぇ', tail: '\u{0}' },
        Symbol { head: 'ぉ', tail: '\u{0}' },
        Symbol { head: 'し', tail: 'ょ' },
        Symbol { head: 'じ', tail: 'ょ' },
        Symbol { head: 'し', tail: 'ゅ' },
        Symbol { head: 'き', tail: 'ょ' },
        Symbol { head: 'し', tail: 'ゃ' },
        Symbol { head: 'ち', tail: 'ょ' },
        Symbol { head: 'じ', tail: 'ゅ' },
        Symbol { head: 'り', tail: 'ょ' },
        Symbol { head: 'き', tail: 'ゅ' },
        Symbol { head: 'ち', tail: 'ゅ' },
        Symbol { head: 'ぎ', tail: 'ょ' },
        Symbol { head: 'に', tail: 'ゅ' },
        Symbol { head: 'ひ', tail: 'ょ' },
        Symbol { head: 'じ', tail: 'ゃ' },
        Symbol { head: 'ち', tail: 'ゃ' },
        Symbol { head: 'り', tail: 'ゅ' },
        Symbol { head: 'き', tail: 'ゃ' },
        Symbol { head: 'び', tail: 'ょ' },
        Symbol { head: 'り', tail: 'ゃ' },
        Symbol { head: 'ぎ', tail: 'ゃ' },
        Symbol { head: 'ぴ', tail: 'ょ' },
        Symbol { head: 'ぴ', tail: 'ゅ' },
        Symbol { head: 'び', tail: 'ゅ' },
        Symbol { head: 'み', tail: 'ょ' },
        Symbol { head: 'ひ', tail: 'ゃ' },
        Symbol { head: 'み', tail: 'ゅ' },
        Symbol { head: 'に', tail: 'ょ' },
        Symbol { head: 'み', tail: 'ゃ' },
        Symbol { head: 'に', tail: 'ゃ' },
        Symbol { head: 'ひ', tail: 'ゅ' },
        Symbol { head: 'び', tail: 'ゃ' },
        Symbol { head: 'ぴ', tail: 'ゃ' },
        Symbol { head: 'ぎ', tail: 'ゅ' },
        Symbol { head: 'ぢ', tail: 'ゃ' },
    ]
}

/// The default universe holds 112 pairwise-distinct placeable
/// symbols: none blank, none fixed.
#[verifier::rlimit(100)]
pub proof fn lemma_default_universe_distinct()
    ensures
        spec_default_universe().len() == 112,
        forall|a: int, b: int|
            0 <= a < b < 112 ==> spec_default_universe()[a] != spec_default_universe()[b],
        forall|a: int|
            0 <= a < 112 ==> spec_default_universe()[a] != spec_blank()
                && !spec_is_fixed_symbol(#[trigger] spec_default_universe()[a]),
{
}

/// The default placeable symbol universe: the hiragana and digraph
/// symbols of the fallback frequency list, most frequent first.
#[verifier::rlimit(100)]
#[verifier::spinoff_prover]
pub fn default_symbol_universe() -> (u: Vec<Symbol>)
    ensures
        u@ == spec_default_universe(),
        u@.len() == 112,
{
    let mut u: Vec<Symbol> = Vec::new();
    u.push(Symbol::single('い'));
    u.push(Symbol::single('う'));
    u.push(Symbol::single('ん'));
    u.push(Symbol::single('し'));
    u.push(Symbol::single('か'));
    u.push(Symbol::single('の'));
    u.push(Symbol::single('と'));
    u.push(Symbol::single('た'));
    u.push(Symbol::single('て'));
    u.push(Symbol::single('く'));
    u.push(Symbol::single('な'));
    u.push(Symbol::single('に'));
    u.push(Symbol::single('き'));
    u.push(Symbol::single('は'));
    u.push(Symbol::single('こ'));
    u.push(Symbol::single('る'));
    u.push(Symbol::single('が'));
    u.push(Symbol::single('で'));
    u.push(Symbol::single('っ'));
    u.push(Symbol::single('す'));
    u.push(Symbol::single('ま'));
    u.push(Symbol::single('じ'));
    u.push(Symbol::single('り'));
    u.push(Symbol::single('も'));
    u.push(Symbol::single('つ'));
    u.push(Symbol::single('お'));
    u.push(Symbol::single('ら'));
    u.push(Symbol::single('を'));
    proof {
        assert(u@.len() == 28);
        assert(u@ =~= spec_default_universe().take(28));
    }
    u.push(Symbol::single('さ'));
    u.push(Symbol::single('あ'));
    u.push(Symbol::single('れ'));
    u.push(Symbol::single('だ'));
    u.push(Symbol::single('ち'));
    u.push(Symbol::single('せ'));
    u.push(Symbol::single('け'));
    u.push(Symbol::single('よ'));
    u.push(Symbol::single('ど'));
    u.push(Symbol::single('そ'));
    u.push(Symbol::single('え'));
    u.push(Symbol::single('わ'));
    u.push(Symbol::single('み'));
    u.push(Symbol::single('め'));
    u.push(Symbol::single('ひ'));
    u.push(Symbol::single('ば'));
    u.push(Symbol::single('や'));
    u.push(Symbol::single('ろ'));
    u.push(Symbol::single('ほ'));
    u.push(Symbol::single('ふ'));
    u.push(Symbol::single('ぶ'));
    u.push(Symbol::single('ね'));
    u.push(Symbol::single('ご'));
    u.push(Symbol::single('ぎ'));
    u.push(Symbol::single('げ'));
    u.push(Symbol::single('む'));
    u.push(Symbol::single('ず'));
    u.push(Symbol::single('び'));
    proof {
        assert(u@.len() == 56);
        assert(u@ =~= spec_default_universe().take(56));
    }
    u.push(Symbol::single('ざ'));
    u.push(Symbol::single('ぐ'));
    u.push(Symbol::single('ぜ'));
    u.push(Symbol::single('へ'));
    u.push(Symbol::single('べ'));
    u.push(Symbol::single('ゆ'));
    u.push(Symbol::single('ぼ'));
    u.push(Symbol::single('ぷ'));
    u.push(Symbol::single('ぞ'));
    u.push(Symbol::single('ぱ'));
    u.push(Symbol::single('ぽ'));
    u.push(Symbol::single('づ'));
    u.push(Symbol::single('ぴ'));
    u.push(Symbol::single('ぬ'));
    u.push(Symbol::single('ぺ'));
    u.push(Symbol::single('ヴ'));
    u.push(Symbol::single('ぢ'));
    u.push(Symbol::single('ぁ'));
    u.push(Symbol::single('ぃ'));
    u.push(Symbol::single('ぅ'));
    u.push(Symbol::single('ぇ'));
    u.push(Symbol::single('ぉ'));
    u.push(Symbol::pair('し', 'ょ'));
    u.push(Symbol::pair('じ', 'ょ'));
    u.push(Symbol::pair('し', 'ゅ'));
    u.push(Symbol::pair('き', 'ょ'));
    u.push(Symbol::pair('し', 'ゃ'));
    u.push(Symbol::pair('ち', 'ょ'));
    proof {
        assert(u@.len() == 84);
        assert(u@ =~= spec_default_universe().take(84));
    }
    u.push(Symbol::pair('じ', 'ゅ'));
    u.push(Symbol::pair('り', 'ょ'));
    u.push(Symbol::pair('き', 'ゅ'));
    u.push(Symbol::pair('ち', 'ゅ'));
    u.push(Symbol::pair('ぎ', 'ょ'));
    u.push(Symbol::pair('に', 'ゅ'));
    u.push(Symbol::pair('ひ', 'ょ'));
    u.push(Symbol::pair('じ', 'ゃ'));
    u.push(Symbol::pair('ち', 'ゃ'));
    u.push(Symbol::pair('り', 'ゅ'));
    u.push(Symbol::pair('き', 'ゃ'));
    u.push(Symbol::pair('び', 'ょ'));
    u.push(Symbol::pair('り', 'ゃ'));
    u.push(Symbol::pair('ぎ', 'ゃ'));
    u.push(Symbol::pair('ぴ', 'ょ'));
    u.push(Symbol::pair('ぴ', 'ゅ'));
    u.push(Symbol::pair('び', 'ゅ'));
    u.push(Symbol::pair('み', 'ょ'));
    u.push(Symbol::pair('ひ', 'ゃ'));
    u.push(Symbol::pair('み', 'ゅ'));
    u.push(Symbol::pair('に', 'ょ'));
    u.push(Symbol::pair('み', 'ゃ'));
    u.push(Symbol::pair('に', 'ゃ'));
    u.push(Symbol::pair('ひ', 'ゅ'));
    u.push(Symbol::pair('び', 'ゃ'));
    u.push(Symbol::pair('ぴ', 'ゃ'));
    u.push(Symbol::pair('ぎ', 'ゅ'));
    u.push(Symbol::pair('ぢ', 'ゃ'));
    proof {
        assert(u@.len() == 112);
        assert(u@ =~= spec_default_universe().take(112));
        assert(spec_default_universe().take(112) =~= spec_default_universe());
    }
    u
}

/// Whether a symbol vector holds the symbol.
pub fn vec_contains_symbol(v: &Vec<Symbol>, s: Symbol) -> (b: bool)
    ensures
        b == v@.contains(s),
{
    let n = v.len();
    let mut i: usize = 0;
    while i < n
        invariant
            n == v@.len(),
            0 <= i <= n,
            forall|j: int| 0 <= j < i ==> v@[j] != s,
        decreases n - i,
    {
        if v[i] == s {
            assert(v@.contains(s));
            return true;
        }
        i = i + 1;
    }
    false
}


/// The positions of the free cells below `p` that hold the symbol,
/// in flat cell order.
pub open spec fn spec_positions_of(cells: Seq<Symbol>, s: Symbol, p: int) -> Seq<KeyPos>
    decreases p,
{
    if p <= 0 {
        Seq::empty()
    } else if spec_is_free_idx(p - 1) && cells[p - 1] == s {
        spec_positions_of(cells, s, p - 1).push(spec_pos_of(p - 1))
    } else {
        spec_positions_of(cells, s, p - 1)
    }
}

/// The position list grows with the bound.
proof fn lemma_positions_of_mono(cells: Seq<Symbol>, s: Symbol, a: int, b: int)
    requires
        0 <= a <= b,
    ensures
        spec_positions_of(cells, s, a).len() <= spec_positions_of(cells, s, b).len(),
    decreases b - a,
{
    if a < b {
        lemma_positions_of_mono(cells, s, a, b - 1);
    }
}

/// A symbol on two free cells has at least two listed positions.
proof fn lemma_positions_of_two(cells: Seq<Symbol>, s: Symbol, q1: int, q2: int)
    requires
        0 <= q1 < q2 < 124,
        spec_is_free_idx(q1) && cells[q1] == s,
        spec_is_free_idx(q2) && cells[q2] == s,
    ensures
        spec_positions_of(cells, s, 124).len() >= 2,
{
    lemma_positions_of_mono(cells, s, q1 + 1, q2);
    lemma_positions_of_mono(cells, s, q2 + 1, 124);
}


/// Number of distinct symbols in a list: the count of first
/// occurrences.
pub open spec fn spec_distinct_symbol_count(s: Seq<Symbol>, i: int) -> int
    decreases i,
{
    if i <= 0 {
        0
    } else {
        spec_distinct_symbol_count(s, i - 1) + if forall|j: int|
            0 <= j < i - 1 ==> #[trigger] s[j] != s[i - 1] {
            1int
        } else {
            0int
        }
    }
}

/// Number of distinct non-blank symbols on the free cells below
/// `p`: the count of first occurrences.
pub open spec fn spec_distinct_free_count(cells: Seq<Symbol>, p: int) -> int
    decreases p,
{
    if p <= 0 {
        0
    } else {
        spec_distinct_free_count(cells, p - 1) + if spec_is_free_idx(p - 1) && cells[p - 1]
            != spec_blank() && (forall|q: int|
            0 <= q < p - 1 && spec_is_free_idx(q) ==> cells[q] != cells[p - 1]) {
            1int
        } else {
            0int
        }
    }
}


/// The duplicate list names the symbol.
pub open spec fn spec_dup_listed(d: Seq<(Symbol, Vec<KeyPos>)>, s: Symbol) -> bool {
    exists|i: int| 0 <= i < d.len() && (#[trigger] d[i]).0 == s
}

/// The symbol occupies two free cells.
pub open spec fn spec_dup_pair(cells: Seq<Symbol>, s: Symbol) -> bool {
    s != spec_blank() && exists|q1: int, q2: int|
        0 <= q1 < q2 < 124 && spec_is_free_idx(q1) && spec_is_free_idx(q2) && cells[q1] == s
            && cells[q2] == s
}

/// The outcome of validating a layout against an expected symbol
/// universe.  The duplicate list is the authoritative validity
/// signal; missing and extra symbols are informational.
#[derive(Clone, Debug)]
pub struct ValidationResult {
    /// Non-blank symbols that occur on more than one free cell,
    /// each with all its positions.
    pub duplicates: Vec<(Symbol, Vec<KeyPos>)>,
    /// Expected symbols absent from every free cell.
    pub missing: Vec<Symbol>,
    /// Placed symbols outside the expected universe.
    pub extra: Vec<Symbol>,
    /// Number of distinct non-blank symbols on free cells.
    pub total_found: usize,
    /// Number of entries in the expected universe.
    pub total_expected: usize,
}

impl ValidationResult {
    /// Whether the layout is free of duplicates.
    pub fn is_valid(&self) -> (b: bool)
        ensures
            b == (self.duplicates@.len() == 0),
    {
        self.duplicates.len() == 0
    }
}

impl Layout {
    /// Check the free cells against an expected symbol universe: a
    /// symbol is a duplicate when it sits on two free cells, missing
    /// when expected but placed nowhere, extra when placed but not
    /// expected.
    pub fn validate(&self, expected: &Vec<Symbol>) -> (r: ValidationResult)
        requires
            spec_cells_wf(self.cells@),
        ensures
            (r.duplicates@.len() == 0) == spec_free_no_dup(self.cells@),
            forall|s: Symbol|
                (#[trigger] spec_dup_listed(r.duplicates@, s)) == spec_dup_pair(self.cells@, s),
            forall|i: int|
                0 <= i < r.duplicates@.len() ==> ((#[trigger] r.duplicates@[i]).1)@
                    == spec_positions_of(self.cells@, r.duplicates@[i].0, 124) && (
                r.duplicates@[i].1)@.len() >= 2,
            forall|s: Symbol|
                r.missing@.contains(s) == (expected@.contains(s) && !spec_free_present(
                    self.cells@,
                    s,
                )),
            forall|a: int, b: int| 0 <= a < b < r.missing@.len() ==> r.missing@[a]
                != r.missing@[b],
            forall|s: Symbol|
                r.extra@.contains(s) == (spec_free_present(self.cells@, s)
                    && !expected@.contains(s)),
            r.total_found == spec_distinct_free_count(self.cells@, 124),
            r.total_expected == spec_distinct_symbol_count(expected@, expected@.len() as int),
    {
        let cells = &self.cells;
        let mut seen: Vec<Symbol> = Vec::new();
        let mut dups: Vec<Symbol> = Vec::new();
        let mut p: usize = 0;
        while p < 124
            invariant
                spec_cells_wf(self.cells@),
                0 <= p <= 124,
                cells@ == self.cells@,
                forall|s: Symbol|
                    seen@.contains(s) == (s != spec_blank() && exists|q: int|
                        0 <= q < p && spec_is_free_idx(q) && self.cells@[q] == s),
                forall|s: Symbol|
                    dups@.contains(s) == (s != spec_blank() && exists|q1: int, q2: int|
                        0 <= q1 < q2 < p && spec_is_free_idx(q1) && spec_is_free_idx(q2)
                            && self.cells@[q1] == s && self.cells@[q2] == s),
                forall|a: int, b: int| 0 <= a < b < dups@.len() ==> dups@[a] != dups@[b],
                seen@.len() == spec_distinct_free_count(self.cells@, p as int),
            decreases 124 - p,
        {
            let ghost seen0 = seen@;
            let ghost dups0 = dups@;
            let kp = pos_of_cell(p);
            if !Self::is_fixed_position(kp.layer, kp.row, kp.col) && !Self::is_blank_position(
                kp.layer,
                kp.row,
                kp.col,
            ) {
                let s = cells[p];
                if !s.is_blank() {
                    if vec_contains_symbol(&seen, s) {
                        if !vec_contains_symbol(&dups, s) {
                            dups.push(s);
                        }
                        proof {
                            assert(seen0.contains(s));
                            let q0 = choose|q0: int|
                                0 <= q0 < p && spec_is_free_idx(q0) && self.cells@[q0] == s;
                            assert(!(forall|q: int|
                                0 <= q < p && spec_is_free_idx(q) ==> self.cells@[q]
                                    != self.cells@[p as int]));
                        }
                    } else {
                        seen.push(s);
                        proof {
                            assert forall|q: int|
                                0 <= q < p && spec_is_free_idx(q) implies self.cells@[q]
                                != self.cells@[p as int] by {
                                if self.cells@[q] == s {
                                    assert(seen0.contains(s));
                                }
                            };
                        }
                    }
                } else {
                    proof {
                        assert(self.cells@[p as int] == spec_blank());
                    }
                }
            }
            proof {
                assert forall|s: Symbol|
                    seen@.contains(s) == (s != spec_blank() && exists|q: int|
                        0 <= q < p + 1 && spec_is_free_idx(q) && self.cells@[q] == s) by {
                    if seen@.contains(s) {
                        if seen0.contains(s) {
                            let q = choose|q: int|
                                0 <= q < p && spec_is_free_idx(q) && self.cells@[q] == s;
                            assert(0 <= q < p + 1 && spec_is_free_idx(q) && self.cells@[q] == s);
                        } else {
                            assert(seen@ == seen0.push(s));
                            assert(spec_is_free_idx(p as int) && self.cells@[p as int] == s);
                        }
                    }
                    if s != spec_blank() && exists|q: int|
                        0 <= q < p + 1 && spec_is_free_idx(q) && self.cells@[q] == s {
                        let q = choose|q: int|
                            0 <= q < p + 1 && spec_is_free_idx(q) && self.cells@[q] == s;
                        if q < p {
                            assert(seen0.contains(s));
                            assert(seen@.contains(s)) by {
                                let k = choose|k: int| 0 <= k < seen0.len() && seen0[k] == s;
                                assert(seen@[k] == s);
                            };
                        } else {
                            assert(s == self.cells@[p as int]);
                            if seen0.contains(s) {
                                assert(seen@.contains(s)) by {
                                    let k = choose|k: int|
                                        0 <= k < seen0.len() && seen0[k] == s;
                                    assert(seen@[k] == s);
                                };
                            } else {
                                assert(seen@ == seen0.push(s));
                                assert(seen@[seen@.len() - 1] == s);
                            }
                        }
                    }
                };
                assert forall|s: Symbol|
                    dups@.contains(s) == (s != spec_blank() && exists|q1: int, q2: int|
                        0 <= q1 < q2 < p + 1 && spec_is_free_idx(q1) && spec_is_free_idx(q2)
                            && self.cells@[q1] == s && self.cells@[q2] == s) by {
                    if dups@.contains(s) {
                        if dups0.contains(s) {
                            let (q1, q2) = choose|q1: int, q2: int|
                                0 <= q1 < q2 < p && spec_is_free_idx(q1) && spec_is_free_idx(q2)
                                    && self.cells@[q1] == s && self.cells@[q2] == s;
                            assert(0 <= q1 < q2 < p + 1 && spec_is_free_idx(q1)
                                && spec_is_free_idx(q2) && self.cells@[q1] == s
                                && self.cells@[q2] == s);
                        } else {
                            assert(dups@ == dups0.push(s));
                            assert(seen0.contains(s));
                            let q1 = choose|q1: int|
                                0 <= q1 < p && spec_is_free_idx(q1) && self.cells@[q1] == s;
                            assert(spec_is_free_idx(p as int) && self.cells@[p as int] == s);
                            assert(0 <= q1 < p + 1 && self.cells@[q1] == s);
                        }
                    }
                    if s != spec_blank() && exists|q1: int, q2: int|
                        0 <= q1 < q2 < p + 1 && spec_is_free_idx(q1) && spec_is_free_idx(q2)
                            && self.cells@[q1] == s && self.cells@[q2] == s {
                        let (q1, q2) = choose|q1: int, q2: int|
                            0 <= q1 < q2 < p + 1 && spec_is_free_idx(q1) && spec_is_free_idx(q2)
                                && self.cells@[q1] == s && self.cells@[q2] == s;
                        if q2 < p {
                            assert(dups0.contains(s));
                            let k = choose|k: int| 0 <= k < dups0.len() && dups0[k] == s;
                            assert(dups@[k] == s);
                        } else {
                            assert(q2 == p);
                            assert(seen0.contains(s));
                            if dups0.contains(s) {
                                let k = choose|k: int| 0 <= k < dups0.len() && dups0[k] == s;
                                assert(dups@[k] == s);
                            } else {
                                assert(dups@ == dups0.push(s));
                                assert(dups@[dups@.len() - 1] == s);
                            }
                        }
                    }
                };
            }
            proof {
                assert forall|a: int, b: int|
                    0 <= a < b < dups@.len() implies dups@[a] != dups@[b] by {
                    if b < dups0.len() {
                    } else if b == dups0.len() {
                        assert(dups@[a] == dups0[a]);
                        if dups@[a] == dups@[b] {
                            assert(dups0.contains(dups@[b]));
                        }
                    }
                };
            }
            p = p + 1;
        }
        let ghost dup_syms = dups@;
        let mut duplicates: Vec<(Symbol, Vec<KeyPos>)> = Vec::new();
        let nd = dups.len();
        let mut d: usize = 0;
        while d < nd
            invariant
                spec_cells_wf(self.cells@),
                nd == dup_syms.len(),
                dups@ == dup_syms,
                0 <= d <= nd,
                duplicates@.len() == d,
                forall|s: Symbol|
                    dup_syms.contains(s) == (s != spec_blank() && exists|q1: int, q2: int|
                        0 <= q1 < q2 < 124 && spec_is_free_idx(q1) && spec_is_free_idx(q2)
                            && self.cells@[q1] == s && self.cells@[q2] == s),
                forall|i: int|
                    0 <= i < d ==> (#[trigger] duplicates@[i]).0 == dup_syms[i],
                forall|i: int|
                    0 <= i < d ==> ((#[trigger] duplicates@[i]).1)@ == spec_positions_of(
                        self.cells@,
                        dup_syms[i],
                        124,
                    ) && (duplicates@[i].1)@.len() >= 2,
            decreases nd - d,
        {
            let sym = dups[d];
            let ps = self.collect_positions(sym);
            proof {
                assert(dup_syms.contains(sym)) by {
                    assert(dup_syms[d as int] == sym);
                };
                let (q1, q2) = choose|q1: int, q2: int|
                    0 <= q1 < q2 < 124 && spec_is_free_idx(q1) && spec_is_free_idx(q2)
                        && self.cells@[q1] == sym && self.cells@[q2] == sym;
                lemma_positions_of_two(self.cells@, sym, q1, q2);
            }
            duplicates.push((sym, ps));
            d = d + 1;
        }
        let mut missing: Vec<Symbol> = Vec::new();
        let ne = expected.len();
        let mut k: usize = 0;
        while k < ne
            invariant
                spec_cells_wf(self.cells@),
                ne == expected@.len(),
                0 <= k <= ne,
                forall|s: Symbol|
                    seen@.contains(s) == spec_free_present(self.cells@, s),
                forall|s: Symbol|
                    missing@.contains(s) == (exists|j: int|
                        0 <= j < k && expected@[j] == s && !seen@.contains(s)),
                forall|a: int, b: int| 0 <= a < b < missing@.len() ==> missing@[a] != missing@[b],
            decreases ne - k,
        {
            let ghost missing0 = missing@;
            let e = expected[k];
            if !vec_contains_symbol(&seen, e) && !vec_contains_symbol(&missing, e) {
                missing.push(e);
            }
            proof {
                assert forall|s: Symbol|
                    missing@.contains(s) == (exists|j: int|
                        0 <= j < k + 1 && expected@[j] == s && !seen@.contains(s)) by {
                    if missing@.contains(s) {
                        if missing0.contains(s) {
                            let j = choose|j: int|
                                0 <= j < k && expected@[j] == s && !seen@.contains(s);
                            assert(0 <= j < k + 1 && expected@[j] == s);
                        } else {
                            assert(missing@ == missing0.push(e));
                            assert(s == e);
                            assert(expected@[k as int] == s);
                        }
                    }
                    if exists|j: int| 0 <= j < k + 1 && expected@[j] == s && !seen@.contains(s) {
                        let j = choose|j: int|
                            0 <= j < k + 1 && expected@[j] == s && !seen@.contains(s);
                        if j < k {
                            assert(missing0.contains(s));
                            let t = choose|t: int| 0 <= t < missing0.len() && missing0[t] == s;
                            assert(missing@[t] == s);
                        } else {
                            assert(s == e);
                            if missing0.contains(s) {
                                let t = choose|t: int|
                                    0 <= t < missing0.len() && missing0[t] == s;
                                assert(missing@[t] == s);
                            } else {
                                assert(missing@[missing@.len() - 1] == s);
                            }
                        }
                    }
                };
                assert forall|a: int, b: int|
                    0 <= a < b < missing@.len() implies missing@[a] != missing@[b] by {
                    if b < missing0.len() {
                    } else if b == missing0.len() {
                        assert(missing@[a] == missing0[a]);
                        if missing@[a] == missing@[b] {
                            assert(missing0.contains(missing@[b]));
                        }
                    }
                };
            }
            k = k + 1;
        }
        let mut extra: Vec<Symbol> = Vec::new();
        let ns = seen.len();
        let mut k2: usize = 0;
        while k2 < ns
            invariant
                spec_cells_wf(self.cells@),
                ns == seen@.len(),
                0 <= k2 <= ns,
                forall|s: Symbol|
                    seen@.contains(s) == spec_free_present(self.cells@, s),
                forall|s: Symbol|
                    extra@.contains(s) == (exists|j: int|
                        0 <= j < k2 && seen@[j] == s && !expected@.contains(s)),
            decreases ns - k2,
        {
            let ghost extra0 = extra@;
            let e = seen[k2];
            let mut inexp = false;
            let mut t: usize = 0;
            while t < expected.len()
                invariant
                    0 <= t <= expected@.len(),
                    inexp == exists|j: int| 0 <= j < t && expected@[j] == e,
                decreases expected@.len() - t,
            {
                if expected[t] == e {
                    inexp = true;
                }
                t = t + 1;
            }
            if !inexp {
                extra.push(e);
            }
            proof {
                assert forall|s: Symbol|
                    extra@.contains(s) == (exists|j: int|
                        0 <= j < k2 + 1 && seen@[j] == s && !expected@.contains(s)) by {
                    if extra@.contains(s) {
                        if extra0.contains(s) {
                            let j = choose|j: int|
                                0 <= j < k2 && seen@[j] == s && !expected@.contains(s);
                            assert(0 <= j < k2 + 1 && seen@[j] == s);
                        } else {
                            assert(extra@ == extra0.push(e));
                            assert(s == e);
                            assert(seen@[k2 as int] == s);
                        }
                    }
                    if exists|j: int| 0 <= j < k2 + 1 && seen@[j] == s && !expected@.contains(s) {
                        let j = choose|j: int|
                            0 <= j < k2 + 1 && seen@[j] == s && !expected@.contains(s);
                        if j < k2 {
                            assert(extra0.contains(s));
                            let t2 = choose|t2: int| 0 <= t2 < extra0.len() && extra0[t2] == s;
                            assert(extra@[t2] == s);
                        } else {
                            assert(s == e);
                            assert(extra@[extra@.len() - 1] == s);
                        }
                    }
                };
            }
            k2 = k2 + 1;
        }
        proof {
            assert((dups@.len() == 0) == spec_free_no_dup(self.cells@)) by {
                if dups@.len() != 0 {
                    assert(dups@.contains(dups@[0]));
                }
                if !spec_free_no_dup(self.cells@) {
                    let (q1, q2) = choose|q1: int, q2: int|
                        0 <= q1 < q2 < 124 && spec_is_free_idx(q1) && spec_is_free_idx(q2)
                            && self.cells@[q1] != spec_blank() && self.cells@[q1]
                            == self.cells@[q2];
                    assert(dups@.contains(self.cells@[q1]));
                }
            };
            assert forall|s: Symbol|
                missing@.contains(s) == (expected@.contains(s) && !spec_free_present(
                    self.cells@,
                    s,
                )) by {
                if expected@.contains(s) && !seen@.contains(s) {
                    let j = choose|j: int| 0 <= j < expected@.len() && expected@[j] == s;
                }
            };
            assert forall|s: Symbol|
                extra@.contains(s) == (spec_free_present(self.cells@, s) && !expected@.contains(
                    s,
                )) by {
                if seen@.contains(s) && !expected@.contains(s) {
                    let j = choose|j: int| 0 <= j < seen@.len() && seen@[j] == s;
                }
            };
        }
        proof {
            assert((duplicates@.len() == 0) == spec_free_no_dup(self.cells@)) by {
                if duplicates@.len() != 0 {
                    assert(dup_syms.contains(dup_syms[0]));
                }
                if !spec_free_no_dup(self.cells@) {
                    let (q1, q2) = choose|q1: int, q2: int|
                        0 <= q1 < q2 < 124 && spec_is_free_idx(q1) && spec_is_free_idx(q2)
                            && self.cells@[q1] != spec_blank() && self.cells@[q1]
                            == self.cells@[q2];
                    assert(dup_syms.contains(self.cells@[q1]));
                    let t = choose|t: int| 0 <= t < dup_syms.len() && dup_syms[t]
                        == self.cells@[q1];
                }
            };
            assert forall|s: Symbol|
                (#[trigger] spec_dup_listed(duplicates@, s)) == spec_dup_pair(
                    self.cells@,
                    s,
                ) by {
                if spec_dup_listed(duplicates@, s) {
                    let i = choose|i: int|
                        0 <= i < duplicates@.len() && (#[trigger] duplicates@[i]).0 == s;
                    assert(dup_syms[i] == s);
                    assert(dup_syms.contains(s));
                }
                if spec_dup_pair(self.cells@, s) {
                    assert(dup_syms.contains(s));
                    let t = choose|t: int| 0 <= t < dup_syms.len() && dup_syms[t] == s;
                    assert(duplicates@[t].0 == s);
                    assert(spec_dup_listed(duplicates@, s));
                }
            };
        }
        let total_found = seen.len();
        let mut total_expected: usize = 0;
        let mut ke: usize = 0;
        while ke < ne
            invariant
                ne == expected@.len(),
                0 <= ke <= ne,
                total_expected == spec_distinct_symbol_count(expected@, ke as int),
                total_expected <= ke,
            decreases ne - ke,
        {
            let e = expected[ke];
            let mut fresh = true;
            let mut j: usize = 0;
            while j < ke
                invariant
                    ne == expected@.len(),
                    ke < ne,
                    e == expected@[ke as int],
                    0 <= j <= ke,
                    fresh == forall|t: int| 0 <= t < j ==> expected@[t] != e,
                decreases ke - j,
            {
                if expected[j] == e {
                    fresh = false;
                }
                j = j + 1;
            }
            if fresh {
                total_expected = total_expected + 1;
            }
            ke = ke + 1;
        }
        ValidationResult {
            duplicates,
            missing,
            extra,
            total_found,
            total_expected,
        }
    }

    /// The positions of every free cell holding the symbol.
    fn collect_positions(&self, s: Symbol) -> (ps: Vec<KeyPos>)
        requires
            spec_cells_wf(self.cells@),
        ensures
            ps@ == spec_positions_of(self.cells@, s, 124),
    {
        let mut ps: Vec<KeyPos> = Vec::new();
        let mut p: usize = 0;
        while p < 124
            invariant
                spec_cells_wf(self.cells@),
                0 <= p <= 124,
                ps@ == spec_positions_of(self.cells@, s, p as int),
            decreases 124 - p,
        {
            let kp = pos_of_cell(p);
            if !Self::is_fixed_position(kp.layer, kp.row, kp.col) && !Self::is_blank_position(
                kp.layer,
                kp.row,
                kp.col,
            ) && self.cells[p] == s {
                ps.push(kp);
            }
            p = p + 1;
        }
        ps
    }
}


/// The reference table of the historical kana layout: front face as
/// layer 0 (shift triggers and voicing marks excluded), back face
/// as layer 1.
pub open spec fn spec_tsuki_table() -> Seq<(char, KeyPos)> {
    seq![
        ('そ', KeyPos { layer: 0, row: 0, col: 0 }),
        ('こ', KeyPos { layer: 0, row: 0, col: 1 }),
        ('し', KeyPos { layer: 0, row: 0, col: 2 }),
        ('て', KeyPos { layer: 0, row: 0, col: 3 }),
        ('ょ', KeyPos { layer: 0, row: 0, col: 4 }),
        ('つ', KeyPos { layer: 0, row: 0, col: 5 }),
        ('ん', KeyPos { layer: 0, row: 0, col: 6 }),
        ('い', KeyPos { layer: 0, row: 0, col: 7 }),
        ('の', KeyPos { layer: 0, row: 0, col: 8 }),
        ('り', KeyPos { layer: 0, row: 0, col: 9 }),
        ('は', KeyPos { layer: 0, row: 1, col: 0 }),
        ('か', KeyPos { layer: 0, row: 1, col: 1 }),
        ('と', KeyPos { layer: 0, row: 1, col: 3 }),
        ('た', KeyPos { layer: 0, row: 1, col: 4 }),
        ('く', KeyPos { layer: 0, row: 1, col: 5 }),
        ('う', KeyPos { layer: 0, row: 1, col: 6 }),
        ('き', KeyPos { layer: 0, row: 1, col: 9 }),
        ('す', KeyPos { layer: 0, row: 2, col: 0 }),
        ('け', KeyPos { layer: 0, row: 2, col: 1 }),
        ('に', KeyPos { layer: 0, row: 2, col: 2 }),
        ('な', KeyPos { layer: 0, row: 2, col: 3 }),
        ('さ', KeyPos { layer: 0, row: 2, col: 4 }),
        ('っ', KeyPos { layer: 0, row: 2, col: 5 }),
        ('る', KeyPos { layer: 0, row: 2, col: 6 }),
        ('、', KeyPos { layer: 0, row: 2, col: 7 }),
        ('。', KeyPos { layer: 0, row: 2, col: 8 }),
        ('ぁ', KeyPos { layer: 1, row: 0, col: 0 }),
        ('ひ', KeyPos { layer: 1, row: 0, col: 1 }),
        ('ほ', KeyPos { layer: 1, row: 0, col: 2 }),
        ('ふ', KeyPos { layer: 1, row: 0, col: 3 }),
        ('め', KeyPos { layer: 1, row: 0, col: 4 }),
        ('ぬ', KeyPos { layer: 1, row: 0, col: 5 }),
        ('え', KeyPos { layer: 1, row: 0, col: 6 }),
        ('み', KeyPos { layer: 1, row: 0, col: 7 }),
        ('や', KeyPos { layer: 1, row: 0, col: 8 }),
        ('ぇ', KeyPos { layer: 1, row: 0, col: 9 }),
        ('ぃ', KeyPos { layer: 1, row: 1, col: 0 }),
        ('を', KeyPos { layer: 1, row: 1, col: 1 }),
        ('ら', KeyPos { layer: 1, row: 1, col: 2 }),
        ('あ', KeyPos { layer: 1, row: 1, col: 3 }),
        ('よ', KeyPos { layer: 1, row: 1, col: 4 }),
        ('ま', KeyPos { layer: 1, row: 1, col: 5 }),
        ('お', KeyPos { layer: 1, row: 1, col: 6 }),
        ('も', KeyPos { layer: 1, row: 1, col: 7 }),
        ('わ', KeyPos { layer: 1, row: 1, col: 8 }),
        ('ゆ', KeyPos { layer: 1, row: 1, col: 9 }),
        ('ぅ', KeyPos { layer: 1, row: 2, col: 0 }),
        ('へ', KeyPos { layer: 1, row: 2, col: 1 }),
        ('せ', KeyPos { layer: 1, row: 2, col: 2 }),
        ('ゅ', KeyPos { layer: 1, row: 2, col: 3 }),
        ('ゃ', KeyPos { layer: 1, row: 2, col: 4 }),
        ('む', KeyPos { layer: 1, row: 2, col: 5 }),
        ('ろ', KeyPos { layer: 1, row: 2, col: 6 }),
        ('ね', KeyPos { layer: 1, row: 2, col: 7 }),
        ('ー', KeyPos { layer: 1, row: 2, col: 8 }),
        ('ぉ', KeyPos { layer: 1, row: 2, col: 9 }),
    ]
}

/// The reference positions of the historical kana layout: front
/// face as layer 0, back face as layer 1.
pub struct TsukiLayout {
    /// Character positions of the reference layout.
    pub char_positions: CharPosMap,
}

impl TsukiLayout {
    /// The reference table.
    #[verifier::rlimit(100)]
    pub fn new() -> (r: Self)
        ensures
            r.char_positions.entries@ == spec_tsuki_table(),
            r.char_positions.entries@.len() == 56,
    {
        let mut m = CharPosMap::new();
    m.entries.push(('そ', KeyPos::new(0, 0, 0)));
    m.entries.push(('こ', KeyPos::new(0, 0, 1)));
    m.entries.push(('し', KeyPos::new(0, 0, 2)));
    m.entries.push(('て', KeyPos::new(0, 0, 3)));
    m.entries.push(('ょ', KeyPos::new(0, 0, 4)));
    m.entries.push(('つ', KeyPos::new(0, 0, 5)));
    m.entries.push(('ん', KeyPos::new(0, 0, 6)));
    m.entries.push(('い', KeyPos::new(0, 0, 7)));
    m.entries.push(('の', KeyPos::new(0, 0, 8)));
    m.entries.push(('り', KeyPos::new(0, 0, 9)));
    m.entries.push(('は', KeyPos::new(0, 1, 0)));
    m.entries.push(('か', KeyPos::new(0, 1, 1)));
    m.entries.push(('と', KeyPos::new(0, 1, 3)));
    m.entries.push(('た', KeyPos::new(0, 1, 4)));
    m.entries.push(('く', KeyPos::new(0, 1, 5)));
    m.entries.push(('う', KeyPos::new(0, 1, 6)));
    m.entries.push(('き', KeyPos::new(0, 1, 9)));
    m.entries.push(('す', KeyPos::new(0, 2, 0)));
    m.entries.push(('け', KeyPos::new(0, 2, 1)));
    m.entries.push(('に', KeyPos::new(0, 2, 2)));
    m.entries.push(('な', KeyPos::new(0, 2, 3)));
    m.entries.push(('さ', KeyPos::new(0, 2, 4)));
    m.entries.push(('っ', KeyPos::new(0, 2, 5)));
    m.entries.push(('る', KeyPos::new(0, 2, 6)));
    m.entries.push(('、', KeyPos::new(0, 2, 7)));
    m.entries.push(('。', KeyPos::new(0, 2, 8)));
    m.entries.push(('ぁ', KeyPos::new(1, 0, 0)));
    m.entries.push(('ひ', KeyPos::new(1, 0, 1)));
    m.entries.push(('ほ', KeyPos::new(1, 0, 2)));
    m.entries.push(('ふ', KeyPos::new(1, 0, 3)));
    m.entries.push(('め', KeyPos::new(1, 0, 4)));
    m.entries.push(('ぬ', KeyPos::new(1, 0, 5)));
    m.entries.push(('え', KeyPos::new(1, 0, 6)));
    m.entries.push(('み', KeyPos::new(1, 0, 7)));
    m.entries.push(('や', KeyPos::new(1, 0, 8)));
    m.entries.push(('ぇ', KeyPos::new(1, 0, 9)));
    m.entries.push(('ぃ', KeyPos::new(1, 1, 0)));
    m.entries.push(('を', KeyPos::new(1, 1, 1)));
    m.entries.push(('ら', KeyPos::new(1, 1, 2)));
    m.entries.push(('あ', KeyPos::new(1, 1, 3)));
    m.entries.push(('よ', KeyPos::new(1, 1, 4)));
    m.entries.push(('ま', KeyPos::new(1, 1, 5)));
    m.entries.push(('お', KeyPos::new(1, 1, 6)));
    m.entries.push(('も', KeyPos::new(1, 1, 7)));
    m.entries.push(('わ', KeyPos::new(1, 1, 8)));
    m.entries.push(('ゆ', KeyPos::new(1, 1, 9)));
    m.entries.push(('ぅ', KeyPos::new(1, 2, 0)));
    m.entries.push(('へ', KeyPos::new(1, 2, 1)));
    m.entries.push(('せ', KeyPos::new(1, 2, 2)));
    m.entries.push(('ゅ', KeyPos::new(1, 2, 3)));
    m.entries.push(('ゃ', KeyPos::new(1, 2, 4)));
    m.entries.push(('む', KeyPos::new(1, 2, 5)));
    m.entries.push(('ろ', KeyPos::new(1, 2, 6)));
    m.entries.push(('ね', KeyPos::new(1, 2, 7)));
    m.entries.push(('ー', KeyPos::new(1, 2, 8)));
    m.entries.push(('ぉ', KeyPos::new(1, 2, 9)));
    proof {
        assert(m.entries@ =~= spec_tsuki_table());
    }
    TsukiLayout { char_positions: m }
    }
}

impl Default for TsukiLayout {
    /// The reference table.
    fn default() -> (r: Self)
        ensures
            r.char_positions.entries@ == spec_tsuki_table(),
    {
        Self::new()
    }
}

} // verus!
