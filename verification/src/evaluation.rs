//! The fitness evaluator: per-metric scores of a layout against the
//! corpus statistics, and their combination into one fitness value.
//!
//! All scores are integers in millionths of a percent point (a full
//! score of 100 is 100_000_000); the fitness combines a weighted
//! geometric mean of the core metrics, computed in the log domain
//! with the fixed-point routines of the numeric module, with a
//! weighted additive bonus.

use vstd::prelude::*;

verus! {

use crate::charmap::{spec_cpm_get, CharPosMap};
use crate::corpus::{spec_entry_total, CorpusStats, Gram};
use crate::geometry::{spec_finger, spec_weight_milli, KeyPos};
use crate::layout::{EvaluationScores, Layout, TsukiLayout, spec_cells_wf};
use crate::numeric::{exp_neg_micro, ln_micro, spec_exp_neg, spec_ln_micro};
use crate::symbol::{spec_is_vowel_kana, spec_romaji_phonemes, Symbol, is_vowel_kana,
    romaji_phonemes};

/// The weight of each sub-metric, in tenths.  The first five are the
/// multiplicative core, the rest the additive bonus.
#[derive(Clone, Copy, Debug, PartialEq, Eq, Structural)]
pub struct EvaluationWeights {
    /// Same-finger-bigram avoidance (core).
    pub same_finger: u32,
    /// Row-skip avoidance (core).
    pub row_skip: u32,
    /// Home-row usage (core).
    pub home_position: u32,
    /// Keystroke-effort efficiency (core).
    pub total_keystrokes: u32,
    /// Hand alternation (core).
    pub alternating: u32,
    /// No-shift keystroke share (bonus).
    pub single_key: u32,
    /// Similarity to the touch-typing reference layout (bonus).
    pub colemak_similarity: u32,
    /// Position-cost score (bonus).
    pub position_cost: u32,
    /// Redirect avoidance (bonus).
    pub redirect_low: u32,
    /// Similarity to the historical kana reference layout (bonus).
    pub tsuki_similarity: u32,
    /// Roll share (bonus).
    pub roll: u32,
    /// Inward-roll share (bonus).
    pub inroll: u32,
    /// Arpeggio share (bonus).
    pub arpeggio: u32,
    /// Vowel/consonant layer consistency (bonus).
    pub memorability: u32,
    /// Shift-layer balance (bonus).
    pub shift_balance: u32,
}

impl EvaluationWeights {
    /// Weights the fitness formula can take: bounded, with at least
    /// one core weight and one bonus weight.
    pub open spec fn wf(&self) -> bool {
        &&& self.same_finger <= 10000
        &&& self.row_skip <= 10000
        &&& self.home_position <= 10000
        &&& self.total_keystrokes <= 10000
        &&& self.alternating <= 10000
        &&& self.single_key <= 10000
        &&& self.colemak_similarity <= 10000
        &&& self.position_cost <= 10000
        &&& self.redirect_low <= 10000
        &&& self.tsuki_similarity <= 10000
        &&& self.roll <= 10000
        &&& self.inroll <= 10000
        &&& self.arpeggio <= 10000
        &&& self.memorability <= 10000
        &&& self.shift_balance <= 10000
        &&& self.spec_core_weight_sum() >= 1
        &&& self.spec_bonus_weight_sum() >= 1
    }

    /// Sum of the core weights.
    pub open spec fn spec_core_weight_sum(&self) -> int {
        self.same_finger + self.row_skip + self.home_position + self.total_keystrokes
            + self.alternating
    }

    /// Sum of the bonus weights.
    pub open spec fn spec_bonus_weight_sum(&self) -> int {
        self.single_key + self.colemak_similarity + self.position_cost + self.redirect_low
            + self.tsuki_similarity + self.roll + self.inroll + self.arpeggio + self.memorability
            + self.shift_balance
    }

    /// The default weights.
    pub open spec fn spec_default() -> EvaluationWeights {
        EvaluationWeights {
            same_finger: 17,
            row_skip: 16,
            home_position: 15,
            total_keystrokes: 14,
            alternating: 13,
            single_key: 20,
            colemak_similarity: 100,
            position_cost: 80,
            redirect_low: 50,
            tsuki_similarity: 20,
            roll: 60,
            inroll: 50,
            arpeggio: 50,
            memorability: 20,
            shift_balance: 30,
        }
    }
}

impl Default for EvaluationWeights {
    /// The default weights.
    fn default() -> (r: Self)
        ensures
            r == Self::spec_default(),
            r.wf(),
    {
        EvaluationWeights {
            same_finger: 17,
            row_skip: 16,
            home_position: 15,
            total_keystrokes: 14,
            alternating: 13,
            single_key: 20,
            colemak_similarity: 100,
            position_cost: 80,
            redirect_low: 50,
            tsuki_similarity: 20,
            roll: 60,
            inroll: 50,
            arpeggio: 50,
            memorability: 20,
            shift_balance: 30,
        }
    }
}

/// A fraction of `num` over `den`, on the full-score scale of
/// 100 million; 0 when the denominator is 0.
pub open spec fn spec_frac8(num: int, den: int) -> int {
    if den <= 0 {
        0
    } else {
        num * 100000000 / den
    }
}

/// A fraction of `num` over `den`, on the full-score scale.
pub fn frac8(num: u64, den: u64) -> (r: u64)
    requires
        num <= den,
    ensures
        r == spec_frac8(num as int, den as int),
        r <= 100000000,
{
    if den == 0 {
        0
    } else {
        let w: u128 = (num as u128) * 100000000 / (den as u128);
        proof {
            assert((num as int) * 100000000 / (den as int) <= 100000000) by (nonlinear_arith)
                requires
                    0 <= num as int <= den as int,
                    den as int > 0,
            ;
        }
        w as u64
    }
}

/// Scale a full-score value by a coverage fraction in millionths.
pub open spec fn spec_cov_scale(a: int, cov: int) -> int {
    a * cov / 1000000
}

/// Scale a full-score value by a coverage fraction in millionths.
pub fn cov_scale(a: u64, cov: u64) -> (r: u64)
    requires
        a <= 100000000,
        cov <= 1000000,
    ensures
        r == spec_cov_scale(a as int, cov as int),
        r <= 100000000,
{
    proof {
        assert((a as int) * (cov as int) <= 100000000 * 1000000 && (a as int) * (cov as int)
            / 1000000 <= 100000000 && (a as int) * (cov as int) >= 0) by (nonlinear_arith)
            requires
                0 <= a as int <= 100000000,
                0 <= cov as int <= 1000000,
        ;
    }
    let w: u128 = (a as u128) * (cov as u128) / 1000000;
    w as u64
}

/// The counters of the single-character pass, as mathematical values.
pub open spec fn spec_cc_total(cells: Seq<Symbol>, s: Seq<(Gram, usize)>, i: int) -> int
    decreases i,
{
    if i <= 0 {
        0
    } else {
        spec_cc_total(cells, s, i - 1) + if Layout::spec_char_pos(cells, s[i - 1].0.c0) is Some {
            s[i - 1].1 as int
        } else {
            0
        }
    }
}

/// Keystroke-weight sum of the mapped characters, in thousandths.
pub open spec fn spec_cc_tk(cells: Seq<Symbol>, s: Seq<(Gram, usize)>, i: int) -> int
    decreases i,
{
    if i <= 0 {
        0
    } else {
        spec_cc_tk(cells, s, i - 1) + match Layout::spec_char_pos(cells, s[i - 1].0.c0) {
            Some(pos) => s[i - 1].1 * spec_weight_milli(pos),
            None => 0,
        }
    }
}

/// Occurrences typed on the home row.
pub open spec fn spec_cc_home(cells: Seq<Symbol>, s: Seq<(Gram, usize)>, i: int) -> int
    decreases i,
{
    if i <= 0 {
        0
    } else {
        spec_cc_home(cells, s, i - 1) + match Layout::spec_char_pos(cells, s[i - 1].0.c0) {
            Some(pos) => if pos.row == 1 {
                s[i - 1].1 as int
            } else {
                0
            },
            None => 0,
        }
    }
}

/// Occurrences typed on the given shift layer.
pub open spec fn spec_cc_layer(cells: Seq<Symbol>, s: Seq<(Gram, usize)>, i: int, layer: int) -> int
    decreases i,
{
    if i <= 0 {
        0
    } else {
        spec_cc_layer(cells, s, i - 1, layer) + match Layout::spec_char_pos(cells, s[i - 1].0.c0) {
            Some(pos) => if pos.layer == layer {
                s[i - 1].1 as int
            } else {
                0
            },
            None => 0,
        }
    }
}

/// Bounds of the single-character counters.
pub proof fn lemma_cc_bounds(cells: Seq<Symbol>, s: Seq<(Gram, usize)>, i: int)
    requires
        0 <= i <= s.len(),
    ensures
        0 <= spec_cc_total(cells, s, i) <= spec_entry_total(s.take(i)),
        0 <= spec_cc_home(cells, s, i) <= spec_cc_total(cells, s, i),
        0 <= spec_cc_layer(cells, s, i, 0) <= spec_cc_total(cells, s, i),
        0 <= spec_cc_layer(cells, s, i, 1) <= spec_cc_total(cells, s, i),
        0 <= spec_cc_layer(cells, s, i, 2) <= spec_cc_total(cells, s, i),
        spec_cc_layer(cells, s, i, 1) + spec_cc_layer(cells, s, i, 2) <= spec_cc_total(
            cells,
            s,
            i,
        ),
        1000 * spec_cc_total(cells, s, i) <= spec_cc_tk(cells, s, i) <= 9000 * spec_cc_total(
            cells,
            s,
            i,
        ),
    decreases i,
{
    if i > 0 {
        lemma_cc_bounds(cells, s, i - 1);
        crate::corpus::lemma_total_take_succ(s, i - 1);
        match Layout::spec_char_pos(cells, s[i - 1].0.c0) {
            Some(pos) => {
                crate::geometry::lemma_weight_milli_range(pos);
                assert(1000 * (s[i - 1].1 as int) <= s[i - 1].1 * spec_weight_milli(pos) <= 9000
                    * (s[i - 1].1 as int)) by (nonlinear_arith)
                    requires
                        1000 <= spec_weight_milli(pos) <= 9000,
                        s[i - 1].1 >= 0,
                ;
            },
            None => {},
        }
    } else {
        assert(s.take(0) =~= Seq::<(Gram, usize)>::empty());
    }
}

/// The single-character pass: total mapped occurrences, weighted
/// keystrokes, home-row, per-layer and unshifted occurrences.
pub struct CharCounters {
    /// Occurrences of mapped characters.
    pub total: u64,
    /// Keystroke-weight sum in thousandths.
    pub tk: u64,
    /// Home-row occurrences.
    pub home: u64,
    /// Unshifted occurrences.
    pub single: u64,
    /// First shift layer occurrences.
    pub l1: u64,
    /// Second shift layer occurrences.
    pub l2: u64,
}

/// Count the single-character statistics of a layout.
pub fn char_pass(cells_map: &CharPosMap, corpus: &CorpusStats, layout: &Layout) -> (r: CharCounters)
    requires
        corpus.wf(),
        spec_cells_wf(layout.cells@),
        forall|c: char|
            spec_cpm_get(cells_map.entries@, c) == Layout::spec_char_pos(layout.cells@, c),
    ensures
        ({
            let s = corpus.char_freq.entries@;
            let n = s.len() as int;
            &&& r.total == spec_cc_total(layout.cells@, s, n)
            &&& r.tk == spec_cc_tk(layout.cells@, s, n)
            &&& r.home == spec_cc_home(layout.cells@, s, n)
            &&& r.single == spec_cc_layer(layout.cells@, s, n, 0)
            &&& r.l1 == spec_cc_layer(layout.cells@, s, n, 1)
            &&& r.l2 == spec_cc_layer(layout.cells@, s, n, 2)
        }),
{
    let ghost s = corpus.char_freq.entries@;
    let n = corpus.char_freq.entries.len();
    let mut total: u64 = 0;
    let mut tk: u64 = 0;
    let mut home: u64 = 0;
    let mut single: u64 = 0;
    let mut l1: u64 = 0;
    let mut l2: u64 = 0;
    let mut i: usize = 0;
    proof {
        crate::corpus::lemma_total_nonneg(s);
    }
    while i < n
        invariant
            corpus.wf(),
            spec_cells_wf(layout.cells@),
            forall|c: char|
                spec_cpm_get(cells_map.entries@, c) == Layout::spec_char_pos(layout.cells@, c),
            s == corpus.char_freq.entries@,
            n == s.len(),
            0 <= i <= n,
            total == spec_cc_total(layout.cells@, s, i as int),
            tk == spec_cc_tk(layout.cells@, s, i as int),
            home == spec_cc_home(layout.cells@, s, i as int),
            single == spec_cc_layer(layout.cells@, s, i as int, 0),
            l1 == spec_cc_layer(layout.cells@, s, i as int, 1),
            l2 == spec_cc_layer(layout.cells@, s, i as int, 2),
        decreases n - i,
    {
        proof {
            lemma_cc_bounds(layout.cells@, s, i as int);
            lemma_cc_bounds(layout.cells@, s, i as int + 1);
            crate::corpus::lemma_total_prefix_le(s, i as int + 1);
        }
        let (g, count) = corpus.char_freq.entries[i];
        match cells_map.get(g.c0) {
            Some(pos) => {
                let count64 = count as u64;
                total = total + count64;
                tk = tk + count64 * (pos.weight() as u64);
                if pos.row == 1 {
                    home = home + count64;
                }
                if pos.layer == 0 {
                    single = single + count64;
                } else if pos.layer == 1 {
                    l1 = l1 + count64;
                } else if pos.layer == 2 {
                    l2 = l2 + count64;
                }
            },
            None => {},
        }
        i = i + 1;
    }
    CharCounters { total, tk, home, single, l1, l2 }
}

/// Both struck by the same finger of the same hand.
pub open spec fn spec_same_finger_pair(p1: KeyPos, p2: KeyPos) -> bool {
    ((p1.col < 5) == (p2.col < 5)) && spec_finger(p1.col as int) == spec_finger(p2.col as int)
}

/// A same-finger bigram that skips over the home row.
pub open spec fn spec_row_skip_pair(p1: KeyPos, p2: KeyPos) -> bool {
    spec_same_finger_pair(p1, p2) && (p1.row as int - p2.row as int > 1 || p2.row as int
        - p1.row as int > 1)
}

/// Struck by different hands.
pub open spec fn spec_alt_pair(p1: KeyPos, p2: KeyPos) -> bool {
    (p1.col < 5) != (p2.col < 5)
}

/// Occurrences of bigrams with both characters placed.
pub open spec fn spec_bc_counted(cells: Seq<Symbol>, s: Seq<(Gram, usize)>, i: int) -> int
    decreases i,
{
    if i <= 0 {
        0
    } else {
        spec_bc_counted(cells, s, i - 1) + if Layout::spec_char_pos(cells, s[i - 1].0.c0) is Some
            && Layout::spec_char_pos(cells, s[i - 1].0.c1) is Some {
            s[i - 1].1 as int
        } else {
            0
        }
    }
}

/// Occurrences of placed bigrams satisfying a pair condition.
pub open spec fn spec_bc_sf(cells: Seq<Symbol>, s: Seq<(Gram, usize)>, i: int) -> int
    decreases i,
{
    if i <= 0 {
        0
    } else {
        spec_bc_sf(cells, s, i - 1) + match (
            Layout::spec_char_pos(cells, s[i - 1].0.c0),
            Layout::spec_char_pos(cells, s[i - 1].0.c1),
        ) {
            (Some(p1), Some(p2)) => if spec_same_finger_pair(p1, p2) {
                s[i - 1].1 as int
            } else {
                0
            },
            _ => 0,
        }
    }
}

/// Occurrences of placed bigrams that skip a row on one finger.
pub open spec fn spec_bc_skips(cells: Seq<Symbol>, s: Seq<(Gram, usize)>, i: int) -> int
    decreases i,
{
    if i <= 0 {
        0
    } else {
        spec_bc_skips(cells, s, i - 1) + match (
            Layout::spec_char_pos(cells, s[i - 1].0.c0),
            Layout::spec_char_pos(cells, s[i - 1].0.c1),
        ) {
            (Some(p1), Some(p2)) => if spec_row_skip_pair(p1, p2) {
                s[i - 1].1 as int
            } else {
                0
            },
            _ => 0,
        }
    }
}

/// Occurrences of placed bigrams that alternate hands.
pub open spec fn spec_bc_alt(cells: Seq<Symbol>, s: Seq<(Gram, usize)>, i: int) -> int
    decreases i,
{
    if i <= 0 {
        0
    } else {
        spec_bc_alt(cells, s, i - 1) + match (
            Layout::spec_char_pos(cells, s[i - 1].0.c0),
            Layout::spec_char_pos(cells, s[i - 1].0.c1),
        ) {
            (Some(p1), Some(p2)) => if spec_alt_pair(p1, p2) {
                s[i - 1].1 as int
            } else {
                0
            },
            _ => 0,
        }
    }
}

/// Bounds of the bigram counters.
pub proof fn lemma_bc_bounds(cells: Seq<Symbol>, s: Seq<(Gram, usize)>, i: int)
    requires
        0 <= i <= s.len(),
    ensures
        0 <= spec_bc_counted(cells, s, i) <= spec_entry_total(s.take(i)),
        0 <= spec_bc_sf(cells, s, i) <= spec_bc_counted(cells, s, i),
        0 <= spec_bc_skips(cells, s, i) <= spec_bc_sf(cells, s, i),
        0 <= spec_bc_alt(cells, s, i) <= spec_bc_counted(cells, s, i),
    decreases i,
{
    if i > 0 {
        lemma_bc_bounds(cells, s, i - 1);
        crate::corpus::lemma_total_take_succ(s, i - 1);
    } else {
        assert(s.take(0) =~= Seq::<(Gram, usize)>::empty());
    }
}

/// The bigram pass: total counted, same-finger, row-skip and
/// alternation occurrences.
pub struct BigramCounters {
    /// Occurrences with both characters placed.
    pub counted: u64,
    /// Same-finger occurrences.
    pub sf: u64,
    /// Row-skip occurrences.
    pub skips: u64,
    /// Hand-alternation occurrences.
    pub alt: u64,
}

/// Count the bigram statistics of a layout.
pub fn bigram_pass(cells_map: &CharPosMap, corpus: &CorpusStats, layout: &Layout) -> (r:
    BigramCounters)
    requires
        corpus.wf(),
        spec_cells_wf(layout.cells@),
        forall|c: char|
            spec_cpm_get(cells_map.entries@, c) == Layout::spec_char_pos(layout.cells@, c),
    ensures
        ({
            let s = corpus.bigram_freq.entries@;
            let n = s.len() as int;
            &&& r.counted == spec_bc_counted(layout.cells@, s, n)
            &&& r.sf == spec_bc_sf(layout.cells@, s, n)
            &&& r.skips == spec_bc_skips(layout.cells@, s, n)
            &&& r.alt == spec_bc_alt(layout.cells@, s, n)
        }),
{
    let ghost s = corpus.bigram_freq.entries@;
    let n = corpus.bigram_freq.entries.len();
    let mut counted: u64 = 0;
    let mut sf: u64 = 0;
    let mut skips: u64 = 0;
    let mut alt: u64 = 0;
    let mut i: usize = 0;
    while i < n
        invariant
            corpus.wf(),
            spec_cells_wf(layout.cells@),
            forall|c: char|
                spec_cpm_get(cells_map.entries@, c) == Layout::spec_char_pos(layout.cells@, c),
            s == corpus.bigram_freq.entries@,
            n == s.len(),
            0 <= i <= n,
            counted == spec_bc_counted(layout.cells@, s, i as int),
            sf == spec_bc_sf(layout.cells@, s, i as int),
            skips == spec_bc_skips(layout.cells@, s, i as int),
            alt == spec_bc_alt(layout.cells@, s, i as int),
        decreases n - i,
    {
        proof {
            lemma_bc_bounds(layout.cells@, s, i as int);
            lemma_bc_bounds(layout.cells@, s, i as int + 1);
            crate::corpus::lemma_total_prefix_le(s, i as int + 1);
        }
        let (g, count) = corpus.bigram_freq.entries[i];
        let pos1 = cells_map.get(g.c0);
        let pos2 = cells_map.get(g.c1);
        match (pos1, pos2) {
            (Some(p1), Some(p2)) => {
                let count64 = count as u64;
                counted = counted + count64;
                if p1.is_left_hand() == p2.is_left_hand() && p1.finger() == p2.finger() {
                    sf = sf + count64;
                    let skip = if p1.row >= p2.row {
                        p1.row - p2.row > 1
                    } else {
                        p2.row - p1.row > 1
                    };
                    if skip {
                        skips = skips + count64;
                    }
                }
                if p1.is_left_hand() != p2.is_left_hand() {
                    alt = alt + count64;
                }
            },
            _ => {},
        }
        i = i + 1;
    }
    BigramCounters { counted, sf, skips, alt }
}

/// All three on one hand, three different fingers, moving in one
/// direction.
pub open spec fn spec_tri_roll(p1: KeyPos, p2: KeyPos, p3: KeyPos) -> bool {
    let f1 = spec_finger(p1.col as int);
    let f2 = spec_finger(p2.col as int);
    let f3 = spec_finger(p3.col as int);
    &&& ((p1.col < 5) == (p2.col < 5)) && ((p2.col < 5) == (p3.col < 5))
    &&& f1 != f2 && f2 != f3 && f1 != f3
    &&& ((f2 > f1 && f3 > f2) || (f2 < f1 && f3 < f2))
}

/// A roll moving inward, from little finger toward index finger.
pub open spec fn spec_tri_inroll(p1: KeyPos, p2: KeyPos, p3: KeyPos) -> bool {
    spec_tri_roll(p1, p2, p3) && spec_finger(p2.col as int) > spec_finger(p1.col as int)
}

/// A roll over adjacent fingers at both steps.
pub open spec fn spec_tri_arpeggio(p1: KeyPos, p2: KeyPos, p3: KeyPos) -> bool {
    let f1 = spec_finger(p1.col as int);
    let f2 = spec_finger(p2.col as int);
    let f3 = spec_finger(p3.col as int);
    spec_tri_roll(p1, p2, p3) && (f2 - f1 == 1 || f1 - f2 == 1) && (f3 - f2 == 1 || f2 - f3 == 1)
}

/// One hand, three different fingers, reversing direction.
pub open spec fn spec_tri_redirect(p1: KeyPos, p2: KeyPos, p3: KeyPos) -> bool {
    let f1 = spec_finger(p1.col as int);
    let f2 = spec_finger(p2.col as int);
    let f3 = spec_finger(p3.col as int);
    &&& ((p1.col < 5) == (p2.col < 5)) && ((p2.col < 5) == (p3.col < 5))
    &&& f1 != f2 && f2 != f3 && f1 != f3
    &&& ((f2 > f1 && f3 < f2) || (f2 < f1 && f3 > f2))
}

/// Occurrences of trigrams with all three characters placed.
pub open spec fn spec_tc_counted(cells: Seq<Symbol>, s: Seq<(Gram, usize)>, i: int) -> int
    decreases i,
{
    if i <= 0 {
        0
    } else {
        spec_tc_counted(cells, s, i - 1) + if Layout::spec_char_pos(cells, s[i - 1].0.c0) is Some
            && Layout::spec_char_pos(cells, s[i - 1].0.c1) is Some && Layout::spec_char_pos(
            cells,
            s[i - 1].0.c2,
        ) is Some {
            s[i - 1].1 as int
        } else {
            0
        }
    }
}

/// Occurrences of placed trigrams that roll.
pub open spec fn spec_tc_roll(cells: Seq<Symbol>, s: Seq<(Gram, usize)>, i: int) -> int
    decreases i,
{
    if i <= 0 {
        0
    } else {
        spec_tc_roll(cells, s, i - 1) + match (
            Layout::spec_char_pos(cells, s[i - 1].0.c0),
            Layout::spec_char_pos(cells, s[i - 1].0.c1),
            Layout::spec_char_pos(cells, s[i - 1].0.c2),
        ) {
            (Some(p1), Some(p2), Some(p3)) => if spec_tri_roll(p1, p2, p3) {
                s[i - 1].1 as int
            } else {
                0
            },
            _ => 0,
        }
    }
}

/// Occurrences of placed trigrams that roll inward.
pub open spec fn spec_tc_inroll(cells: Seq<Symbol>, s: Seq<(Gram, usize)>, i: int) -> int
    decreases i,
{
    if i <= 0 {
        0
    } else {
        spec_tc_inroll(cells, s, i - 1) + match (
            Layout::spec_char_pos(cells, s[i - 1].0.c0),
            Layout::spec_char_pos(cells, s[i - 1].0.c1),
            Layout::spec_char_pos(cells, s[i - 1].0.c2),
        ) {
            (Some(p1), Some(p2), Some(p3)) => if spec_tri_inroll(p1, p2, p3) {
                s[i - 1].1 as int
            } else {
                0
            },
            _ => 0,
        }
    }
}

/// Occurrences of placed trigrams that arpeggiate.
pub open spec fn spec_tc_arpeggio(cells: Seq<Symbol>, s: Seq<(Gram, usize)>, i: int) -> int
    decreases i,
{
    if i <= 0 {
        0
    } else {
        spec_tc_arpeggio(cells, s, i - 1) + match (
            Layout::spec_char_pos(cells, s[i - 1].0.c0),
            Layout::spec_char_pos(cells, s[i - 1].0.c1),
            Layout::spec_char_pos(cells, s[i - 1].0.c2),
        ) {
            (Some(p1), Some(p2), Some(p3)) => if spec_tri_arpeggio(p1, p2, p3) {
                s[i - 1].1 as int
            } else {
                0
            },
            _ => 0,
        }
    }
}

/// Occurrences of placed trigrams that redirect.
pub open spec fn spec_tc_redirect(cells: Seq<Symbol>, s: Seq<(Gram, usize)>, i: int) -> int
    decreases i,
{
    if i <= 0 {
        0
    } else {
        spec_tc_redirect(cells, s, i - 1) + match (
            Layout::spec_char_pos(cells, s[i - 1].0.c0),
            Layout::spec_char_pos(cells, s[i - 1].0.c1),
            Layout::spec_char_pos(cells, s[i - 1].0.c2),
        ) {
            (Some(p1), Some(p2), Some(p3)) => if spec_tri_redirect(p1, p2, p3) {
                s[i - 1].1 as int
            } else {
                0
            },
            _ => 0,
        }
    }
}

/// Bounds of the trigram counters.
pub proof fn lemma_tc_bounds(cells: Seq<Symbol>, s: Seq<(Gram, usize)>, i: int)
    requires
        0 <= i <= s.len(),
    ensures
        0 <= spec_tc_counted(cells, s, i) <= spec_entry_total(s.take(i)),
        0 <= spec_tc_roll(cells, s, i) <= spec_tc_counted(cells, s, i),
        0 <= spec_tc_inroll(cells, s, i) <= spec_tc_roll(cells, s, i),
        0 <= spec_tc_arpeggio(cells, s, i) <= spec_tc_roll(cells, s, i),
        0 <= spec_tc_redirect(cells, s, i) <= spec_tc_counted(cells, s, i),
    decreases i,
{
    if i > 0 {
        lemma_tc_bounds(cells, s, i - 1);
        crate::corpus::lemma_total_take_succ(s, i - 1);
    } else {
        assert(s.take(0) =~= Seq::<(Gram, usize)>::empty());
    }
}

/// The trigram pass: counted, roll, inward roll, arpeggio and
/// redirect occurrences.
pub struct TrigramCounters {
    /// Occurrences with all three characters placed.
    pub counted: u64,
    /// Rolls.
    pub roll: u64,
    /// Inward rolls.
    pub inroll: u64,
    /// Arpeggios.
    pub arpeggio: u64,
    /// Redirects.
    pub redirect: u64,
}

/// Count the trigram statistics of a layout.
pub fn trigram_pass(cells_map: &CharPosMap, corpus: &CorpusStats, layout: &Layout) -> (r:
    TrigramCounters)
    requires
        corpus.wf(),
        spec_cells_wf(layout.cells@),
        forall|c: char|
            spec_cpm_get(cells_map.entries@, c) == Layout::spec_char_pos(layout.cells@, c),
    ensures
        ({
            let s = corpus.trigram_freq.entries@;
            let n = s.len() as int;
            &&& r.counted == spec_tc_counted(layout.cells@, s, n)
            &&& r.roll == spec_tc_roll(layout.cells@, s, n)
            &&& r.inroll == spec_tc_inroll(layout.cells@, s, n)
            &&& r.arpeggio == spec_tc_arpeggio(layout.cells@, s, n)
            &&& r.redirect == spec_tc_redirect(layout.cells@, s, n)
        }),
{
    let ghost s = corpus.trigram_freq.entries@;
    let n = corpus.trigram_freq.entries.len();
    let mut counted: u64 = 0;
    let mut roll: u64 = 0;
    let mut inroll: u64 = 0;
    let mut arpeggio: u64 = 0;
    let mut redirect: u64 = 0;
    let mut i: usize = 0;
    while i < n
        invariant
            corpus.wf(),
            spec_cells_wf(layout.cells@),
            forall|c: char|
                spec_cpm_get(cells_map.entries@, c) == Layout::spec_char_pos(layout.cells@, c),
            s == corpus.trigram_freq.entries@,
            n == s.len(),
            0 <= i <= n,
            counted == spec_tc_counted(layout.cells@, s, i as int),
            roll == spec_tc_roll(layout.cells@, s, i as int),
            inroll == spec_tc_inroll(layout.cells@, s, i as int),
            arpeggio == spec_tc_arpeggio(layout.cells@, s, i as int),
            redirect == spec_tc_redirect(layout.cells@, s, i as int),
        decreases n - i,
    {
        proof {
            lemma_tc_bounds(layout.cells@, s, i as int);
            lemma_tc_bounds(layout.cells@, s, i as int + 1);
            crate::corpus::lemma_total_prefix_le(s, i as int + 1);
        }
        let (g, count) = corpus.trigram_freq.entries[i];
        let pos1 = cells_map.get(g.c0);
        let pos2 = cells_map.get(g.c1);
        let pos3 = cells_map.get(g.c2);
        match (pos1, pos2, pos3) {
            (Some(p1), Some(p2), Some(p3)) => {
                let count64 = count as u64;
                counted = counted + count64;
                let h1 = p1.is_left_hand();
                let h2 = p2.is_left_hand();
                let h3 = p3.is_left_hand();
                let f1 = p1.finger();
                let f2 = p2.finger();
                let f3 = p3.finger();
                if h1 == h2 && h2 == h3 && f1 != f2 && f2 != f3 && f1 != f3 {
                    if (f2 > f1 && f3 > f2) || (f2 < f1 && f3 < f2) {
                        roll = roll + count64;
                        if f2 > f1 {
                            inroll = inroll + count64;
                        }
                        let a1 = if f2 >= f1 {
                            f2 - f1 == 1
                        } else {
                            f1 - f2 == 1
                        };
                        let a2 = if f3 >= f2 {
                            f3 - f2 == 1
                        } else {
                            f2 - f3 == 1
                        };
                        if a1 && a2 {
                            arpeggio = arpeggio + count64;
                        }
                    } else {
                        redirect = redirect + count64;
                    }
                }
            },
            _ => {},
        }
        i = i + 1;
    }
    TrigramCounters { counted, roll, inroll, arpeggio, redirect }
}

/// The reference row and column of a romanization phoneme on the
/// touch-typing reference layout.
pub open spec fn spec_colemak_pos(c: char) -> Option<(int, int)> {
    if c == 'a' { Some((1int, 0int)) }
    else if c == 'e' { Some((1int, 7int)) }
    else if c == 'i' { Some((1int, 8int)) }
    else if c == 'o' { Some((1int, 9int)) }
    else if c == 'u' { Some((0int, 7int)) }
    else if c == 'k' { Some((2int, 6int)) }
    else if c == 's' { Some((1int, 2int)) }
    else if c == 't' { Some((1int, 3int)) }
    else if c == 'n' { Some((1int, 6int)) }
    else if c == 'h' { Some((1int, 5int)) }
    else if c == 'm' { Some((2int, 7int)) }
    else if c == 'y' { Some((0int, 8int)) }
    else if c == 'r' { Some((1int, 1int)) }
    else if c == 'w' { Some((0int, 1int)) }
    else if c == 'g' { Some((0int, 4int)) }
    else if c == 'z' { Some((2int, 0int)) }
    else if c == 'd' { Some((1int, 4int)) }
    else if c == 'b' { Some((2int, 4int)) }
    else if c == 'p' { Some((0int, 3int)) }
    else { None }
}

/// The reference position of a phoneme.
pub fn colemak_pos(c: char) -> (r: Option<(usize, usize)>)
    ensures
        r is Some <==> spec_colemak_pos(c) is Some,
        r is Some ==> ({
            let rc = spec_colemak_pos(c)->0;
            (r->0).0 == rc.0 && (r->0).1 == rc.1
        }),
{
    match c {
        'a' => Some((1, 0)),
        'e' => Some((1, 7)),
        'i' => Some((1, 8)),
        'o' => Some((1, 9)),
        'u' => Some((0, 7)),
        'k' => Some((2, 6)),
        's' => Some((1, 2)),
        't' => Some((1, 3)),
        'n' => Some((1, 6)),
        'h' => Some((1, 5)),
        'm' => Some((2, 7)),
        'y' => Some((0, 8)),
        'r' => Some((1, 1)),
        'w' => Some((0, 1)),
        'g' => Some((0, 4)),
        'z' => Some((2, 0)),
        'd' => Some((1, 4)),
        'b' => Some((2, 4)),
        'p' => Some((0, 3)),
        _ => None,
    }
}

/// Characters that take no part in the similarity metrics.
pub open spec fn spec_sim_excluded(c: char) -> bool {
    c == '☆' || c == '★' || c == '、' || c == '。' || c == '\u{3000}' || c == '\u{0}'
        || c == '゛' || c == '゜'
}

/// Match credit of one phoneme at a grid position against its
/// reference position: full for the exact key, half for the row,
/// quarter for the hand, in hundredths.
pub open spec fn spec_phoneme_credit(ph: Option<char>, row: int, col: int) -> int {
    match ph {
        Some(c) => match spec_colemak_pos(c) {
            Some(rc) => if row == rc.0 && col == rc.1 {
                100
            } else if row == rc.0 {
                50
            } else if (col < 5) == (rc.1 < 5) {
                25
            } else {
                0
            },
            None => 0,
        },
        None => 0,
    }
}

/// Possible credit of one phoneme, in hundredths.
pub open spec fn spec_phoneme_max(ph: Option<char>) -> int {
    if ph is Some {
        100
    } else {
        0
    }
}

/// Layer weight of the similarity metric, in hundredths.
pub open spec fn spec_sim_layer_weight(layer: int) -> int {
    if layer == 0 {
        100
    } else {
        30
    }
}

/// Earned similarity credit over the first `p` cells.
pub open spec fn spec_col_score(cells: Seq<Symbol>, p: int) -> int
    decreases p,
{
    if p <= 0 {
        0
    } else {
        spec_col_score(cells, p - 1) + spec_col_cell_score(cells, p - 1)
    }
}

/// Earned similarity credit of one cell.
pub open spec fn spec_col_cell_score(cells: Seq<Symbol>, p: int) -> int {
    let h = cells[p].head;
    if crate::geometry::spec_col_of(p) >= 10 || spec_sim_excluded(h) {
        0
    } else {
        let ph = spec_romaji_phonemes(h);
        let lw = spec_sim_layer_weight(crate::geometry::spec_layer_of(p));
        let row = crate::geometry::spec_row_of(p);
        let col = crate::geometry::spec_col_of(p);
        (spec_phoneme_credit(ph.0, row, col) + spec_phoneme_credit(ph.1, row, col)) * lw
    }
}

/// Possible similarity credit over the first `p` cells.
pub open spec fn spec_col_max(cells: Seq<Symbol>, p: int) -> int
    decreases p,
{
    if p <= 0 {
        0
    } else {
        spec_col_max(cells, p - 1) + spec_col_cell_max(cells, p - 1)
    }
}

/// Possible similarity credit of one cell.
pub open spec fn spec_col_cell_max(cells: Seq<Symbol>, p: int) -> int {
    let h = cells[p].head;
    if crate::geometry::spec_col_of(p) >= 10 || spec_sim_excluded(h) {
        0
    } else {
        let ph = spec_romaji_phonemes(h);
        let lw = spec_sim_layer_weight(crate::geometry::spec_layer_of(p));
        (spec_phoneme_max(ph.0) + spec_phoneme_max(ph.1)) * lw
    }
}

/// Bounds of the similarity accumulators.
pub proof fn lemma_col_bounds(cells: Seq<Symbol>, p: int)
    requires
        0 <= p,
    ensures
        0 <= spec_col_score(cells, p) <= spec_col_max(cells, p),
        spec_col_max(cells, p) <= 20000 * p,
    decreases p,
{
    if p > 0 {
        lemma_col_bounds(cells, p - 1);
        assert(0 <= spec_col_cell_score(cells, p - 1) <= spec_col_cell_max(cells, p - 1)
            <= 20000) by {
            let h = cells[p - 1].head;
            if !(crate::geometry::spec_col_of(p - 1) >= 10 || spec_sim_excluded(h)) {
                let ph = spec_romaji_phonemes(h);
                let lw = spec_sim_layer_weight(crate::geometry::spec_layer_of(p - 1));
                let row = crate::geometry::spec_row_of(p - 1);
                let col = crate::geometry::spec_col_of(p - 1);
                assert(0 <= spec_phoneme_credit(ph.0, row, col) <= spec_phoneme_max(ph.0) <= 100);
                assert(0 <= spec_phoneme_credit(ph.1, row, col) <= spec_phoneme_max(ph.1) <= 100);
                assert(30 <= lw <= 100);
                assert((spec_phoneme_credit(ph.0, row, col) + spec_phoneme_credit(ph.1, row, col))
                    * lw <= (spec_phoneme_max(ph.0) + spec_phoneme_max(ph.1)) * lw
                    <= 20000) by (nonlinear_arith)
                    requires
                        0 <= spec_phoneme_credit(ph.0, row, col) <= spec_phoneme_max(ph.0) <= 100,
                        0 <= spec_phoneme_credit(ph.1, row, col) <= spec_phoneme_max(ph.1) <= 100,
                        30 <= lw <= 100,
                ;
                assert(0 <= (spec_phoneme_credit(ph.0, row, col) + spec_phoneme_credit(
                    ph.1,
                    row,
                    col,
                )) * lw) by (nonlinear_arith)
                    requires
                        0 <= spec_phoneme_credit(ph.0, row, col),
                        0 <= spec_phoneme_credit(ph.1, row, col),
                        0 <= lw,
                ;
            }
        };
    }
}

/// The similarity score against the touch-typing reference layout.
pub open spec fn spec_colemak_metric(cells: Seq<Symbol>) -> int {
    spec_frac8(spec_col_score(cells, 124), spec_col_max(cells, 124))
}

/// Compute the similarity to the touch-typing reference layout.
pub fn calc_colemak_similarity(layout: &Layout) -> (r: u64)
    requires
        spec_cells_wf(layout.cells@),
    ensures
        r == spec_colemak_metric(layout.cells@),
        r <= 100000000,
{
    let mut score: u64 = 0;
    let mut maxs: u64 = 0;
    let mut p: usize = 0;
    while p < 124
        invariant
            spec_cells_wf(layout.cells@),
            0 <= p <= 124,
            score == spec_col_score(layout.cells@, p as int),
            maxs == spec_col_max(layout.cells@, p as int),
            score <= maxs <= 20000 * p,
        decreases 124 - p,
    {
        proof {
            lemma_col_bounds(layout.cells@, p as int);
            lemma_col_bounds(layout.cells@, p as int + 1);
        }
        let kp = crate::geometry::pos_of_cell(p);
        let sym = layout.cells[p];
        let h = sym.head;
        if kp.col < 10 && !(h == '☆' || h == '★' || h == '、' || h == '。' || h == '\u{3000}'
            || h == '\u{0}' || h == '゛' || h == '゜') {
            let (cons, vow) = romaji_phonemes(h);
            let lw: u64 = if kp.layer == 0 {
                100
            } else {
                30
            };
            let mut cell_score: u64 = 0;
            let mut cell_max: u64 = 0;
            match cons {
                Some(c) => {
                    cell_max = cell_max + 100;
                    match colemak_pos(c) {
                        Some((er, ec)) => {
                            if kp.row == er && kp.col == ec {
                                cell_score = cell_score + 100;
                            } else if kp.row == er {
                                cell_score = cell_score + 50;
                            } else if (kp.col < 5) == (ec < 5) {
                                cell_score = cell_score + 25;
                            }
                        },
                        None => {},
                    }
                },
                None => {},
            }
            match vow {
                Some(c) => {
                    cell_max = cell_max + 100;
                    match colemak_pos(c) {
                        Some((er, ec)) => {
                            if kp.row == er && kp.col == ec {
                                cell_score = cell_score + 100;
                            } else if kp.row == er {
                                cell_score = cell_score + 50;
                            } else if (kp.col < 5) == (ec < 5) {
                                cell_score = cell_score + 25;
                            }
                        },
                        None => {},
                    }
                },
                None => {},
            }
            score = score + cell_score * lw;
            maxs = maxs + cell_max * lw;
        }
        p = p + 1;
    }
    frac8(score, maxs)
}

/// Counted cells of the reference-kana similarity over the first `p`
/// cells: cells whose character the reference layout places on the
/// matching face.
pub open spec fn spec_tsuki_total(cells: Seq<Symbol>, tsk: Seq<(char, KeyPos)>, p: int) -> int
    decreases p,
{
    if p <= 0 {
        0
    } else {
        spec_tsuki_total(cells, tsk, p - 1) + if spec_tsuki_counts(cells, tsk, p - 1) {
            1int
        } else {
            0int
        }
    }
}

/// Whether a cell takes part in the reference-kana similarity.
pub open spec fn spec_tsuki_counts(cells: Seq<Symbol>, tsk: Seq<(char, KeyPos)>, p: int) -> bool {
    let h = cells[p].head;
    &&& crate::geometry::spec_col_of(p) < 10
    &&& !spec_sim_excluded(h)
    &&& match spec_cpm_get(tsk, h) {
        Some(tp) => tp.layer == if crate::geometry::spec_layer_of(p) == 0 {
            0int
        } else {
            1int
        },
        None => false,
    }
}

/// Tier credit of one counted cell against its reference position,
/// in hundredths: full on the exact key, half on the row, a quarter
/// on the hand.
pub open spec fn spec_tsuki_cell_credit(cells: Seq<Symbol>, tsk: Seq<(char, KeyPos)>, p: int) -> int {
    match spec_cpm_get(tsk, cells[p].head) {
        Some(tp) => {
            let row = crate::geometry::spec_row_of(p);
            let col = crate::geometry::spec_col_of(p);
            if tp.row == row && tp.col == col {
                100
            } else if tp.row == row {
                50
            } else if (tp.col < 5) == (col < 5) {
                25
            } else {
                0
            }
        },
        None => 0,
    }
}

/// Tier credit of the reference-kana similarity over the first `p`
/// cells.
pub open spec fn spec_tsuki_credit(cells: Seq<Symbol>, tsk: Seq<(char, KeyPos)>, p: int) -> int
    decreases p,
{
    if p <= 0 {
        0
    } else {
        spec_tsuki_credit(cells, tsk, p - 1) + if spec_tsuki_counts(cells, tsk, p - 1) {
            spec_tsuki_cell_credit(cells, tsk, p - 1)
        } else {
            0int
        }
    }
}

/// Bounds of the reference-kana counters.
pub proof fn lemma_tsuki_bounds(cells: Seq<Symbol>, tsk: Seq<(char, KeyPos)>, p: int)
    requires
        0 <= p,
    ensures
        0 <= spec_tsuki_credit(cells, tsk, p) <= 100 * spec_tsuki_total(cells, tsk, p),
        0 <= spec_tsuki_total(cells, tsk, p) <= p,
    decreases p,
{
    if p > 0 {
        lemma_tsuki_bounds(cells, tsk, p - 1);
    }
}

/// The similarity score against the historical kana reference
/// layout, with the three-tier credit the similarity metrics share:
/// full for the exact key, half for the row, a quarter for the hand.
pub open spec fn spec_tsuki_metric(cells: Seq<Symbol>, tsk: Seq<(char, KeyPos)>) -> int {
    spec_frac8(spec_tsuki_credit(cells, tsk, 124), 100 * spec_tsuki_total(cells, tsk, 124))
}

/// Compute the similarity to the historical kana reference layout.
pub fn calc_tsuki_similarity(layout: &Layout, tsuki: &TsukiLayout) -> (r: u64)
    requires
        spec_cells_wf(layout.cells@),
    ensures
        r == spec_tsuki_metric(layout.cells@, tsuki.char_positions.entries@),
        r <= 100000000,
{
    let ghost tsk = tsuki.char_positions.entries@;
    let mut total: u64 = 0;
    let mut credit: u64 = 0;
    let mut p: usize = 0;
    while p < 124
        invariant
            spec_cells_wf(layout.cells@),
            tsk == tsuki.char_positions.entries@,
            0 <= p <= 124,
            total == spec_tsuki_total(layout.cells@, tsk, p as int),
            credit == spec_tsuki_credit(layout.cells@, tsk, p as int),
            credit <= 100 * total,
            total <= p,
        decreases 124 - p,
    {
        proof {
            lemma_tsuki_bounds(layout.cells@, tsk, p as int);
            lemma_tsuki_bounds(layout.cells@, tsk, p as int + 1);
        }
        let kp = crate::geometry::pos_of_cell(p);
        let sym = layout.cells[p];
        let h = sym.head;
        if kp.col < 10 && !(h == '☆' || h == '★' || h == '、' || h == '。' || h == '\u{3000}'
            || h == '\u{0}' || h == '゛' || h == '゜') {
            match tsuki.char_positions.get(h) {
                Some(tp) => {
                    let expected: usize = if kp.layer == 0 {
                        0
                    } else {
                        1
                    };
                    if tp.layer == expected {
                        total = total + 1;
                        if tp.row == kp.row && tp.col == kp.col {
                            credit = credit + 100;
                        } else if tp.row == kp.row {
                            credit = credit + 50;
                        } else if (tp.col < 5) == (kp.col < 5) {
                            credit = credit + 25;
                        }
                    }
                },
                None => {},
            }
        }
        p = p + 1;
    }
    frac8(credit, 100 * total)
}

/// Whether a layer-0 cell anchors the memorability comparison.
pub open spec fn spec_memo_base(cells: Seq<Symbol>, row: int, col: int) -> bool {
    let h = cells[crate::geometry::spec_cell_index(0, row, col)].head;
    &&& !crate::geometry::spec_is_fixed(0, row, col)
    &&& h != '\u{3000}'
    &&& h != '\u{0}'
}

/// Whether a shifted cell is compared at a position.
pub open spec fn spec_memo_checks(cells: Seq<Symbol>, row: int, col: int, l: int) -> bool {
    let h = cells[crate::geometry::spec_cell_index(l, row, col)].head;
    &&& spec_memo_base(cells, row, col)
    &&& !crate::geometry::spec_is_fixed(l, row, col)
    &&& h != '\u{3000}'
    &&& h != '\u{0}'
}

/// Whether a compared cell agrees in vowelness with the layer-0 cell.
pub open spec fn spec_memo_agrees(cells: Seq<Symbol>, row: int, col: int, l: int) -> bool {
    let h0 = cells[crate::geometry::spec_cell_index(0, row, col)].head;
    let hl = cells[crate::geometry::spec_cell_index(l, row, col)].head;
    spec_memo_checks(cells, row, col, l) && (spec_is_vowel_kana(h0) == spec_is_vowel_kana(hl))
}

/// Compared cells over the first `i` of the thirty layer-0 key
/// positions.
pub open spec fn spec_memo_checked(cells: Seq<Symbol>, i: int) -> int
    decreases i,
{
    if i <= 0 {
        0
    } else {
        let row = (i - 1) / 10;
        let col = (i - 1) % 10;
        spec_memo_checked(cells, i - 1) + (if spec_memo_checks(cells, row, col, 1) {
            1int
        } else {
            0int
        }) + (if spec_memo_checks(cells, row, col, 2) {
            1int
        } else {
            0int
        }) + (if spec_memo_checks(cells, row, col, 3) {
            1int
        } else {
            0int
        })
    }
}

/// Agreeing cells over the first `i` positions.
pub open spec fn spec_memo_agreed(cells: Seq<Symbol>, i: int) -> int
    decreases i,
{
    if i <= 0 {
        0
    } else {
        let row = (i - 1) / 10;
        let col = (i - 1) % 10;
        spec_memo_agreed(cells, i - 1) + (if spec_memo_agrees(cells, row, col, 1) {
            1int
        } else {
            0int
        }) + (if spec_memo_agrees(cells, row, col, 2) {
            1int
        } else {
            0int
        }) + (if spec_memo_agrees(cells, row, col, 3) {
            1int
        } else {
            0int
        })
    }
}

/// Bounds of the memorability counters.
pub proof fn lemma_memo_bounds(cells: Seq<Symbol>, i: int)
    requires
        0 <= i,
    ensures
        0 <= spec_memo_agreed(cells, i) <= spec_memo_checked(cells, i) <= 3 * i,
    decreases i,
{
    if i > 0 {
        lemma_memo_bounds(cells, i - 1);
    }
}

/// The memorability score: vowel/consonant agreement between the
/// unshifted layer and the shifted layers at each physical key.
pub open spec fn spec_memo_metric(cells: Seq<Symbol>) -> int {
    spec_frac8(spec_memo_agreed(cells, 30), spec_memo_checked(cells, 30))
}

/// Compute the memorability score.
pub fn calc_memorability(layout: &Layout) -> (r: u64)
    requires
        spec_cells_wf(layout.cells@),
    ensures
        r == spec_memo_metric(layout.cells@),
        r <= 100000000,
{
    let mut checked: u64 = 0;
    let mut agreed: u64 = 0;
    let mut i: usize = 0;
    while i < 30
        invariant
            spec_cells_wf(layout.cells@),
            0 <= i <= 30,
            checked == spec_memo_checked(layout.cells@, i as int),
            agreed == spec_memo_agreed(layout.cells@, i as int),
            agreed <= checked <= 3 * i,
        decreases 30 - i,
    {
        proof {
            lemma_memo_bounds(layout.cells@, i as int);
            lemma_memo_bounds(layout.cells@, i as int + 1);
        }
        let row = i / 10;
        let col = i % 10;
        let p0 = crate::geometry::cell_index(0, row, col);
        let h0 = layout.cells[p0].head;
        if !Layout::is_fixed_position(0, row, col) && h0 != '\u{3000}' && h0 != '\u{0}' {
            let v0 = is_vowel_kana(h0);
            let mut l: usize = 1;
            while l < 4
                invariant
                    spec_cells_wf(layout.cells@),
                    i < 30,
                    row == i / 10,
                    col == i % 10,
                    row < 3,
                    col < 10,
                    1 <= l <= 4,
                    spec_memo_base(layout.cells@, row as int, col as int),
                    v0 == spec_is_vowel_kana(layout.cells@[crate::geometry::spec_cell_index(
                        0,
                        row as int,
                        col as int,
                    )].head),
                    checked == spec_memo_checked(layout.cells@, i as int) + memo_checked_part(
                        layout.cells@,
                        row as int,
                        col as int,
                        l as int,
                    ),
                    agreed == spec_memo_agreed(layout.cells@, i as int) + memo_agreed_part(
                        layout.cells@,
                        row as int,
                        col as int,
                        l as int,
                    ),
                    checked <= 3 * i + l - 1,
                    agreed <= checked,
                decreases 4 - l,
            {
                let pl = crate::geometry::cell_index(l, row, col);
                let hl = layout.cells[pl].head;
                if !Layout::is_fixed_position(l, row, col) && hl != '\u{3000}' && hl != '\u{0}'
                {
                    checked = checked + 1;
                    if is_vowel_kana(hl) == v0 {
                        agreed = agreed + 1;
                    }
                }
                l = l + 1;
            }
        }
        i = i + 1;
    }
    frac8(agreed, checked)
}

/// Compared cells at one position over the shifted layers below `l`.
pub open spec fn memo_checked_part(cells: Seq<Symbol>, row: int, col: int, l: int) -> int {
    (if l > 1 && spec_memo_checks(cells, row, col, 1) {
        1int
    } else {
        0int
    }) + (if l > 2 && spec_memo_checks(cells, row, col, 2) {
        1int
    } else {
        0int
    }) + (if l > 3 && spec_memo_checks(cells, row, col, 3) {
        1int
    } else {
        0int
    })
}

/// Agreeing cells at one position over the shifted layers below `l`.
pub open spec fn memo_agreed_part(cells: Seq<Symbol>, row: int, col: int, l: int) -> int {
    (if l > 1 && spec_memo_agrees(cells, row, col, 1) {
        1int
    } else {
        0int
    }) + (if l > 2 && spec_memo_agrees(cells, row, col, 2) {
        1int
    } else {
        0int
    }) + (if l > 3 && spec_memo_agrees(cells, row, col, 3) {
        1int
    } else {
        0int
    })
}

/// Base cost of a physical key (no shift), small integers; the
/// auxiliary eleventh column counts as an ordinary home-row edge key.
pub open spec fn spec_base_cost(row: int, col: int) -> int {
    if col >= 10 {
        2
    } else if row == 0 {
        crate::geometry::spec_pick10(col, 4, 2, 2, 2, 3, 4, 2, 2, 2, 4)
    } else if row == 1 {
        crate::geometry::spec_pick10(col, 2, 1, 1, 1, 2, 2, 1, 1, 1, 2)
    } else {
        crate::geometry::spec_pick10(col, 4, 3, 2, 2, 4, 3, 2, 2, 2, 4)
    }
}

/// Layer multiplier of the position cost, in millionths: shifted
/// layers cost more, cells above or below a shift trigger on its
/// column far more, cells beyond the trigger on the little-finger
/// side considerably more.
pub open spec fn spec_cost_mult_micro(layer: int, row: int, col: int) -> int {
    if layer == 0 {
        1000000
    } else if layer == 1 {
        if col == 7 && row != 1 {
            30150000
        } else if col >= 8 {
            12150000
        } else {
            3150000
        }
    } else if layer == 2 {
        if col == 2 && row != 1 {
            30150000
        } else if col <= 1 {
            12150000
        } else {
            3150000
        }
    } else {
        1050000
    }
}

/// Position cost of a placed character, in millionths.
pub open spec fn spec_char_cost_micro(pos: KeyPos) -> int {
    spec_base_cost(pos.row as int, pos.col as int) * spec_cost_mult_micro(
        pos.layer as int,
        pos.row as int,
        pos.col as int,
    )
}

/// The cost of any placed character lies between 1 and 121.
pub proof fn lemma_char_cost_range(pos: KeyPos)
    ensures
        1000000 <= spec_char_cost_micro(pos) <= 121000000,
{
    assert(1 <= spec_base_cost(pos.row as int, pos.col as int) <= 4);
    assert(1000000 <= spec_cost_mult_micro(pos.layer as int, pos.row as int, pos.col as int)
        <= 30150000);
    assert(1000000 <= spec_base_cost(pos.row as int, pos.col as int) * spec_cost_mult_micro(
        pos.layer as int,
        pos.row as int,
        pos.col as int,
    ) <= 121000000) by (nonlinear_arith)
        requires
            1 <= spec_base_cost(pos.row as int, pos.col as int) <= 4,
            1000000 <= spec_cost_mult_micro(pos.layer as int, pos.row as int, pos.col as int)
                <= 30150000,
    ;
}

/// Position cost of a placed character, in millionths.
pub fn char_cost_micro(pos: KeyPos) -> (c: u64)
    ensures
        c == spec_char_cost_micro(pos),
        1000000 <= c <= 121000000,
{
    proof {
        lemma_char_cost_range(pos);
    }
    let base: u64 = if pos.col >= 10 {
        2
    } else if pos.row == 0 {
        match pos.col {
            0 | 5 | 9 => 4,
            4 => 3,
            _ => 2,
        }
    } else if pos.row == 1 {
        match pos.col {
            0 | 4 | 5 | 9 => 2,
            _ => 1,
        }
    } else {
        match pos.col {
            0 | 4 | 9 => 4,
            1 | 5 => 3,
            _ => 2,
        }
    };
    let mult: u64 = if pos.layer == 0 {
        1000000
    } else if pos.layer == 1 {
        if pos.col == 7 && pos.row != 1 {
            30150000
        } else if pos.col >= 8 {
            12150000
        } else {
            3150000
        }
    } else if pos.layer == 2 {
        if pos.col == 2 && pos.row != 1 {
            30150000
        } else if pos.col <= 1 {
            12150000
        } else {
            3150000
        }
    } else {
        1050000
    };
    base * mult
}

/// Log-cost sum of the placed characters, weighted by frequency,
/// over the first `i` corpus entries; negative log of the cost, so
/// cheaper placements give larger sums.
pub open spec fn spec_pc_char_log(cells: Seq<Symbol>, s: Seq<(Gram, usize)>, i: int) -> int
    decreases i,
{
    if i <= 0 {
        0
    } else {
        spec_pc_char_log(cells, s, i - 1) + match Layout::spec_char_pos(cells, s[i - 1].0.c0) {
            Some(pos) => -(s[i - 1].1 * spec_ln_micro(spec_char_cost_micro(pos))),
            None => 0,
        }
    }
}

/// The weighted log-cost sum is bounded by the mapped frequency.
pub proof fn lemma_pc_char_log_bounds(cells: Seq<Symbol>, s: Seq<(Gram, usize)>, i: int)
    requires
        0 <= i <= s.len(),
    ensures
        -17000000 * spec_cc_total(cells, s, i) <= spec_pc_char_log(cells, s, i) <= 17000000
            * spec_cc_total(cells, s, i),
    decreases i,
{
    if i > 0 {
        lemma_pc_char_log_bounds(cells, s, i - 1);
        lemma_cc_bounds(cells, s, i - 1);
        lemma_cc_bounds(cells, s, i);
        match Layout::spec_char_pos(cells, s[i - 1].0.c0) {
            Some(pos) => {
                lemma_char_cost_range(pos);
                crate::numeric::lemma_ln_range(spec_char_cost_micro(pos));
                assert(-17000000 * (s[i - 1].1 as int) <= -(s[i - 1].1 * spec_ln_micro(
                    spec_char_cost_micro(pos),
                )) <= 17000000 * (s[i - 1].1 as int)) by (nonlinear_arith)
                    requires
                        -16600000 <= spec_ln_micro(spec_char_cost_micro(pos)) <= 9000000,
                        s[i - 1].1 >= 0,
                ;
                assert(-17000000 * spec_cc_total(cells, s, i) <= spec_pc_char_log(cells, s, i)
                    <= 17000000 * spec_cc_total(cells, s, i)) by (nonlinear_arith)
                    requires
                        spec_cc_total(cells, s, i) == spec_cc_total(cells, s, i - 1) + s[i
                            - 1].1 as int,
                        spec_pc_char_log(cells, s, i) == spec_pc_char_log(cells, s, i - 1) + -(s[i
                            - 1].1 * spec_ln_micro(spec_char_cost_micro(pos))),
                        -17000000 * spec_cc_total(cells, s, i - 1) <= spec_pc_char_log(
                            cells,
                            s,
                            i - 1,
                        ) <= 17000000 * spec_cc_total(cells, s, i - 1),
                        -17000000 * (s[i - 1].1 as int) <= -(s[i - 1].1 * spec_ln_micro(
                            spec_char_cost_micro(pos),
                        )) <= 17000000 * (s[i - 1].1 as int),
                ;
            },
            None => {
                assert(-17000000 * spec_cc_total(cells, s, i) <= spec_pc_char_log(cells, s, i)
                    <= 17000000 * spec_cc_total(cells, s, i)) by (nonlinear_arith)
                    requires
                        spec_cc_total(cells, s, i) == spec_cc_total(cells, s, i - 1),
                        spec_pc_char_log(cells, s, i) == spec_pc_char_log(cells, s, i - 1),
                        -17000000 * spec_cc_total(cells, s, i - 1) <= spec_pc_char_log(
                            cells,
                            s,
                            i - 1,
                        ) <= 17000000 * spec_cc_total(cells, s, i - 1),
                ;
            },
        }
    }
}

/// Whether a cell draws the empty-cell cost adjustment: an empty
/// non-fixed cell in the ten main columns.
pub open spec fn spec_pc_blankish(cells: Seq<Symbol>, p: int) -> bool {
    &&& cells[p] == crate::symbol::spec_blank()
    &&& !crate::geometry::spec_is_fixed_idx(p)
    &&& crate::geometry::spec_col_of(p) < 10
}

/// The cost charged for an empty cell, in millionths: a reward
/// above or below a shift trigger on its column, tolerable beyond
/// the trigger on the little-finger side, a strong penalty anywhere
/// else.
pub open spec fn spec_blank_cost_micro(p: int) -> int {
    let layer = crate::geometry::spec_layer_of(p);
    let row = crate::geometry::spec_row_of(p);
    let col = crate::geometry::spec_col_of(p);
    if (layer == 1 && col == 7 && row != 1) || (layer == 2 && col == 2 && row != 1) {
        500000
    } else if (layer == 1 && col >= 8) || (layer == 2 && col <= 1) {
        2000000
    } else {
        50000000
    }
}

/// The empty-cell weight of a running total: a hundredth of it,
/// and nothing once the total passes a guard bound that real
/// corpora stay far below (it keeps the sums within machine range).
pub open spec fn spec_blank_weight(f: int) -> int {
    if f < 0x10_0000_0000 {
        f / 100
    } else {
        0
    }
}

/// Weighted frequency after charging the empty cells among the
/// first `p` cells; every empty cell adds a hundredth of the
/// running total.
pub open spec fn spec_pc_blank_freq(cells: Seq<Symbol>, p: int, f0: int) -> int
    decreases p,
{
    if p <= 0 {
        f0
    } else {
        let f = spec_pc_blank_freq(cells, p - 1, f0);
        f + if spec_pc_blankish(cells, p - 1) {
            spec_blank_weight(f)
        } else {
            0int
        }
    }
}

/// Log-cost sum after charging the empty cells among the first `p`
/// cells.
pub open spec fn spec_pc_blank_log(cells: Seq<Symbol>, p: int, l0: int, f0: int) -> int
    decreases p,
{
    if p <= 0 {
        l0
    } else {
        let l = spec_pc_blank_log(cells, p - 1, l0, f0);
        let f = spec_pc_blank_freq(cells, p - 1, f0);
        l + if spec_pc_blankish(cells, p - 1) {
            -(spec_blank_weight(f) * spec_ln_micro(spec_blank_cost_micro(p - 1)))
        } else {
            0int
        }
    }
}

/// Bounds of the empty-cell accumulators.
pub proof fn lemma_pc_blank_bounds(cells: Seq<Symbol>, p: int, l0: int, f0: int)
    requires
        0 <= p <= 124,
        0 <= f0 <= 0x10000000,
        -17000000 * f0 <= l0 <= 17000000 * f0,
    ensures
        f0 <= spec_pc_blank_freq(cells, p, f0) <= 0x20_0000_0000,
        -17000000 * spec_pc_blank_freq(cells, p, f0) <= spec_pc_blank_log(cells, p, l0, f0)
            <= 17000000 * spec_pc_blank_freq(cells, p, f0),
    decreases p,
{
    if p > 0 {
        lemma_pc_blank_bounds(cells, p - 1, l0, f0);
        let f = spec_pc_blank_freq(cells, p - 1, f0);
        let l = spec_pc_blank_log(cells, p - 1, l0, f0);
        if spec_pc_blankish(cells, p - 1) {
            let bw = spec_blank_weight(f);
            assert(0 <= bw <= f);
            assert(500000 <= spec_blank_cost_micro(p - 1) <= 50000000);
            crate::numeric::lemma_ln_range(spec_blank_cost_micro(p - 1));
            assert(-17000000 * bw <= -(bw * spec_ln_micro(spec_blank_cost_micro(p - 1)))
                <= 17000000 * bw) by (nonlinear_arith)
                requires
                    -16600000 <= spec_ln_micro(spec_blank_cost_micro(p - 1)) <= 9000000,
                    bw >= 0,
            ;
            assert(-17000000 * (f + bw) <= l + -(bw * spec_ln_micro(spec_blank_cost_micro(
                p - 1,
            ))) <= 17000000 * (f + bw)) by (nonlinear_arith)
                requires
                    -17000000 * f <= l <= 17000000 * f,
                    -17000000 * bw <= -(bw * spec_ln_micro(spec_blank_cost_micro(p - 1)))
                        <= 17000000 * bw,
            ;
        }
    }
}

/// The position-cost score of a layout: the frequency-weighted
/// geometric mean of the reciprocal placement costs, on the
/// full-score scale; 100 million only when the weighted log-cost is
/// not negative.
pub open spec fn spec_position_cost_metric(cells: Seq<Symbol>, s: Seq<(Gram, usize)>) -> int {
    let f0 = spec_cc_total(cells, s, s.len() as int);
    let l0 = spec_pc_char_log(cells, s, s.len() as int);
    let f = spec_pc_blank_freq(cells, 124, f0);
    let l = spec_pc_blank_log(cells, 124, l0, f0);
    if f <= 0 {
        0
    } else if l >= 0 {
        100000000
    } else {
        spec_exp_neg((-l + f - 1) / f) * 100
    }
}

/// Compute the position-cost score.
pub fn calc_position_cost(cells_map: &CharPosMap, corpus: &CorpusStats, layout: &Layout) -> (r:
    u64)
    requires
        corpus.wf(),
        spec_cells_wf(layout.cells@),
        forall|c: char|
            spec_cpm_get(cells_map.entries@, c) == Layout::spec_char_pos(layout.cells@, c),
    ensures
        r == spec_position_cost_metric(layout.cells@, corpus.char_freq.entries@),
        r <= 100000000,
{
    let ghost s = corpus.char_freq.entries@;
    let n = corpus.char_freq.entries.len();
    let mut log_sum: i64 = 0;
    let mut freq: u64 = 0;
    let mut i: usize = 0;
    while i < n
        invariant
            corpus.wf(),
            spec_cells_wf(layout.cells@),
            forall|c: char|
                spec_cpm_get(cells_map.entries@, c) == Layout::spec_char_pos(layout.cells@, c),
            s == corpus.char_freq.entries@,
            n == s.len(),
            0 <= i <= n,
            freq == spec_cc_total(layout.cells@, s, i as int),
            log_sum == spec_pc_char_log(layout.cells@, s, i as int),
            freq <= 0x10000000,
            -17000000 * freq <= log_sum <= 17000000 * freq,
        decreases n - i,
    {
        proof {
            lemma_cc_bounds(layout.cells@, s, i as int);
            lemma_cc_bounds(layout.cells@, s, i as int + 1);
            lemma_pc_char_log_bounds(layout.cells@, s, i as int + 1);
            crate::corpus::lemma_total_prefix_le(s, i as int + 1);
        }
        let (g, count) = corpus.char_freq.entries[i];
        match cells_map.get(g.c0) {
            Some(pos) => {
                let cost = char_cost_micro(pos);
                let lncost = ln_micro(cost);
                let count64 = count as u64;
                proof {
                    assert(count64 * lncost <= 0x10000000int * 17000000 && count64 * lncost
                        >= -(0x10000000int * 17000000)) by (nonlinear_arith)
                        requires
                            0 <= count64 <= 0x10000000,
                            -16600000 <= lncost <= 9000000,
                    ;
                }
                log_sum = log_sum - (count64 as i64) * lncost;
                freq = freq + count64;
            },
            None => {},
        }
        i = i + 1;
    }
    let ghost f0 = freq as int;
    let ghost l0 = log_sum as int;
    let mut p: usize = 0;
    while p < 124
        invariant
            spec_cells_wf(layout.cells@),
            0 <= p <= 124,
            0 <= f0 <= 0x10000000,
            -17000000 * f0 <= l0 <= 17000000 * f0,
            freq == spec_pc_blank_freq(layout.cells@, p as int, f0),
            log_sum == spec_pc_blank_log(layout.cells@, p as int, l0, f0),
            freq <= 0x20_0000_0000,
            -17000000 * freq <= log_sum <= 17000000 * freq,
        decreases 124 - p,
    {
        proof {
            lemma_pc_blank_bounds(layout.cells@, p as int, l0, f0);
            lemma_pc_blank_bounds(layout.cells@, p as int + 1, l0, f0);
        }
        let kp = crate::geometry::pos_of_cell(p);
        let sym = layout.cells[p];
        if sym.is_blank() && !Layout::is_fixed_position(kp.layer, kp.row, kp.col) && kp.col < 10 {
            let bcost: u64 = if (kp.layer == 1 && kp.col == 7 && kp.row != 1) || (kp.layer == 2
                && kp.col == 2 && kp.row != 1) {
                500000
            } else if (kp.layer == 1 && kp.col >= 8) || (kp.layer == 2 && kp.col <= 1) {
                2000000
            } else {
                50000000
            };
            proof {
                assert(bcost == spec_blank_cost_micro(p as int));
                crate::numeric::lemma_ln_range(bcost as int);
            }
            let lnb = ln_micro(bcost);
            let bw: u64 = if freq < 0x10_0000_0000 {
                freq / 100
            } else {
                0
            };
            proof {
                assert(bw == spec_blank_weight(freq as int));
                assert(bw * lnb <= 0x20_0000_0000int * 17000000 && bw * lnb >= -(
                0x20_0000_0000int * 17000000)) by (nonlinear_arith)
                    requires
                        0 <= bw <= 0x20_0000_0000,
                        -16600000 <= lnb <= 9000000,
                ;
            }
            log_sum = log_sum - (bw as i64) * lnb;
            freq = freq + bw;
        }
        p = p + 1;
    }
    if freq == 0 {
        return 0;
    }
    if log_sum >= 0 {
        return 100000000;
    }
    let neg: u64 = (-log_sum) as u64;
    let arg: u64 = (neg + (freq - 1)) / freq;
    proof {
        assert(arg <= 17000001) by (nonlinear_arith)
            requires
                0 < freq,
                neg <= 17000000 * freq,
                arg == (neg + (freq - 1)) / (freq as int),
        ;
        assert(arg as int == (-(log_sum as int) + freq - 1) / (freq as int));
    }
    let e = exp_neg_micro(arg);
    e * 100
}

/// Coverage of the corpus characters by the layout, in millionths:
/// the share of character mass that has a position.  It scales the
/// keystroke-effort metric.
pub open spec fn spec_coverage(cells: Seq<Symbol>, ce: Seq<(Gram, usize)>) -> int {
    let ct = spec_entry_total(ce);
    if ct <= 0 {
        0
    } else {
        spec_cc_total(cells, ce, ce.len() as int) * 1000000 / ct
    }
}

/// Coverage of the corpus bigrams by the layout, in millionths: the
/// share of bigram mass whose both characters have a position.  It
/// scales the bigram metrics, so a layout covering half the bigram
/// mass scores at most half.
pub open spec fn spec_bigram_coverage(cells: Seq<Symbol>, be: Seq<(Gram, usize)>) -> int {
    let bt = spec_entry_total(be);
    if bt <= 0 {
        0
    } else {
        spec_bc_counted(cells, be, be.len() as int) * 1000000 / bt
    }
}

/// The row-skip avoidance score, coverage-scaled.
pub open spec fn spec_metric_row_skip(cells: Seq<Symbol>, be: Seq<(Gram, usize)>) -> int {
    let bc = spec_bc_counted(cells, be, be.len() as int);
    let skips = spec_bc_skips(cells, be, be.len() as int);
    if bc <= 0 {
        0
    } else {
        spec_cov_scale(spec_frac8(bc - skips, bc), spec_bigram_coverage(cells, be))
    }
}

/// The same-finger avoidance score, coverage-scaled.
pub open spec fn spec_metric_same_finger(cells: Seq<Symbol>, be: Seq<(Gram, usize)>) -> int {
    let bc = spec_bc_counted(cells, be, be.len() as int);
    let sf = spec_bc_sf(cells, be, be.len() as int);
    if bc <= 0 {
        0
    } else {
        spec_cov_scale(spec_frac8(bc - sf, bc), spec_bigram_coverage(cells, be))
    }
}

/// The hand-alternation score, coverage-scaled.
pub open spec fn spec_metric_alternating(cells: Seq<Symbol>, be: Seq<(Gram, usize)>) -> int {
    let bc = spec_bc_counted(cells, be, be.len() as int);
    let alt = spec_bc_alt(cells, be, be.len() as int);
    if bc <= 0 {
        0
    } else {
        spec_cov_scale(spec_frac8(alt, bc), spec_bigram_coverage(cells, be))
    }
}

/// The home-row usage score.
pub open spec fn spec_metric_home(cells: Seq<Symbol>, ce: Seq<(Gram, usize)>) -> int {
    spec_frac8(spec_cc_home(cells, ce, ce.len() as int), spec_entry_total(ce))
}

/// The no-shift share score.
pub open spec fn spec_metric_single(cells: Seq<Symbol>, ce: Seq<(Gram, usize)>) -> int {
    spec_frac8(spec_cc_layer(cells, ce, ce.len() as int, 0), spec_entry_total(ce))
}

/// The keystroke-effort score: how close the average weight stays
/// to the home position, coverage-scaled.
pub open spec fn spec_metric_effort(cells: Seq<Symbol>, ce: Seq<(Gram, usize)>) -> int {
    let mapped = spec_cc_total(cells, ce, ce.len() as int);
    let tk = spec_cc_tk(cells, ce, ce.len() as int);
    if mapped <= 0 {
        0
    } else {
        let avg = tk / mapped;
        let ratio = (avg - 1000) * 1000000 / 4000;
        let base = if ratio >= 1000000 {
            0int
        } else {
            1000000 - ratio
        };
        spec_cov_scale(base * 100, spec_coverage(cells, ce))
    }
}

/// The shift-balance score: how evenly load splits between the two
/// primary shift layers; like every metric, 0 when its denominator
/// (the shifted mass) is zero.
pub open spec fn spec_metric_shift_balance(cells: Seq<Symbol>, ce: Seq<(Gram, usize)>) -> int {
    let l1 = spec_cc_layer(cells, ce, ce.len() as int, 1);
    let l2 = spec_cc_layer(cells, ce, ce.len() as int, 2);
    if l1 + l2 <= 0 {
        0
    } else if l1 <= l2 {
        spec_frac8(l1, l2)
    } else {
        spec_frac8(l2, l1)
    }
}

/// The roll share score.
pub open spec fn spec_metric_roll(cells: Seq<Symbol>, te: Seq<(Gram, usize)>) -> int {
    spec_frac8(spec_tc_roll(cells, te, te.len() as int), spec_tc_counted(cells, te, te.len() as int))
}

/// The inward-roll share score.
pub open spec fn spec_metric_inroll(cells: Seq<Symbol>, te: Seq<(Gram, usize)>) -> int {
    spec_frac8(
        spec_tc_inroll(cells, te, te.len() as int),
        spec_tc_counted(cells, te, te.len() as int),
    )
}

/// The arpeggio share score.
pub open spec fn spec_metric_arpeggio(cells: Seq<Symbol>, te: Seq<(Gram, usize)>) -> int {
    spec_frac8(
        spec_tc_arpeggio(cells, te, te.len() as int),
        spec_tc_counted(cells, te, te.len() as int),
    )
}

/// The redirect-avoidance score.
pub open spec fn spec_metric_redirect_low(cells: Seq<Symbol>, te: Seq<(Gram, usize)>) -> int {
    let tc = spec_tc_counted(cells, te, te.len() as int);
    if tc <= 0 {
        0
    } else {
        spec_frac8(tc - spec_tc_redirect(cells, te, te.len() as int), tc)
    }
}

/// All scores on the full-score scale.
pub open spec fn spec_scores_wf(sc: EvaluationScores) -> bool {
    &&& sc.row_skip <= 100000000
    &&& sc.home_position <= 100000000
    &&& sc.total_keystrokes <= 100000000
    &&& sc.same_finger <= 100000000
    &&& sc.single_key <= 100000000
    &&& sc.colemak_similarity <= 100000000
    &&& sc.position_cost <= 100000000
    &&& sc.tsuki_similarity <= 100000000
    &&& sc.memorability <= 100000000
    &&& sc.alternating <= 100000000
    &&& sc.roll <= 100000000
    &&& sc.redirect_low <= 100000000
    &&& sc.inroll <= 100000000
    &&& sc.arpeggio <= 100000000
    &&& sc.shift_balance <= 100000000
}

/// A core metric normalized to a fraction in millionths, floored at
/// one hundredth so the log-domain mean stays finite.
pub open spec fn spec_norm_metric(s: int) -> int {
    let v = s / 100;
    if v < 10000 {
        10000
    } else {
        v
    }
}

/// The fitness of a score breakdown under the given weights: the
/// weighted log-domain geometric mean of the five core metrics
/// (same-finger, row-skip, home-row, effort, alternation), on the
/// full-score scale, adjusted by the weighted bonus share.  This is
/// the five-metric core variant, with the position-cost and
/// similarity scores among the additive bonuses.
pub open spec fn spec_fitness(sc: EvaluationScores, w: EvaluationWeights) -> int {
    let wls = w.same_finger * spec_ln_micro(spec_norm_metric(sc.same_finger as int)) + w.row_skip
        * spec_ln_micro(spec_norm_metric(sc.row_skip as int)) + w.home_position * spec_ln_micro(
        spec_norm_metric(sc.home_position as int),
    ) + w.total_keystrokes * spec_ln_micro(spec_norm_metric(sc.total_keystrokes as int))
        + w.alternating * spec_ln_micro(spec_norm_metric(sc.alternating as int));
    let wsum = w.spec_core_weight_sum();
    let avgneg = if wls >= 0 {
        0int
    } else {
        (-wls) / wsum
    };
    let core = spec_exp_neg(avgneg) * 100;
    let additive = sc.single_key * w.single_key + sc.colemak_similarity * w.colemak_similarity
        + sc.position_cost * w.position_cost + sc.redirect_low * w.redirect_low
        + sc.tsuki_similarity * w.tsuki_similarity + sc.roll * w.roll + sc.inroll * w.inroll
        + sc.arpeggio * w.arpeggio + sc.memorability * w.memorability + sc.shift_balance
        * w.shift_balance;
    let scale = w.spec_bonus_weight_sum() * 100;
    let adj = additive / scale;
    core * (1000000 + adj) / 1000000
}

/// The layout evaluator: corpus statistics, the reference layout
/// and the metric weights.
pub struct Evaluator {
    /// The corpus statistics read by every metric.
    pub corpus: CorpusStats,
    /// The historical kana reference layout.
    pub tsuki: TsukiLayout,
    /// The metric weights.
    pub weights: EvaluationWeights,
}

impl Evaluator {
    /// An evaluator with the default weights.
    pub fn new(corpus: CorpusStats) -> (r: Self)
        ensures
            r.corpus == corpus,
            r.weights == EvaluationWeights::spec_default(),
            r.weights.wf(),
    {
        Evaluator { corpus, tsuki: TsukiLayout::new(), weights: EvaluationWeights::default() }
    }

    /// An evaluator with the given weights.
    pub fn with_weights(corpus: CorpusStats, weights: EvaluationWeights) -> (r: Self)
        requires
            weights.wf(),
        ensures
            r.corpus == corpus,
            r.weights == weights,
            r.weights.wf(),
    {
        Evaluator { corpus, tsuki: TsukiLayout::new(), weights }
    }

    /// Whether the evaluator's scores agree with the spec metrics of
    /// a cell grid.
    pub open spec fn scores_of(&self, sc: EvaluationScores, cells: Seq<Symbol>) -> bool {
        let ce = self.corpus.char_freq.entries@;
        let be = self.corpus.bigram_freq.entries@;
        let te = self.corpus.trigram_freq.entries@;
        let tsk = self.tsuki.char_positions.entries@;
        &&& sc.row_skip == spec_metric_row_skip(cells, be)
        &&& sc.home_position == spec_metric_home(cells, ce)
        &&& sc.total_keystrokes == spec_metric_effort(cells, ce)
        &&& sc.same_finger == spec_metric_same_finger(cells, be)
        &&& sc.single_key == spec_metric_single(cells, ce)
        &&& sc.colemak_similarity == spec_colemak_metric(cells)
        &&& sc.position_cost == spec_position_cost_metric(cells, ce)
        &&& sc.tsuki_similarity == spec_tsuki_metric(cells, tsk)
        &&& sc.memorability == spec_memo_metric(cells)
        &&& sc.alternating == spec_metric_alternating(cells, be)
        &&& sc.roll == spec_metric_roll(cells, te)
        &&& sc.redirect_low == spec_metric_redirect_low(cells, te)
        &&& sc.inroll == spec_metric_inroll(cells, te)
        &&& sc.arpeggio == spec_metric_arpeggio(cells, te)
        &&& sc.shift_balance == spec_metric_shift_balance(cells, ce)
    }

    /// Compute the full score breakdown of a layout.
    pub fn compute_scores(&self, layout: &Layout) -> (r: EvaluationScores)
        requires
            self.corpus.wf(),
            spec_cells_wf(layout.cells@),
        ensures
            self.scores_of(r, layout.cells@),
            spec_scores_wf(r),
    {
        let ghost ce = self.corpus.char_freq.entries@;
        let ghost be = self.corpus.bigram_freq.entries@;
        let ghost te = self.corpus.trigram_freq.entries@;
        let cells_map = layout.build_char_map();
        let cc = char_pass(&cells_map, &self.corpus, layout);
        let bc = bigram_pass(&cells_map, &self.corpus, layout);
        let tc = trigram_pass(&cells_map, &self.corpus, layout);
        let corpus_total = self.corpus.total_chars() as u64;
        proof {
            lemma_cc_bounds(layout.cells@, ce, ce.len() as int);
            lemma_bc_bounds(layout.cells@, be, be.len() as int);
            lemma_tc_bounds(layout.cells@, te, te.len() as int);
            assert(ce.take(ce.len() as int) =~= ce);
            assert(be.take(be.len() as int) =~= be);
            assert(te.take(te.len() as int) =~= te);
            crate::corpus::lemma_total_nonneg(be);
            crate::corpus::lemma_total_nonneg(te);
        }
        let coverage: u64 = if corpus_total == 0 {
            0
        } else {
            proof {
                assert((cc.total as int) * 1000000 / (corpus_total as int) <= 1000000) by (
                nonlinear_arith)
                    requires
                        0 <= cc.total as int <= corpus_total as int,
                        corpus_total as int > 0,
                ;
            }
            let cv: u128 = (cc.total as u128) * 1000000 / (corpus_total as u128);
            cv as u64
        };
        let bigram_total = self.corpus.total_bigrams() as u64;
        let bigram_coverage: u64 = if bigram_total == 0 {
            0
        } else {
            proof {
                assert((bc.counted as int) * 1000000 / (bigram_total as int) <= 1000000) by (
                nonlinear_arith)
                    requires
                        0 <= bc.counted as int <= bigram_total as int,
                        bigram_total as int > 0,
                ;
            }
            let bv: u128 = (bc.counted as u128) * 1000000 / (bigram_total as u128);
            bv as u64
        };
        proof {
            assert(coverage == spec_coverage(layout.cells@, ce));
            assert(bigram_coverage == spec_bigram_coverage(layout.cells@, be));
        }
        let row_skip: u64 = if bc.counted == 0 {
            0
        } else {
            cov_scale(frac8(bc.counted - bc.skips, bc.counted), bigram_coverage)
        };
        let same_finger: u64 = if bc.counted == 0 {
            0
        } else {
            cov_scale(frac8(bc.counted - bc.sf, bc.counted), bigram_coverage)
        };
        let alternating: u64 = if bc.counted == 0 {
            0
        } else {
            cov_scale(frac8(bc.alt, bc.counted), bigram_coverage)
        };
        let home_position = frac8(cc.home, corpus_total);
        let single_key = frac8(cc.single, corpus_total);
        let total_keystrokes: u64 = if cc.total == 0 {
            0
        } else {
            let avg = cc.tk / cc.total;
            proof {
                assert(1000 <= cc.tk / cc.total <= 9000) by (nonlinear_arith)
                    requires
                        cc.total > 0,
                        1000 * cc.total <= cc.tk,
                        cc.tk <= 9000 * cc.total,
                ;
            }
            let ratio = (avg - 1000) * 1000000 / 4000;
            let base: u64 = if ratio >= 1000000 {
                0
            } else {
                1000000 - ratio
            };
            cov_scale(base * 100, coverage)
        };
        let shift_balance: u64 = if cc.l1 + cc.l2 == 0 {
            0
        } else if cc.l1 <= cc.l2 {
            frac8(cc.l1, cc.l2)
        } else {
            frac8(cc.l2, cc.l1)
        };
        let roll = frac8(tc.roll, tc.counted);
        let inroll = frac8(tc.inroll, tc.counted);
        let arpeggio = frac8(tc.arpeggio, tc.counted);
        let redirect_low: u64 = if tc.counted == 0 {
            0
        } else {
            frac8(tc.counted - tc.redirect, tc.counted)
        };
        let colemak_similarity = calc_colemak_similarity(layout);
        let position_cost = calc_position_cost(&cells_map, &self.corpus, layout);
        let tsuki_similarity = calc_tsuki_similarity(layout, &self.tsuki);
        let memorability = calc_memorability(layout);
        EvaluationScores {
            row_skip,
            home_position,
            total_keystrokes,
            same_finger,
            single_key,
            colemak_similarity,
            position_cost,
            tsuki_similarity,
            memorability,
            alternating,
            roll,
            redirect_low,
            inroll,
            arpeggio,
            shift_balance,
        }
    }

    /// Combine a score breakdown into one fitness value.
    pub fn compute_fitness(&self, scores: &EvaluationScores) -> (r: u64)
        requires
            self.weights.wf(),
            spec_scores_wf(*scores),
        ensures
            r == spec_fitness(*scores, self.weights),
            100 <= r <= 200000000,
    {
        let w = &self.weights;
        let n_sf = norm_metric(scores.same_finger);
        let n_rs = norm_metric(scores.row_skip);
        let n_home = norm_metric(scores.home_position);
        let n_tk = norm_metric(scores.total_keystrokes);
        let n_alt = norm_metric(scores.alternating);
        let l_sf = ln_micro(n_sf);
        let l_rs = ln_micro(n_rs);
        let l_home = ln_micro(n_home);
        let l_tk = ln_micro(n_tk);
        let l_alt = ln_micro(n_alt);
        proof {
            assert(w.same_finger * l_sf <= 10000int * 9000000 && w.same_finger * l_sf >= -((
            w.same_finger as int) * 16600000) && w.same_finger * l_sf >= -(10000int * 16600000)) by (nonlinear_arith)
                requires
                    0 <= w.same_finger <= 10000,
                    -16600000 <= l_sf <= 9000000,
            ;
            assert(w.row_skip * l_rs <= 10000int * 9000000 && w.row_skip * l_rs >= -((
            w.row_skip as int) * 16600000) && w.row_skip * l_rs >= -(10000int * 16600000)) by (nonlinear_arith)
                requires
                    0 <= w.row_skip <= 10000,
                    -16600000 <= l_rs <= 9000000,
            ;
            assert(w.home_position * l_home <= 10000int * 9000000 && w.home_position * l_home >= -((
            w.home_position as int) * 16600000) && w.home_position * l_home >= -(10000int * 16600000)) by (nonlinear_arith)
                requires
                    0 <= w.home_position <= 10000,
                    -16600000 <= l_home <= 9000000,
            ;
            assert(w.total_keystrokes * l_tk <= 10000int * 9000000 && w.total_keystrokes * l_tk >= -((
            w.total_keystrokes as int) * 16600000) && w.total_keystrokes * l_tk >= -(10000int * 16600000)) by (nonlinear_arith)
                requires
                    0 <= w.total_keystrokes <= 10000,
                    -16600000 <= l_tk <= 9000000,
            ;
            assert(w.alternating * l_alt <= 10000int * 9000000 && w.alternating * l_alt >= -((
            w.alternating as int) * 16600000) && w.alternating * l_alt >= -(10000int * 16600000)) by (nonlinear_arith)
                requires
                    0 <= w.alternating <= 10000,
                    -16600000 <= l_alt <= 9000000,
            ;
        }
        let wls: i64 = (w.same_finger as i64) * l_sf + (w.row_skip as i64) * l_rs + (
        w.home_position as i64) * l_home + (w.total_keystrokes as i64) * l_tk + (
        w.alternating as i64) * l_alt;
        let wsum: u64 = (w.same_finger + w.row_skip + w.home_position + w.total_keystrokes
            + w.alternating) as u64;
        let avgneg: u64 = if wls >= 0 {
            0
        } else {
            proof {
                assert((-(wls as int)) / (wsum as int) <= 5 * 10000 * 16600000) by (
                nonlinear_arith)
                    requires
                        wsum >= 1,
                        -(wls as int) <= 5 * 10000int * 16600000,
                        wls < 0,
                ;
            }
            ((-wls) as u64) / wsum
        };
        proof {
            if avgneg > 0 {
                assert(avgneg <= 830000000000u64);
            }
        }
        let avgcap: u64 = if avgneg > 100000000 {
            100000000
        } else {
            avgneg
        };
        proof {
            assert(avgneg <= 100000000) by {
                if wls < 0 {
                    assert(-(wls as int) <= (wsum as int) * 16600000) by (nonlinear_arith)
                        requires
                            wls as int >= -((w.same_finger as int) * 16600000 + (
                            w.row_skip as int) * 16600000 + (w.home_position as int) * 16600000 + (
                            w.total_keystrokes as int) * 16600000 + (w.alternating as int)
                                * 16600000),
                            wsum as int == w.same_finger + w.row_skip + w.home_position
                                + w.total_keystrokes + w.alternating,
                    ;
                    assert((-(wls as int)) / (wsum as int) <= 16600000) by (nonlinear_arith)
                        requires
                            wsum >= 1,
                            -(wls as int) <= (wsum as int) * 16600000,
                    ;
                }
            };
        }
        let core: u64 = exp_neg_micro(avgcap) * 100;
        proof {
            assert((scores.single_key as int) * (w.single_key as int) <= 1000000000000int) by (nonlinear_arith)
                requires
                    0 <= scores.single_key as int <= 100000000,
                    0 <= w.single_key as int <= 10000,
            ;
            assert((scores.colemak_similarity as int) * (w.colemak_similarity as int) <= 1000000000000int) by (nonlinear_arith)
                requires
                    0 <= scores.colemak_similarity as int <= 100000000,
                    0 <= w.colemak_similarity as int <= 10000,
            ;
            assert((scores.position_cost as int) * (w.position_cost as int) <= 1000000000000int) by (nonlinear_arith)
                requires
                    0 <= scores.position_cost as int <= 100000000,
                    0 <= w.position_cost as int <= 10000,
            ;
            assert((scores.redirect_low as int) * (w.redirect_low as int) <= 1000000000000int) by (nonlinear_arith)
                requires
                    0 <= scores.redirect_low as int <= 100000000,
                    0 <= w.redirect_low as int <= 10000,
            ;
            assert((scores.tsuki_similarity as int) * (w.tsuki_similarity as int) <= 1000000000000int) by (nonlinear_arith)
                requires
                    0 <= scores.tsuki_similarity as int <= 100000000,
                    0 <= w.tsuki_similarity as int <= 10000,
            ;
            assert((scores.roll as int) * (w.roll as int) <= 1000000000000int) by (nonlinear_arith)
                requires
                    0 <= scores.roll as int <= 100000000,
                    0 <= w.roll as int <= 10000,
            ;
            assert((scores.inroll as int) * (w.inroll as int) <= 1000000000000int) by (nonlinear_arith)
                requires
                    0 <= scores.inroll as int <= 100000000,
                    0 <= w.inroll as int <= 10000,
            ;
            assert((scores.arpeggio as int) * (w.arpeggio as int) <= 1000000000000int) by (nonlinear_arith)
                requires
                    0 <= scores.arpeggio as int <= 100000000,
                    0 <= w.arpeggio as int <= 10000,
            ;
            assert((scores.memorability as int) * (w.memorability as int) <= 1000000000000int) by (nonlinear_arith)
                requires
                    0 <= scores.memorability as int <= 100000000,
                    0 <= w.memorability as int <= 10000,
            ;
            assert((scores.shift_balance as int) * (w.shift_balance as int) <= 1000000000000int) by (nonlinear_arith)
                requires
                    0 <= scores.shift_balance as int <= 100000000,
                    0 <= w.shift_balance as int <= 10000,
            ;
        }
        let additive: u64 = (scores.single_key as u64) * (w.single_key as u64) + (
        scores.colemak_similarity as u64) * (w.colemak_similarity as u64) + (
        scores.position_cost as u64) * (w.position_cost as u64) + (scores.redirect_low as u64) * (
        w.redirect_low as u64) + (scores.tsuki_similarity as u64) * (w.tsuki_similarity as u64) + (
        scores.roll as u64) * (w.roll as u64) + (scores.inroll as u64) * (w.inroll as u64) + (
        scores.arpeggio as u64) * (w.arpeggio as u64) + (scores.memorability as u64) * (
        w.memorability as u64) + (scores.shift_balance as u64) * (w.shift_balance as u64);
        let bsum: u64 = (w.single_key + w.colemak_similarity + w.position_cost + w.redirect_low
            + w.tsuki_similarity + w.roll + w.inroll + w.arpeggio + w.memorability
            + w.shift_balance) as u64;
        let scale: u64 = bsum * 100;
        proof {
            lemma_bonus_additive_bound(*scores, self.weights);
            assert(additive / scale <= 1000000) by (nonlinear_arith)
                requires
                    scale as int == (bsum as int) * 100,
                    bsum >= 1,
                    additive as int <= (bsum as int) * 100000000,
            ;
        }
        let adj: u64 = additive / scale;
        proof {
            assert((core as int) * (1000000 + adj as int) <= 100000000int * 2000000) by (
            nonlinear_arith)
                requires
                    0 <= core as int <= 100000000,
                    0 <= adj as int <= 1000000,
            ;
            assert((core as int) * (1000000 + adj as int) / 1000000 >= core as int) by (
            nonlinear_arith)
                requires
                    0 <= core as int,
                    0 <= adj as int,
            ;
            assert(core >= 100);
        }
        let fit: u128 = (core as u128) * ((1000000 + adj) as u128) / 1000000;
        proof {
            assert((core as int) * (1000000 + adj) / 1000000 <= 200000000) by (nonlinear_arith)
                requires
                    0 <= core as int <= 100000000,
                    0 <= adj <= 1000000,
            ;
            assert((core as int) * (1000000 + adj) >= 0) by (nonlinear_arith)
                requires
                    0 <= core as int,
                    0 <= adj,
            ;
        }
        fit as u64
    }

    /// Evaluate a layout: recompute its scores and fitness in place
    /// and return the fitness.
    pub fn evaluate(&self, layout: &mut Layout) -> (f: u64)
        requires
            self.corpus.wf(),
            self.weights.wf(),
            spec_cells_wf(old(layout).cells@),
        ensures
            final(layout).cells == old(layout).cells,
            self.scores_of(final(layout).scores, final(layout).cells@),
            final(layout).fitness == spec_fitness(final(layout).scores, self.weights),
            f == final(layout).fitness,
            f <= 200000000,
    {
        let scores = self.compute_scores(layout);
        let fitness = self.compute_fitness(&scores);
        layout.scores = scores;
        layout.fitness = fitness;
        fitness
    }
}

/// The additive bonus is bounded by the bonus weight mass.
proof fn lemma_bonus_additive_bound(sc: EvaluationScores, w: EvaluationWeights)
    requires
        spec_scores_wf(sc),
        w.wf(),
    ensures
        sc.single_key * w.single_key + sc.colemak_similarity * w.colemak_similarity
            + sc.position_cost * w.position_cost + sc.redirect_low * w.redirect_low
            + sc.tsuki_similarity * w.tsuki_similarity + sc.roll * w.roll + sc.inroll * w.inroll
            + sc.arpeggio * w.arpeggio + sc.memorability * w.memorability + sc.shift_balance
            * w.shift_balance <= w.spec_bonus_weight_sum() * 100000000,
{
    assert(sc.single_key * w.single_key <= w.single_key * 100000000) by (nonlinear_arith)
        requires
            0 <= sc.single_key <= 100000000,
            0 <= w.single_key,
    ;
    assert(sc.colemak_similarity * w.colemak_similarity <= w.colemak_similarity * 100000000)
        by (nonlinear_arith)
        requires
            0 <= sc.colemak_similarity <= 100000000,
            0 <= w.colemak_similarity,
    ;
    assert(sc.position_cost * w.position_cost <= w.position_cost * 100000000) by (nonlinear_arith)
        requires
            0 <= sc.position_cost <= 100000000,
            0 <= w.position_cost,
    ;
    assert(sc.redirect_low * w.redirect_low <= w.redirect_low * 100000000) by (nonlinear_arith)
        requires
            0 <= sc.redirect_low <= 100000000,
            0 <= w.redirect_low,
    ;
    assert(sc.tsuki_similarity * w.tsuki_similarity <= w.tsuki_similarity * 100000000) by (
    nonlinear_arith)
        requires
            0 <= sc.tsuki_similarity <= 100000000,
            0 <= w.tsuki_similarity,
    ;
    assert(sc.roll * w.roll <= w.roll * 100000000) by (nonlinear_arith)
        requires
            0 <= sc.roll <= 100000000,
            0 <= w.roll,
    ;
    assert(sc.inroll * w.inroll <= w.inroll * 100000000) by (nonlinear_arith)
        requires
            0 <= sc.inroll <= 100000000,
            0 <= w.inroll,
    ;
    assert(sc.arpeggio * w.arpeggio <= w.arpeggio * 100000000) by (nonlinear_arith)
        requires
            0 <= sc.arpeggio <= 100000000,
            0 <= w.arpeggio,
    ;
    assert(sc.memorability * w.memorability <= w.memorability * 100000000) by (nonlinear_arith)
        requires
            0 <= sc.memorability <= 100000000,
            0 <= w.memorability,
    ;
    assert(sc.shift_balance * w.shift_balance <= w.shift_balance * 100000000) by (nonlinear_arith)
        requires
            0 <= sc.shift_balance <= 100000000,
            0 <= w.shift_balance,
    ;
}

/// A core metric normalized to a fraction in millionths.
pub fn norm_metric(s: u64) -> (r: u64)
    requires
        s <= 100000000,
    ensures
        r == spec_norm_metric(s as int),
        10000 <= r <= 1000000,
{
    let v = s / 100;
    if v < 10000 {
        10000
    } else {
        v
    }
}

/// Coverage scaling: each coverage-scaled core metric is the raw
/// metric times its covered mass share (bigram mass for the bigram
/// metrics, character mass for the effort metric).  A layout
/// covering at most half the mass of another scores at most half of
/// what the other scores on the same raw metric.
pub proof fn lemma_coverage_scaling(raw: int, cov_half: int, cov_full: int)
    requires
        0 <= raw,
        0 <= cov_half,
        2 * cov_half <= cov_full,
    ensures
        spec_cov_scale(raw, cov_half) <= spec_cov_scale(raw, cov_full) / 2,
{
    let x = raw * cov_full;
    assert(2 * (raw * cov_half) <= x) by (nonlinear_arith)
        requires
            0 <= raw,
            0 <= cov_half,
            2 * cov_half <= cov_full,
            x == raw * cov_full,
    ;
    assert(raw * cov_half <= x / 2) by (nonlinear_arith)
        requires
            2 * (raw * cov_half) <= x,
    ;
    assert((x / 1000000) / 2 == x / 2000000) by (nonlinear_arith);
    assert((x / 2) / 1000000 <= x / 2000000) by (nonlinear_arith);
    assert(raw * cov_half / 1000000 <= (x / 2) / 1000000) by (nonlinear_arith)
        requires
            raw * cov_half <= x / 2,
    ;
}

/// Sign of the character log-cost sum: never positive, zero exactly
/// when every occurring character sits at a unit-cost position.
proof fn lemma_pc_char_log_sign(cells: Seq<Symbol>, s: Seq<(Gram, usize)>, i: int)
    requires
        0 <= i <= s.len(),
    ensures
        spec_pc_char_log(cells, s, i) <= 0,
        (forall|t: int|
            0 <= t < i && Layout::spec_char_pos(cells, s[t].0.c0) is Some
                ==> spec_char_cost_micro(Layout::spec_char_pos(cells, s[t].0.c0)->0) == 1000000)
            ==> spec_pc_char_log(cells, s, i) == 0,
        spec_pc_char_log(cells, s, i) == 0 ==> forall|t: int|
            0 <= t < i && Layout::spec_char_pos(cells, s[t].0.c0) is Some && s[t].1 >= 1
                ==> spec_char_cost_micro(#[trigger] Layout::spec_char_pos(cells, s[t].0.c0)->0)
                == 1000000,
    decreases i,
{
    if i > 0 {
        lemma_pc_char_log_sign(cells, s, i - 1);
        match Layout::spec_char_pos(cells, s[i - 1].0.c0) {
            Some(pos) => {
                lemma_char_cost_range(pos);
                crate::numeric::lemma_ln_nonneg(spec_char_cost_micro(pos));
                let term = -(s[i - 1].1 * spec_ln_micro(spec_char_cost_micro(pos)));
                assert(term <= 0) by (nonlinear_arith)
                    requires
                        spec_ln_micro(spec_char_cost_micro(pos)) >= 0,
                        s[i - 1].1 >= 0,
                        term == -(s[i - 1].1 * spec_ln_micro(spec_char_cost_micro(pos))),
                ;
                if spec_char_cost_micro(pos) == 1000000 {
                    crate::numeric::lemma_ln_one();
                    assert(term == 0);
                } else {
                    lemma_cost_quantized(pos);
                    crate::numeric::lemma_ln_pos(spec_char_cost_micro(pos));
                    if s[i - 1].1 >= 1 {
                        assert(term <= -1) by (nonlinear_arith)
                            requires
                                spec_ln_micro(spec_char_cost_micro(pos)) >= 1,
                                s[i - 1].1 >= 1,
                                term == -(s[i - 1].1 * spec_ln_micro(spec_char_cost_micro(pos))),
                        ;
                    }
                }
            },
            None => {},
        }
    }
}

/// Placement costs are quantized: the unit cost, or at least 1.05.
proof fn lemma_cost_quantized(pos: KeyPos)
    ensures
        spec_char_cost_micro(pos) == 1000000 || spec_char_cost_micro(pos) >= 1050000,
{
    let b = spec_base_cost(pos.row as int, pos.col as int);
    let m = spec_cost_mult_micro(pos.layer as int, pos.row as int, pos.col as int);
    assert(1 <= b <= 4);
    assert(m == 1000000 || m == 1050000 || m == 3150000 || m == 12150000 || m == 30150000);
    assert((b == 1 && m == 1000000) || b * m >= 1050000) by (nonlinear_arith)
        requires
            1 <= b <= 4,
            m == 1000000 || m == 1050000 || m == 3150000 || m == 12150000 || m == 30150000,
    ;
}

/// Without empty-cell charges, the blank pass changes nothing.
proof fn lemma_pc_no_blanks(cells: Seq<Symbol>, p: int, l0: int, f0: int)
    requires
        0 <= p <= 124,
        forall|q: int| 0 <= q < 124 ==> !spec_pc_blankish(cells, q),
    ensures
        spec_pc_blank_freq(cells, p, f0) == f0,
        spec_pc_blank_log(cells, p, l0, f0) == l0,
    decreases p,
{
    if p > 0 {
        lemma_pc_no_blanks(cells, p - 1, l0, f0);
    }
}

/// Bounds and full-score condition of the position-cost score, for
/// a grid without empty-cell charges: it lies in the interval from
/// above 0 to 100 whenever any character is placed, it is full
/// exactly when the weighted log-cost is not negative, hence
/// whenever every occurring character sits at a unit-cost position,
/// and when it is full every character that occurs sits at a
/// unit-cost position.
pub proof fn lemma_position_cost_bounds(cells: Seq<Symbol>, s: Seq<(Gram, usize)>)
    requires
        forall|q: int| 0 <= q < 124 ==> !spec_pc_blankish(cells, q),
    ensures
        0 <= spec_position_cost_metric(cells, s) <= 100000000,
        spec_cc_total(cells, s, s.len() as int) > 0 ==> spec_position_cost_metric(cells, s) >= 100,
        spec_cc_total(cells, s, s.len() as int) > 0 && (forall|t: int|
            0 <= t < s.len() && Layout::spec_char_pos(cells, s[t].0.c0) is Some
                ==> spec_char_cost_micro(Layout::spec_char_pos(cells, s[t].0.c0)->0) == 1000000)
            ==> spec_position_cost_metric(cells, s) == 100000000,
        spec_cc_total(cells, s, s.len() as int) > 0 && spec_position_cost_metric(cells, s)
            == 100000000 ==> forall|t: int|
            0 <= t < s.len() && Layout::spec_char_pos(cells, s[t].0.c0) is Some && s[t].1 >= 1
                ==> spec_char_cost_micro(#[trigger] Layout::spec_char_pos(cells, s[t].0.c0)->0)
                == 1000000,
{
    let n = s.len() as int;
    let f0 = spec_cc_total(cells, s, n);
    let l0 = spec_pc_char_log(cells, s, n);
    lemma_pc_no_blanks(cells, 124, l0, f0);
    lemma_pc_char_log_sign(cells, s, n);
    lemma_cc_bounds(cells, s, n);
    if f0 > 0 {
        if l0 >= 0 {
            assert(spec_position_cost_metric(cells, s) == 100000000);
            assert(l0 == 0);
        } else {
            let arg = (-l0 + f0 - 1) / f0;
            assert(arg >= 1) by (nonlinear_arith)
                requires
                    l0 <= -1,
                    f0 >= 1,
                    arg == (-l0 + f0 - 1) / f0,
            ;
            crate::numeric::lemma_exp_lt_one(arg);
            assert(spec_exp_neg(arg) * 100 >= 100) by (nonlinear_arith)
                requires
                    spec_exp_neg(arg) >= 1,
            ;
            assert(spec_exp_neg(arg) * 100 < 100000000) by (nonlinear_arith)
                requires
                    spec_exp_neg(arg) < 1000000,
            ;
        }
    }
}

/// Range of the position-cost score for any grid over a bounded
/// corpus: between 0 and the full score, and strictly positive as
/// soon as any character is placed.
pub proof fn lemma_position_cost_range(cells: Seq<Symbol>, s: Seq<(Gram, usize)>)
    requires
        spec_entry_total(s) <= crate::corpus::spec_corpus_total_max(),
    ensures
        0 <= spec_position_cost_metric(cells, s) <= 100000000,
        spec_cc_total(cells, s, s.len() as int) > 0 ==> spec_position_cost_metric(cells, s) >= 100,
{
    let n = s.len() as int;
    let f0 = spec_cc_total(cells, s, n);
    let l0 = spec_pc_char_log(cells, s, n);
    lemma_cc_bounds(cells, s, n);
    lemma_pc_char_log_bounds(cells, s, n);
    assert(s.take(n) =~= s);
    lemma_pc_blank_bounds(cells, 124, l0, f0);
    let f = spec_pc_blank_freq(cells, 124, f0);
    let l = spec_pc_blank_log(cells, 124, l0, f0);
    if f > 0 && l < 0 {
        let arg = (-l + f - 1) / f;
        assert(arg >= 1) by (nonlinear_arith)
            requires
                l <= -1,
                f >= 1,
                arg == (-l + f - 1) / f,
        ;
        assert(arg >= 0) by (nonlinear_arith)
            requires
                l <= -1,
                f >= 1,
                arg == (-l + f - 1) / f,
        ;
        crate::numeric::lemma_exp_range(arg);
        assert(100 <= spec_exp_neg(arg) * 100 <= 100000000) by (nonlinear_arith)
            requires
                1 <= spec_exp_neg(arg) <= 1000000,
        ;
    }
}

} // verus!
