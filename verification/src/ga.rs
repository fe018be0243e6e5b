//! The evolutionary search engine: population lifecycle, tournament
//! selection, uniform crossover, constrained mutation, the repair
//! pass that restores structural validity, the generational loop,
//! and multi-run aggregation.

use vstd::prelude::*;

verus! {

use crate::corpus::{spec_g1, spec_g2, spec_lookup, CorpusStats, Gram};
use crate::evaluation::{spec_fitness, EvaluationWeights, Evaluator};
use crate::geometry::{
    lemma_free_count_mono, lemma_free_count_value, position_cost_of_cell, spec_free_count,
    spec_is_blank_idx, spec_is_fixed_idx, spec_is_free_idx, spec_position_cost_tenths,
    spec_layer_of, spec_row_of, spec_col_of,
};
use crate::layout::{
    default_symbol_universe, spec_blank_ok, spec_cells_wf, spec_fixed_ok, spec_free_cells_ok,
    spec_free_no_dup, spec_universe_ok, vec_contains_symbol, Layout, shuffle_symbols,
};
use crate::rng::{chacha_stream, SeededRng};
use crate::symbol::{spec_blank, spec_is_fixed_symbol, Symbol};

/// Configuration of one evolutionary run.
#[derive(Clone, Copy, Debug, PartialEq, Eq, Structural)]
pub struct GaConfig {
    /// Number of candidates per generation.
    pub population_size: usize,
    /// Number of generations to evolve.
    pub generations: usize,
    /// Probability of mutating a child, in millionths.
    pub mutation_rate_ppm: u32,
    /// Candidates copied unchanged into the next generation.
    pub elite_count: usize,
    /// Seed of the run's pseudorandom generator.
    pub seed: u64,
}

impl GaConfig {
    /// A runnable configuration.
    pub open spec fn wf(&self) -> bool {
        &&& 1 <= self.population_size <= 100000
        &&& self.generations <= 1000000
        &&& self.elite_count <= self.population_size
    }
}

impl Default for GaConfig {
    /// The default configuration.
    fn default() -> (r: Self)
        ensures
            r == (GaConfig {
                population_size: 500,
                generations: 1000,
                mutation_rate_ppm: 150000,
                elite_count: 10,
                seed: 42,
            }),
            r.wf(),
    {
        GaConfig {
            population_size: 500,
            generations: 1000,
            mutation_rate_ppm: 150000,
            elite_count: 10,
            seed: 42,
        }
    }
}



/// An element-wise copy of a layout.
pub fn clone_layout(l: &Layout) -> (r: Layout)
    requires
        spec_cells_wf(l.cells@),
    ensures
        r.cells@ == l.cells@,
        r.fitness == l.fitness,
        r.scores == l.scores,
{
    let mut cells: Vec<Symbol> = Vec::new();
    let n = l.cells.len();
    let mut i: usize = 0;
    while i < n
        invariant
            n == l.cells@.len(),
            0 <= i <= n,
            cells@.len() == i,
            forall|t: int| 0 <= t < i ==> cells@[t] == l.cells@[t],
        decreases n - i,
    {
        cells.push(l.cells[i]);
        i = i + 1;
    }
    proof {
        assert(cells@ =~= l.cells@);
    }
    Layout { cells, fitness: l.fitness, scores: l.scores }
}

/// Some free cell below `p` holds the symbol.
pub open spec fn spec_has_free_occurrence(cmid: Seq<Symbol>, s: Symbol, p: int) -> bool {
    exists|q: int| 0 <= q < p && spec_is_free_idx(q) && cmid[q] == s
}

/// The seen list holds exactly the placeable symbols with a free
/// occurrence below `p`.
pub open spec fn spec_seen_matches(seen: Seq<Symbol>, cmid: Seq<Symbol>, p: int) -> bool {
    forall|s: Symbol|
        (#[trigger] seen.contains(s)) == (s != spec_blank() && !spec_is_fixed_symbol(s)
            && spec_has_free_occurrence(cmid, s, p))
}

/// A free cell whose symbol is placeable and appears at no earlier
/// free cell: the repair pass never touches such a cell.
pub open spec fn spec_clean(cells: Seq<Symbol>, p: int) -> bool {
    &&& spec_is_free_idx(p)
    &&& cells[p] != spec_blank()
    &&& !spec_is_fixed_symbol(cells[p])
    &&& forall|q: int| 0 <= q < p && spec_is_free_idx(q) ==> cells[q] != cells[p]
}


/// Corpus frequency of a symbol: its character count for a single
/// kana, its bigram count for a digraph.
pub open spec fn spec_symbol_freq(corpus: CorpusStats, s: Symbol) -> int {
    if s.tail == '\u{0}' {
        spec_lookup(corpus.char_freq.entries@, spec_g1(s.head)) as int
    } else {
        spec_lookup(corpus.bigram_freq.entries@, spec_g2(s.head, s.tail)) as int
    }
}

impl CorpusStats {
    /// Corpus frequency of a symbol.
    pub fn symbol_freq(&self, s: Symbol) -> (f: usize)
        requires
            self.wf(),
        ensures
            f == spec_symbol_freq(*self, s),
            f <= 0x10000000,
    {
        proof {
            crate::corpus::lemma_lookup_le_total(self.char_freq.entries@, spec_g1(s.head));
            crate::corpus::lemma_lookup_le_total(
                self.bigram_freq.entries@,
                spec_g2(s.head, s.tail),
            );
        }
        if s.tail == '\u{0}' {
            self.char_freq.get(Gram::g1(s.head))
        } else {
            self.bigram_freq.get(Gram::g2(s.head, s.tail))
        }
    }
}

/// Ascending order by position cost.
pub open spec fn spec_sorted_by_cost(s: Seq<usize>) -> bool {
    forall|a: int, b: int|
        0 <= a < b < s.len() ==> spec_position_cost_tenths(
            spec_layer_of(s[a] as int),
            spec_row_of(s[a] as int),
            spec_col_of(s[a] as int),
        ) <= spec_position_cost_tenths(
            spec_layer_of(s[b] as int),
            spec_row_of(s[b] as int),
            spec_col_of(s[b] as int),
        )
}

/// Insert a cell index into a cost-sorted list, keeping it sorted.
fn insert_pos_by_cost(out: &mut Vec<usize>, x: usize)
    requires
        spec_sorted_by_cost(old(out)@),
        x < 124,
        forall|t: int| 0 <= t < old(out)@.len() ==> #[trigger] old(out)@[t] < 124,
    ensures
        spec_sorted_by_cost(final(out)@),
        exists|k: int|
            0 <= k <= old(out)@.len() && final(out)@ == #[trigger] old(out)@.insert(k, x),
{
    let cx = position_cost_of_cell(x);
    let n = out.len();
    let mut k: usize = 0;
    while k < n && position_cost_of_cell(out[k]) <= cx
        invariant
            n == out@.len(),
            0 <= k <= n,
            x < 124,
            forall|t: int| 0 <= t < out@.len() ==> #[trigger] out@[t] < 124,
            cx == spec_position_cost_tenths(
                spec_layer_of(x as int),
                spec_row_of(x as int),
                spec_col_of(x as int),
            ),
            forall|j: int|
                0 <= j < k ==> spec_position_cost_tenths(
                    spec_layer_of(out@[j] as int),
                    spec_row_of(out@[j] as int),
                    spec_col_of(out@[j] as int),
                ) <= cx,
            spec_sorted_by_cost(out@),
        decreases n - k,
    {
        k = k + 1;
    }
    let ghost s0 = out@;
    let ghost kk = k as int;
    out.insert(k, x);
    proof {
        s0.insert_ensures(kk, x);
        assert forall|a: int, b: int|
            0 <= a < b < out@.len() implies spec_position_cost_tenths(
            spec_layer_of(out@[a] as int),
            spec_row_of(out@[a] as int),
            spec_col_of(out@[a] as int),
        ) <= spec_position_cost_tenths(
            spec_layer_of(out@[b] as int),
            spec_row_of(out@[b] as int),
            spec_col_of(out@[b] as int),
        ) by {
            if b < kk {
            } else if a < kk && b == kk {
            } else if a < kk && b > kk {
                assert(out@[b] == s0[b - 1]);
            } else if a == kk {
                assert(out@[b] == s0[b - 1]);
            } else {
                assert(out@[a] == s0[a - 1] && out@[b] == s0[b - 1]);
            }
        };
    }
}

/// Descending order by corpus frequency.
pub open spec fn spec_sorted_by_freq_desc(corpus: CorpusStats, s: Seq<Symbol>) -> bool {
    forall|a: int, b: int|
        0 <= a < b < s.len() ==> spec_symbol_freq(corpus, s[a]) >= spec_symbol_freq(corpus, s[b])
}

/// Insert a symbol into a frequency-sorted list, keeping it sorted.
fn insert_sym_by_freq(corpus: &CorpusStats, out: &mut Vec<Symbol>, x: Symbol)
    requires
        corpus.wf(),
        spec_sorted_by_freq_desc(*corpus, old(out)@),
    ensures
        spec_sorted_by_freq_desc(*corpus, final(out)@),
        exists|k: int|
            0 <= k <= old(out)@.len() && final(out)@ == #[trigger] old(out)@.insert(k, x),
{
    let fx = corpus.symbol_freq(x);
    let n = out.len();
    let mut k: usize = 0;
    while k < n && corpus.symbol_freq(out[k]) >= fx
        invariant
            corpus.wf(),
            n == out@.len(),
            0 <= k <= n,
            fx == spec_symbol_freq(*corpus, x),
            forall|j: int| 0 <= j < k ==> spec_symbol_freq(*corpus, out@[j]) >= fx,
            spec_sorted_by_freq_desc(*corpus, out@),
        decreases n - k,
    {
        k = k + 1;
    }
    let ghost s0 = out@;
    let ghost kk = k as int;
    out.insert(k, x);
    proof {
        s0.insert_ensures(kk, x);
        assert forall|a: int, b: int|
            0 <= a < b < out@.len() implies spec_symbol_freq(*corpus, out@[a]) >= spec_symbol_freq(
            *corpus,
            out@[b],
        ) by {
            if b < kk {
            } else if a < kk && b == kk {
            } else if a < kk && b > kk {
                assert(out@[b] == s0[b - 1]);
            } else if a == kk {
                assert(out@[b] == s0[b - 1]);
            } else {
                assert(out@[a] == s0[a - 1] && out@[b] == s0[b - 1]);
            }
        };
    }
}


/// Append to `acc` the placeable symbols of the first `i` entries
/// of `src`, in order, skipping the blank token, the fixed symbols
/// and anything already present.
pub open spec fn spec_add_placeable(acc: Seq<Symbol>, src: Seq<Symbol>, i: int) -> Seq<Symbol>
    decreases i,
{
    if i <= 0 {
        acc
    } else {
        let prev = spec_add_placeable(acc, src, i - 1);
        let x = src[i - 1];
        if x != spec_blank() && !spec_is_fixed_symbol(x) && !prev.contains(x) {
            prev.push(x)
        } else {
            prev
        }
    }
}

/// Build the placeable symbol universe: the corpus symbols in
/// frequency order, completed from the default list, with fixed
/// symbols, blanks and duplicates left out.
pub fn ensure_complete_charset(corpus_syms: &Vec<Symbol>, defaults: &Vec<Symbol>) -> (r: Vec<
    Symbol,
>)
    ensures
        r@ == spec_add_placeable(
            spec_add_placeable(Seq::empty(), corpus_syms@, corpus_syms@.len() as int),
            defaults@,
            defaults@.len() as int,
        ),
        spec_universe_ok(r@),
        forall|s: Symbol|
            r@.contains(s) == ((corpus_syms@.contains(s) || defaults@.contains(s)) && s
                != spec_blank() && !spec_is_fixed_symbol(s)),
{
    let mut r: Vec<Symbol> = Vec::new();
    let n1 = corpus_syms.len();
    let mut i: usize = 0;
    while i < n1
        invariant
            n1 == corpus_syms@.len(),
            0 <= i <= n1,
            r@ == spec_add_placeable(Seq::empty(), corpus_syms@, i as int),
            spec_universe_ok(r@),
            forall|s: Symbol|
                r@.contains(s) == ((exists|j: int| 0 <= j < i && corpus_syms@[j] == s) && s
                    != spec_blank() && !spec_is_fixed_symbol(s)),
        decreases n1 - i,
    {
        let ghost r0 = r@;
        let x = corpus_syms[i];
        if !x.is_blank() && !x.is_fixed_symbol() && !vec_contains_symbol(&r, x) {
            r.push(x);
        }
        proof {
            assert forall|s: Symbol|
                r@.contains(s) == ((exists|j: int| 0 <= j < i + 1 && corpus_syms@[j] == s) && s
                    != spec_blank() && !spec_is_fixed_symbol(s)) by {
                if r@.contains(s) {
                    let t = choose|t: int| 0 <= t < r@.len() && r@[t] == s;
                    if t < r0.len() {
                        assert(r0[t] == s);
                        assert(r0.contains(s));
                    } else {
                        assert(s == x);
                        assert(corpus_syms@[i as int] == s);
                    }
                }
                if (exists|j: int| 0 <= j < i + 1 && corpus_syms@[j] == s) && s != spec_blank()
                    && !spec_is_fixed_symbol(s) {
                    let j = choose|j: int| 0 <= j < i + 1 && corpus_syms@[j] == s;
                    if j < i {
                        assert(r0.contains(s));
                        let t = choose|t: int| 0 <= t < r0.len() && r0[t] == s;
                        assert(r@[t] == s);
                    } else {
                        assert(s == x);
                        if r0.contains(s) {
                            let t = choose|t: int| 0 <= t < r0.len() && r0[t] == s;
                            assert(r@[t] == s);
                        } else {
                            assert(r@ == r0.push(x));
                            assert(r@[r@.len() - 1] == s);
                        }
                    }
                }
            };
            assert forall|a: int, b: int| 0 <= a < b < r@.len() implies r@[a] != r@[b] by {
                if b < r0.len() {
                } else {
                    assert(r@[b] == x);
                    assert(!r0.contains(x));
                    assert(r0[a] == r@[a]);
                }
            };
        }
        i = i + 1;
    }
    let ghost rmid = r@;
    let n2 = defaults.len();
    let mut k: usize = 0;
    while k < n2
        invariant
            n2 == defaults@.len(),
            0 <= k <= n2,
            r@ == spec_add_placeable(rmid, defaults@, k as int),
            rmid == spec_add_placeable(Seq::empty(), corpus_syms@, corpus_syms@.len() as int),
            spec_universe_ok(r@),
            forall|s: Symbol|
                r@.contains(s) == ((rmid.contains(s) || exists|j: int|
                    0 <= j < k && defaults@[j] == s) && s != spec_blank()
                    && !spec_is_fixed_symbol(s)),
            forall|s: Symbol| rmid.contains(s) ==> s != spec_blank() && !spec_is_fixed_symbol(s),
        decreases n2 - k,
    {
        let ghost r0 = r@;
        let x = defaults[k];
        if !x.is_blank() && !x.is_fixed_symbol() && !vec_contains_symbol(&r, x) {
            r.push(x);
        }
        proof {
            assert forall|s: Symbol|
                r@.contains(s) == ((rmid.contains(s) || exists|j: int|
                    0 <= j < k + 1 && defaults@[j] == s) && s != spec_blank()
                    && !spec_is_fixed_symbol(s)) by {
                if r@.contains(s) {
                    let t = choose|t: int| 0 <= t < r@.len() && r@[t] == s;
                    if t < r0.len() {
                        assert(r0[t] == s);
                        assert(r0.contains(s));
                    } else {
                        assert(s == x);
                        assert(defaults@[k as int] == s);
                    }
                }
                if (rmid.contains(s) || exists|j: int| 0 <= j < k + 1 && defaults@[j] == s) && s
                    != spec_blank() && !spec_is_fixed_symbol(s) {
                    if r0.contains(s) {
                        let t = choose|t: int| 0 <= t < r0.len() && r0[t] == s;
                        assert(r@[t] == s);
                    } else {
                        if rmid.contains(s) {
                            assert(r0.contains(s));
                            assert(false);
                        } else {
                            let j = choose|j: int| 0 <= j < k + 1 && defaults@[j] == s;
                            if j < k {
                                assert(r0.contains(s));
                                assert(false);
                            } else {
                                assert(s == x);
                                assert(r@ == r0.push(x));
                                assert(r@[r@.len() - 1] == s);
                            }
                        }
                    }
                }
            };
            assert forall|a: int, b: int| 0 <= a < b < r@.len() implies r@[a] != r@[b] by {
                if b < r0.len() {
                } else {
                    assert(r@[b] == x);
                    assert(!r0.contains(x));
                    assert(r0[a] == r@[a]);
                }
            };
        }
        k = k + 1;
    }
    r
}


/// The cell the uniform crossover writes at position `p` before
/// repair: fixed cells copy the first parent, forced blanks stay
/// blank, and each free cell takes the first or second parent's
/// symbol by the parity of its own draw (the k-th free cell uses
/// the (idx + k)-th value of the stream).
pub open spec fn spec_crossover_cell(
    p1: Seq<Symbol>,
    p2: Seq<Symbol>,
    seed: u64,
    idx: nat,
    p: int,
) -> Symbol {
    if spec_is_fixed_idx(p) {
        p1[p]
    } else if spec_is_blank_idx(p) {
        spec_blank()
    } else if chacha_stream(seed, (idx + spec_free_count(p)) as nat) % 2 == 0 {
        p1[p]
    } else {
        p2[p]
    }
}

/// The whole pre-repair crossover grid.
pub open spec fn spec_crossover_grid(
    p1: Seq<Symbol>,
    p2: Seq<Symbol>,
    seed: u64,
    idx: nat,
) -> Seq<Symbol> {
    Seq::new(124, |p: int| spec_crossover_cell(p1, p2, seed, idx, p))
}


/// The engine's placeable symbol universe for a corpus: its
/// hiragana, most frequent first, completed from the default list.
/// It always covers the 112 free cells.
pub fn build_universe(corpus: &CorpusStats) -> (u: Vec<Symbol>)
    ensures
        u@ == spec_add_placeable(
            spec_add_placeable(
                Seq::empty(),
                corpus.hiragana_by_freq@.map_values(|c: char| crate::symbol::spec_single(c)),
                corpus.hiragana_by_freq@.len() as int,
            ),
            crate::layout::spec_default_universe(),
            112,
        ),
        spec_universe_ok(u@),
        u@.len() >= 112,
{
    broadcast use vstd::seq_lib::group_to_multiset_ensures;
    broadcast use vstd::multiset::group_multiset_axioms;

    let mut corpus_syms: Vec<Symbol> = Vec::new();
    let nh = corpus.hiragana_by_freq.len();
    let mut i: usize = 0;
    while i < nh
        invariant
            nh == corpus.hiragana_by_freq@.len(),
            0 <= i <= nh,
            corpus_syms@.len() == i,
            forall|t: int|
                0 <= t < i ==> corpus_syms@[t] == crate::symbol::spec_single(
                    corpus.hiragana_by_freq@[t],
                ),
        decreases nh - i,
    {
        corpus_syms.push(Symbol::single(corpus.hiragana_by_freq[i]));
        i = i + 1;
    }
    proof {
        assert(corpus_syms@ =~= corpus.hiragana_by_freq@.map_values(
            |c: char| crate::symbol::spec_single(c),
        ));
    }
    let defaults = default_symbol_universe();
    let u = ensure_complete_charset(&corpus_syms, &defaults);
    proof {
        crate::layout::lemma_default_universe_distinct();
        let d = crate::layout::spec_default_universe();
        assert(d.no_duplicates());
        d.unique_seq_to_set();
        u@.lemma_cardinality_of_set();
        assert forall|x: Symbol| d.to_set().contains(x) implies u@.to_set().contains(x) by {
            assert(d.contains(x));
            let a = choose|a: int| 0 <= a < d.len() && d[a] == x;
            assert(x != spec_blank() && !spec_is_fixed_symbol(x));
            assert(defaults@.contains(x));
            assert(u@.contains(x));
        };
        assert(d.to_set().subset_of(u@.to_set()));
        vstd::set_lib::lemma_len_subset(d.to_set(), u@.to_set());
    }
    u
}

/// The evolutionary search engine of one run.
pub struct GeneticAlgorithm {
    /// The run configuration.
    pub config: GaConfig,
    /// The evaluator scoring every candidate.
    pub evaluator: Evaluator,
    /// The run's seeded generator.
    pub rng: SeededRng,
    /// The placeable symbol universe.
    pub universe: Vec<Symbol>,
}

impl GeneticAlgorithm {
    /// A usable engine.
    pub open spec fn wf(&self) -> bool {
        &&& self.config.wf()
        &&& self.evaluator.corpus.wf()
        &&& self.evaluator.weights.wf()
        &&& spec_universe_ok(self.spec_universe())
    }

    /// The engine's symbol universe.
    pub open spec fn spec_universe(&self) -> Seq<Symbol> {
        self.universe@
    }

    /// The symbol universe the engine places.
    pub fn universe(&self) -> (r: &Vec<Symbol>)
        ensures
            r@ == self.spec_universe(),
    {
        &self.universe
    }

    /// An engine over a corpus with the default weights.
    pub fn new(corpus: CorpusStats, config: GaConfig) -> (r: Self)
        requires
            corpus.wf(),
            config.wf(),
        ensures
            r.wf(),
            r.config == config,
            r.evaluator.corpus == corpus,
            r.evaluator.weights == EvaluationWeights::spec_default(),
            r.spec_universe().len() >= 112,
            r.rng.seed() == config.seed,
            r.rng.idx() == 0,
    {
        let universe = build_universe(&corpus);
        let rng = SeededRng::new(config.seed);
        GeneticAlgorithm { config, evaluator: Evaluator::new(corpus), rng, universe }
    }

    /// An engine over a corpus with the given weights.
    pub fn with_weights(corpus: CorpusStats, config: GaConfig, weights: EvaluationWeights) -> (r:
        Self)
        requires
            corpus.wf(),
            config.wf(),
            weights.wf(),
        ensures
            r.wf(),
            r.config == config,
            r.evaluator.corpus == corpus,
            r.evaluator.weights == weights,
            r.spec_universe().len() >= 112,
            r.rng.seed() == config.seed,
            r.rng.idx() == 0,
    {
        let universe = build_universe(&corpus);
        let rng = SeededRng::new(config.seed);
        GeneticAlgorithm { config, evaluator: Evaluator::with_weights(corpus, weights), rng, universe }
    }

    /// Restore structural validity: force the fixed and blank cells,
    /// then refill every defective free cell (empty, duplicated, or
    /// holding a stray fixed symbol) with the missing symbols,
    /// highest frequency into the cheapest cell.  Clean cells are
    /// never touched; when the universe covers the free cells no
    /// duplicate survives.
    pub fn repair_layout(&self, layout: &mut Layout)
        requires
            self.wf(),
            spec_cells_wf(old(layout).cells@),
        ensures
            spec_cells_wf(final(layout).cells@),
            spec_fixed_ok(final(layout).cells@),
            spec_blank_ok(final(layout).cells@),
            forall|p: int|
                0 <= p < 124 && spec_clean(old(layout).cells@, p) ==> final(layout).cells@[p]
                    == old(layout).cells@[p],
            self.spec_universe().len() >= 112 ==> spec_free_cells_ok(final(layout).cells@),
            self.spec_universe().len() >= 112 ==> forall|p: int|
                0 <= p < 124 && spec_is_free_idx(p) ==> final(layout).cells@[p] != spec_blank(),
            self.spec_universe().len() >= 112 ==> forall|p: int|
                0 <= p < 124 && spec_is_free_idx(p) && !spec_clean(old(layout).cells@, p)
                    ==> self.spec_universe().contains(#[trigger] final(layout).cells@[p]),
            self.spec_universe().len() >= 112 ==> forall|p: int, q: int|
                0 <= p < 124 && 0 <= q < 124 && spec_is_free_idx(p) && spec_is_free_idx(q)
                    && !spec_clean(old(layout).cells@, p) && !spec_clean(old(layout).cells@, q)
                    && spec_position_cost_tenths(spec_layer_of(p), spec_row_of(p), spec_col_of(p))
                    < spec_position_cost_tenths(spec_layer_of(q), spec_row_of(q), spec_col_of(q))
                    ==> spec_symbol_freq(self.evaluator.corpus, final(layout).cells@[p])
                    >= spec_symbol_freq(self.evaluator.corpus, final(layout).cells@[q]),
            final(layout).fitness == old(layout).fitness,
            final(layout).scores == old(layout).scores,
    {
        broadcast use vstd::seq_lib::group_seq_properties;

        let ghost cells_old = old(layout).cells@;
        layout.enforce_fixed_cells();
        let ghost cmid = layout.cells@;
        proof {
            assert forall|p: int|
                0 <= p < 124 && spec_clean(cells_old, p) implies spec_clean(cmid, p) by {};
            assert forall|p: int|
                0 <= p < 124 && spec_clean(cmid, p) implies spec_clean(cells_old, p) by {};
        }
        let mut seen: Vec<Symbol> = Vec::new();
        let mut defective: Vec<usize> = Vec::new();
        let mut p: usize = 0;
        while p < 124
            invariant
                spec_cells_wf(layout.cells@),
                layout.cells@ == cmid,
                layout.fitness == old(layout).fitness,
                layout.scores == old(layout).scores,
                0 <= p <= 124,
                spec_seen_matches(seen@, cmid, p as int),
                forall|a: int, b: int| 0 <= a < b < seen@.len() ==> seen@[a] != seen@[b],
                forall|t: int|
                    0 <= t < defective@.len() ==> #[trigger] defective@[t] < p && spec_is_free_idx(
                        defective@[t] as int,
                    ) && !spec_clean(cmid, defective@[t] as int),
                forall|q: int|
                    0 <= q < p && spec_is_free_idx(q) && !spec_clean(cmid, q) ==> exists|t: int|
                        0 <= t < defective@.len() && #[trigger] defective@[t] == q,
                forall|a: int, b: int|
                    0 <= a < b < defective@.len() ==> defective@[a] < defective@[b],
                seen@.len() + defective@.len() == spec_free_count(p as int),
            decreases 124 - p,
        {
            let ghost seen0 = seen@;
            let ghost def0 = defective@;
            let kp = crate::geometry::pos_of_cell(p);
            if !Layout::is_fixed_position(kp.layer, kp.row, kp.col) && !Layout::is_blank_position(
                kp.layer,
                kp.row,
                kp.col,
            ) {
                let s = layout.cells[p];
                if s.is_blank() || s.is_fixed_symbol() || vec_contains_symbol(&seen, s) {
                    defective.push(p);
                    proof {
                        assert(spec_seen_matches(seen0, cmid, p as int));
                        assert(!spec_clean(cmid, p as int)) by {
                            if s != spec_blank() && !spec_is_fixed_symbol(s) {
                                assert(seen0.contains(s));
                                assert(spec_has_free_occurrence(cmid, s, p as int));
                                let q = choose|q: int|
                                    0 <= q < p && spec_is_free_idx(q) && cmid[q] == s;
                            }
                        };
                        assert(defective@[defective@.len() - 1] == p);
                    }
                } else {
                    seen.push(s);
                    proof {
                        assert(spec_seen_matches(seen0, cmid, p as int));
                        assert(seen@[seen@.len() - 1] == s);
                        assert(spec_clean(cmid, p as int)) by {
                            assert forall|q: int|
                                0 <= q < p && spec_is_free_idx(q) implies cmid[q] != cmid[p as int] by {
                                if cmid[q] == s {
                                    assert(spec_has_free_occurrence(cmid, s, p as int));
                                    assert(seen0.contains(s));
                                }
                            };
                        };
                    }
                }
            }
            proof {
                assert(spec_seen_matches(seen0, cmid, p as int));
                assert forall|s2: Symbol|
                    (#[trigger] seen@.contains(s2)) == (s2 != spec_blank()
                        && !spec_is_fixed_symbol(s2) && spec_has_free_occurrence(
                        cmid,
                        s2,
                        p + 1,
                    )) by {
                    if seen@.contains(s2) {
                        let t = choose|t: int| 0 <= t < seen@.len() && seen@[t] == s2;
                        if t < seen0.len() {
                            assert(seen0[t] == s2);
                            assert(seen0.contains(s2));
                            assert(spec_has_free_occurrence(cmid, s2, p as int));
                            let q = choose|q: int|
                                0 <= q < p && spec_is_free_idx(q) && cmid[q] == s2;
                            assert(spec_has_free_occurrence(cmid, s2, p + 1));
                        } else {
                            assert(s2 == cmid[p as int]);
                            assert(spec_is_free_idx(p as int));
                            assert(spec_has_free_occurrence(cmid, s2, p + 1));
                        }
                    }
                    if s2 != spec_blank() && !spec_is_fixed_symbol(s2) && spec_has_free_occurrence(
                        cmid,
                        s2,
                        p + 1,
                    ) {
                        let q = choose|q: int|
                            0 <= q < p + 1 && spec_is_free_idx(q) && cmid[q] == s2;
                        if q < p {
                            assert(spec_has_free_occurrence(cmid, s2, p as int));
                            assert(seen0.contains(s2));
                            let t = choose|t: int| 0 <= t < seen0.len() && seen0[t] == s2;
                            assert(seen@[t] == s2);
                        } else {
                            assert(cmid[p as int] == s2);
                            if seen0.contains(s2) {
                                let t = choose|t: int| 0 <= t < seen0.len() && seen0[t] == s2;
                                assert(seen@[t] == s2);
                            } else {
                                assert(seen@ == seen0.push(s2));
                                assert(seen@[seen@.len() - 1] == s2);
                            }
                        }
                    }
                };
                assert(spec_seen_matches(seen@, cmid, p as int + 1));
                assert forall|q: int|
                    0 <= q < p + 1 && spec_is_free_idx(q) && !spec_clean(cmid, q) implies exists|
                    t: int,
                | 0 <= t < defective@.len() && #[trigger] defective@[t] == q by {
                    if q < p {
                        let t = choose|t: int| 0 <= t < def0.len() && #[trigger] def0[t] == q;
                        assert(defective@[t] == q);
                    } else {
                        assert(defective@[defective@.len() - 1] == q);
                    }
                };
            }
            p = p + 1;
        }
        let ghost seen_final = seen@;
        proof {
            lemma_free_count_value();
            assert(spec_seen_matches(seen_final, cmid, 124));
        }
        let mut missing: Vec<Symbol> = Vec::new();
        let ghost mut matched: Seq<Symbol> = Seq::empty();
        let nu = self.universe.len();
        let mut k: usize = 0;
        while k < nu
            invariant
                nu == self.universe@.len(),
                spec_universe_ok(self.universe@),
                0 <= k <= nu,
                missing@.len() + matched.len() == k,
                forall|t: int| 0 <= t < matched.len() ==> seen@.contains(#[trigger] matched[t]),
                forall|t: int|
                    0 <= t < matched.len() ==> exists|j: int|
                        0 <= j < k && self.universe@[j] == #[trigger] matched[t],
                forall|a: int, b: int| 0 <= a < b < matched.len() ==> matched[a] != matched[b],
                forall|t: int|
                    0 <= t < missing@.len() ==> self.universe@.contains(#[trigger] missing@[t])
                        && !seen@.contains(missing@[t]),
                forall|a: int, b: int| 0 <= a < b < missing@.len() ==> missing@[a] != missing@[b],
                forall|t: int|
                    0 <= t < missing@.len() ==> exists|j: int|
                        0 <= j < k && self.universe@[j] == #[trigger] missing@[t],
            decreases nu - k,
        {
            let ghost miss0 = missing@;
            let u = self.universe[k];
            if vec_contains_symbol(&seen, u) {
                proof {
                    assert forall|t: int| 0 <= t < matched.len() implies matched[t] != u by {
                        let j = choose|j: int|
                            0 <= j < k && self.universe@[j] == #[trigger] matched[t];
                        if matched[t] == u {
                            assert(self.universe@[j] == self.universe@[k as int]);
                        }
                    };
                    matched = matched.push(u);
                    assert(matched[matched.len() - 1] == u);
                }
            } else {
                missing.push(u);
                proof {
                    assert(missing@[missing@.len() - 1] == u);
                    assert forall|a: int, b: int|
                        0 <= a < b < missing@.len() implies missing@[a] != missing@[b] by {
                        if b < miss0.len() {
                        } else {
                            assert(missing@[b] == u);
                            let j = choose|j: int|
                                0 <= j < k && self.universe@[j] == #[trigger] miss0[a];
                            assert(self.universe@[k as int] == u);
                            if miss0[a] == u {
                                assert(self.universe@[j] == self.universe@[k as int]);
                            }
                            assert(missing@[a] == miss0[a]);
                        }
                    };
                }
            }
            k = k + 1;
        }
        proof {
            if self.universe@.len() >= 112 {
                matched.unique_seq_to_set();
                seen@.lemma_cardinality_of_set();
                assert(matched.to_set().subset_of(seen@.to_set())) by {
                    assert forall|x: Symbol|
                        matched.to_set().contains(x) implies seen@.to_set().contains(x) by {};
                };
                vstd::set_lib::lemma_len_subset(matched.to_set(), seen@.to_set());
                assert(matched.len() <= seen@.len());
                assert(missing@.len() >= 112 - seen@.len());
                assert(defective@.len() == 112 - seen@.len());
            }
        }
        let mut sorted_def: Vec<usize> = Vec::new();
        let nd = defective.len();
        let mut d: usize = 0;
        while d < nd
            invariant
                nd == defective@.len(),
                nd <= 124,
                0 <= d <= nd,
                spec_sorted_by_cost(sorted_def@),
                sorted_def@.len() == d,
                forall|t: int|
                    0 <= t < defective@.len() ==> #[trigger] defective@[t] < 124
                        && spec_is_free_idx(defective@[t] as int) && !spec_clean(
                        cmid,
                        defective@[t] as int,
                    ),
                forall|a: int, b: int|
                    0 <= a < b < defective@.len() ==> defective@[a] != defective@[b],
                forall|t: int|
                    0 <= t < sorted_def@.len() ==> #[trigger] sorted_def@[t] < 124
                        && spec_is_free_idx(sorted_def@[t] as int) && !spec_clean(
                        cmid,
                        sorted_def@[t] as int,
                    ),
                forall|q: usize| sorted_def@.contains(q) == exists|j: int|
                    0 <= j < d && defective@[j] == q,
                forall|a: int, b: int|
                    0 <= a < b < sorted_def@.len() ==> sorted_def@[a] != sorted_def@[b],
            decreases nd - d,
        {
            let ghost sd0 = sorted_def@;
            let x = defective[d];
            insert_pos_by_cost(&mut sorted_def, x);
            proof {
                let ins = choose|ins: int|
                    0 <= ins <= sd0.len() && sorted_def@ == #[trigger] sd0.insert(ins, x);
                sd0.insert_ensures(ins, x);
                assert forall|t: int|
                    0 <= t < sorted_def@.len() implies #[trigger] sorted_def@[t] < 124
                    && spec_is_free_idx(sorted_def@[t] as int) && !spec_clean(
                    cmid,
                    sorted_def@[t] as int,
                ) by {
                    if t < ins {
                        assert(sorted_def@[t] == sd0[t]);
                    } else if t == ins {
                        assert(sorted_def@[t] == x);
                    } else {
                        assert(sorted_def@[t] == sd0[t - 1]);
                    }
                };
                assert forall|q: usize|
                    sorted_def@.contains(q) == (exists|j: int|
                        0 <= j < d + 1 && defective@[j] == q) by {
                    if sorted_def@.contains(q) {
                        let t = choose|t: int| 0 <= t < sorted_def@.len() && sorted_def@[t] == q;
                        if t < ins {
                            assert(sd0[t] == q);
                            assert(sd0.contains(q));
                        } else if t == ins {
                            assert(q == x);
                            assert(defective@[d as int] == q);
                        } else {
                            assert(sd0[t - 1] == q);
                            assert(sd0.contains(q));
                        }
                    }
                    if exists|j: int| 0 <= j < d + 1 && defective@[j] == q {
                        let j = choose|j: int| 0 <= j < d + 1 && defective@[j] == q;
                        if j < d {
                            assert(sd0.contains(q));
                            let t = choose|t: int| 0 <= t < sd0.len() && sd0[t] == q;
                            if t < ins {
                                assert(sorted_def@[t] == q);
                            } else {
                                assert(sorted_def@[t + 1] == q);
                            }
                        } else {
                            assert(q == x);
                            assert(sorted_def@[ins] == q);
                        }
                    }
                };
                assert forall|a: int, b: int|
                    0 <= a < b < sorted_def@.len() implies sorted_def@[a] != sorted_def@[b] by {
                    let va = sorted_def@[a];
                    let vb = sorted_def@[b];
                    if va == vb {
                        if a == ins || b == ins {
                            let other: int = if a == ins {
                                b
                            } else {
                                a
                            };
                            let vo = sorted_def@[other];
                            assert(vo == x);
                            if other < ins {
                                assert(sd0[other] == vo);
                                assert(sd0.contains(x));
                            } else {
                                assert(sd0[other - 1] == vo);
                                assert(sd0.contains(x));
                            }
                            let j = choose|j: int| 0 <= j < d && defective@[j] == x;
                            assert(defective@[d as int] == x);
                            assert(false);
                        } else {
                            let a2: int = if a < ins {
                                a
                            } else {
                                a - 1
                            };
                            let b2: int = if b < ins {
                                b
                            } else {
                                b - 1
                            };
                            assert(sd0[a2] == va && sd0[b2] == vb && a2 != b2);
                            assert(false);
                        }
                    }
                };
            }
            d = d + 1;
        }
        let mut sorted_miss: Vec<Symbol> = Vec::new();
        let nm = missing.len();
        let mut m: usize = 0;
        while m < nm
            invariant
                self.evaluator.corpus.wf(),
                nm == missing@.len(),
                0 <= m <= nm,
                spec_sorted_by_freq_desc(self.evaluator.corpus, sorted_miss@),
                sorted_miss@.len() == m,
                forall|t: int|
                    0 <= t < missing@.len() ==> self.universe@.contains(#[trigger] missing@[t])
                        && !seen@.contains(missing@[t]),
                forall|a: int, b: int| 0 <= a < b < missing@.len() ==> missing@[a] != missing@[b],
                forall|t: int|
                    0 <= t < sorted_miss@.len() ==> self.universe@.contains(
                        #[trigger] sorted_miss@[t],
                    ) && !seen@.contains(sorted_miss@[t]),
                forall|s: Symbol| sorted_miss@.contains(s) == exists|j: int|
                    0 <= j < m && missing@[j] == s,
                forall|a: int, b: int|
                    0 <= a < b < sorted_miss@.len() ==> sorted_miss@[a] != sorted_miss@[b],
            decreases nm - m,
        {
            let ghost sm0 = sorted_miss@;
            let x = missing[m];
            insert_sym_by_freq(&self.evaluator.corpus, &mut sorted_miss, x);
            proof {
                let ins = choose|ins: int|
                    0 <= ins <= sm0.len() && sorted_miss@ == #[trigger] sm0.insert(ins, x);
                sm0.insert_ensures(ins, x);
                assert forall|t: int|
                    0 <= t < sorted_miss@.len() implies self.universe@.contains(
                    #[trigger] sorted_miss@[t],
                ) && !seen@.contains(sorted_miss@[t]) by {
                    if t < ins {
                        assert(sorted_miss@[t] == sm0[t]);
                    } else if t == ins {
                        assert(sorted_miss@[t] == x);
                    } else {
                        assert(sorted_miss@[t] == sm0[t - 1]);
                    }
                };
                assert forall|s: Symbol|
                    sorted_miss@.contains(s) == (exists|j: int|
                        0 <= j < m + 1 && missing@[j] == s) by {
                    if sorted_miss@.contains(s) {
                        let t = choose|t: int| 0 <= t < sorted_miss@.len() && sorted_miss@[t] == s;
                        if t < ins {
                            assert(sm0[t] == s);
                            assert(sm0.contains(s));
                        } else if t == ins {
                            assert(s == x);
                            assert(missing@[m as int] == s);
                        } else {
                            assert(sm0[t - 1] == s);
                            assert(sm0.contains(s));
                        }
                    }
                    if exists|j: int| 0 <= j < m + 1 && missing@[j] == s {
                        let j = choose|j: int| 0 <= j < m + 1 && missing@[j] == s;
                        if j < m {
                            assert(sm0.contains(s));
                            let t = choose|t: int| 0 <= t < sm0.len() && sm0[t] == s;
                            if t < ins {
                                assert(sorted_miss@[t] == s);
                            } else {
                                assert(sorted_miss@[t + 1] == s);
                            }
                        } else {
                            assert(s == x);
                            assert(sorted_miss@[ins] == s);
                        }
                    }
                };
                assert forall|a: int, b: int|
                    0 <= a < b < sorted_miss@.len() implies sorted_miss@[a] != sorted_miss@[b] by {
                    let va = sorted_miss@[a];
                    let vb = sorted_miss@[b];
                    if va == vb {
                        if a == ins || b == ins {
                            let other: int = if a == ins {
                                b
                            } else {
                                a
                            };
                            let vo = sorted_miss@[other];
                            assert(vo == x);
                            if other < ins {
                                assert(sm0[other] == vo);
                                assert(sm0.contains(x));
                            } else {
                                assert(sm0[other - 1] == vo);
                                assert(sm0.contains(x));
                            }
                            let j = choose|j: int| 0 <= j < m && missing@[j] == x;
                            assert(missing@[m as int] == x);
                            assert(false);
                        } else {
                            let a2: int = if a < ins {
                                a
                            } else {
                                a - 1
                            };
                            let b2: int = if b < ins {
                                b
                            } else {
                                b - 1
                            };
                            assert(sm0[a2] == va && sm0[b2] == vb && a2 != b2);
                            assert(false);
                        }
                    }
                };
            }
            m = m + 1;
        }
        let nfill = sorted_def.len();
        let mut i2: usize = 0;
        while i2 < nfill
            invariant
                spec_cells_wf(layout.cells@),
                layout.fitness == old(layout).fitness,
                layout.scores == old(layout).scores,
                nfill == sorted_def@.len(),
                0 <= i2 <= nfill,
                forall|t: int|
                    0 <= t < sorted_def@.len() ==> #[trigger] sorted_def@[t] < 124
                        && spec_is_free_idx(sorted_def@[t] as int),
                forall|a: int, b: int|
                    0 <= a < b < sorted_def@.len() ==> sorted_def@[a] != sorted_def@[b],
                forall|p2: int|
                    0 <= p2 < 124 && !(exists|t: int|
                        0 <= t < i2 && #[trigger] sorted_def@[t] == p2) ==> layout.cells@[p2]
                        == cmid[p2],
                forall|t: int|
                    0 <= t < i2 && t < sorted_miss@.len() ==> layout.cells@[#[trigger] sorted_def@[
                    t] as int] == sorted_miss@[t],
                forall|t: int|
                    0 <= t < i2 && t >= sorted_miss@.len() ==> layout.cells@[
                    #[trigger] sorted_def@[t] as int] == cmid[sorted_def@[t] as int],
            decreases nfill - i2,
        {
            let ghost lc0 = layout.cells@;
            if i2 < sorted_miss.len() {
                let pos = sorted_def[i2];
                layout.cells[pos] = sorted_miss[i2];
                proof {
                    assert forall|p2: int|
                        0 <= p2 < 124 && !(exists|t: int|
                            0 <= t < i2 + 1 && #[trigger] sorted_def@[t] == p2) implies layout
                        .cells@[p2] == cmid[p2] by {
                        if p2 != pos {
                            assert(layout.cells@[p2] == lc0[p2]);
                        } else {
                            assert(sorted_def@[i2 as int] == p2);
                        }
                    };
                    assert forall|t: int|
                        0 <= t < i2 + 1 && t < sorted_miss@.len() implies layout.cells@[
                    #[trigger] sorted_def@[t] as int] == sorted_miss@[t] by {
                        if t < i2 {
                            assert(sorted_def@[t] != sorted_def@[i2 as int]);
                            assert(layout.cells@[sorted_def@[t] as int] == lc0[sorted_def@[
                            t] as int]);
                        }
                    };
                    assert forall|t: int|
                        0 <= t < i2 + 1 && t >= sorted_miss@.len() implies layout.cells@[
                    #[trigger] sorted_def@[t] as int] == cmid[sorted_def@[t] as int] by {
                        assert(t < i2);
                        assert(sorted_def@[t] != sorted_def@[i2 as int]);
                        assert(layout.cells@[sorted_def@[t] as int] == lc0[sorted_def@[t] as int]);
                    };
                }
            } else {
                proof {
                    assert forall|p2: int|
                        0 <= p2 < 124 && !(exists|t: int|
                            0 <= t < i2 + 1 && #[trigger] sorted_def@[t] == p2) implies layout
                        .cells@[p2] == cmid[p2] by {};
                }
            }
            i2 = i2 + 1;
        }
        proof {
            assert(spec_fixed_ok(layout.cells@)) by {
                assert forall|p2: int|
                    0 <= p2 < 124 && crate::geometry::spec_is_fixed_idx(p2) implies layout.cells@[
                p2] == crate::symbol::spec_fixed_symbol_at(p2) by {
                    assert(!spec_is_free_idx(p2));
                    if exists|t: int| 0 <= t < nfill && #[trigger] sorted_def@[t] == p2 {
                        let t = choose|t: int| 0 <= t < nfill && #[trigger] sorted_def@[t] == p2;
                        assert(spec_is_free_idx(sorted_def@[t] as int));
                        assert(false);
                    }
                    assert(layout.cells@[p2] == cmid[p2]);
                };
            };
            assert(spec_blank_ok(layout.cells@)) by {
                assert forall|p2: int|
                    0 <= p2 < 124 && crate::geometry::spec_is_blank_idx(p2) implies layout.cells@[
                p2] == spec_blank() by {
                    assert(!spec_is_free_idx(p2));
                    if exists|t: int| 0 <= t < nfill && #[trigger] sorted_def@[t] == p2 {
                        let t = choose|t: int| 0 <= t < nfill && #[trigger] sorted_def@[t] == p2;
                        assert(spec_is_free_idx(sorted_def@[t] as int));
                        assert(false);
                    }
                    assert(layout.cells@[p2] == cmid[p2]);
                };
            };
            assert forall|p2: int|
                0 <= p2 < 124 && spec_clean(cells_old, p2) implies layout.cells@[p2] == cells_old[
            p2] by {
                assert(spec_clean(cmid, p2));
                if exists|t: int| 0 <= t < nfill && #[trigger] sorted_def@[t] == p2 {
                    let t = choose|t: int| 0 <= t < nfill && #[trigger] sorted_def@[t] == p2;
                    assert(!spec_clean(cmid, sorted_def@[t] as int));
                    assert(false);
                }
                assert(layout.cells@[p2] == cmid[p2]);
            };
            if self.universe@.len() >= 112 {
                assert(sorted_miss@.len() >= nfill as int);
                assert forall|p2: int|
                    0 <= p2 < 124 && spec_is_free_idx(p2) && !(exists|t: int|
                        0 <= t < nfill && #[trigger] sorted_def@[t] == p2) implies spec_clean(
                    cmid,
                    p2,
                ) && layout.cells@[p2] == cmid[p2] && seen@.contains(cmid[p2]) by {
                    if !spec_clean(cmid, p2) {
                        let t0 = choose|t0: int|
                            0 <= t0 < defective@.len() && #[trigger] defective@[t0] == p2;
                        assert(sorted_def@.contains(p2 as usize));
                        let t1 = choose|t1: int|
                            0 <= t1 < sorted_def@.len() && sorted_def@[t1] == p2 as usize;
                        assert(false);
                    }
                    assert(layout.cells@[p2] == cmid[p2]);
                    assert(seen@.contains(cmid[p2])) by {
                        assert(spec_seen_matches(seen@, cmid, 124));
                        assert(spec_is_free_idx(p2) && cmid[p2] == cmid[p2]);
                        assert(spec_has_free_occurrence(cmid, cmid[p2], 124));
                    };
                };
                assert forall|p2: int, q2: int|
                    0 <= p2 < q2 < 124 && spec_is_free_idx(p2) && spec_is_free_idx(q2) && layout
                        .cells@[p2] != spec_blank() implies layout.cells@[p2] != layout.cells@[
                q2] by {
                    if layout.cells@[p2] == layout.cells@[q2] {
                        let filled_p = exists|t: int|
                            0 <= t < nfill && #[trigger] sorted_def@[t] == p2;
                        let filled_q = exists|t: int|
                            0 <= t < nfill && #[trigger] sorted_def@[t] == q2;
                        if filled_p && filled_q {
                            let t1 = choose|t: int|
                                0 <= t < nfill && #[trigger] sorted_def@[t] == p2;
                            let t2 = choose|t: int|
                                0 <= t < nfill && #[trigger] sorted_def@[t] == q2;
                            assert(layout.cells@[p2] == sorted_miss@[t1]);
                            assert(layout.cells@[q2] == sorted_miss@[t2]);
                            assert(t1 != t2);
                            assert(false);
                        } else if filled_p {
                            let t1 = choose|t: int|
                                0 <= t < nfill && #[trigger] sorted_def@[t] == p2;
                            assert(layout.cells@[p2] == sorted_miss@[t1]);
                            assert(!seen@.contains(sorted_miss@[t1]));
                            assert(seen@.contains(cmid[q2]));
                            assert(false);
                        } else if filled_q {
                            let t2 = choose|t: int|
                                0 <= t < nfill && #[trigger] sorted_def@[t] == q2;
                            assert(layout.cells@[q2] == sorted_miss@[t2]);
                            assert(!seen@.contains(sorted_miss@[t2]));
                            assert(seen@.contains(cmid[p2]));
                            assert(false);
                        } else {
                            assert(spec_clean(cmid, q2));
                            assert(cmid[p2] == cmid[q2]);
                            assert(false);
                        }
                    }
                };
                assert forall|p2: int|
                    0 <= p2 < 124 && spec_is_free_idx(p2) implies !spec_is_fixed_symbol(
                    #[trigger] layout.cells@[p2],
                ) && layout.cells@[p2] != spec_blank() by {
                    if exists|t: int| 0 <= t < nfill && #[trigger] sorted_def@[t] == p2 {
                        let t = choose|t: int| 0 <= t < nfill && #[trigger] sorted_def@[t] == p2;
                        assert(layout.cells@[p2] == sorted_miss@[t]);
                        assert(self.universe@.contains(sorted_miss@[t]));
                        let j = choose|j: int|
                            0 <= j < self.universe@.len() && self.universe@[j] == sorted_miss@[t];
                    } else {
                        assert(spec_clean(cmid, p2));
                        assert(layout.cells@[p2] == cmid[p2]);
                    }
                };
                assert forall|p2: int|
                    0 <= p2 < 124 && spec_is_free_idx(p2) && !spec_clean(cells_old, p2)
                    implies self.universe@.contains(#[trigger] layout.cells@[p2]) by {
                    assert(!spec_clean(cmid, p2));
                    let t0 = choose|t0: int|
                        0 <= t0 < defective@.len() && #[trigger] defective@[t0] == p2;
                    assert(sorted_def@.contains(p2 as usize));
                    let t = choose|t: int|
                        0 <= t < sorted_def@.len() && sorted_def@[t] == p2 as usize;
                    assert(layout.cells@[p2] == sorted_miss@[t]);
                };
                assert forall|p2: int, q2: int|
                    0 <= p2 < 124 && 0 <= q2 < 124 && spec_is_free_idx(p2) && spec_is_free_idx(
                        q2,
                    ) && !spec_clean(cells_old, p2) && !spec_clean(cells_old, q2)
                        && spec_position_cost_tenths(
                        spec_layer_of(p2),
                        spec_row_of(p2),
                        spec_col_of(p2),
                    ) < spec_position_cost_tenths(
                        spec_layer_of(q2),
                        spec_row_of(q2),
                        spec_col_of(q2),
                    ) implies spec_symbol_freq(self.evaluator.corpus, layout.cells@[p2])
                    >= spec_symbol_freq(self.evaluator.corpus, layout.cells@[q2]) by {
                    assert(!spec_clean(cmid, p2) && !spec_clean(cmid, q2));
                    let tp0 = choose|t: int|
                        0 <= t < defective@.len() && #[trigger] defective@[t] == p2;
                    let tq0 = choose|t: int|
                        0 <= t < defective@.len() && #[trigger] defective@[t] == q2;
                    assert(sorted_def@.contains(p2 as usize));
                    assert(sorted_def@.contains(q2 as usize));
                    let tp = choose|t: int|
                        0 <= t < sorted_def@.len() && sorted_def@[t] == p2 as usize;
                    let tq = choose|t: int|
                        0 <= t < sorted_def@.len() && sorted_def@[t] == q2 as usize;
                    assert(layout.cells@[p2] == sorted_miss@[tp]);
                    assert(layout.cells@[q2] == sorted_miss@[tq]);
                    assert(tp != tq);
                    if tq < tp {
                        assert(spec_position_cost_tenths(
                            spec_layer_of(q2),
                            spec_row_of(q2),
                            spec_col_of(q2),
                        ) <= spec_position_cost_tenths(
                            spec_layer_of(p2),
                            spec_row_of(p2),
                            spec_col_of(p2),
                        ));
                        assert(false);
                    }
                    assert(spec_symbol_freq(self.evaluator.corpus, sorted_miss@[tp])
                        >= spec_symbol_freq(self.evaluator.corpus, sorted_miss@[tq]));
                };
            }
        }
    }
}

impl GeneticAlgorithm {
    /// Uniform crossover followed by repair: every free cell draws
    /// its symbol from one parent or the other, fixed cells copy the
    /// first parent, forced-blank cells stay blank, and the repair
    /// pass restores validity.  The pre-repair grid is
    /// `spec_crossover_grid` of the parents and the generator state;
    /// repair keeps its clean cells and refills the rest from the
    /// universe.
    pub fn crossover(&mut self, parent1: &Layout, parent2: &Layout) -> (child: Layout)
        requires
            old(self).wf(),
            spec_cells_wf(parent1.cells@),
            spec_cells_wf(parent2.cells@),
        ensures
            final(self).wf(),
            final(self).config == old(self).config,
            final(self).evaluator == old(self).evaluator,
            final(self).universe == old(self).universe,
            final(self).rng.seed() == old(self).rng.seed(),
            final(self).rng.idx() == old(self).rng.idx() + 112,
            spec_cells_wf(child.cells@),
            spec_fixed_ok(child.cells@),
            spec_blank_ok(child.cells@),
            forall|p: int|
                0 <= p < 124 && spec_clean(
                    spec_crossover_grid(
                        parent1.cells@,
                        parent2.cells@,
                        old(self).rng.seed(),
                        old(self).rng.idx(),
                    ),
                    p,
                ) ==> child.cells@[p] == spec_crossover_grid(
                    parent1.cells@,
                    parent2.cells@,
                    old(self).rng.seed(),
                    old(self).rng.idx(),
                )[p],
            old(self).spec_universe().len() >= 112 ==> spec_free_cells_ok(child.cells@),
            old(self).spec_universe().len() >= 112 ==> forall|p: int|
                0 <= p < 124 && spec_is_free_idx(p) && !spec_clean(
                    spec_crossover_grid(
                        parent1.cells@,
                        parent2.cells@,
                        old(self).rng.seed(),
                        old(self).rng.idx(),
                    ),
                    p,
                ) ==> old(self).spec_universe().contains(#[trigger] child.cells@[p]),
    {
        let ghost seed0 = self.rng.seed();
        let ghost idx0 = self.rng.idx();
        let ghost mixed = spec_crossover_grid(parent1.cells@, parent2.cells@, seed0, idx0);
        let mut child = Layout::default();
        let mut p: usize = 0;
        while p < 124
            invariant
                spec_cells_wf(child.cells@),
                spec_cells_wf(parent1.cells@),
                spec_cells_wf(parent2.cells@),
                mixed == spec_crossover_grid(parent1.cells@, parent2.cells@, seed0, idx0),
                0 <= p <= 124,
                forall|q: int| 0 <= q < p ==> child.cells@[q] == mixed[q],
                self.config == old(self).config,
                self.evaluator == old(self).evaluator,
                self.universe == old(self).universe,
                self.rng.seed() == seed0,
                self.rng.idx() == idx0 + spec_free_count(p as int),
            decreases 124 - p,
        {
            let kp = crate::geometry::pos_of_cell(p);
            if Layout::is_fixed_position(kp.layer, kp.row, kp.col) {
                child.cells[p] = parent1.cells[p];
            } else if Layout::is_blank_position(kp.layer, kp.row, kp.col) {
                child.cells[p] = Symbol::blank();
            } else {
                let v = self.rng.next_u64();
                if v % 2 == 0 {
                    child.cells[p] = parent1.cells[p];
                } else {
                    child.cells[p] = parent2.cells[p];
                }
            }
            proof {
                assert(child.cells@[p as int] == mixed[p as int]);
            }
            p = p + 1;
        }
        proof {
            lemma_free_count_value();
            assert(child.cells@ =~= mixed);
        }
        let ghost selfsnap = *self;
        self.repair_layout(&mut child);
        child
    }

    /// Whether two free cells are close enough in position cost and
    /// symbol frequency to swap in a mutation.
    pub open spec fn spec_swap_band(corpus: CorpusStats, cells: Seq<Symbol>, p: int, q: int) -> bool {
        let c1 = spec_position_cost_tenths(spec_layer_of(p), spec_row_of(p), spec_col_of(p));
        let c2 = spec_position_cost_tenths(spec_layer_of(q), spec_row_of(q), spec_col_of(q));
        let f1 = spec_symbol_freq(corpus, cells[p]);
        let f2 = spec_symbol_freq(corpus, cells[q]);
        &&& (c1 >= c2 ==> c1 - c2 <= 1)
        &&& (c2 >= c1 ==> c2 - c1 <= 1)
        &&& (if f1 == 0 && f2 == 0 {
            true
        } else if f1 > 0 && f2 > 0 {
            f2 * 10 >= f1 * 9 && f2 * 10 <= f1 * 11
        } else {
            false
        })
    }

    /// Number of free cells below `upto` that lie in the swap band
    /// of cell `p1` (itself excluded).
    pub open spec fn spec_band_count(
        corpus: CorpusStats,
        cells: Seq<Symbol>,
        p1: int,
        upto: int,
    ) -> int
        decreases upto,
    {
        if upto <= 0 {
            0
        } else {
            Self::spec_band_count(corpus, cells, p1, upto - 1) + if spec_is_free_idx(upto - 1)
                && upto - 1 != p1 && Self::spec_swap_band(corpus, cells, p1, upto - 1) {
                1int
            } else {
                0int
            }
        }
    }

    /// Band counts are never negative.
    pub proof fn lemma_band_count_nonneg(
        corpus: CorpusStats,
        cells: Seq<Symbol>,
        p1: int,
        upto: int,
    )
        ensures
            GeneticAlgorithm::spec_band_count(corpus, cells, p1, upto) >= 0,
        decreases upto,
    {
        if upto > 0 {
            Self::lemma_band_count_nonneg(corpus, cells, p1, upto - 1);
        }
    }

    /// Band counts grow with the bound.
    pub proof fn lemma_band_count_mono(
        corpus: CorpusStats,
        cells: Seq<Symbol>,
        p1: int,
        a: int,
        b: int,
    )
        requires
            0 <= a <= b,
        ensures
            Self::spec_band_count(corpus, cells, p1, a) <= Self::spec_band_count(
                corpus,
                cells,
                p1,
                b,
            ),
        decreases b - a,
    {
        if a < b {
            Self::lemma_band_count_mono(corpus, cells, p1, a, b - 1);
        }
    }

    /// Free cells are ordered by their free-cell rank.
    pub proof fn lemma_free_rank_injective(p: int, q: int)
        requires
            0 <= p < q < 124,
            spec_is_free_idx(p),
            spec_is_free_idx(q),
        ensures
            spec_free_count(p) < spec_free_count(q),
    {
        lemma_free_count_mono(p + 1, q);
    }

    /// Constrained mutation: one free cell is picked by the first
    /// draw (by free-cell rank); when free cells lie within its
    /// position-cost and symbol-frequency band, the second draw
    /// picks one of them (by band rank) and the two cells swap;
    /// with an empty band nothing changes.  In particular, when no
    /// pair of free cells lies within the band at all, the layout
    /// is left untouched.
    pub fn mutate(&mut self, layout: &mut Layout)
        requires
            old(self).wf(),
            spec_cells_wf(old(layout).cells@),
        ensures
            final(self).wf(),
            final(self).rng.seed() == old(self).rng.seed(),
            final(self).config == old(self).config,
            final(self).evaluator == old(self).evaluator,
            final(self).universe == old(self).universe,
            spec_cells_wf(final(layout).cells@),
            final(layout).fitness == old(layout).fitness,
            final(layout).scores == old(layout).scores,
            forall|p1: int|
                0 <= p1 < 124 && spec_is_free_idx(p1) && spec_free_count(p1) == chacha_stream(
                    old(self).rng.seed(),
                    old(self).rng.idx(),
                ) as int % 112 ==> ({
                    let corpus = old(self).evaluator.corpus;
                    let nband = Self::spec_band_count(corpus, old(layout).cells@, p1, 124);
                    &&& (nband == 0 ==> final(layout).cells@ == old(layout).cells@
                        && final(self).rng.idx() == old(self).rng.idx() + 1)
                    &&& (nband > 0 ==> final(self).rng.idx() == old(self).rng.idx() + 2
                        && forall|q: int|
                        0 <= q < 124 && spec_is_free_idx(q) && q != p1 && Self::spec_swap_band(
                            corpus,
                            old(layout).cells@,
                            p1,
                            q,
                        ) && Self::spec_band_count(corpus, old(layout).cells@, p1, q)
                            == chacha_stream(
                            old(self).rng.seed(),
                            (old(self).rng.idx() + 1) as nat,
                        ) as int % nband ==> final(layout).cells@ == old(layout).cells@.update(
                            p1,
                            old(layout).cells@[q],
                        ).update(q, old(layout).cells@[p1]))
                }),
            (forall|p: int, q: int|
                0 <= p < 124 && 0 <= q < 124 && p != q && spec_is_free_idx(p) && spec_is_free_idx(
                    q,
                ) ==> !Self::spec_swap_band(old(self).evaluator.corpus, old(layout).cells@, p, q))
                ==> final(layout).cells@ == old(layout).cells@,
    {
        let ghost cells0 = layout.cells@;
        let ghost seed0 = self.rng.seed();
        let ghost idx0 = self.rng.idx();
        let ghost corpus0 = self.evaluator.corpus;
        let mut positions: Vec<usize> = Vec::new();
        let mut p: usize = 0;
        while p < 124
            invariant
                0 <= p <= 124,
                positions@.len() == spec_free_count(p as int),
                forall|t: int|
                    0 <= t < positions@.len() ==> #[trigger] positions@[t] < p
                        && spec_is_free_idx(positions@[t] as int) && spec_free_count(
                        positions@[t] as int,
                    ) == t,
                forall|q: int|
                    0 <= q < p && spec_is_free_idx(q) ==> exists|t: int|
                        0 <= t < positions@.len() && #[trigger] positions@[t] == q,
            decreases 124 - p,
        {
            let ghost pos0 = positions@;
            let kp = crate::geometry::pos_of_cell(p);
            if !Layout::is_fixed_position(kp.layer, kp.row, kp.col) && !Layout::is_blank_position(
                kp.layer,
                kp.row,
                kp.col,
            ) {
                positions.push(p);
                proof {
                    assert(positions@[positions@.len() - 1] == p);
                }
            }
            proof {
                assert forall|q: int|
                    0 <= q < p + 1 && spec_is_free_idx(q) implies exists|t: int|
                    0 <= t < positions@.len() && #[trigger] positions@[t] == q by {
                    if q < p {
                        let t = choose|t: int| 0 <= t < pos0.len() && #[trigger] pos0[t] == q;
                        assert(positions@[t] == q);
                    } else {
                        assert(positions@[positions@.len() - 1] == q);
                    }
                };
            }
            p = p + 1;
        }
        proof {
            lemma_free_count_value();
            assert(positions@.len() == 112);
        }
        let idx1 = self.rng.next_below(positions.len());
        let p1 = positions[idx1];
        proof {
            assert(spec_free_count(p1 as int) == chacha_stream(seed0, idx0) as int % 112);
        }
        let cost1 = position_cost_of_cell(p1);
        let freq1 = self.evaluator.corpus.symbol_freq(layout.cells[p1]);
        let mut candidates: Vec<usize> = Vec::new();
        let mut q: usize = 0;
        while q < 124
            invariant
                self.evaluator.corpus.wf(),
                self.evaluator.corpus == corpus0,
                spec_cells_wf(layout.cells@),
                layout.cells@ == cells0,
                0 <= q <= 124,
                p1 < 124,
                spec_is_free_idx(p1 as int),
                cost1 == spec_position_cost_tenths(
                    spec_layer_of(p1 as int),
                    spec_row_of(p1 as int),
                    spec_col_of(p1 as int),
                ),
                freq1 == spec_symbol_freq(corpus0, cells0[p1 as int]),
                freq1 <= 0x10000000,
                candidates@.len() == Self::spec_band_count(corpus0, cells0, p1 as int, q as int),
                forall|u: int|
                    0 <= u < candidates@.len() ==> #[trigger] candidates@[u] < q
                        && spec_is_free_idx(candidates@[u] as int) && candidates@[u] != p1
                        && Self::spec_swap_band(corpus0, cells0, p1 as int, candidates@[u] as int)
                        && Self::spec_band_count(corpus0, cells0, p1 as int, candidates@[u] as int)
                        == u,
            decreases 124 - q,
        {
            let ghost cand0 = candidates@;
            let kp = crate::geometry::pos_of_cell(q);
            if !Layout::is_fixed_position(kp.layer, kp.row, kp.col) && !Layout::is_blank_position(
                kp.layer,
                kp.row,
                kp.col,
            ) && q != p1 {
                let cost2 = position_cost_of_cell(q);
                let freq2 = self.evaluator.corpus.symbol_freq(layout.cells[q]);
                let cost_ok = if cost1 >= cost2 {
                    cost1 - cost2 <= 1
                } else {
                    cost2 - cost1 <= 1
                };
                let freq_ok = if freq1 == 0 && freq2 == 0 {
                    true
                } else if freq1 > 0 && freq2 > 0 {
                    freq2 * 10 >= freq1 * 9 && freq2 * 10 <= freq1 * 11
                } else {
                    false
                };
                if cost_ok && freq_ok {
                    proof {
                        assert(Self::spec_swap_band(corpus0, cells0, p1 as int, q as int));
                    }
                    candidates.push(q);
                    proof {
                        assert(candidates@[candidates@.len() - 1] == q);
                    }
                }
            }
            q = q + 1;
        }
        if candidates.len() == 0 {
            proof {
                Self::lemma_mutate_pick_unique(p1 as int, seed0, idx0);
            }
            return ;
        }
        let pick = self.rng.next_below(candidates.len());
        let p2 = candidates[pick];
        proof {
            assert(Self::spec_band_count(corpus0, cells0, p1 as int, p2 as int)
                == chacha_stream(seed0, (idx0 + 1) as nat) as int % Self::spec_band_count(
                corpus0,
                cells0,
                p1 as int,
                124,
            ));
        }
        let a = layout.cells[p1];
        let b = layout.cells[p2];
        layout.cells[p1] = b;
        layout.cells[p2] = a;
        proof {
            assert(layout.cells@ =~= cells0.update(p1 as int, cells0[p2 as int]).update(
                p2 as int,
                cells0[p1 as int],
            ));
            Self::lemma_mutate_pick_unique(p1 as int, seed0, idx0);
            assert forall|q2: int|
                0 <= q2 < 124 && spec_is_free_idx(q2) && q2 != p1 as int && Self::spec_swap_band(
                    corpus0,
                    cells0,
                    p1 as int,
                    q2,
                ) && Self::spec_band_count(corpus0, cells0, p1 as int, q2) == chacha_stream(
                    seed0,
                    (idx0 + 1) as nat,
                ) as int % Self::spec_band_count(corpus0, cells0, p1 as int, 124) implies q2
                == p2 as int by {
                assert(candidates@.contains(q2 as usize)) by {
                    Self::lemma_band_member_listed(corpus0, cells0, p1 as int, q2, candidates@);
                };
                let u = choose|u: int|
                    0 <= u < candidates@.len() && candidates@[u] == q2 as usize;
                assert(Self::spec_band_count(corpus0, cells0, p1 as int, q2) == u);
                assert(u == pick as int);
            };
        }
    }


/// The first draw picks exactly one free cell.
proof fn lemma_mutate_pick_unique(p1: int, seed: u64, idx: nat)
    requires
        0 <= p1 < 124,
        spec_is_free_idx(p1),
        spec_free_count(p1) == chacha_stream(seed, idx) as int % 112,
    ensures
        forall|p: int|
            0 <= p < 124 && spec_is_free_idx(p) && spec_free_count(p) == chacha_stream(
                seed,
                idx,
            ) as int % 112 ==> p == p1,
{
    assert forall|p: int|
        0 <= p < 124 && spec_is_free_idx(p) && spec_free_count(p) == chacha_stream(
            seed,
            idx,
        ) as int % 112 implies p == p1 by {
        if p < p1 {
            GeneticAlgorithm::lemma_free_rank_injective(p, p1);
        } else if p > p1 {
            GeneticAlgorithm::lemma_free_rank_injective(p1, p);
        }
    };
}

/// Band members are ordered by their band rank.
proof fn lemma_band_rank_injective(
    corpus: CorpusStats,
    cells: Seq<Symbol>,
    p1: int,
    a: int,
    b: int,
)
    requires
        0 <= a < b < 124,
        spec_is_free_idx(a) && a != p1 && GeneticAlgorithm::spec_swap_band(corpus, cells, p1, a),
    ensures
        GeneticAlgorithm::spec_band_count(corpus, cells, p1, a) < GeneticAlgorithm::spec_band_count(
            corpus,
            cells,
            p1,
            b,
        ),
{
    assert(GeneticAlgorithm::spec_band_count(corpus, cells, p1, a + 1)
        == GeneticAlgorithm::spec_band_count(corpus, cells, p1, a) + 1);
    GeneticAlgorithm::lemma_band_count_mono(corpus, cells, p1, a + 1, b);
}

/// A band member of the first pick stands in the candidate list at
/// its band rank.
proof fn lemma_band_member_listed(
    corpus: CorpusStats,
    cells: Seq<Symbol>,
    p1: int,
    q2: int,
    cand: Seq<usize>,
)
    requires
        0 <= q2 < 124,
        spec_is_free_idx(q2),
        q2 != p1,
        GeneticAlgorithm::spec_swap_band(corpus, cells, p1, q2),
        cand.len() == GeneticAlgorithm::spec_band_count(corpus, cells, p1, 124),
        forall|u: int|
            0 <= u < cand.len() ==> #[trigger] cand[u] < 124 && spec_is_free_idx(cand[u] as int)
                && cand[u] != p1 && GeneticAlgorithm::spec_swap_band(
                corpus,
                cells,
                p1,
                cand[u] as int,
            ) && GeneticAlgorithm::spec_band_count(corpus, cells, p1, cand[u] as int) == u,
    ensures
        cand.contains(q2 as usize),
{
    let r = GeneticAlgorithm::spec_band_count(corpus, cells, p1, q2);
    assert(GeneticAlgorithm::spec_band_count(corpus, cells, p1, q2 + 1) == r + 1);
    GeneticAlgorithm::lemma_band_count_mono(corpus, cells, p1, q2 + 1, 124);
    GeneticAlgorithm::lemma_band_count_nonneg(corpus, cells, p1, q2);
    assert(0 <= r < cand.len());
    let c = cand[r];
    if (c as int) < q2 {
        Self::lemma_band_rank_injective(corpus, cells, p1, c as int, q2);
        assert(false);
    } else if (c as int) > q2 {
        Self::lemma_band_rank_injective(corpus, cells, p1, q2, c as int);
        assert(false);
    }
    assert(cand[r] == q2 as usize);
}

/// Index selected by a five-draw tournament: the first `k` draws
/// are `chacha_stream(seed, idx) % n` onward, and a later draw
/// replaces the held index only when its candidate is strictly
/// fitter.
pub open spec fn spec_tournament_pick(
    pop: Seq<Layout>,
    seed: u64,
    idx: nat,
    k: nat,
) -> int
    decreases k,
{
    let n = pop.len() as int;
    if k <= 1 {
        chacha_stream(seed, idx) as int % n
    } else {
        let prev = Self::spec_tournament_pick(pop, seed, idx, (k - 1) as nat);
        let d = chacha_stream(seed, (idx + k - 1) as nat) as int % n;
        if pop[d].fitness > pop[prev].fitness {
            d
        } else {
            prev
        }
    }
}

/// The tournament pick stays inside the population.
proof fn lemma_tournament_pick_in_range(pop: Seq<Layout>, seed: u64, idx: nat, k: nat)
    requires
        pop.len() >= 1,
        k >= 1,
    ensures
        0 <= Self::spec_tournament_pick(pop, seed, idx, k) < pop.len(),
    decreases k,
{
    let n = pop.len() as int;
    if k <= 1 {
        assert(0 <= chacha_stream(seed, idx) as int % n < n) by (nonlinear_arith)
            requires
                n >= 1,
        ;
    } else {
        Self::lemma_tournament_pick_in_range(pop, seed, idx, (k - 1) as nat);
        assert(0 <= chacha_stream(seed, (idx + k - 1) as nat) as int % n < n) by (
        nonlinear_arith)
            requires
                n >= 1,
        ;
    }
}

    /// Tournament selection: draw five members with replacement and
    /// return a copy of the fittest drawn (on equal fitness, the
    /// earliest draw).
    pub fn tournament_select(&mut self, population: &Vec<Layout>) -> (r: Layout)
        requires
            old(self).wf(),
            population@.len() >= 1,
            forall|i: int| 0 <= i < population@.len() ==> spec_cells_wf(#[trigger] population@[i].cells@),
        ensures
            final(self).wf(),
            final(self).rng.seed() == old(self).rng.seed(),
            final(self).rng.idx() == old(self).rng.idx() + 5,
            final(self).config == old(self).config,
            final(self).evaluator == old(self).evaluator,
            final(self).universe == old(self).universe,
            0 <= Self::spec_tournament_pick(
                population@,
                old(self).rng.seed(),
                old(self).rng.idx(),
                5,
            ) < population@.len(),
            spec_same_candidate(
                r,
                population@[Self::spec_tournament_pick(
                    population@,
                    old(self).rng.seed(),
                    old(self).rng.idx(),
                    5,
                )],
            ),
            forall|k: nat|
                1 <= k <= 5 ==> r.fitness >= population@[#[trigger] Self::spec_tournament_pick(
                    population@,
                    old(self).rng.seed(),
                    old(self).rng.idx(),
                    k,
                )].fitness,
    {
        let ghost seed0 = self.rng.seed();
        let ghost idx0 = self.rng.idx();
        let n = population.len();
        proof {
            Self::lemma_tournament_pick_in_range(population@, seed0, idx0, 1);
        }
        let mut best_idx = self.rng.next_below(n);
        let mut round: usize = 1;
        while round < 5
            invariant
                n == population@.len(),
                n >= 1,
                best_idx < n,
                1 <= round <= 5,
                forall|i: int|
                    0 <= i < population@.len() ==> spec_cells_wf(
                        #[trigger] population@[i].cells@,
                    ),
                self.config == old(self).config,
                self.evaluator == old(self).evaluator,
                self.universe == old(self).universe,
                self.rng.seed() == seed0,
                self.rng.idx() == idx0 + round,
                best_idx as int == Self::spec_tournament_pick(population@, seed0, idx0, round as nat),
                forall|k: nat|
                    1 <= k <= round ==> population@[best_idx as int].fitness >= population@[
                    #[trigger] Self::spec_tournament_pick(population@, seed0, idx0, k)].fitness,
            decreases 5 - round,
        {
            proof {
                Self::lemma_tournament_pick_in_range(population@, seed0, idx0, round as nat);
                Self::lemma_tournament_pick_in_range(population@, seed0, idx0, (round + 1) as nat);
            }
            let ghost prev = best_idx;
            let idx = self.rng.next_below(n);
            if population[idx].fitness > population[best_idx].fitness {
                best_idx = idx;
            }
            proof {
                assert(best_idx as int == Self::spec_tournament_pick(
                    population@,
                    seed0,
                    idx0,
                    (round + 1) as nat,
                ));
                assert forall|k: nat|
                    1 <= k <= round + 1 implies population@[best_idx as int].fitness
                    >= population@[#[trigger] Self::spec_tournament_pick(
                    population@,
                    seed0,
                    idx0,
                    k,
                )].fitness by {
                    if k <= round as nat {
                        assert(population@[prev as int].fitness >= population@[
                        Self::spec_tournament_pick(population@, seed0, idx0, k)].fitness);
                    }
                };
            }
            round = round + 1;
        }
        clone_layout(&population[best_idx])
    }
}


/// The candidate a population entry carries: its grid, fitness and
/// score breakdown.
pub open spec fn spec_candidate(l: Layout) -> (Seq<Symbol>, u64, crate::layout::EvaluationScores) {
    (l.cells@, l.fitness, l.scores)
}

/// The candidates of a population, in order.
pub open spec fn spec_candidates(s: Seq<Layout>) -> Seq<
    (Seq<Symbol>, u64, crate::layout::EvaluationScores),
> {
    s.map_values(|l: Layout| spec_candidate(l))
}

/// Inserting a layout inserts its candidate.
proof fn lemma_candidates_insert(s: Seq<Layout>, i: int, x: Layout)
    requires
        0 <= i <= s.len(),
    ensures
        spec_candidates(s.insert(i, x)) =~= spec_candidates(s).insert(i, spec_candidate(x)),
{
    s.insert_ensures(i, x);
    spec_candidates(s).insert_ensures(i, spec_candidate(x));
}

/// Two population entries carrying the same candidate.
pub open spec fn spec_same_candidate(a: Layout, b: Layout) -> bool {
    a.cells@ == b.cells@ && a.fitness == b.fitness && a.scores == b.scores
}


/// Every entry of one population is a candidate of another.
pub open spec fn spec_population_of(r: Seq<Layout>, v: Seq<Layout>) -> bool {
    forall|i: int|
        #![trigger r[i]]
        0 <= i < r.len() ==> exists|j: int| 0 <= j < v.len() && spec_same_candidate(r[i], v[j])
}

/// Descending fitness order.
pub open spec fn spec_sorted_by_fitness(s: Seq<Layout>) -> bool {
    forall|a: int, b: int| 0 <= a < b < s.len() ==> s[a].fitness >= s[b].fitness
}

/// Insert a candidate into a fitness-sorted population.
fn insert_by_fitness(out: &mut Vec<Layout>, x: Layout)
    requires
        spec_sorted_by_fitness(old(out)@),
    ensures
        spec_sorted_by_fitness(final(out)@),
        exists|k: int|
            0 <= k <= old(out)@.len() && final(out)@ == #[trigger] old(out)@.insert(k, x),
{
    let n = out.len();
    let mut k: usize = 0;
    while k < n && out[k].fitness >= x.fitness
        invariant
            n == out@.len(),
            0 <= k <= n,
            forall|j: int| 0 <= j < k ==> out@[j].fitness >= x.fitness,
            spec_sorted_by_fitness(out@),
        decreases n - k,
    {
        k = k + 1;
    }
    let ghost s0 = out@;
    let ghost kk = k as int;
    let ghost xx = x;
    out.insert(k, x);
    proof {
        s0.insert_ensures(kk, xx);
        assert forall|a: int, b: int|
            0 <= a < b < out@.len() implies out@[a].fitness >= out@[b].fitness by {
            if b < kk {
            } else if a < kk && b == kk {
            } else if a < kk && b > kk {
                assert(out@[b] == s0[b - 1]);
            } else if a == kk {
                assert(out@[b] == s0[b - 1]);
            } else {
                assert(out@[a] == s0[a - 1] && out@[b] == s0[b - 1]);
            }
        };
    }
}

/// Sort a population by descending fitness; every entry of the
/// result is one of the input candidates.
pub fn sort_population(v: &Vec<Layout>) -> (r: Vec<Layout>)
    requires
        forall|i: int| 0 <= i < v@.len() ==> spec_cells_wf(#[trigger] v@[i].cells@),
    ensures
        r@.len() == v@.len(),
        spec_sorted_by_fitness(r@),
        spec_population_of(r@, v@),
        spec_candidates(r@).to_multiset() == spec_candidates(v@).to_multiset(),
{
    broadcast use vstd::seq_lib::group_to_multiset_ensures;

    let mut out: Vec<Layout> = Vec::new();
    let n = v.len();
    let mut i: usize = 0;
    while i < n
        invariant
            n == v@.len(),
            0 <= i <= n,
            out@.len() == i,
            spec_sorted_by_fitness(out@),
            forall|j2: int| 0 <= j2 < v@.len() ==> spec_cells_wf(#[trigger] v@[j2].cells@),
            spec_population_of(out@, v@),
            spec_candidates(out@).to_multiset() == spec_candidates(v@.take(i as int)).to_multiset(),
        decreases n - i,
    {
        let ghost out0 = out@;
        let x = clone_layout(&v[i]);
        let ghost xx = x;
        insert_by_fitness(&mut out, x);
        proof {
            let ins = choose|ins: int|
                0 <= ins <= out0.len() && out@ == #[trigger] out0.insert(ins, xx);
            out0.insert_ensures(ins, xx);
            assert forall|t: int|
                #![trigger out@[t]]
                0 <= t < out@.len() implies exists|j: int|
                0 <= j < v@.len() && spec_same_candidate(out@[t], v@[j]) by {
                if t < ins {
                    assert(out@[t] == out0[t]);
                    let j = choose|j: int|
                        0 <= j < v@.len() && spec_same_candidate(out0[t], v@[j]);
                } else if t == ins {
                    assert(out@[t] == xx);
                    assert(spec_same_candidate(out@[t], v@[i as int]));
                } else {
                    assert(out@[t] == out0[t - 1]);
                    let j = choose|j: int|
                        0 <= j < v@.len() && spec_same_candidate(out0[t - 1], v@[j]);
                }
            };
            assert(spec_population_of(out@, v@));
            lemma_candidates_insert(out0, ins, xx);
            crate::layout::lemma_insert_to_multiset(spec_candidates(out0), ins, spec_candidate(xx));
            assert(spec_candidates(out@).to_multiset() =~= spec_candidates(out0).to_multiset()
                .insert(spec_candidate(xx)));
            assert(v@.take(i as int + 1) =~= v@.take(i as int).push(v@[i as int]));
            let pseq = spec_candidates(v@.take(i as int)).push(spec_candidate(v@[i as int]));
            spec_candidates(v@.take(i as int)).to_multiset_ensures();
            assert(pseq.to_multiset() =~= spec_candidates(v@.take(i as int)).to_multiset().insert(
                spec_candidate(v@[i as int]),
            ));
            assert(spec_candidates(v@.take(i as int + 1)) =~= pseq);
            assert(spec_candidates(v@.take(i as int + 1)).to_multiset() == pseq.to_multiset());
            assert(spec_candidate(xx) == spec_candidate(v@[i as int]));
        }
        i = i + 1;
    }
    proof {
        assert(v@.take(n as int) =~= v@);
    }
    out
}

/// The outcome of one evolutionary run.
#[derive(Clone, Debug)]
pub struct GaResult {
    /// The best layout found, re-repaired and re-evaluated.
    pub best_layout: Layout,
    /// Its fitness, in millionths.
    pub best_fitness: u64,
    /// The best-so-far fitness after each generation, never
    /// decreasing.
    pub fitness_history: Vec<u64>,
    /// Index of the last generation.
    pub final_generation: usize,
}

impl GeneticAlgorithm {
    /// A population member the run maintains: structurally sound,
    /// duplicate-free when the universe covers the free cells, with
    /// scores and fitness as the evaluator assigns them.
    pub open spec fn member_ok(&self, l: Layout) -> bool {
        &&& spec_cells_wf(l.cells@)
        &&& spec_fixed_ok(l.cells@)
        &&& spec_blank_ok(l.cells@)
        &&& (self.spec_universe().len() >= 112 ==> spec_free_cells_ok(l.cells@))
        &&& (self.spec_universe().len() >= 112 ==> forall|p: int|
            0 <= p < 124 && spec_is_free_idx(p) ==> #[trigger] l.cells@[p] != spec_blank())
        &&& self.evaluator.scores_of(l.scores, l.cells@)
        &&& l.fitness == spec_fitness(l.scores, self.evaluator.weights)
    }

    /// Repair and evaluate a candidate, making it a population
    /// member.
    fn settle_candidate(&self, l: &mut Layout)
        requires
            self.wf(),
            spec_cells_wf(old(l).cells@),
        ensures
            self.member_ok(*final(l)),
            forall|p: int|
                0 <= p < 124 && spec_clean(old(l).cells@, p) ==> final(l).cells@[p] == old(
                    l,
                ).cells@[p],
    {
        self.repair_layout(l);
        self.evaluator.evaluate(l);
    }

    /// Re-repair and re-evaluate an already-sound member: a
    /// defensive final pass that provably changes nothing when the
    /// universe covers the free cells.
    fn settle_best(&self, l: &mut Layout)
        requires
            self.wf(),
            self.member_ok(*old(l)),
        ensures
            self.member_ok(*final(l)),
            self.spec_universe().len() >= 112 ==> final(l).cells@ == old(l).cells@
                && final(l).fitness == old(l).fitness,
    {
        let ghost pre = *l;
        self.settle_candidate(l);
        proof {
            if self.spec_universe().len() >= 112 {
                assert forall|p: int|
                    0 <= p < 124 && spec_is_free_idx(p) implies spec_clean(pre.cells@, p) by {
                    assert(pre.cells@[p] != spec_blank());
                };
                assert(l.cells@ =~= pre.cells@);
                assert(l.scores == pre.scores) by {
                    assert(self.evaluator.scores_of(l.scores, l.cells@));
                    assert(self.evaluator.scores_of(pre.scores, pre.cells@));
                };
                assert(l.fitness == pre.fitness);
            }
        }
    }

    /// Run the evolutionary search.
    pub fn run(&mut self) -> (r: GaResult)
        requires
            old(self).wf(),
        ensures
            final(self).wf(),
            final(self).config == old(self).config,
            final(self).evaluator == old(self).evaluator,
            final(self).universe == old(self).universe,
            final(self).rng.seed() == old(self).rng.seed(),
            r.fitness_history@.len() == old(self).config.generations + 1,
            forall|i: int, j: int|
                0 <= i <= j < r.fitness_history@.len() ==> r.fitness_history@[i]
                    <= r.fitness_history@[j],
            r.final_generation == old(self).config.generations,
            final(self).member_ok(r.best_layout),
            r.best_fitness == r.best_layout.fitness,
            old(self).spec_universe().len() >= 112 ==> r.best_fitness == r.fitness_history@[
                r.fitness_history@.len() - 1
            ],
    {
        self.run_with_callback(|_generation: usize, _fit: u64, _snapshot: Layout| ())
    }

    /// Run the evolutionary search: seed plus random initial
    /// population, then the configured number of generations of
    /// elitism, tournament selection, crossover, mutation and
    /// repair.  The observer is called once per generation, the
    /// initial population included, with the generation index, the
    /// best-so-far fitness — which never decreases from one
    /// generation to the next — and a copy of the best-so-far
    /// layout; the contract only obliges the observer to accept
    /// sound members whose fitness matches, so an observer may
    /// assume exactly that of every snapshot it receives.
    #[verifier::rlimit(100)]
    pub fn run_with_callback<F: Fn(usize, u64, Layout)>(&mut self, callback: F) -> (r: GaResult)
        requires
            old(self).wf(),
            forall|generation: usize, fit: u64, snapshot: Layout|
                old(self).member_ok(snapshot) && fit == snapshot.fitness
                    ==> #[trigger] callback.requires((generation, fit, snapshot)),
        ensures
            final(self).wf(),
            final(self).config == old(self).config,
            final(self).evaluator == old(self).evaluator,
            final(self).universe == old(self).universe,
            final(self).rng.seed() == old(self).rng.seed(),
            r.fitness_history@.len() == old(self).config.generations + 1,
            forall|i: int, j: int|
                0 <= i <= j < r.fitness_history@.len() ==> r.fitness_history@[i]
                    <= r.fitness_history@[j],
            r.final_generation == old(self).config.generations,
            final(self).member_ok(r.best_layout),
            r.best_fitness == r.best_layout.fitness,
            old(self).spec_universe().len() >= 112 ==> r.best_fitness == r.fitness_history@[
                r.fitness_history@.len() - 1
            ],
    {
        let ghost self0 = *self;
        let mut population: Vec<Layout> = Vec::new();
        let mut custom = Layout::improved_custom();
        self.settle_candidate(&mut custom);
        population.push(custom);
        while population.len() < self.config.population_size
            invariant
                self.wf(),
                *self == (GeneticAlgorithm { rng: self.rng, ..self0 }),
                self.rng.seed() == self0.rng.seed(),
                1 <= population@.len() <= self.config.population_size,
                forall|i: int| 0 <= i < population@.len() ==> self.member_ok(
                    #[trigger] population@[i],
                ),
            decreases self.config.population_size - population@.len(),
        {
            let mut l = Layout::random_with_chars(&mut self.rng, &self.universe);
            self.settle_candidate(&mut l);
            population.push(l);
        }
        let sorted = sort_population(&population);
        proof {
            assert forall|i: int|
                0 <= i < sorted@.len() implies self.member_ok(#[trigger] sorted@[i]) by {
                assert(spec_population_of(sorted@, population@));
                let j = choose|j: int|
                    0 <= j < population@.len() && spec_same_candidate(sorted@[i], population@[j]);
            };
        }
        let population_len = sorted.len();
        let mut population = sorted;
        let mut best = clone_layout(&population[0]);
        let mut best_fitness = population[0].fitness;
        let mut history: Vec<u64> = Vec::new();
        history.push(best_fitness);
        let snapshot0 = clone_layout(&best);
        proof {
            assert(self0.member_ok(snapshot0));
        }
        callback(0, best_fitness, snapshot0);
        let generations = self.config.generations;
        let mut gen: usize = 1;
        while gen <= generations
            invariant
                forall|generation: usize, fit: u64, snapshot: Layout|
                    self0.member_ok(snapshot) && fit == snapshot.fitness
                        ==> #[trigger] callback.requires((generation, fit, snapshot)),
                self.wf(),
                *self == (GeneticAlgorithm { rng: self.rng, ..self0 }),
                self.rng.seed() == self0.rng.seed(),
                generations == self.config.generations,
                1 <= gen <= generations + 1,
                population@.len() == population_len,
                1 <= population_len <= self.config.population_size,
                forall|i: int| 0 <= i < population@.len() ==> self.member_ok(
                    #[trigger] population@[i],
                ),
                self.member_ok(best),
                best.fitness == best_fitness,
                history@.len() == gen,
                forall|i: int, j: int|
                    0 <= i <= j < history@.len() ==> history@[i] <= history@[j],
                history@[history@.len() - 1] == best_fitness,
            decreases generations + 1 - gen,
        {
            let mut new_population: Vec<Layout> = Vec::new();
            let elite = if self.config.elite_count < population_len {
                self.config.elite_count
            } else {
                population_len
            };
            let mut e: usize = 0;
            while e < elite
                invariant
                    self.wf(),
                    *self == (GeneticAlgorithm { rng: self.rng, ..self0 }),
                self.rng.seed() == self0.rng.seed(),
                    elite <= population@.len(),
                    0 <= e <= elite,
                    new_population@.len() == e,
                    forall|i: int| 0 <= i < population@.len() ==> self.member_ok(
                        #[trigger] population@[i],
                    ),
                    forall|i: int| 0 <= i < new_population@.len() ==> self.member_ok(
                        #[trigger] new_population@[i],
                    ),
                decreases elite - e,
            {
                let c = clone_layout(&population[e]);
                new_population.push(c);
                e = e + 1;
            }
            while new_population.len() < population_len
                invariant
                    self.wf(),
                    *self == (GeneticAlgorithm { rng: self.rng, ..self0 }),
                self.rng.seed() == self0.rng.seed(),
                    population@.len() == population_len,
                    1 <= population_len,
                    new_population@.len() <= population_len,
                    forall|i: int| 0 <= i < population@.len() ==> self.member_ok(
                        #[trigger] population@[i],
                    ),
                    forall|i: int| 0 <= i < new_population@.len() ==> self.member_ok(
                        #[trigger] new_population@[i],
                    ),
                decreases population_len - new_population@.len(),
            {
                let parent1 = self.tournament_select(&population);
                let parent2 = self.tournament_select(&population);
                proof {
                    assert(spec_cells_wf(parent1.cells@));
                    assert(spec_cells_wf(parent2.cells@));
                }
                let mut child = self.crossover(&parent1, &parent2);
                if self.rng.chance_ppm(self.config.mutation_rate_ppm) {
                    self.mutate(&mut child);
                }
                self.settle_candidate(&mut child);
                new_population.push(child);
            }
            let sorted2 = sort_population(&new_population);
            proof {
                assert forall|i: int|
                    0 <= i < sorted2@.len() implies self.member_ok(#[trigger] sorted2@[i]) by {
                    assert(spec_population_of(sorted2@, new_population@));
                    let j = choose|j: int|
                        0 <= j < new_population@.len() && spec_same_candidate(
                            sorted2@[i],
                            new_population@[j],
                        );
                };
            }
            population = sorted2;
            if population[0].fitness > best_fitness {
                best_fitness = population[0].fitness;
                best = clone_layout(&population[0]);
            }
            history.push(best_fitness);
            let snapshot = clone_layout(&best);
            proof {
                assert(self0.member_ok(snapshot));
            }
            callback(gen, best_fitness, snapshot);
            gen = gen + 1;
        }
        self.settle_best(&mut best);
        let final_fitness = best.fitness;
        GaResult {
            best_layout: best,
            best_fitness: final_fitness,
            fitness_history: history,
            final_generation: generations,
        }
    }
}

/// An element-wise copy of a frequency table.
pub fn clone_ngram_map(m: &crate::corpus::NgramMap) -> (r: crate::corpus::NgramMap)
    ensures
        r.entries@ == m.entries@,
{
    let mut entries: Vec<(Gram, usize)> = Vec::new();
    let n = m.entries.len();
    let mut i: usize = 0;
    while i < n
        invariant
            n == m.entries@.len(),
            0 <= i <= n,
            entries@.len() == i,
            forall|t: int| 0 <= t < i ==> entries@[t] == m.entries@[t],
        decreases n - i,
    {
        entries.push(m.entries[i]);
        i = i + 1;
    }
    proof {
        assert(entries@ =~= m.entries@);
    }
    crate::corpus::NgramMap { entries }
}

/// An element-wise copy of corpus statistics.
pub fn clone_corpus(c: &CorpusStats) -> (r: CorpusStats)
    ensures
        r.char_freq.entries@ == c.char_freq.entries@,
        r.bigram_freq.entries@ == c.bigram_freq.entries@,
        r.trigram_freq.entries@ == c.trigram_freq.entries@,
        r.fourgram_freq.entries@ == c.fourgram_freq.entries@,
        r.hiragana_by_freq@ == c.hiragana_by_freq@,
        c.wf() ==> r.wf(),
{
    let mut hira: Vec<char> = Vec::new();
    let n = c.hiragana_by_freq.len();
    let mut i: usize = 0;
    while i < n
        invariant
            n == c.hiragana_by_freq@.len(),
            0 <= i <= n,
            hira@.len() == i,
            forall|t: int| 0 <= t < i ==> hira@[t] == c.hiragana_by_freq@[t],
        decreases n - i,
    {
        hira.push(c.hiragana_by_freq[i]);
        i = i + 1;
    }
    proof {
        assert(hira@ =~= c.hiragana_by_freq@);
    }
    CorpusStats {
        char_freq: clone_ngram_map(&c.char_freq),
        bigram_freq: clone_ngram_map(&c.bigram_freq),
        trigram_freq: clone_ngram_map(&c.trigram_freq),
        fourgram_freq: clone_ngram_map(&c.fourgram_freq),
        hiragana_by_freq: hira,
    }
}

/// Run several independent searches in sequence, one derived seed
/// each, and collect their results.
pub fn run_multi(
    corpus: &CorpusStats,
    config: GaConfig,
    weights: EvaluationWeights,
    num_runs: usize,
) -> (results: Vec<GaResult>)
    requires
        corpus.wf(),
        config.wf(),
        weights.wf(),
        num_runs <= 10000,
    ensures
        results@.len() == num_runs,
        forall|i: int|
            0 <= i < results@.len() ==> (#[trigger] results@[i]).fitness_history@.len()
                == config.generations + 1,
        forall|i: int, a: int, b: int|
            0 <= i < results@.len() && 0 <= a <= b < results@[i].fitness_history@.len()
                ==> #[trigger] results@[i].fitness_history@[a] <= #[trigger] results@[
            i].fitness_history@[b],
        forall|i: int|
            0 <= i < results@.len() ==> (#[trigger] results@[i]).final_generation
                == config.generations,
        forall|i: int|
            0 <= i < results@.len() ==> spec_cells_wf((#[trigger] results@[i]).best_layout.cells@)
                && spec_fixed_ok(results@[i].best_layout.cells@) && spec_blank_ok(
                results@[i].best_layout.cells@,
            ) && spec_free_cells_ok(results@[i].best_layout.cells@),
        forall|i: int, p: int|
            0 <= i < results@.len() && 0 <= p < 124 && spec_is_free_idx(p) ==> (
            #[trigger] results@[i].best_layout.cells@[p]) != spec_blank(),
        forall|i: int|
            0 <= i < results@.len() ==> (#[trigger] results@[i]).best_fitness == results@[
            i].best_layout.fitness && results@[i].best_layout.fitness == spec_fitness(
                results@[i].best_layout.scores,
                weights,
            ),
{
    let mut seed_rng = SeededRng::new(config.seed);
    let mut results: Vec<GaResult> = Vec::new();
    let mut k: usize = 0;
    while k < num_runs
        invariant
            corpus.wf(),
            config.wf(),
            weights.wf(),
            0 <= k <= num_runs,
            results@.len() == k,
            forall|i: int|
                0 <= i < results@.len() ==> (#[trigger] results@[i]).fitness_history@.len()
                    == config.generations + 1,
            forall|i: int, a: int, b: int|
                0 <= i < results@.len() && 0 <= a <= b < results@[i].fitness_history@.len()
                    ==> #[trigger] results@[i].fitness_history@[a] <= #[trigger] results@[
                i].fitness_history@[b],
            forall|i: int|
                0 <= i < results@.len() ==> (#[trigger] results@[i]).final_generation
                    == config.generations,
            forall|i: int|
                0 <= i < results@.len() ==> spec_cells_wf(
                    (#[trigger] results@[i]).best_layout.cells@,
                ) && spec_fixed_ok(results@[i].best_layout.cells@) && spec_blank_ok(
                    results@[i].best_layout.cells@,
                ) && spec_free_cells_ok(results@[i].best_layout.cells@),
            forall|i: int, p: int|
                0 <= i < results@.len() && 0 <= p < 124 && spec_is_free_idx(p) ==> (
                #[trigger] results@[i].best_layout.cells@[p]) != spec_blank(),
            forall|i: int|
                0 <= i < results@.len() ==> (#[trigger] results@[i]).best_fitness == results@[
                i].best_layout.fitness && results@[i].best_layout.fitness == spec_fitness(
                    results@[i].best_layout.scores,
                    weights,
                ),
        decreases num_runs - k,
    {
        let seed = seed_rng.next_u64();
        let mut run_config = config;
        run_config.seed = seed;
        let own_corpus = clone_corpus(corpus);
        let mut ga = GeneticAlgorithm::with_weights(own_corpus, run_config, weights);
        let result = ga.run();
        results.push(result);
        k = k + 1;
    }
    results
}


/// Sum of the best fitnesses of the first `i` results.
pub open spec fn spec_fitness_sum(s: Seq<GaResult>, i: int) -> int
    decreases i,
{
    if i <= 0 {
        0
    } else {
        spec_fitness_sum(s, i - 1) + s[i - 1].best_fitness as int
    }
}

/// Sum of squared deviations from `mean` over the first `i` results.
pub open spec fn spec_dev_sum(s: Seq<GaResult>, mean: int, i: int) -> int
    decreases i,
{
    if i <= 0 {
        0
    } else {
        let f = s[i - 1].best_fitness as int;
        let d = if f >= mean {
            f - mean
        } else {
            mean - f
        };
        spec_dev_sum(s, mean, i - 1) + d * d
    }
}

/// Bounds of the summary sums.
proof fn lemma_summary_sums(s: Seq<GaResult>, mean: int, i: int)
    requires
        0 <= i <= s.len(),
        0 <= mean <= 200000000,
        forall|t: int| 0 <= t < s.len() ==> (#[trigger] s[t]).best_fitness <= 200000000,
    ensures
        0 <= spec_fitness_sum(s, i) <= i * 200000000,
        0 <= spec_dev_sum(s, mean, i) <= i * 40000000000000000,
    decreases i,
{
    if i > 0 {
        lemma_summary_sums(s, mean, i - 1);
        let f = s[i - 1].best_fitness as int;
        let d = if f >= mean {
            f - mean
        } else {
            mean - f
        };
        assert(0 <= d * d <= 40000000000000000) by (nonlinear_arith)
            requires
                0 <= d <= 200000000,
        ;
        assert(i * 200000000 == (i - 1) * 200000000 + 200000000) by (nonlinear_arith);
        assert(i * 40000000000000000 == (i - 1) * 40000000000000000 + 40000000000000000) by (
        nonlinear_arith);
    }
}

/// Integer square root.
pub fn isqrt(x: u64) -> (r: u64)
    ensures
        r * r <= x,
        (r + 1) * (r + 1) > x,
{
    let mut lo: u64 = 0;
    let mut hi: u64 = 4294967296;
    proof {
        assert(4294967296u64 * 4294967296u64 > x as int) by (nonlinear_arith)
            requires
                x <= 0xffff_ffff_ffff_ffff,
        ;
    }
    while hi - lo > 1
        invariant
            lo < hi <= 4294967296,
            lo * lo <= x,
            hi * hi > x,
        decreases hi - lo,
    {
        let mid = lo + (hi - lo) / 2;
        proof {
            assert(mid * mid <= 0xffff_ffff_ffff_ffff) by (nonlinear_arith)
                requires
                    mid < 4294967296,
            ;
        }
        if mid * mid <= x {
            lo = mid;
        } else {
            hi = mid;
        }
    }
    lo
}

/// Mean, population standard deviation, minimum and maximum of the
/// best fitnesses of a set of runs, with the index of the best run.
/// The mean is the floored average, and the standard deviation the
/// floored square root of the floored population variance.
pub fn summarize_results(results: &Vec<GaResult>) -> (r: (u64, u64, u64, u64, usize))
    requires
        1 <= results@.len() <= 1000000,
        forall|i: int| 0 <= i < results@.len() ==> (#[trigger] results@[i]).best_fitness
            <= 200000000,
    ensures
        ({
            let (mean, stddev, min, max, best_idx) = r;
            let n = results@.len() as int;
            let variance = spec_dev_sum(results@, mean as int, n) / n;
            &&& best_idx < results@.len()
            &&& mean == spec_fitness_sum(results@, n) / n
            &&& stddev * stddev <= variance
            &&& (stddev + 1) * (stddev + 1) > variance
            &&& forall|i: int|
                0 <= i < results@.len() ==> min <= (#[trigger] results@[i]).best_fitness <= max
            &&& forall|i: int|
                0 <= i < results@.len() ==> results@[best_idx as int].best_fitness >= (
                #[trigger] results@[i]).best_fitness
            &&& exists|i: int| 0 <= i < results@.len() && min == (
            #[trigger] results@[i]).best_fitness
            &&& exists|i: int| 0 <= i < results@.len() && max == (
            #[trigger] results@[i]).best_fitness
        }),
{
    let n = results.len();
    let mut sum: u64 = 0;
    let mut min: u64 = results[0].best_fitness;
    let mut max: u64 = results[0].best_fitness;
    let mut best_idx: usize = 0;
    let mut i: usize = 0;
    while i < n
        invariant
            n == results@.len(),
            1 <= n <= 1000000,
            forall|t: int| 0 <= t < results@.len() ==> (#[trigger] results@[t]).best_fitness
                <= 200000000,
            0 <= i <= n,
            sum == spec_fitness_sum(results@, i as int),
            sum <= i * 200000000,
            best_idx < n,
            forall|t: int| 0 <= t < i ==> min <= (#[trigger] results@[t]).best_fitness <= max,
            forall|t: int|
                0 <= t < i ==> results@[best_idx as int].best_fitness >= (
                #[trigger] results@[t]).best_fitness,
            i > 0 ==> exists|t: int| 0 <= t < i && min == (#[trigger] results@[t]).best_fitness,
            i > 0 ==> exists|t: int| 0 <= t < i && max == (#[trigger] results@[t]).best_fitness,
            i == 0 ==> min == results@[0].best_fitness && max == results@[0].best_fitness,
        decreases n - i,
    {
        proof {
            assert((i + 1) * 200000000 == i * 200000000 + 200000000) by (nonlinear_arith);
            lemma_summary_sums(results@, 0, i as int + 1);
        }
        let f = results[i].best_fitness;
        sum = sum + f;
        if f < min {
            min = f;
        }
        if f > max {
            max = f;
        }
        if f > results[best_idx].best_fitness {
            best_idx = i;
        }
        i = i + 1;
    }
    let mean = sum / (n as u64);
    let mut var_sum: u128 = 0;
    let mut t2: usize = 0;
    proof {
        assert(sum / (n as u64) <= 200000000) by (nonlinear_arith)
            requires
                n >= 1,
                sum <= (n as int) * 200000000,
        ;
    }
    while t2 < n
        invariant
            n == results@.len(),
            1 <= n <= 1000000,
            forall|t: int| 0 <= t < results@.len() ==> (#[trigger] results@[t]).best_fitness
                <= 200000000,
            mean <= 200000000,
            0 <= t2 <= n,
            var_sum == spec_dev_sum(results@, mean as int, t2 as int),
            var_sum as int <= (t2 as int) * 40000000000000000,
        decreases n - t2,
    {
        proof {
            assert((t2 + 1) * 40000000000000000 == t2 * 40000000000000000 + 40000000000000000)
                by (nonlinear_arith);
        }
        let f = results[t2].best_fitness;
        let d: u64 = if f >= mean {
            f - mean
        } else {
            mean - f
        };
        proof {
            assert((d as int) * (d as int) <= 40000000000000000) by (nonlinear_arith)
                requires
                    0 <= d as int <= 200000000,
            ;
        }
        var_sum = var_sum + (d as u128) * (d as u128);
        t2 = t2 + 1;
    }
    proof {
        assert(var_sum as int / (n as int) <= 40000000000000000) by (nonlinear_arith)
            requires
                n >= 1,
                var_sum as int <= (n as int) * 40000000000000000,
        ;
    }
    let variance = (var_sum / (n as u128)) as u64;
    let stddev = isqrt(variance);
    proof {
        assert(variance as int == spec_dev_sum(results@, mean as int, n as int) / (n as int));
    }
    (mean, stddev, min, max, best_idx)
}

} // verus!
