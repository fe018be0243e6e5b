use kana_layout_optimizer::corpus::{CorpusStats, Gram};
use kana_layout_optimizer::evaluation::{EvaluationWeights, Evaluator};
use kana_layout_optimizer::ga::{
    run_multi, summarize_results, GaConfig, GeneticAlgorithm,
};
use kana_layout_optimizer::layout::Layout;
use kana_layout_optimizer::symbol::Symbol;

fn small_config(seed: u64) -> GaConfig {
    GaConfig {
        population_size: 6,
        generations: 3,
        mutation_rate_ppm: 300000,
        elite_count: 2,
        seed,
    }
}

fn demo_corpus() -> CorpusStats {
    CorpusStats::from_text("いろはにほへとちりぬるをわかよたれそつねならむういのおくやまけふこえてあさきゆめみしひもせす")
}

// Home-row, no-shift and shift-balance scores with exactly one
// placed character, computed by hand.
#[test]
fn test_single_character_scores() {
    let mut corpus = CorpusStats::new();
    corpus.record(Gram::g1('あ'), 100);
    let mut layout = Layout::default();
    // home row, index finger, unshifted: the unit-weight key
    layout.cells[13] = Symbol::single('あ');
    let evaluator = Evaluator::new(corpus);
    let fitness = evaluator.evaluate(&mut layout);
    assert_eq!(layout.scores.home_position, 100_000_000);
    assert_eq!(layout.scores.single_key, 100_000_000);
    // nothing typed on the shift layers: a zero-denominator metric is 0
    assert_eq!(layout.scores.shift_balance, 0);
    // every occurrence sits at a unit-weight key
    assert_eq!(layout.scores.total_keystrokes, 100_000_000);
    assert!(fitness > 0);
    assert_eq!(fitness, layout.fitness);
}

// Placing the frequent pair on two fingers of one hand beats placing
// it on one finger across two rows, on both bigram metrics.
#[test]
fn test_finger_and_row_separation_scores_higher() {
    let mut corpus = CorpusStats::new();
    corpus.record(Gram::g1('a'), 100);
    corpus.record(Gram::g1('b'), 50);
    corpus.record(Gram::g2('a', 'b'), 30);
    let evaluator = Evaluator::new(corpus);

    // same hand, different fingers, home row
    let mut apart = Layout::default();
    apart.cells[11] = Symbol::single('a');
    apart.cells[13] = Symbol::single('b');
    evaluator.evaluate(&mut apart);

    // same finger, top row to bottom row (a row skip)
    let mut stacked = Layout::default();
    stacked.cells[1] = Symbol::single('a');
    stacked.cells[22] = Symbol::single('b');
    evaluator.evaluate(&mut stacked);

    assert!(apart.scores.same_finger > stacked.scores.same_finger);
    assert!(apart.scores.row_skip > stacked.scores.row_skip);
}

// Half the corpus bigram mass covered scores at most half on a
// coverage-scaled core bigram metric.
#[test]
fn test_coverage_scaling_halves_score() {
    let mut corpus = CorpusStats::new();
    corpus.record(Gram::g1('a'), 50);
    corpus.record(Gram::g1('c'), 50);
    corpus.record(Gram::g2('a', 'a'), 10);
    corpus.record(Gram::g2('c', 'c'), 10);
    let evaluator = Evaluator::new(corpus);

    let mut full = Layout::default();
    full.cells[11] = Symbol::single('a');
    full.cells[13] = Symbol::single('c');
    evaluator.evaluate(&mut full);

    // 'c' unplaced: only half the bigram mass is covered
    let mut half = Layout::default();
    half.cells[11] = Symbol::single('a');
    evaluator.evaluate(&mut half);

    assert_eq!(full.scores.row_skip, 100_000_000);
    assert_eq!(half.scores.row_skip, 50_000_000);
    assert!(half.scores.row_skip <= full.scores.row_skip / 2);
}

// The position-cost score stays within its interval.
#[test]
fn test_position_cost_within_bounds() {
    let corpus = demo_corpus();
    let evaluator = Evaluator::new(corpus);
    let mut layout = Layout::improved_custom();
    evaluator.evaluate(&mut layout);
    assert!(layout.scores.position_cost > 0);
    assert!(layout.scores.position_cost <= 100_000_000);
}

// Two runs with one seed and configuration give bit-identical
// histories and layouts.
#[test]
fn test_deterministic_runs() {
    let config = small_config(42);
    let mut ga1 = GeneticAlgorithm::new(demo_corpus(), config);
    let mut ga2 = GeneticAlgorithm::new(demo_corpus(), config);
    let r1 = ga1.run();
    let r2 = ga2.run();
    assert_eq!(r1.fitness_history, r2.fitness_history);
    assert_eq!(r1.best_fitness, r2.best_fitness);
    assert_eq!(r1.best_layout.cells, r2.best_layout.cells);
}

// The reported best fitness never decreases across generations.
#[test]
fn test_best_fitness_monotone() {
    let mut ga = GeneticAlgorithm::new(demo_corpus(), small_config(9));
    let r = ga.run();
    assert_eq!(r.fitness_history.len(), 4);
    for w in r.fitness_history.windows(2) {
        assert!(w[0] <= w[1]);
    }
    assert_eq!(r.final_generation, 3);
}

// Every run leaves a structurally valid best layout.
#[test]
fn test_run_best_layout_is_valid() {
    let mut ga = GeneticAlgorithm::new(demo_corpus(), small_config(123));
    let r = ga.run();
    let report = r.best_layout.validate(ga.universe());
    assert!(report.is_valid());
    assert_eq!(report.missing.len(), 0);
}

// Crossover children keep the fixed cells and hold no duplicates.
#[test]
fn test_crossover_child_is_repaired() {
    let mut ga = GeneticAlgorithm::new(demo_corpus(), small_config(77));
    let mut p1 = Layout::improved_custom();
    ga.repair_layout(&mut p1);
    let mut p2 = Layout::improved_custom();
    ga.repair_layout(&mut p2);
    let child = ga.crossover(&p1, &p2);
    assert_eq!(child.get(0, 1, 2), Symbol::single('★'));
    assert_eq!(child.get(0, 2, 7), Symbol::single('、'));
    assert_eq!(child.get(2, 1, 10), Symbol::blank());
    let report = child.validate(ga.universe());
    assert!(report.is_valid());
}

// With no position inside the cost and frequency tolerance band,
// mutation leaves the layout untouched.
#[test]
fn test_mutation_without_band_leaves_layout_unchanged() {
    // two symbols whose frequencies differ far beyond the band
    let mut corpus = CorpusStats::new();
    corpus.record(Gram::g1('あ'), 600);
    corpus.record(Gram::g1('い'), 200);
    let config = small_config(3);
    let mut ga = GeneticAlgorithm::with_weights(corpus, config, EvaluationWeights::default());
    let mut rng = kana_layout_optimizer::rng::SeededRng::new(8);
    let universe = vec![Symbol::single('あ'), Symbol::single('い')];
    let mut layout = Layout::random_with_chars(&mut rng, &universe);
    let before = layout.cells.clone();
    for _ in 0..20 {
        ga.mutate(&mut layout);
        assert_eq!(layout.cells, before);
    }
}

#[test]
fn test_repair_fills_every_free_cell() {
    let mut ga = GeneticAlgorithm::new(demo_corpus(), small_config(1));
    let mut layout = Layout::default();
    ga.repair_layout(&mut layout);
    let report = layout.validate(ga.universe());
    assert!(report.is_valid());
    assert_eq!(report.total_found, 112);
    assert_eq!(report.missing.len(), 0);
}

#[test]
fn test_repair_keeps_clean_cells() {
    let mut ga = GeneticAlgorithm::new(demo_corpus(), small_config(1));
    let mut layout = Layout::default();
    layout.cells[0] = Symbol::single('い');
    ga.repair_layout(&mut layout);
    assert_eq!(layout.cells[0], Symbol::single('い'));
}

#[test]
fn test_run_multi_and_summary() {
    let weights = EvaluationWeights::default();
    let corpus = demo_corpus();
    let results = run_multi(&corpus, small_config(5), weights, 3);
    assert_eq!(results.len(), 3);
    let (mean, _stddev, min, max, best_idx) = summarize_results(&results);
    assert!(min <= mean && mean <= max);
    assert!(results[best_idx].best_fitness == max);
    for r in &results {
        assert_eq!(r.fitness_history.len(), 4);
    }
}

#[test]
fn test_default_config_and_weights() {
    let c = GaConfig::default();
    assert_eq!(c.population_size, 500);
    assert_eq!(c.generations, 1000);
    assert_eq!(c.mutation_rate_ppm, 150000);
    assert_eq!(c.elite_count, 10);
    assert_eq!(c.seed, 42);
    let w = EvaluationWeights::default();
    assert_eq!(w.same_finger, 17);
    assert_eq!(w.colemak_similarity, 100);
    assert_eq!(w.position_cost, 80);
}

#[test]
fn test_universe_excludes_fixed_symbols() {
    let ga = GeneticAlgorithm::new(demo_corpus(), small_config(2));
    let universe = ga.universe();
    assert!(!universe.contains(&Symbol::single('★')));
    assert!(!universe.contains(&Symbol::single('ー')));
    assert!(!universe.contains(&Symbol::blank()));
    assert!(universe.len() >= 112);
    // the corpus hiragana come first
    assert!(universe.contains(&Symbol::single('い')));
}

#[test]
fn test_evaluator_deterministic() {
    let e1 = Evaluator::new(demo_corpus());
    let e2 = Evaluator::new(demo_corpus());
    let mut l1 = Layout::improved_custom();
    let mut l2 = Layout::improved_custom();
    let f1 = e1.evaluate(&mut l1);
    let f2 = e2.evaluate(&mut l2);
    assert_eq!(f1, f2);
    assert_eq!(l1.scores, l2.scores);
}

// On a grid with every cell occupied, the position-cost score is
// full exactly when the corpus characters sit on unit-cost keys.
#[test]
fn test_position_cost_full_on_unit_cost_keys() {
    let mut corpus = CorpusStats::new();
    corpus.record(Gram::g1('a'), 10);
    let evaluator = Evaluator::new(corpus);
    let mut layout = Layout::default();
    for p in 0..124 {
        layout.cells[p] = Symbol::single('x');
    }
    // home row, ring finger: base cost 1.0, unshifted
    layout.cells[11] = Symbol::single('a');
    evaluator.evaluate(&mut layout);
    assert_eq!(layout.scores.position_cost, 100_000_000);

    // the same character on a top-row little-finger key costs 4.0
    layout.cells[11] = Symbol::single('x');
    layout.cells[0] = Symbol::single('a');
    evaluator.evaluate(&mut layout);
    assert!(layout.scores.position_cost < 100_000_000);
    assert!(layout.scores.position_cost > 0);
}

// The observer is called once per generation, initial population
// included, with the non-decreasing best fitness.
#[test]
fn test_observer_callback_sees_every_generation() {
    let mut ga = GeneticAlgorithm::new(demo_corpus(), small_config(21));
    let seen: std::sync::Mutex<Vec<(usize, u64, kana_layout_optimizer::layout::Layout)>> =
        std::sync::Mutex::new(Vec::new());
    let r = ga.run_with_callback(|generation, best, snapshot| {
        seen.lock().unwrap().push((generation, best, snapshot));
    });
    let seen = seen.into_inner().unwrap();
    assert_eq!(seen.len(), 4);
    for (i, (generation, best, snapshot)) in seen.iter().enumerate() {
        assert_eq!(*generation, i);
        assert_eq!(*best, r.fitness_history[i]);
        assert_eq!(snapshot.fitness, *best);
        assert!(snapshot.validate(ga.universe()).is_valid());
    }
}

// Shift balance is the min/max ratio of the two shifted masses and
// full only when they are equal and positive.
#[test]
fn test_shift_balance_ratio() {
    let mut corpus = CorpusStats::new();
    corpus.record(Gram::g1('a'), 30);
    corpus.record(Gram::g1('b'), 10);
    let evaluator = Evaluator::new(corpus);
    let mut layout = Layout::default();
    // 'a' on the first shift layer, 'b' on the second
    layout.cells[31] = Symbol::single('a');
    layout.cells[62] = Symbol::single('b');
    evaluator.evaluate(&mut layout);
    // min/max = 10/30 on the full-score scale, floored
    assert_eq!(layout.scores.shift_balance, 33_333_333);
}

// The historical-reference similarity gives tiered credit: full on
// the exact key, half on the row, a quarter on the hand.
#[test]
fn test_tsuki_similarity_tiers() {
    let evaluator = Evaluator::new(CorpusStats::new());
    let mut layout = Layout::default();
    // reference positions: そ(0,0,0)  こ(0,0,1)  し(0,0,2)  て(0,0,3)
    layout.cells[0] = Symbol::single('そ');   // exact: 100
    layout.cells[5] = Symbol::single('こ');   // same row: 50
    layout.cells[10] = Symbol::single('し');  // same hand only: 25
    layout.cells[19] = Symbol::single('て');  // other hand, other row: 0
    evaluator.evaluate(&mut layout);
    // 175 of 400 hundredths on the full-score scale
    assert_eq!(layout.scores.tsuki_similarity, 43_750_000);
}
