use kana_layout_optimizer::geometry::KeyPos;
use kana_layout_optimizer::layout::{default_symbol_universe, Layout, TsukiLayout};
use kana_layout_optimizer::rng::SeededRng;
use kana_layout_optimizer::symbol::{romaji_phonemes, Symbol};

#[test]
fn test_key_pos_predicates() {
    let p = KeyPos::new(0, 1, 3);
    assert!(p.is_home());
    assert!(p.is_left_hand());
    assert_eq!(p.finger(), 3);
    assert_eq!(p.weight(), 1000);
    let q = KeyPos::new(2, 0, 9);
    assert!(!q.is_home());
    assert!(!q.is_left_hand());
    assert_eq!(q.finger(), 0);
    // 1.3 * 1.4 * 2.2 in thousandths
    assert_eq!(q.weight(), 13 * 14 * 22);
}

#[test]
fn test_fixed_and_blank_positions() {
    assert!(Layout::is_fixed_position(0, 1, 2));
    assert!(Layout::is_fixed_position(0, 1, 7));
    assert!(Layout::is_fixed_position(0, 2, 9));
    assert!(Layout::is_fixed_position(0, 2, 7));
    assert!(Layout::is_fixed_position(0, 2, 8));
    assert!(Layout::is_fixed_position(0, 1, 10));
    assert!(Layout::is_fixed_position(1, 1, 10));
    assert!(Layout::is_fixed_position(3, 1, 10));
    assert!(!Layout::is_fixed_position(0, 0, 0));
    assert!(Layout::is_blank_position(2, 1, 10));
    assert!(Layout::is_blank_position(3, 0, 9));
    assert!(Layout::is_blank_position(3, 1, 9));
    assert!(Layout::is_blank_position(3, 2, 9));
    assert!(!Layout::is_blank_position(1, 1, 10));
}

#[test]
fn test_improved_custom_is_valid() {
    let layout = Layout::improved_custom();
    let universe = default_symbol_universe();
    let report = layout.validate(&universe);
    assert!(report.is_valid());
    assert_eq!(report.total_expected, 112);
}

#[test]
fn test_improved_custom_fixed_cells() {
    let layout = Layout::improved_custom();
    assert_eq!(layout.get(0, 1, 2), Symbol::single('★'));
    assert_eq!(layout.get(0, 1, 7), Symbol::single('☆'));
    assert_eq!(layout.get(0, 2, 9), Symbol::single('◆'));
    assert_eq!(layout.get(0, 1, 10), Symbol::single('ー'));
    assert_eq!(layout.get(1, 1, 10), Symbol::single('・'));
    assert_eq!(layout.get(3, 1, 10), Symbol::single(';'));
    assert_eq!(layout.get(2, 1, 10), Symbol::blank());
    assert_eq!(layout.get(3, 0, 9), Symbol::blank());
}

// A short universe is padded with blanks and still places nothing twice.
#[test]
fn test_random_with_short_universe_has_no_duplicates() {
    let mut rng = SeededRng::new(11);
    let universe = vec![
        Symbol::single('あ'),
        Symbol::single('い'),
        Symbol::single('う'),
    ];
    let layout = Layout::random_with_chars(&mut rng, &universe);
    let report = layout.validate(&universe);
    assert!(report.is_valid());
    assert_eq!(report.total_found, 3);
    assert_eq!(report.missing.len(), 0);
}

#[test]
fn test_random_full_universe_is_valid() {
    let mut rng = SeededRng::new(5);
    let layout = Layout::random(&mut rng);
    let universe = default_symbol_universe();
    let report = layout.validate(&universe);
    assert!(report.is_valid());
    assert_eq!(report.total_found, 112);
    assert_eq!(report.missing.len(), 0);
    assert_eq!(report.extra.len(), 0);
}

#[test]
fn test_validate_reports_duplicates_and_extra() {
    let mut layout = Layout::improved_custom();
    // overwrite two free cells with the same symbol from outside the universe
    layout.cells[0] = Symbol::single('Q');
    layout.cells[1] = Symbol::single('Q');
    let universe = default_symbol_universe();
    let report = layout.validate(&universe);
    assert!(!report.is_valid());
    let entry = report
        .duplicates
        .iter()
        .find(|(s, _)| *s == Symbol::single('Q'))
        .unwrap();
    assert_eq!(entry.1.len(), 2);
    assert_eq!((entry.1[0].layer, entry.1[0].row, entry.1[0].col), (0, 0, 0));
    assert_eq!((entry.1[1].layer, entry.1[1].row, entry.1[1].col), (0, 0, 1));
}

#[test]
fn test_find_char() {
    let layout = Layout::improved_custom();
    let pos = layout.find_char(Symbol::single('★')).unwrap();
    assert_eq!((pos.layer, pos.row, pos.col), (0, 1, 2));
    assert!(layout.find_char(Symbol::single('Q')).is_none());
}

#[test]
fn test_build_char_map_first_occurrence() {
    let mut layout = Layout::default();
    layout.cells[0] = Symbol::single('あ');
    layout.cells[1] = Symbol::single('あ');
    let map = layout.build_char_map();
    let pos = map.get('あ').unwrap();
    assert_eq!((pos.layer, pos.row, pos.col), (0, 0, 0));
    assert!(map.get('い').is_none());
}

#[test]
fn test_default_universe_size() {
    assert_eq!(default_symbol_universe().len(), 112);
}

#[test]
fn test_tsuki_layout_table() {
    let tsuki = TsukiLayout::new();
    let pos = tsuki.char_positions.get('そ').unwrap();
    assert_eq!((pos.layer, pos.row, pos.col), (0, 0, 0));
    let pos2 = tsuki.char_positions.get('ゆ').unwrap();
    assert_eq!((pos2.layer, pos2.row, pos2.col), (1, 1, 9));
    assert!(tsuki.char_positions.get('☆').is_none());
}

#[test]
fn test_romaji_phonemes() {
    assert_eq!(romaji_phonemes('か'), (Some('k'), Some('a')));
    assert_eq!(romaji_phonemes('あ'), (None, Some('a')));
    assert_eq!(romaji_phonemes('ん'), (Some('n'), None));
    assert_eq!(romaji_phonemes('☆'), (None, None));
}

#[test]
fn test_seeded_rng_is_reproducible() {
    let mut a = SeededRng::new(42);
    let mut b = SeededRng::new(42);
    let xs: Vec<u64> = (0..8).map(|_| a.next_u64()).collect();
    let ys: Vec<u64> = (0..8).map(|_| b.next_u64()).collect();
    assert_eq!(xs, ys);
    // the stream is not the seed handed back
    assert!(xs.iter().any(|&x| x != 42));
    let mut c = SeededRng::new(43);
    let zs: Vec<u64> = (0..8).map(|_| c.next_u64()).collect();
    assert_ne!(xs, zs);
}
