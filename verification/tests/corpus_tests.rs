use kana_layout_optimizer::corpus::CorpusStats;

#[test]
fn test_from_text() {
    let text = "あいうえお";
    let stats = CorpusStats::from_text(text);

    assert_eq!(stats.char_freq.len(), 5);
    assert_eq!(stats.bigram_freq.len(), 4);
    assert_eq!(stats.trigram_freq.len(), 3);
}

#[test]
fn test_parse_ngram_line() {
    let line = "1234\tあい\t2";
    let result = CorpusStats::parse_ngram_line(line);
    assert_eq!(result, Some((1234, "あい".to_string())));
}

#[test]
fn test_parse_ngram_line_missing_tab() {
    assert_eq!(CorpusStats::parse_ngram_line("1234"), None);
}

#[test]
fn test_parse_ngram_line_not_a_number() {
    assert_eq!(CorpusStats::parse_ngram_line("abc\tdef\t2"), None);
}

#[test]
fn test_parse_ngram_line_empty_count() {
    assert_eq!(CorpusStats::parse_ngram_line("\tあ\t1"), None);
}

#[test]
fn test_parse_ngram_line_overflow() {
    assert_eq!(
        CorpusStats::parse_ngram_line("99999999999999999999999999\tあ\t1"),
        None
    );
}

#[test]
fn test_parse_ngram_line_second_field_to_end() {
    let result = CorpusStats::parse_ngram_line("7\tかき");
    assert_eq!(result, Some((7, "かき".to_string())));
}

#[test]
fn test_from_text_counts() {
    let stats = CorpusStats::from_text("ああい");
    let a = kana_layout_optimizer::corpus::Gram::g1('あ');
    let i = kana_layout_optimizer::corpus::Gram::g1('い');
    let aa = kana_layout_optimizer::corpus::Gram::g2('あ', 'あ');
    let ai = kana_layout_optimizer::corpus::Gram::g2('あ', 'い');
    assert_eq!(stats.char_freq.get(a), 2);
    assert_eq!(stats.char_freq.get(i), 1);
    assert_eq!(stats.bigram_freq.get(aa), 1);
    assert_eq!(stats.bigram_freq.get(ai), 1);
}

#[test]
fn test_add_symbol_chars_records_auxiliary_symbols() {
    let mut stats = CorpusStats::from_text("あ");
    stats.add_symbol_chars();
    let semi = kana_layout_optimizer::corpus::Gram::g1('；');
    let dot = kana_layout_optimizer::corpus::Gram::g1('・');
    assert_eq!(stats.char_freq.get(semi), 1);
    assert_eq!(stats.char_freq.get(dot), 1);
    // present symbols keep their counts
    stats.add_symbol_chars();
    assert_eq!(stats.char_freq.get(semi), 1);
}

#[test]
fn test_hiragana_by_freq_sorted() {
    let stats = CorpusStats::from_text("あああいいう");
    assert_eq!(stats.hiragana_by_freq, vec!['あ', 'い', 'う']);
}

#[test]
fn test_totals() {
    let stats = CorpusStats::from_text("あいう");
    assert_eq!(stats.total_chars(), 3);
    assert_eq!(stats.total_bigrams(), 2);
    assert_eq!(stats.total_trigrams(), 1);
}

#[test]
fn test_summary_of_empty_corpus() {
    let stats = CorpusStats::new();
    let s = stats.summary();
    assert_eq!(
        s,
        "Corpus Stats:\n  1-gram types: 0\n  2-gram types: 0\n  3-gram types: 0\n  4-gram types: 0\n  Total chars: 0\n  Hiragana chars: 0"
    );
}

#[test]
fn test_get_hiragana_by_freq() {
    let stats = CorpusStats::from_text("かかき");
    let list = stats.get_hiragana_by_freq();
    assert_eq!(list, &vec!['か', 'き']);
}
