use jpaz::{Analyzer, CharKind};

const SAMPLE: &str =
    "だから今日も一旦家に帰って、ランドセルを置いてからすぐに習い事へ向かう用意をする。でも昨日、";

#[test]
fn correct_count() {
    let mut parser = Analyzer::default();
    let test_str =
        "だから今日も一旦家に帰って、ランドセルを置いてからすぐに習い事へ向かう用意をする。でも昨日、";
    parser.parse_str(&String::from(test_str));
    assert_eq!(parser.get_total_count(CharKind::Hiragana), 24);
    assert_eq!(parser.get_total_count(CharKind::Katakana), 5);
    assert_eq!(parser.get_total_count(CharKind::Kanji), 14);
    assert_eq!(parser.get_total_count(CharKind::Other), 3);
    assert_eq!(parser.get_unique_count(CharKind::Hiragana), 15);
    assert_eq!(parser.get_unique_count(CharKind::Katakana), 5);
    assert_eq!(parser.get_unique_count(CharKind::Kanji), 13);
    assert_eq!(parser.get_unique_count(CharKind::Other), 2);
}

#[test]
fn new_analyzer_has_seen_nothing() {
    let analyzer = Analyzer::default();
    for kind in CharKind::ALL {
        assert_eq!(analyzer.get_total_count(kind), 0);
        assert_eq!(analyzer.get_unique_count(kind), 0);
        assert!(analyzer.char_freqs(kind).is_empty());
    }
}

#[test]
fn empty_text_changes_nothing() {
    let mut analyzer = Analyzer::default();
    analyzer.parse_str("かな");
    analyzer.parse_str("");
    assert_eq!(analyzer.get_total_count(CharKind::Hiragana), 2);
    assert_eq!(analyzer.get_unique_count(CharKind::Hiragana), 2);
    assert_eq!(analyzer.get_total_count(CharKind::Other), 0);
}

#[test]
fn one_char_is_counted_once() {
    let mut analyzer = Analyzer::default();
    analyzer.parse_char('家');
    assert_eq!(analyzer.get_total_count(CharKind::Kanji), 1);
    assert_eq!(analyzer.get_unique_count(CharKind::Kanji), 1);
    assert_eq!(analyzer.char_freqs(CharKind::Kanji), vec![('家', 1)]);
    assert_eq!(analyzer.get_total_count(CharKind::Hiragana), 0);
    assert_eq!(analyzer.get_total_count(CharKind::Katakana), 0);
    assert_eq!(analyzer.get_total_count(CharKind::Other), 0);
}

#[test]
fn text_at_once_is_char_by_char() {
    let mut at_once = Analyzer::default();
    at_once.parse_str(SAMPLE);
    let mut by_char = Analyzer::default();
    for c in SAMPLE.chars() {
        by_char.parse_char(c);
    }
    for kind in CharKind::ALL {
        assert_eq!(at_once.get_total_count(kind), by_char.get_total_count(kind));
        assert_eq!(at_once.get_unique_count(kind), by_char.get_unique_count(kind));
        let mut left = at_once.char_freqs(kind);
        let mut right = by_char.char_freqs(kind);
        left.sort();
        right.sort();
        assert_eq!(left, right);
    }
}

#[test]
fn texts_add_up() {
    let mut analyzer = Analyzer::default();
    analyzer.parse_str("今日は");
    analyzer.parse_str("昨日も");
    assert_eq!(analyzer.get_total_count(CharKind::Kanji), 4);
    assert_eq!(analyzer.get_unique_count(CharKind::Kanji), 3);
    assert_eq!(analyzer.get_total_count(CharKind::Hiragana), 2);
    assert_eq!(analyzer.get_unique_count(CharKind::Hiragana), 2);
}

#[test]
fn repeats_add_to_total_only() {
    let mut analyzer = Analyzer::default();
    analyzer.parse_str("あいう");
    assert_eq!(analyzer.get_unique_count(CharKind::Hiragana), 3);
    assert_eq!(analyzer.get_total_count(CharKind::Hiragana), 3);
    analyzer.parse_str("あああああ");
    assert_eq!(analyzer.get_unique_count(CharKind::Hiragana), 3);
    assert_eq!(analyzer.get_total_count(CharKind::Hiragana), 8);
    assert_eq!(analyzer.get_unique_count(CharKind::Kanji), 0);
    assert_eq!(analyzer.get_total_count(CharKind::Kanji), 0);
}

#[test]
fn frequencies_list_each_char_with_its_count() {
    let mut analyzer = Analyzer::default();
    analyzer.parse_str("ああいあうういあ");
    let freqs = analyzer.char_freqs(CharKind::Hiragana);
    assert_eq!(freqs.len(), 3);
    assert_eq!(freqs[2], ('あ', 4));
    assert_eq!(freqs[0].1, 2);
    assert_eq!(freqs[1].1, 2);
    assert!(freqs.contains(&('い', 2)));
    assert!(freqs.contains(&('う', 2)));
    assert!(analyzer.char_freqs(CharKind::Katakana).is_empty());
    assert!(analyzer.char_freqs(CharKind::Kanji).is_empty());
    assert!(analyzer.char_freqs(CharKind::Other).is_empty());
}

#[test]
fn frequencies_are_sorted_by_count() {
    let mut analyzer = Analyzer::default();
    analyzer.parse_str(SAMPLE);
    analyzer.parse_str("にににににそそそそれれ");
    for kind in CharKind::ALL {
        let freqs = analyzer.char_freqs(kind);
        for pair in freqs.windows(2) {
            assert!(pair[0].1 <= pair[1].1);
        }
    }
}

#[test]
fn frequencies_add_up_to_total() {
    let mut analyzer = Analyzer::default();
    analyzer.parse_str(SAMPLE);
    for kind in CharKind::ALL {
        let freqs = analyzer.char_freqs(kind);
        let sum: u32 = freqs.iter().map(|row| row.1).sum();
        assert_eq!(sum, analyzer.get_total_count(kind));
        assert_eq!(freqs.len() as u32, analyzer.get_unique_count(kind));
        for row in &freqs {
            assert_eq!(CharKind::from_char(row.0), kind);
            assert!(row.1 > 0);
        }
    }
}

#[test]
fn sample_frequencies_of_other() {
    let mut analyzer = Analyzer::default();
    analyzer.parse_str(SAMPLE);
    assert_eq!(analyzer.char_freqs(CharKind::Other), vec![('。', 1), ('、', 2)]);
}

#[test]
fn counts_by_kind() {
    let mut analyzer = Analyzer::default();
    analyzer.parse_str(SAMPLE);
    let totals = analyzer.total_counts();
    assert_eq!(totals.hiragana, 24);
    assert_eq!(totals.katakana, 5);
    assert_eq!(totals.kanji, 14);
    assert_eq!(totals.other, 3);
    let uniques = analyzer.unique_counts();
    assert_eq!(uniques.get(CharKind::Hiragana), 15);
    assert_eq!(uniques.get(CharKind::Katakana), 5);
    assert_eq!(uniques.get(CharKind::Kanji), 13);
    assert_eq!(uniques.get(CharKind::Other), 2);
}

#[test]
fn there_is_room_for_ordinary_text() {
    let mut analyzer = Analyzer::default();
    assert!(analyzer.has_room_for(SAMPLE));
    analyzer.parse_str(SAMPLE);
    assert!(analyzer.has_room_for(SAMPLE));
    assert!(analyzer.has_room_for(""));
}
