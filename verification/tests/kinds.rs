use jpaz::CharKind;

fn kind_of(code: u32) -> CharKind {
    CharKind::from_char(char::from_u32(code).unwrap())
}

fn expected(code: u32) -> CharKind {
    match code {
        0x3041..=0x3096 => CharKind::Hiragana,
        0x30a1..=0x30fa => CharKind::Katakana,
        0x4e00..=0x9fff
        | 0x3400..=0x4dbf
        | 0x2a700..=0x2b73f
        | 0x2b740..=0x2b81f
        | 0x2b820..=0x2ceaf
        | 0x2ceb0..=0x2ebef
        | 0xf900..=0xfaff => CharKind::Kanji,
        _ => CharKind::Other,
    }
}

#[test]
fn hiragana_range() {
    for code in 0x3041..=0x3096 {
        assert_eq!(kind_of(code), CharKind::Hiragana);
    }
    assert_eq!(kind_of(0x3040), CharKind::Other);
    assert_eq!(kind_of(0x3097), CharKind::Other);
}

#[test]
fn katakana_range() {
    for code in 0x30a1..=0x30fa {
        assert_eq!(kind_of(code), CharKind::Katakana);
    }
    assert_eq!(kind_of(0x30a0), CharKind::Other);
    assert_eq!(kind_of(0x30fb), CharKind::Other);
    assert_eq!(kind_of(0x30fc), CharKind::Other);
}

#[test]
fn kanji_ranges() {
    let ranges: [(u32, u32); 7] = [
        (0x4e00, 0x9fff),
        (0x3400, 0x4dbf),
        (0x2a700, 0x2b73f),
        (0x2b740, 0x2b81f),
        (0x2b820, 0x2ceaf),
        (0x2ceb0, 0x2ebef),
        (0xf900, 0xfaff),
    ];
    for (first, last) in ranges {
        for code in first..=last {
            assert_eq!(kind_of(code), CharKind::Kanji);
        }
    }
    assert_eq!(kind_of(0x33ff), CharKind::Other);
    assert_eq!(kind_of(0x4dc0), CharKind::Other);
    assert_eq!(kind_of(0x4dff), CharKind::Other);
    assert_eq!(kind_of(0xa000), CharKind::Other);
    assert_eq!(kind_of(0xf8ff), CharKind::Other);
    assert_eq!(kind_of(0xfb00), CharKind::Other);
    assert_eq!(kind_of(0x2a6ff), CharKind::Other);
    assert_eq!(kind_of(0x2ebf0), CharKind::Other);
    assert_eq!(kind_of(0x20000), CharKind::Other);
}

#[test]
fn every_char_has_its_kind() {
    for code in 0..=0x10ffff_u32 {
        if let Some(c) = char::from_u32(code) {
            assert_eq!(CharKind::from_char(c), expected(code));
        }
    }
}

#[test]
fn ascii_and_edges_are_other() {
    assert_eq!(CharKind::from_char('a'), CharKind::Other);
    assert_eq!(CharKind::from_char(' '), CharKind::Other);
    assert_eq!(CharKind::from_char('\0'), CharKind::Other);
    assert_eq!(CharKind::from_char('\u{d7ff}'), CharKind::Other);
    assert_eq!(CharKind::from_char('\u{e000}'), CharKind::Other);
    assert_eq!(CharKind::from_char('\u{10ffff}'), CharKind::Other);
    assert_eq!(CharKind::from_char('、'), CharKind::Other);
}

#[test]
fn examples_of_each_kind() {
    assert_eq!(CharKind::from_char('あ'), CharKind::Hiragana);
    assert_eq!(CharKind::from_char('ラ'), CharKind::Katakana);
    assert_eq!(CharKind::from_char('家'), CharKind::Kanji);
    assert_eq!(CharKind::from_char('。'), CharKind::Other);
}

#[test]
fn kinds_in_report_order() {
    assert_eq!(
        CharKind::ALL,
        [CharKind::Hiragana, CharKind::Katakana, CharKind::Kanji, CharKind::Other]
    );
}

#[test]
fn kind_names() {
    assert_eq!(CharKind::Hiragana.to_string(), "Hiragana");
    assert_eq!(CharKind::Katakana.to_string(), "Katakana");
    assert_eq!(CharKind::Kanji.to_string(), "Kanji");
    assert_eq!(CharKind::Other.to_string(), "Other");
}
