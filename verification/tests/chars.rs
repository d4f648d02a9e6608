use kokoro_rs::chars::{is_whitespace, joined, split_words, trimmed};
use kokoro_rs::numbers::{parse_number, to_decimal};

#[test]
fn white_space_is_unicodes() {
    for code in 0..=0x10_FFFFu32 {
        if let Some(c) = char::from_u32(code) {
            assert_eq!(is_whitespace(c), c.is_whitespace(), "{code:x}");
        }
    }
}

#[test]
fn words_and_trimming_follow_white_space() {
    let text = "\u{2003} one\ttwo \n three\u{a0}";
    let chars: Vec<char> = text.chars().collect();
    assert_eq!(split_words(&chars), ["one", "two", "three"]);
    assert_eq!(trimmed(text), "one\ttwo \n three");
    assert_eq!(joined(&vec!["a".to_string(), "b".to_string()], ", "), "a, b");
}

#[test]
fn numbers_are_written_and_read() {
    for n in [0, 7, 10, 99, 100, 12345, u64::MAX] {
        assert_eq!(to_decimal(n), n.to_string());
        assert_eq!(parse_number(&to_decimal(n), u64::MAX), Some(n));
    }
    for text in ["", "+", "+5", "-5", " 5", "5 ", "1_000", "007", "18446744073709551616", "५"] {
        assert_eq!(parse_number(text, u64::MAX), text.parse::<u64>().ok(), "{text:?}");
    }
    assert_eq!(parse_number("256", 255), None);
    assert_eq!(parse_number("255", 255), Some(255));
}
