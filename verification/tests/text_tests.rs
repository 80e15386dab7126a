//! Numbers, words and lines, checked against the standard library.

use bloodhound::text::{
    chars_of, contains_text, find_char, is_decimal_digit, is_text, is_white_space, nth_word,
    parse_i64, parse_u32, parse_usize, push_decimal, push_signed, same_text, split_lines,
    split_words, string_of, trim, trim_end, trim_start,
};

fn strings(parts: Vec<&[char]>) -> Vec<String> {
    parts.iter().map(|p| string_of(p)).collect()
}

#[test]
fn character_classes_match_the_standard_library() {
    for n in 0..=0x10_ffffu32 {
        if let Some(c) = char::from_u32(n) {
            assert_eq!(is_white_space(c), c.is_whitespace(), "{n:x}");
            assert_eq!(is_decimal_digit(c), c.is_ascii_digit(), "{n:x}");
            assert!(!c.is_alphabetic() || c.is_alphanumeric());
        }
    }
}

#[test]
fn numbers_are_printed() {
    for n in [0, 1, 9, 10, 11, 99, 100, 12345, u64::MAX] {
        let mut s = "n=".to_string();
        push_decimal(&mut s, n);
        assert_eq!(s, format!("n={n}"));
    }
    for v in [0, -1, 1, 42, -42, i64::MAX, i64::MIN] {
        let mut s = "v=".to_string();
        push_signed(&mut s, v);
        assert_eq!(s, format!("v={v}"));
    }
}

#[test]
fn numbers_are_parsed() {
    for text in [
        "", "0", "7", "+7", "-7", "+", "-", "--1", "+-1", "007", "12a", " 1", "1 ", "4294967295",
        "4294967296", "9223372036854775807", "9223372036854775808", "-9223372036854775808",
        "-9223372036854775809", "18446744073709551615", "18446744073709551616",
        "99999999999999999999999", "٣",
    ] {
        let chars = chars_of(text);
        assert_eq!(parse_usize(&chars), text.parse::<usize>().ok(), "usize {text}");
        assert_eq!(parse_u32(&chars), text.parse::<u32>().ok(), "u32 {text}");
        assert_eq!(parse_i64(&chars), text.parse::<i64>().ok(), "i64 {text}");
    }
}

#[test]
fn texts_are_split_and_trimmed() {
    for text in [
        "",
        "\n",
        "a",
        "a\nb",
        "a\r\nb\r\n",
        "a\n\nb\n",
        "a\rb\n\r",
        "\r\n",
        "x\r",
        "  two words \t and\u{a0}more\u{2003}",
        "\u{3000}wide\u{3000}",
        "é ü\n\u{85}z",
    ] {
        let chars = chars_of(text);
        assert_eq!(strings(split_lines(&chars)), text.lines().collect::<Vec<_>>(), "{text:?}");
        assert_eq!(
            strings(split_words(&chars)),
            text.split_whitespace().collect::<Vec<_>>(),
            "{text:?}"
        );
        assert_eq!(string_of(trim(&chars)), text.trim());
        assert_eq!(string_of(trim_start(&chars)), text.trim_start());
        assert_eq!(string_of(trim_end(&chars)), text.trim_end());
    }
}

#[test]
fn texts_are_searched_and_compared() {
    let chars = chars_of("load 0 ; n * fact");
    assert_eq!(find_char(&chars, ';'), 7);
    assert_eq!(find_char(&chars, '?'), chars.len());
    for part in ["", "l", "load", "n * fact", "fact", "facts", "0 ;", "d  0"] {
        assert_eq!(
            contains_text(&chars, &chars_of(part)),
            "load 0 ; n * fact".contains(part),
            "{part}"
        );
    }
    assert!(!contains_text(&chars_of("ab"), &chars_of("abc")));
    assert!(contains_text(&[], &[]));
    assert!(same_text(&chars_of("abc"), &chars_of("abc")));
    assert!(!same_text(&chars_of("abc"), &chars_of("abd")));
    assert!(!same_text(&chars_of("abc"), &chars_of("ab")));
    assert!(is_text(&chars_of("é"), "é"));
    assert!(!is_text(&chars_of("é"), "e"));
    let words = split_words(&chars);
    assert_eq!(nth_word(&words, 1).map(string_of), Some("0".to_string()));
    assert_eq!(nth_word(&words, 9), None);
}
