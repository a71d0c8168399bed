use viva_chat::text::{
    chars_of, decimal_text, is_blank, parse_usize, repeat_char, same_text, split_words, string_of,
    text_before, text_starts_with, trim,
};

#[test]
fn trim_matches_std() {
    for s in ["", "   ", " a ", "\t\nhello world \u{3000}", "x", "a  b", "\u{a0}z\u{2003}"] {
        assert_eq!(trim(s), s.trim());
    }
}

#[test]
fn blank_texts() {
    assert!(is_blank(""));
    assert!(is_blank(" \t\n\u{2028}"));
    assert!(!is_blank("  x "));
}

#[test]
fn split_words_matches_std() {
    for s in ["", "  ", "one", " one  two\tthree\n", "a\u{3000}b", "héllo wörld "] {
        let expected: Vec<String> = s.split_whitespace().map(|w| w.to_string()).collect();
        assert_eq!(split_words(s), expected);
    }
}

#[test]
fn order_matches_string_order() {
    let cases = [("a", "b"), ("b", "a"), ("ab", "a"), ("a", "ab"), ("", ""), ("é", "z"), ("Z", "a")];
    for (a, b) in cases {
        assert_eq!(text_before(a, b), a.to_string() <= b.to_string());
    }
}

#[test]
fn same_text_compares_characters() {
    assert!(same_text("abc", "abc"));
    assert!(!same_text("abc", "abd"));
    assert!(!same_text("abc", "ab"));
}

#[test]
fn decimal_numerals() {
    assert_eq!(decimal_text(0), "0");
    assert_eq!(decimal_text(7), "7");
    assert_eq!(decimal_text(10), "10");
    assert_eq!(decimal_text(1234567), "1234567");
    assert_eq!(decimal_text(usize::MAX), usize::MAX.to_string());
}

#[test]
fn parse_matches_std() {
    let cases = [
        "", "0", "7", "+7", "+", "-1", " 1", "1 ", "007", "12a", "18446744073709551615",
        "18446744073709551616", "99999999999999999999999", "+0",
    ];
    for s in cases {
        assert_eq!(parse_usize(s), s.parse::<usize>().ok(), "input {:?}", s);
    }
}

#[test]
fn prefixes() {
    assert!(text_starts_with("abcdef", "abc"));
    assert!(text_starts_with("abc", ""));
    assert!(!text_starts_with("ab", "abc"));
    assert!(!text_starts_with("abd", "abc"));
}

#[test]
fn characters_round_trip() {
    let cs = chars_of("héllo😀");
    assert_eq!(cs, vec!['h', 'é', 'l', 'l', 'o', '😀']);
    assert_eq!(string_of(&cs), "héllo😀");
    assert_eq!(repeat_char('─', 3), "───");
    assert_eq!(repeat_char('x', 0), "");
}

#[test]
fn every_unicode_space_separates_words() {
    for sp in ["\u{9}", "\u{b}", "\u{85}", "\u{a0}", "\u{1680}", "\u{200a}", "\u{2029}", "\u{202f}", "\u{205f}", "\u{3000}"] {
        let text = format!("ab{}cd", sp);
        assert_eq!(split_words(&text), vec!["ab".to_string(), "cd".to_string()]);
        assert!(is_blank(sp));
    }
    assert!(!is_blank("\u{200b}"));
}
