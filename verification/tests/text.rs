use editor_host::sort::{bytes_before, sorted_order};
use editor_host::text::{
    beginning, decimal_text, has_text, is_control, is_whitespace, join_text, padded_text,
    parse_i64, same_ignoring_ascii_case, same_text, split_text, trimmed, without_cr,
};

#[test]
fn characters_agree_with_the_standard_library() {
    for c in '\0'..=char::MAX {
        assert_eq!(is_whitespace(c), c.is_whitespace(), "{:x}", c as u32);
        assert_eq!(is_control(c), c.is_control(), "{:x}", c as u32);
    }
}

#[test]
fn trimming_agrees_with_the_standard_library() {
    for s in ["", " ", "a", " a ", "\u{3000}a b\u{85}", "\t\n", "a\u{200b}", "\u{feff}a"] {
        assert_eq!(trimmed(s), s.trim(), "{s:?}");
    }
    assert_eq!(without_cr("a\r\r"), "a\r");
    assert_eq!(without_cr("a"), "a");
}

#[test]
fn searching_agrees_with_the_standard_library() {
    for (hay, needle) in [("abab", "bab"), ("", ""), ("a", ""), ("", "a"), ("aab", "ab"), ("é", "e")] {
        assert_eq!(has_text(hay, needle), hay.contains(needle), "{hay:?} {needle:?}");
    }
    assert!(same_text("é", "é") && !same_text("a", "b") && !same_text("a", "ab"));
    assert!(same_ignoring_ascii_case("PdF", "pDf") && !same_ignoring_ascii_case("Ä", "ä"));
    assert!(!same_ignoring_ascii_case("a", "ab"));
}

#[test]
fn splitting_and_joining() {
    assert_eq!(split_text("a,,b,", ','), ["a", "", "b", ""]);
    assert_eq!(split_text("", ','), [""]);
    assert_eq!(join_text(&split_text("a,,b,", ','), ","), "a,,b,");
    assert_eq!(join_text(&Vec::new(), ","), "");
    assert_eq!(beginning("héllo", 2), "hé");
    assert_eq!(beginning("h", 2), "h");
}

#[test]
fn numbers_agree_with_the_standard_library() {
    for n in [0, 9, 10, 1234567890, u64::MAX] {
        assert_eq!(decimal_text(n), n.to_string());
    }
    for n in [0, 7, -7, 12345, -12345, i64::MAX, i64::MIN + 1, i64::MIN] {
        assert_eq!(padded_text(n, 4), format!("{n:04}"));
        for width in [0, 1, 20, 100] {
            assert_eq!(padded_text(n, width), format!("{n:0width$}"));
        }
    }
    for s in [
        "0", "+1", "-1", "", "+", "-", "1a", " 1", "00012", "9223372036854775807",
        "9223372036854775808", "-9223372036854775808", "-9223372036854775809", "--1",
        "99999999999999999999999", "१",
    ] {
        assert_eq!(parse_i64(s), s.parse::<i64>().ok(), "{s:?}");
    }
}

#[test]
fn sorting_is_stable() {
    assert_eq!(sorted_order(&vec![3u32, 1, 2, 1, 3, 0]), [5, 1, 3, 2, 0, 4]);
    assert!(sorted_order(&Vec::<u32>::new()).is_empty());
    let b = |s: &str| s.as_bytes().to_vec();
    assert!(bytes_before(&b("a"), &b("ab")) && bytes_before(&b("ab"), &b("b")));
    assert!(!bytes_before(&b("a"), &b("a")) && !bytes_before(&b("b"), &b("ab")));
}
