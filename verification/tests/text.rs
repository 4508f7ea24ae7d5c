//! Operations on text.

use confluence2md::text::{
    ascii_lower, ascii_upper, chars_of, contains, ends_with, find_from, find_last, joined, part,
    push_decimal, read_number, replace, same_text, split, split_lines, split_words, starts_with,
    text_of, trim, trim_char, trim_end, trim_end_char, trim_start, trim_start_char,
};

#[test]
fn parts_and_joins() {
    let t = chars_of("häuser");
    assert_eq!(t.len(), 6);
    assert_eq!(part(&t, 1, 3), "äu");
    assert_eq!(text_of(&t), "häuser");
    assert_eq!(joined("ab", "cd"), "abcd");
    assert!(same_text("x", "x"));
    assert!(!same_text("x", "y"));
}

#[test]
fn searches() {
    let t = chars_of("abcabc");
    assert_eq!(find_from(&t, "bc", 0), Some(1));
    assert_eq!(find_from(&t, "bc", 2), Some(4));
    assert_eq!(find_from(&t, "x", 0), None);
    assert_eq!(find_from(&t, "", 6), Some(6));
    assert_eq!(find_last(&t, "abc"), Some(3));
    assert_eq!(find_last(&t, "cb"), None);
    assert!(contains("hello", "ell"));
    assert!(!contains("hello", "elo"));
    assert!(starts_with("hello", "he"));
    assert!(!starts_with("he", "hello"));
    assert!(ends_with("hello", "lo"));
    assert!(!ends_with("lo", "hello"));
}

#[test]
fn replaces_from_the_left() {
    assert_eq!(replace("aaaa", "aa", "b"), "bb");
    assert_eq!(replace("aaa", "aa", "b"), "ba");
    assert_eq!(replace("x", "y", "z"), "x");
    assert_eq!(replace("a&amp;b", "&amp;", "&"), "a&b");
}

#[test]
fn trims() {
    assert_eq!(trim(" \u{3000}a b\t\n"), "a b");
    assert_eq!(trim(" \n "), "");
    assert_eq!(trim_end(" a "), " a");
    assert_eq!(trim_start(" a "), "a ");
    assert_eq!(trim_char("__a__", '_'), "a");
    assert_eq!(trim_end_char("a//", '/'), "a");
    assert_eq!(trim_start_char("##a#", '#'), "a#");
}

#[test]
fn white_space_agrees_with_std() {
    for n in 0u32..0x3100 {
        if let Some(c) = char::from_u32(n) {
            let s = c.to_string();
            assert_eq!(trim(&s).is_empty(), s.trim().is_empty(), "{n:x}");
        }
    }
}

#[test]
fn letter_case() {
    assert_eq!(ascii_lower("ÄbC"), "Äbc");
    assert_eq!(ascii_upper("äbC"), "äBC");
}

#[test]
fn splits() {
    assert_eq!(split("a;b;;c", ';'), vec!["a", "b", "", "c"]);
    assert_eq!(split("", ';'), vec![""]);
    assert_eq!(split_words("  a b\t c "), vec!["a", "b", "c"]);
    assert!(split_words(" ").is_empty());
    assert_eq!(split_lines("a\r\nb\n\nc"), vec!["a", "b", "", "c"]);
    assert_eq!(split_lines("a\n"), vec!["a"]);
    assert!(split_lines("").is_empty());
    for s in ["a\r\nb\n\nc", "a\n", "", "\r", "a\r", "\n\n", "x\r\r\ny"] {
        let expected: Vec<&str> = s.lines().collect();
        assert_eq!(split_lines(s), expected);
    }
}

#[test]
fn decimals_read_back() {
    for n in [0usize, 7, 10, 99, 1000, 4294967295] {
        let mut out = String::new();
        push_decimal(&mut out, n);
        assert_eq!(out, n.to_string());
        assert_eq!(read_number(&chars_of(&out), 10, u64::MAX), Some(n as u64));
    }
    assert_eq!(read_number(&chars_of("fF"), 16, 255), Some(255));
    assert_eq!(read_number(&chars_of("100"), 16, 255), None);
    assert_eq!(read_number(&chars_of("1a"), 10, 255), None);
    assert_eq!(read_number(&chars_of(""), 10, 255), None);
    assert_eq!(
        read_number(&chars_of("18446744073709551615"), 10, u64::MAX),
        Some(u64::MAX)
    );
    assert_eq!(read_number(&chars_of("18446744073709551616"), 10, u64::MAX), None);
}
