use magic_mail::text::{
    chars_eq, chars_of, concat_chars, contains_char, contains_chars, eq_ignore_case,
    fold_ascii, is_whitespace, matches_at, replace_chars, rfind_char, split_chars, starts_with,
    str_eq, str_starts_with, string_of, sub_chars, trim_chars, trim_str,
};

fn cs(s: &str) -> Vec<char> {
    s.chars().collect()
}

#[test]
fn chars_and_strings() {
    assert_eq!(chars_of("héllo"), cs("héllo"));
    assert_eq!(string_of(&cs("wörld")), "wörld");
    assert_eq!(sub_chars(&cs("abcdef"), 1, 4), cs("bcd"));
    assert_eq!(concat_chars(&cs("ab"), &cs("cd")), cs("abcd"));
    assert!(chars_eq(&cs("x"), &cs("x")));
    assert!(!chars_eq(&cs("x"), &cs("xy")));
    assert!(str_eq("same", "same"));
    assert!(!str_eq("same", "Same"));
}

#[test]
fn trimming_uses_unicode_white_space() {
    assert_eq!(trim_str(" \t\r\n a b \u{3000}\u{a0}"), cs("a b"));
    assert_eq!(trim_str("   "), cs(""));
    assert_eq!(trim_chars(&cs("\u{2028}x\u{85}")), cs("x"));
    assert!(is_whitespace('\u{205f}'));
    assert!(!is_whitespace('\u{200b}'));
    for c in ['\u{0}', ' ', '\u{b}', '\u{1680}', 'x', '\u{180e}', '\u{2009}'] {
        assert_eq!(is_whitespace(c), c.is_whitespace());
    }
}

#[test]
fn ascii_case_folding() {
    assert!(eq_ignore_case(&cs("Content-ID"), &cs("content-id")));
    assert!(!eq_ignore_case(&cs("Ä"), &cs("ä")));
    assert_eq!(fold_ascii('Q'), 'q' as u32);
    assert_eq!(fold_ascii('é'), 'é' as u32);
}

#[test]
fn searching() {
    assert!(starts_with(&cs("MAIL FROM:x"), &cs("MAIL FROM:")));
    assert!(!starts_with(&cs("MAIL"), &cs("MAIL FROM:")));
    assert!(matches_at(&cs("abcabc"), &cs("ca"), 2));
    assert!(!matches_at(&cs("abcabc"), &cs("ca"), 5));
    assert!(contains_chars(&cs("form-data; inline"), &cs("inline")));
    assert!(!contains_chars(&cs("attachment"), &cs("inline")));
    assert!(contains_chars(&cs("x"), &cs("")));
    assert!(contains_char(&cs("a@b"), '@'));
    assert_eq!(rfind_char(&cs("a@b@c"), '@'), Some(3));
    assert_eq!(rfind_char(&cs("abc"), '@'), None);
    assert!(str_starts_with("EHLO x", "EHLO"));
}

#[test]
fn replacing_and_splitting() {
    assert_eq!(replace_chars(&cs("aaa"), &cs("aa"), &cs("b")), cs("ba"));
    assert_eq!(replace_chars(&cs("x cid:1 y cid:1"), &cs("cid:1"), &cs("L")), cs("x L y L"));
    let pieces = split_chars(&cs("a,,b,"), ',');
    assert_eq!(pieces, vec![cs("a"), cs(""), cs("b"), cs("")]);
    assert_eq!(split_chars(&cs(""), ','), vec![cs("")]);
}

