use lib::text::{
    chars_of, contains_chars, decimal_chars, ends_with, last_index, parse_u64, replace_backslashes,
    split_chars, split_whitespace, starts_with, string_of, strings_of,
};

fn cs(s: &str) -> Vec<char> {
    s.chars().collect()
}

#[test]
fn chars_and_strings_round_trip() {
    assert_eq!(chars_of("héllo"), cs("héllo"));
    assert_eq!(string_of(&cs("héllo")), "héllo");
    assert_eq!(string_of(&Vec::new()), "");
}

#[test]
fn split_keeps_empty_pieces() {
    let pieces: Vec<String> = strings_of(&split_chars(&cs("a b  c "), ' '));
    assert_eq!(pieces, vec!["a", "b", "", "c", ""]);
    assert_eq!(strings_of(&split_chars(&cs(""), '\n')), vec![""]);
}

#[test]
fn whitespace_words() {
    let words: Vec<String> = strings_of(&split_whitespace(&cs("  one\ttwo\r\nthree  ")));
    assert_eq!(words, vec!["one", "two", "three"]);
    assert!(split_whitespace(&cs(" \t ")).is_empty());
}

#[test]
fn numbers() {
    assert_eq!(parse_u64(&cs("0")), Some(0));
    assert_eq!(parse_u64(&cs("+42")), Some(42));
    assert_eq!(parse_u64(&cs("18446744073709551615")), Some(u64::MAX));
    assert_eq!(parse_u64(&cs("18446744073709551616")), None);
    assert_eq!(parse_u64(&cs("")), None);
    assert_eq!(parse_u64(&cs("+")), None);
    assert_eq!(parse_u64(&cs("-1")), None);
    assert_eq!(parse_u64(&cs(" 1")), None);
    assert_eq!(parse_u64(&cs("12a")), None);
    assert_eq!(string_of(&decimal_chars(0)), "0");
    assert_eq!(string_of(&decimal_chars(907)), "907");
    assert_eq!(string_of(&decimal_chars(u64::MAX)), "18446744073709551615");
}

#[test]
fn searching() {
    assert_eq!(last_index(&cs("a/b/c"), '/'), Some(3));
    assert_eq!(last_index(&cs("abc"), '/'), None);
    assert!(starts_with(&cs("./x"), &cs("./")));
    assert!(!starts_with(&cs("."), &cs("./")));
    assert!(ends_with(&cs("cl.exe"), &cs("cl.exe")));
    assert!(ends_with(&cs("x86-cl"), &cs("cl")));
    assert!(!ends_with(&cs("gcc"), &cs("cl")));
    assert!(contains_chars(&cs("C:\\x"), &cs(":\\")));
    assert!(!contains_chars(&cs("C:/x"), &cs(":\\")));
    assert!(contains_chars(&cs("x"), &cs("")));
    assert_eq!(string_of(&replace_backslashes(&cs("a\\b\\c"))), "a/b/c");
}
