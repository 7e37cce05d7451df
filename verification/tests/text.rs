use grrs::text::{bytes_contain, line_contains, starts_at};

#[test]
fn a_line_contains_each_of_its_parts() {
    assert!(line_contains("Hello world!", "Hello"));
    assert!(line_contains("Hello world!", "world!"));
    assert!(line_contains("Hello world!", "o w"));
    assert!(line_contains("Hello world!", "Hello world!"));
}

#[test]
fn a_line_does_not_contain_what_is_not_in_it() {
    assert!(!line_contains("Hello world!", "hello"));
    assert!(!line_contains("Hello world!", "world!!"));
    assert!(!line_contains("Hello world!", "Hello world! "));
    assert!(!line_contains("", "a"));
    assert!(!line_contains("ab", "ba"));
}

#[test]
fn the_empty_pattern_stands_in_every_line() {
    assert!(line_contains("", ""));
    assert!(line_contains("abc", ""));
}

#[test]
fn a_match_may_begin_after_a_false_start() {
    assert!(line_contains("aaab", "aab"));
    assert!(line_contains("abababc", "ababc"));
    assert!(!line_contains("ababab", "ababc"));
}

#[test]
fn containment_is_decided_on_whole_characters() {
    assert!(line_contains("na\u{ef}ve", "\u{ef}"));
    assert!(!line_contains("na\u{ef}ve", "\u{ee}"));
    assert!(line_contains("\u{1f600}\u{1f601}", "\u{1f601}"));
    assert!(!line_contains("\u{1f600}", "\u{1f601}"));
}

#[test]
fn line_contains_agrees_with_the_standard_library() {
    let lines = ["", "a", "ab", "abc", "aXbXc", "\u{e9}t\u{e9}", "tab\tbed", "  "];
    let patterns = ["", "a", "b", "ab", "bc", "X", "\u{e9}", "t\u{e9}", "\t", " "];
    for line in lines {
        for pattern in patterns {
            assert_eq!(line_contains(line, pattern), line.contains(pattern));
        }
    }
}

#[test]
fn bytes_contain_finds_a_run_of_bytes() {
    assert!(bytes_contain(b"\x00\x01\x02\x03", b"\x01\x02"));
    assert!(!bytes_contain(b"\x00\x01\x02\x03", b"\x02\x01"));
    assert!(bytes_contain(b"abc", b""));
    assert!(!bytes_contain(b"ab", b"abc"));
}

#[test]
fn starts_at_compares_at_one_place() {
    assert!(starts_at(b"abcabc", b"bca", 1));
    assert!(!starts_at(b"abcabc", b"bca", 2));
    assert!(starts_at(b"abc", b"", 3));
}
