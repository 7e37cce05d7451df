use grrs::lines::TextLines;
use grrs::scan::{on_read, on_write, search_file, search_lines, search_text, ScanError, Step};
use grrs::sink::{Capped, Full};
use grrs::source::{LineSource, Replay};

fn replay(reads: Vec<Result<&str, &str>>) -> Replay<String> {
    let mut source = Replay::new();
    for read in reads {
        source.push(read.map(String::from).map_err(String::from));
    }
    source
}

fn scan(text: &str, pattern: &str) -> Vec<u8> {
    let mut writer = Vec::new();
    let result = search_file(TextLines::new(text), pattern, &mut writer);
    assert!(result.is_ok());
    writer
}

#[test]
fn search_file_for_pattern() {
    let reader = TextLines::new("Hello world!\n");
    let mut writer = Vec::new();

    let result = search_file(reader, "Hello", &mut writer);

    assert!(result.is_ok());
    assert_eq!(writer, b"Hello world!\n");
}

#[test]
fn can_find_content_in_file() {
    let mut writer = Vec::new();
    let result = search_file(TextLines::new("Hello world!\n"), "Hello", &mut writer);
    assert!(result.is_ok());
    let printed = String::from_utf8(writer).unwrap();
    assert!(printed.contains("Hello world!"));
}

#[test]
fn skips_lines_between_matches_and_keeps_order() {
    assert_eq!(scan("abc\ndef\nabc\n", "abc"), b"abc\nabc\n");
}

#[test]
fn empty_input_writes_nothing() {
    assert_eq!(scan("", "abc"), b"");
}

#[test]
fn pattern_equal_to_a_whole_line_matches() {
    assert_eq!(scan("abc\nabcd\nab\n", "abc"), b"abc\nabcd\n");
}

#[test]
fn pattern_longer_than_every_line_matches_nothing() {
    assert_eq!(scan("a\nab\nabc\n", "abcd"), b"");
}

#[test]
fn repeated_occurrences_write_the_line_once() {
    assert_eq!(scan("aaaa\nabab abab\n", "aa"), b"aaaa\n");
    assert_eq!(scan("abab abab\n", "ab"), b"abab abab\n");
}

#[test]
fn last_line_without_terminator_gets_one() {
    assert_eq!(scan("first\nlast match", "match"), b"last match\n");
}

#[test]
fn matching_is_literal() {
    assert_eq!(scan("Hello\nhello\n hello \n", "hello"), b"hello\n hello \n");
    assert_eq!(scan("a.c\nabc\n", "a.c"), b"a.c\n");
    assert_eq!(scan("tab\there\n", "\t"), b"tab\there\n");
    assert_eq!(scan("one two\n", " two "), b"");
}

#[test]
fn carriage_return_before_line_feed_is_dropped() {
    assert_eq!(scan("abc\r\ndef\r\n", "abc"), b"abc\n");
    assert_eq!(scan("abc\r\n", "c\r"), b"");
    assert_eq!(scan("a\rb\n", "a\rb"), b"a\rb\n");
    assert_eq!(scan("abc\r", "c\r"), b"abc\r\n");
}

#[test]
fn empty_lines_hold_only_the_empty_pattern() {
    assert_eq!(scan("\n\nx\n", "x"), b"x\n");
    assert_eq!(scan("\n\nx\n", ""), b"\n\nx\n");
}

#[test]
fn characters_outside_ascii_match_whole() {
    assert_eq!(scan("caf\u{e9}\ncafe\n", "\u{e9}"), "caf\u{e9}\n".as_bytes());
    assert_eq!(scan("a\u{e3}b\n", "\u{e9}"), b"");
    assert_eq!(scan("\u{65e5}\u{672c}\u{8a9e}\n", "\u{672c}"), "\u{65e5}\u{672c}\u{8a9e}\n".as_bytes());
    assert_eq!(scan("x\u{1f600}y\n", "\u{1f600}y"), "x\u{1f600}y\n".as_bytes());
}

#[test]
fn scanning_twice_gives_the_same_bytes() {
    let text = "one\ntwo\nthree\ntwenty\n";
    assert_eq!(scan(text, "tw"), scan(text, "tw"));
    assert_eq!(scan(text, "tw"), b"two\ntwenty\n");
}

/// Strings without control characters, drawn in a fixed order from a small
/// alphabet of characters of every encoded width.
fn samples(count: usize) -> Vec<String> {
    let alphabet = ['a', 'b', 'A', ' ', '.', '*', '\\', '\u{e9}', '\u{df}', '\u{65e5}', '\u{1f600}'];
    let mut state: u64 = 0x2545_f491_4f6c_dd1d;
    let mut next = move || {
        state ^= state << 13;
        state ^= state >> 7;
        state ^= state << 17;
        state
    };
    let mut drawn = vec![String::new()];
    while drawn.len() < count {
        let length = (next() % 6) as usize;
        let mut sample = String::new();
        for _ in 0..length {
            sample.push(alphabet[(next() % alphabet.len() as u64) as usize]);
        }
        drawn.push(sample);
    }
    drawn
}

#[test]
fn search_file_doesnt_crash() {
    for sample in samples(200) {
        let mut writer = Vec::new();
        let result = search_file(TextLines::new(&sample), &sample, &mut writer);
        assert!(result.is_ok());
        if sample.is_empty() {
            assert_eq!(writer, b"");
        } else {
            assert_eq!(writer, format!("{}\n", sample).into_bytes());
        }
    }
}

#[test]
fn search_file_always_finds_matching_text() {
    let drawn = samples(12);
    for pattern in &drawn {
        for prefix in &drawn {
            for suffix in &drawn {
                let file_content = format!("{}{}{}", prefix, pattern, suffix);
                let mut writer = Vec::new();

                let result = search_file(TextLines::new(&file_content), pattern, &mut writer);

                assert_eq!(result.is_ok(), true);
                if file_content.is_empty() {
                    assert_eq!(String::from_utf8(writer).unwrap(), "");
                } else {
                    assert_eq!(String::from_utf8(writer).unwrap(), format!("{}\n", file_content));
                }
            }
        }
    }
}

#[test]
fn control_characters_are_characters_like_any_others() {
    assert_eq!(scan("a\u{0}b\nc\u{7}d\n\u{1b}[0m\n", "\u{0}"), b"a\x00b\n");
    assert_eq!(scan("a\u{0}b\nc\u{7}d\n\u{1b}[0m\n", "\u{1b}["), b"\x1b[0m\n");
    assert_eq!(scan("\u{b}\u{c}\n", "\u{c}"), b"\x0b\x0c\n");
}

#[test]
fn a_line_built_around_the_pattern_is_found() {
    let cases = [
        ("", "x", ""),
        ("left ", "needle", " right"),
        ("\u{e9}", "\u{e9}\u{e9}", "\u{e9}"),
        ("", " ", ""),
        ("aaa", "aab", "aaa"),
    ];
    for (prefix, pattern, suffix) in cases {
        let line = format!("{}{}{}", prefix, pattern, suffix);
        assert_eq!(scan(&line, pattern), format!("{}\n", line).into_bytes());
    }
}

#[test]
fn output_is_appended_to_what_the_sink_holds() {
    let mut writer = b"kept\n".to_vec();
    let result = search_file(TextLines::new("abc\n"), "b", &mut writer);
    assert!(result.is_ok());
    assert_eq!(writer, b"kept\nabc\n");
}

#[test]
fn replayed_lines_are_scanned_like_any_others() {
    let mut writer = Vec::new();
    let result = search_file(replay(vec![Ok("abc"), Ok("def"), Ok("abc")]), "abc", &mut writer);
    assert_eq!(result, Ok(()));
    assert_eq!(writer, b"abc\nabc\n");
}

#[test]
fn stops_at_the_first_failed_read() {
    let reader = replay(vec![Ok("abc"), Err("broken"), Ok("abc"), Err("later")]);
    let mut writer = Vec::new();
    let result = search_file(reader, "abc", &mut writer);
    assert_eq!(result, Err(ScanError::ReadFailure(String::from("broken"))));
    assert_eq!(writer, b"abc\n");
}

#[test]
fn a_failed_read_stops_a_scan_without_matches_too() {
    let reader = replay(vec![Ok("def"), Err("broken")]);
    let mut writer = Vec::new();
    let result = search_file(reader, "abc", &mut writer);
    assert_eq!(result, Err(ScanError::ReadFailure(String::from("broken"))));
    assert_eq!(writer, b"");
}

#[test]
fn stops_at_the_first_failed_write() {
    let reader = replay(vec![Ok("abc"), Ok("def"), Ok("abcd"), Ok("abc"), Err("unread")]);
    let mut writer = Capped::new(6);
    let result = search_file(reader, "abc", &mut writer);
    assert_eq!(result, Err(ScanError::WriteFailure(Full)));
    assert_eq!(writer.bytes().as_slice(), b"abc\nab");
}

#[test]
fn a_sink_with_room_for_everything_does_not_fail() {
    let mut writer = Capped::new(8);
    let result = search_file(TextLines::new("abc\ndef\nabc\n"), "abc", &mut writer);
    assert_eq!(result, Ok(()));
    assert_eq!(writer.bytes().as_slice(), b"abc\nabc\n");
}

#[test]
fn a_full_sink_is_no_obstacle_where_nothing_matches() {
    let mut writer = Capped::new(0);
    let result = search_file(TextLines::new("abc\ndef\n"), "xyz", &mut writer);
    assert_eq!(result, Ok(()));
    assert_eq!(writer.bytes().as_slice(), b"");
}

#[test]
fn a_scan_that_succeeds_has_read_everything() {
    let mut reader = TextLines::new("abc\ndef\nabc");
    let mut writer = Vec::new();
    let result = search_lines(&mut reader, "abc", &mut writer);
    assert!(result.is_ok());
    assert_eq!(writer, b"abc\nabc\n");
    assert!(reader.next_line().is_none());
}

#[test]
fn a_failed_read_leaves_what_follows_it_unread() {
    let mut reader = replay(vec![Ok("abc"), Err("broken"), Ok("abcd"), Err("later")]);
    let mut writer = Vec::new();
    let result = search_lines(&mut reader, "abc", &mut writer);
    assert_eq!(result, Err(ScanError::ReadFailure(String::from("broken"))));
    assert_eq!(writer, b"abc\n");
    assert_eq!(reader.next_line(), Some(Ok(String::from("abcd"))));
    assert_eq!(reader.next_line(), Some(Err(String::from("later"))));
    assert_eq!(reader.next_line(), None);
}

#[test]
fn a_failed_write_leaves_what_follows_the_line_unread() {
    let mut reader = replay(vec![Ok("abc"), Ok("abcd"), Ok("def"), Ok("abc")]);
    let mut writer = Capped::new(5);
    let result = search_lines(&mut reader, "abc", &mut writer);
    assert_eq!(result, Err(ScanError::WriteFailure(Full)));
    assert_eq!(writer.bytes().as_slice(), b"abc\na");
    assert_eq!(reader.next_line(), Some(Ok(String::from("def"))));
    assert_eq!(reader.next_line(), Some(Ok(String::from("abc"))));
    assert_eq!(reader.next_line(), None);
}

#[test]
fn a_source_can_be_scanned_on_after_a_failure() {
    let mut reader = replay(vec![Ok("one"), Err("broken"), Ok("none"), Ok("two")]);
    let mut writer = Vec::new();
    assert!(search_lines(&mut reader, "one", &mut writer).is_err());
    assert_eq!(search_lines(&mut reader, "one", &mut writer), Ok(()));
    assert_eq!(writer, b"one\nnone\n");
}

#[test]
fn search_text_gives_the_records_of_the_matching_lines() {
    assert_eq!(search_text("abc\ndef\nabc\n", "abc"), b"abc\nabc\n");
    assert_eq!(search_text("Hello world!\n", "Hello"), b"Hello world!\n");
    assert_eq!(search_text("", "Hello"), b"");
}

#[test]
fn on_read_finishes_at_the_end_of_the_input() {
    let step: Step<String> = on_read(None, "abc");
    assert_eq!(step, Step::Finish);
}

#[test]
fn on_read_abandons_at_a_failure() {
    let step = on_read(Some(Err(String::from("broken"))), "abc");
    assert_eq!(step, Step::Abandon(String::from("broken")));
}

#[test]
fn on_read_forwards_a_line_that_holds_the_pattern() {
    let step: Step<String> = on_read(Some(Ok(String::from("xabcx"))), "abc");
    assert_eq!(step, Step::Forward(String::from("xabcx")));
}

#[test]
fn on_read_skips_a_line_that_does_not_hold_the_pattern() {
    let step: Step<String> = on_read(Some(Ok(String::from("xabx"))), "abc");
    assert_eq!(step, Step::Skip);
}

#[test]
fn on_write_goes_on_after_a_write_that_succeeded() {
    let verdict: Result<(), ScanError<String, String>> = on_write(Ok(()));
    assert_eq!(verdict, Ok(()));
}

#[test]
fn on_write_reports_the_failure_of_the_sink() {
    let verdict: Result<(), ScanError<String, String>> = on_write(Err(String::from("closed")));
    assert_eq!(verdict, Err(ScanError::WriteFailure(String::from("closed"))));
}
