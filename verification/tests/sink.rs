use grrs::encoding::{CARRIAGE_RETURN, LINE_FEED};
use grrs::sink::{Capped, Full, LineSink};

#[test]
fn a_vector_takes_the_line_and_a_line_feed() {
    let mut sink: Vec<u8> = Vec::new();
    assert!(sink.write_line("abc").is_ok());
    assert_eq!(sink, b"abc\n");
    assert!(sink.write_line("").is_ok());
    assert_eq!(sink, b"abc\n\n");
    assert!(sink.write_line("\u{e9}").is_ok());
    assert_eq!(sink, b"abc\n\n\xc3\xa9\n");
}

#[test]
fn terminators_have_their_bytes() {
    assert_eq!(LINE_FEED, b'\n');
    assert_eq!(CARRIAGE_RETURN, b'\r');
}

#[test]
fn a_capped_sink_takes_records_that_fit() {
    let mut sink = Capped::new(8);
    assert_eq!(sink.write_line("abc"), Ok(()));
    assert_eq!(sink.write_line("def"), Ok(()));
    assert_eq!(sink.bytes().as_slice(), b"abc\ndef\n");
}

#[test]
fn a_capped_sink_keeps_the_part_that_fits_and_fails() {
    let mut sink = Capped::new(6);
    assert_eq!(sink.write_line("abc"), Ok(()));
    assert_eq!(sink.write_line("def"), Err(Full));
    assert_eq!(sink.bytes().as_slice(), b"abc\nde");
    assert_eq!(sink.write_line(""), Err(Full));
    assert_eq!(sink.bytes().as_slice(), b"abc\nde");
}

#[test]
fn a_capped_sink_fails_where_only_the_line_feed_is_left_out() {
    let mut sink = Capped::new(3);
    assert_eq!(sink.write_line("abc"), Err(Full));
    assert_eq!(sink.bytes().as_slice(), b"abc");
}
