//! One pass over a line source that forwards the lines holding a pattern.

use std::convert::Infallible;
use vstd::prelude::*;
use vstd::string::*;
use crate::lines::{lines_of, TextLines};
use crate::sink::{record, LineSink};
use crate::source::{first_failure, lemma_good_reads, readable, LineSource};
use crate::text::{contains, line_contains};

verus! {

/// Why a scan stopped before the end of its input.
#[derive(Debug, PartialEq, Eq)]
pub enum ScanError<R, W> {
    /// The source could not produce a line; holds what the source reported.
    ReadFailure(R),
    /// The sink turned a record down; holds what the sink reported.
    WriteFailure(W),
}

/// What a scan does next, once a read has come back.
#[derive(Debug, PartialEq, Eq)]
pub enum Step<R> {
    /// The line holds the pattern: write it out, then read on.
    Forward(String),
    /// The line does not hold the pattern: read on.
    Skip,
    /// The input is exhausted: the scan has succeeded.
    Finish,
    /// The read failed: the scan stops with this failure.
    Abandon(R),
}

/// The test that picks the lines holding `pattern`.
pub open spec fn holds(pattern: Seq<char>) -> spec_fn(Seq<char>) -> bool {
    |line: Seq<char>| contains(line, pattern)
}

/// The lines among `lines` that hold `pattern`, in their order.
pub open spec fn selected(lines: Seq<Seq<char>>, pattern: Seq<char>) -> Seq<Seq<char>> {
    lines.filter(holds(pattern))
}

/// The records of `lines`, one after the other.
pub open spec fn rendered(lines: Seq<Seq<char>>) -> Seq<u8>
    decreases lines.len(),
{
    if lines.len() == 0 {
        Seq::empty()
    } else {
        rendered(lines.drop_last()) + record(lines.last())
    }
}

/// The bytes that a scan of `lines` for `pattern` writes.
pub open spec fn output(lines: Seq<Seq<char>>, pattern: Seq<char>) -> Seq<u8> {
    rendered(selected(lines, pattern))
}

/// The output grows by the record of a line that holds the pattern, and by
/// nothing for a line that does not.
pub proof fn lemma_output_push(lines: Seq<Seq<char>>, line: Seq<char>, pattern: Seq<char>)
    ensures
        output(lines.push(line), pattern) == if contains(line, pattern) {
            output(lines, pattern) + record(line)
        } else {
            output(lines, pattern)
        },
{
    reveal(Seq::filter);
    let longer = lines.push(line);
    assert(longer.drop_last() =~= lines);
    assert(longer.last() == line);
    if contains(line, pattern) {
        let chosen = selected(lines, pattern).push(line);
        assert(selected(longer, pattern) == chosen);
        assert(chosen.drop_last() =~= selected(lines, pattern));
    }
}

/// How a scan of `events` for `pattern` may end, where the sink held
/// `before` when it began and holds `after` when it ends.
///
/// A scan that succeeds has met no failed read and has added the whole
/// output. One that a failed read stops has added the output of the lines
/// before that read, and reports the failure read. One that a failed write
/// stops has added the output of the lines before the one that it was
/// forwarding, and of that line's record as much as the sink took; this
/// never happens to a sink that takes whatever it is given.
pub open spec fn scan_ends<R, W>(
    events: Seq<Result<Seq<char>, R>>,
    pattern: Seq<char>,
    infallible: bool,
    before: Seq<u8>,
    after: Seq<u8>,
    result: Result<(), ScanError<R, W>>,
) -> bool {
    match result {
        Ok(()) => {
            &&& first_failure(events) is None
            &&& after == before + output(readable(events), pattern)
        },
        Err(ScanError::ReadFailure(failure)) => {
            &&& first_failure(events) == Some(failure)
            &&& after == before + output(readable(events), pattern)
        },
        Err(ScanError::WriteFailure(_)) => {
            &&& !infallible
            &&& exists|k: int, part: Seq<u8>|
                stopped_in_record(events, pattern, before, after, k, part)
        },
    }
}

/// The sink failed while it took the record of line `k`, of which it had
/// taken `part`.
pub open spec fn stopped_in_record<R>(
    events: Seq<Result<Seq<char>, R>>,
    pattern: Seq<char>,
    before: Seq<u8>,
    after: Seq<u8>,
    k: int,
    part: Seq<u8>,
) -> bool {
    &&& 0 <= k < readable(events).len()
    &&& contains(readable(events)[k], pattern)
    &&& part.is_prefix_of(record(readable(events)[k]))
    &&& after == before + output(readable(events).take(k), pattern) + part
}

/// Where a scan of `events` leaves its source: `unread` is what is still
/// pending when the scan ends. A scan that succeeds has read everything. One
/// that a failure stops has read nothing behind the read that failed, or
/// behind the line that it was forwarding when the write failed.
pub open spec fn scan_leaves<R, W>(
    events: Seq<Result<Seq<char>, R>>,
    pattern: Seq<char>,
    before: Seq<u8>,
    after: Seq<u8>,
    unread: Seq<Result<Seq<char>, R>>,
    result: Result<(), ScanError<R, W>>,
) -> bool {
    match result {
        Ok(()) => unread.len() == 0,
        Err(ScanError::ReadFailure(_)) => unread == events.skip(readable(events).len() as int + 1),
        Err(ScanError::WriteFailure(_)) => exists|k: int, part: Seq<u8>|
            stopped_in_record(events, pattern, before, after, k, part) && unread == events.skip(
                k + 1,
            ),
    }
}

/// Decides what to do with what a read handed over: stop at the end of the
/// input and at a failure, forward a line that holds `pattern`, pass over
/// any other.
pub fn on_read<R>(event: Option<Result<String, R>>, pattern: &str) -> (step: Step<R>)
    ensures
        step == match event {
            None => Step::Finish,
            Some(Err(failure)) => Step::Abandon(failure),
            Some(Ok(line)) => if contains(line@, pattern@) {
                Step::Forward(line)
            } else {
                Step::Skip
            },
        },
{
    match event {
        None => Step::Finish,
        Some(Err(failure)) => Step::Abandon(failure),
        Some(Ok(line)) => {
            if line_contains(line.as_str(), pattern) {
                Step::Forward(line)
            } else {
                Step::Skip
            }
        },
    }
}

/// Decides how a scan goes on once a write has come back: on, or out with
/// the failure that the sink reported.
pub fn on_write<R, W>(outcome: Result<(), W>) -> (verdict: Result<(), ScanError<R, W>>)
    ensures
        verdict == match outcome {
            Ok(()) => Ok::<(), ScanError<R, W>>(()),
            Err(failure) => Err(ScanError::WriteFailure(failure)),
        },
{
    match outcome {
        Ok(()) => Ok(()),
        Err(failure) => Err(ScanError::WriteFailure(failure)),
    }
}

/// Reads `reader` to its end and writes to `writer`, in the order read,
/// the record of each line that holds `pattern`. The pass stops at the
/// first read that fails and at the first write that fails: what was
/// written by then stays written, and what was not read by then stays
/// pending.
///
/// The pattern is meant to have passed `check_pattern`: the empty pattern
/// stands in every line, so a scan for it forwards every line.
pub fn search_lines<R: LineSource, W: LineSink>(
    reader: &mut R,
    pattern: &str,
    writer: &mut W,
) -> (result: Result<(), ScanError<R::Failure, W::Failure>>)
    ensures
        final(writer).infallible() == old(writer).infallible(),
        scan_ends(
            old(reader).pending(),
            pattern@,
            old(writer).infallible(),
            old(writer).written(),
            final(writer).written(),
            result,
        ),
        scan_leaves(
            old(reader).pending(),
            pattern@,
            old(writer).written(),
            final(writer).written(),
            final(reader).pending(),
            result,
        ),
{
    let ghost events = reader.pending();
    let ghost before = writer.written();
    let ghost seen: Seq<Seq<char>> = Seq::empty();
    proof {
        assert(seen + readable(events) =~= readable(events));
        assert(events.skip(0) =~= events);
        reveal(Seq::filter);
        assert(before + output(seen, pattern@) =~= before);
    }
    loop
        invariant
            events == old(reader).pending(),
            before == old(writer).written(),
            reader.pending() == events.skip(seen.len() as int),
            seen.len() <= events.len(),
            readable(events) == seen + readable(reader.pending()),
            first_failure(events) == first_failure(reader.pending()),
            writer.written() == before + output(seen, pattern@),
            writer.infallible() == old(writer).infallible(),
        decreases reader.pending().len(),
    {
        let ghost rest = reader.pending();
        let event = reader.next_line();
        proof {
            if rest.len() > 0 {
                assert(rest.drop_first() =~= events.skip(seen.len() as int + 1));
            }
        }
        match on_read(event, pattern) {
            Step::Finish => {
                proof {
                    assert(seen + readable(rest) =~= seen);
                }
                return Ok(());
            },
            Step::Abandon(failure) => {
                proof {
                    assert(seen + readable(rest) =~= seen);
                }
                return Err(ScanError::ReadFailure(failure));
            },
            Step::Skip => {
                proof {
                    let line = rest[0]->Ok_0;
                    lemma_output_push(seen, line, pattern@);
                    assert(seen + readable(rest) =~= seen.push(line) + readable(rest.drop_first()));
                    seen = seen.push(line);
                }
            },
            Step::Forward(line) => {
                let ghost sofar = writer.written();
                let outcome = writer.write_line(line.as_str());
                proof {
                    lemma_output_push(seen, line@, pattern@);
                    assert(seen + readable(rest) =~= seen.push(line@) + readable(
                        rest.drop_first(),
                    ));
                }
                match on_write(outcome) {
                    Ok(()) => {
                        proof {
                            assert(before + (output(seen, pattern@) + record(line@)) =~= before
                                + output(seen, pattern@) + record(line@));
                            seen = seen.push(line@);
                        }
                    },
                    Err(error) => {
                        proof {
                            let k = seen.len() as int;
                            let part = choose|part: Seq<u8>|
                                part.is_prefix_of(record(line@)) && writer.written() == sofar
                                    + part;
                            assert(readable(events)[k] == line@);
                            assert(readable(events).take(k) =~= seen);
                            assert(stopped_in_record(
                                events,
                                pattern@,
                                before,
                                writer.written(),
                                k,
                                part,
                            ));
                        }
                        return Err(error);
                    },
                }
            },
        }
    }
}

/// Search the lines of `reader` for the desired `pattern`, as
/// [`search_lines`] does, and let go of the reader.
pub fn search_file<R: LineSource, W: LineSink>(
    reader: R,
    pattern: &str,
    writer: &mut W,
) -> (result: Result<(), ScanError<R::Failure, W::Failure>>)
    ensures
        final(writer).infallible() == old(writer).infallible(),
        scan_ends(
            reader.pending(),
            pattern@,
            old(writer).infallible(),
            old(writer).written(),
            final(writer).written(),
            result,
        ),
{
    let mut source = reader;
    search_lines(&mut source, pattern, writer)
}

/// Scans a text held in memory: the records of the lines of `text` that
/// hold `pattern`, in their order.
pub fn search_text(text: &str, pattern: &str) -> (found: Vec<u8>)
    ensures
        found@ == output(lines_of(text@), pattern@),
{
    let mut found: Vec<u8> = Vec::new();
    let reader = TextLines::new(text);
    proof {
        lemma_good_reads::<Infallible>(lines_of(text@));
    }
    let result = search_file(reader, pattern, &mut found);
    proof {
        assert(result is Ok);
        assert(Seq::<u8>::empty() + output(lines_of(text@), pattern@) =~= output(
            lines_of(text@),
            pattern@,
        ));
    }
    found
}

} // verus!
