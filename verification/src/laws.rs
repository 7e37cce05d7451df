//! What holds of every scan.

use vstd::prelude::*;
use crate::lines::{lemma_one_line, lines_of};
use crate::scan::{
    holds, lemma_output_push, output, rendered, scan_ends, scan_leaves, selected,
    stopped_in_record, ScanError,
};
use crate::sink::record;
use crate::source::readable;
use crate::text::{contains, occurs_at};

verus! {

/// `at` lists positions of `full`, in ascending order, and `sub` is made of
/// the entries of `full` at those positions.
pub open spec fn picks<T>(sub: Seq<T>, full: Seq<T>, at: Seq<int>) -> bool {
    &&& at.len() == sub.len()
    &&& forall|i: int|
        0 <= i < at.len() ==> 0 <= #[trigger] at[i] < full.len() && sub[i] == full[at[i]]
    &&& forall|i: int, j: int| 0 <= i < j < at.len() ==> at[i] < at[j]
}

/// `sub` is `full` with some of its entries left out and the others in
/// their order.
pub open spec fn is_subsequence<T>(sub: Seq<T>, full: Seq<T>) -> bool {
    exists|at: Seq<int>| picks(sub, full, at)
}

/// Whether a scan ended because its sink failed.
pub open spec fn sink_failed<R, W>(result: Result<(), ScanError<R, W>>) -> bool {
    result matches Err(ScanError::WriteFailure(_))
}

/// Containment decides what is forwarded: the selected lines are the lines
/// at the positions that hold the pattern, each position once and in
/// ascending order. So a line of the input is forwarded if and only if the
/// pattern stands in it, and as often as it occurs.
pub proof fn lemma_forwarded_iff_contains(lines: Seq<Seq<char>>, pattern: Seq<char>) -> (at:
    Seq<int>)
    ensures
        picks(selected(lines, pattern), lines, at),
        forall|i: int| 0 <= i < lines.len() ==> (at.contains(i) <==> contains(lines[i], pattern)),
    decreases lines.len(),
{
    reveal(Seq::filter);
    if lines.len() == 0 {
        Seq::empty()
    } else {
        let earlier_lines = lines.drop_last();
        let last = lines.len() - 1;
        let earlier = lemma_forwarded_iff_contains(earlier_lines, pattern);
        if contains(lines.last(), pattern) {
            let at = earlier.push(last);
            assert(selected(lines, pattern) == selected(earlier_lines, pattern).push(lines.last()));
            assert(at[earlier.len() as int] == last);
            assert forall|i: int| 0 <= i < lines.len() implies (at.contains(i) <==> contains(
                lines[i],
                pattern,
            )) by {
                if i < last {
                    assert(lines[i] == earlier_lines[i]);
                    if earlier.contains(i) {
                        let j = choose|j: int| 0 <= j < earlier.len() && earlier[j] == i;
                        assert(at[j] == i);
                    }
                    if at.contains(i) {
                        let j = choose|j: int| 0 <= j < at.len() && at[j] == i;
                        assert(earlier[j] == i);
                    }
                }
            }
            at
        } else {
            assert(selected(lines, pattern) == selected(earlier_lines, pattern));
            assert forall|i: int| 0 <= i < lines.len() implies (earlier.contains(i) <==> contains(
                lines[i],
                pattern,
            )) by {
                if i < last {
                    assert(lines[i] == earlier_lines[i]);
                } else if earlier.contains(i) {
                    let j = choose|j: int| 0 <= j < earlier.len() && earlier[j] == i;
                    assert(earlier[j] < earlier_lines.len());
                }
            }
            earlier
        }
    }
}

/// Order is kept: the forwarded lines are lines of the input, in the order
/// in which the input has them.
pub proof fn lemma_order_preserved(lines: Seq<Seq<char>>, pattern: Seq<char>)
    ensures
        is_subsequence(selected(lines, pattern), lines),
{
    let at = lemma_forwarded_iff_contains(lines, pattern);
    assert(picks(selected(lines, pattern), lines, at));
}

/// A line is among the forwarded lines exactly when it is a line of the
/// input and the pattern stands in it.
pub proof fn lemma_forwarded_lines(lines: Seq<Seq<char>>, pattern: Seq<char>, line: Seq<char>)
    ensures
        selected(lines, pattern).contains(line) <==> lines.contains(line) && contains(
            line,
            pattern,
        ),
{
    let chosen = selected(lines, pattern);
    let at = lemma_forwarded_iff_contains(lines, pattern);
    if chosen.contains(line) {
        let j = choose|j: int| 0 <= j < chosen.len() && chosen[j] == line;
        assert(lines[at[j]] == line);
        assert(at.contains(at[j]));
    }
    if lines.contains(line) && contains(line, pattern) {
        let i = choose|i: int| 0 <= i < lines.len() && lines[i] == line;
        assert(at.contains(i));
        let j = choose|j: int| 0 <= j < at.len() && at[j] == i;
        assert(chosen[j] == line);
    }
}

/// Scans repeat: two scans of the same input for the same pattern, begun on
/// sinks with the same content, end with the same result and the same
/// bytes, unless a sink failed. Sinks that take whatever they are given
/// never fail, so scans into them always agree.
pub proof fn lemma_repeated_scans_agree<R, W>(
    events: Seq<Result<Seq<char>, R>>,
    pattern: Seq<char>,
    infallible: bool,
    before: Seq<u8>,
    first_after: Seq<u8>,
    first: Result<(), ScanError<R, W>>,
    second_after: Seq<u8>,
    second: Result<(), ScanError<R, W>>,
)
    requires
        scan_ends(events, pattern, infallible, before, first_after, first),
        scan_ends(events, pattern, infallible, before, second_after, second),
    ensures
        infallible ==> !sink_failed(first) && !sink_failed(second),
        !sink_failed(first) && !sink_failed(second) ==> first == second && first_after
            == second_after,
{
    if first is Ok && second is Ok {
        assert(first->Ok_0 == ());
        assert(second->Ok_0 == ());
    }
}

/// Scans stop alike: two scans of the same input for the same pattern that
/// end with the same result, and not because a sink failed, leave the same
/// reads pending.
pub proof fn lemma_repeated_scans_stop_alike<R, W>(
    events: Seq<Result<Seq<char>, R>>,
    pattern: Seq<char>,
    before: Seq<u8>,
    first_after: Seq<u8>,
    first_unread: Seq<Result<Seq<char>, R>>,
    second_after: Seq<u8>,
    second_unread: Seq<Result<Seq<char>, R>>,
    result: Result<(), ScanError<R, W>>,
)
    requires
        scan_leaves(events, pattern, before, first_after, first_unread, result),
        scan_leaves(events, pattern, before, second_after, second_unread, result),
        !sink_failed(result),
    ensures
        first_unread == second_unread,
{
    assert(first_unread =~= second_unread);
}

/// The records of two runs of lines, one after the other, are the records
/// of the lines of both runs.
pub proof fn lemma_rendered_concat(first: Seq<Seq<char>>, second: Seq<Seq<char>>)
    ensures
        rendered(first + second) == rendered(first) + rendered(second),
    decreases second.len(),
{
    if second.len() == 0 {
        assert(first + second =~= first);
        assert(rendered(first) + rendered(second) =~= rendered(first));
    } else {
        lemma_rendered_concat(first, second.drop_last());
        assert((first + second).drop_last() =~= first + second.drop_last());
        assert((first + second).last() == second.last());
        assert(rendered(first + second) =~= rendered(first) + rendered(second));
    }
}

/// The output of two runs of lines, one after the other, is the output of
/// the first and then that of the second.
pub proof fn lemma_output_concat(
    first: Seq<Seq<char>>,
    second: Seq<Seq<char>>,
    pattern: Seq<char>,
)
    ensures
        output(first + second, pattern) == output(first, pattern) + output(second, pattern),
{
    Seq::filter_distributes_over_add(first, second, holds(pattern));
    lemma_rendered_concat(selected(first, pattern), selected(second, pattern));
}

/// Nothing is taken back and nothing is written out of turn: however a
/// scan ends, the sink holds what it held before and, behind that, a
/// beginning of the output of the lines that could be read.
pub proof fn lemma_written_begins_output<R, W>(
    events: Seq<Result<Seq<char>, R>>,
    pattern: Seq<char>,
    infallible: bool,
    before: Seq<u8>,
    after: Seq<u8>,
    result: Result<(), ScanError<R, W>>,
) -> (written: Seq<u8>)
    requires
        scan_ends(events, pattern, infallible, before, after, result),
    ensures
        after == before + written,
        written.is_prefix_of(output(readable(events), pattern)),
{
    let lines = readable(events);
    if sink_failed(result) {
        let (k, part) = choose|k: int, part: Seq<u8>|
            stopped_in_record(events, pattern, before, after, k, part);
        let earlier = lines.take(k);
        let later = lines.skip(k + 1);
        let line = lines[k];
        assert(lines =~= earlier + seq![line] + later);
        lemma_output_concat(earlier + seq![line], later, pattern);
        lemma_output_concat(earlier, seq![line], pattern);
        assert(output(seq![line], pattern) == record(line)) by {
            lemma_output_push(Seq::empty(), line, pattern);
            reveal(Seq::filter);
            assert(Seq::<Seq<char>>::empty().push(line) =~= seq![line]);
            assert(output(Seq::empty(), pattern) + record(line) =~= record(line));
        }
        let written = output(earlier, pattern) + part;
        assert(written.is_prefix_of(output(lines, pattern))) by {
            let whole = output(earlier, pattern) + record(line) + output(later, pattern);
            assert(written =~= whole.subrange(0, written.len() as int));
        }
        assert(after =~= before + written);
        written
    } else {
        let written = output(lines, pattern);
        assert(written =~= written.subrange(0, written.len() as int));
        written
    }
}

/// A pattern stands in every line built around it.
pub proof fn lemma_built_line_holds_pattern(
    prefix: Seq<char>,
    pattern: Seq<char>,
    suffix: Seq<char>,
)
    ensures
        contains(prefix + pattern + suffix, pattern),
{
    let line = prefix + pattern + suffix;
    let at = prefix.len() as int;
    assert(line.subrange(at, at + pattern.len()) =~= pattern);
    assert(occurs_at(line, pattern, at));
}

/// A line built around a pattern is found: a scan of the one line
/// `prefix + pattern + suffix` for `pattern` writes the record of that line
/// and nothing else.
pub proof fn lemma_built_line_is_found(prefix: Seq<char>, pattern: Seq<char>, suffix: Seq<char>)
    ensures
        output(seq![prefix + pattern + suffix], pattern) == record(prefix + pattern + suffix),
{
    reveal_with_fuel(Seq::filter, 2);
    let line = prefix + pattern + suffix;
    let lines = seq![line];
    assert(contains(line, pattern)) by {
        lemma_built_line_holds_pattern(prefix, pattern, suffix);
    }
    assert(lines.drop_last() =~= Seq::<Seq<char>>::empty());
    assert(selected(lines, pattern) =~= lines);
    assert(rendered(lines) =~= record(line)) by {
        reveal_with_fuel(rendered, 2);
    }
}

/// A text built around a pattern is found: where `prefix + pattern + suffix`
/// is not empty and holds no line feed, it is a single line, and a scan of
/// the text for the pattern writes that line's record and nothing else.
pub proof fn lemma_built_text_is_found(prefix: Seq<char>, pattern: Seq<char>, suffix: Seq<char>)
    requires
        (prefix + pattern + suffix).len() > 0,
        forall|i: int|
            0 <= i < (prefix + pattern + suffix).len() ==> (prefix + pattern + suffix)[i] != '\n',
    ensures
        output(lines_of(prefix + pattern + suffix), pattern) == record(prefix + pattern + suffix),
{
    lemma_one_line(prefix + pattern + suffix);
    lemma_built_line_is_found(prefix, pattern, suffix);
}

} // verus!
