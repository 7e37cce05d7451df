//! Where lines come from.

use std::collections::VecDeque;
use vstd::prelude::*;

verus! {

/// What one read hands over, as the contracts see it: the characters of a
/// line, or the failure that the source reported in its place.
pub open spec fn read_view<F>(read: Result<String, F>) -> Result<Seq<char>, F> {
    match read {
        Ok(line) => Ok(line@),
        Err(failure) => Err(failure),
    }
}

/// Each of `lines` as a read that succeeded.
pub open spec fn good_reads<F>(lines: Seq<Seq<char>>) -> Seq<Result<Seq<char>, F>> {
    lines.map_values(|line: Seq<char>| Ok::<Seq<char>, F>(line))
}

/// The lines that a source hands over before its first failure; all of its
/// lines if it never fails.
pub open spec fn readable<F>(events: Seq<Result<Seq<char>, F>>) -> Seq<Seq<char>>
    decreases events.len(),
{
    if events.len() == 0 {
        Seq::empty()
    } else {
        match events[0] {
            Ok(line) => seq![line] + readable(events.drop_first()),
            Err(_) => Seq::empty(),
        }
    }
}

/// The first failure among what a source hands over, if there is one.
pub open spec fn first_failure<F>(events: Seq<Result<Seq<char>, F>>) -> Option<F>
    decreases events.len(),
{
    if events.len() == 0 {
        None
    } else {
        match events[0] {
            Ok(_) => first_failure(events.drop_first()),
            Err(failure) => Some(failure),
        }
    }
}

/// Reads that all succeeded are readable to the last, and no failure is
/// among them.
pub proof fn lemma_good_reads<F>(lines: Seq<Seq<char>>)
    ensures
        readable(good_reads::<F>(lines)) == lines,
        first_failure(good_reads::<F>(lines)) is None,
    decreases lines.len(),
{
    let events = good_reads::<F>(lines);
    if lines.len() > 0 {
        lemma_good_reads::<F>(lines.drop_first());
        assert(events.drop_first() =~= good_reads::<F>(lines.drop_first()));
        assert(lines =~= seq![lines[0]] + lines.drop_first());
    } else {
        assert(readable(events) =~= lines);
    }
}

/// A supply of text lines that hands them over one at a time.
pub trait LineSource {
    /// What the source reports when it cannot produce a line.
    type Failure;

    /// Everything the source has yet to hand over, in order. An entry is a
    /// line without its terminator, or the failure met in reading one.
    spec fn pending(&self) -> Seq<Result<Seq<char>, Self::Failure>>;

    /// Hands over the first pending entry, or `None` once nothing is
    /// pending.
    fn next_line(&mut self) -> (event: Option<Result<String, Self::Failure>>)
        ensures
            old(self).pending().len() == 0 ==> event is None && final(self).pending()
                == old(self).pending(),
            old(self).pending().len() > 0 ==> event is Some && read_view(event->0) == old(
                self,
            ).pending()[0] && final(self).pending() == old(self).pending().drop_first(),
    ;
}

/// Reads made earlier, handed over again in the order in which they were
/// recorded.
pub struct Replay<F> {
    reads: VecDeque<Result<String, F>>,
}

impl<F> Replay<F> {
    /// The recorded reads that are yet to be handed over.
    pub closed spec fn reads(&self) -> Seq<Result<String, F>> {
        self.reads@
    }

    /// A source with nothing recorded.
    pub fn new() -> (replay: Self)
        ensures
            replay.reads() == Seq::<Result<String, F>>::empty(),
    {
        Replay { reads: VecDeque::new() }
    }

    /// Records `read` behind the reads recorded so far.
    pub fn push(&mut self, read: Result<String, F>)
        ensures
            final(self).reads() == old(self).reads().push(read),
    {
        self.reads.push_back(read);
    }
}

impl<F> LineSource for Replay<F> {
    type Failure = F;

    open spec fn pending(&self) -> Seq<Result<Seq<char>, F>> {
        self.reads().map_values(|read: Result<String, F>| read_view(read))
    }

    fn next_line(&mut self) -> (event: Option<Result<String, F>>) {
        let event = self.reads.pop_front();
        proof {
            if event is Some {
                assert(self.pending() =~= old(self).pending().drop_first());
            }
        }
        event
    }
}

} // verus!
