//! Where matching lines go.

use std::convert::Infallible;
use vstd::prelude::*;
use vstd::string::*;
use vstd::utf8::*;
use crate::encoding::LINE_FEED;

verus! {

/// The record that stands for `line` in the output: its UTF-8 bytes, then
/// one line feed.
pub open spec fn record(line: Seq<char>) -> Seq<u8> {
    encode_utf8(line).push(LINE_FEED)
}

/// A receiver of records that takes them one at a time.
pub trait LineSink {
    /// What the sink reports when it turns a record down.
    type Failure;

    /// Every byte the sink has taken so far.
    spec fn written(&self) -> Seq<u8>;

    /// Holds of a sink that takes whatever it is given.
    spec fn infallible(&self) -> bool;

    /// Appends the record of `line`. A sink that fails may have taken the
    /// beginning of the record; nothing that it took earlier goes away.
    fn write_line(&mut self, line: &str) -> (outcome: Result<(), Self::Failure>)
        ensures
            outcome is Ok ==> final(self).written() == old(self).written() + record(line@),
            outcome is Err ==> exists|part: Seq<u8>|
                part.is_prefix_of(record(line@)) && final(self).written() == old(self).written()
                    + part,
            old(self).infallible() ==> outcome is Ok,
            final(self).infallible() == old(self).infallible(),
    ;
}

/// A byte vector takes every record at its end.
impl LineSink for Vec<u8> {
    type Failure = Infallible;

    open spec fn written(&self) -> Seq<u8> {
        self@
    }

    open spec fn infallible(&self) -> bool {
        true
    }

    fn write_line(&mut self, line: &str) -> (outcome: Result<(), Infallible>) {
        self.extend_from_slice(line.as_bytes());
        self.push(LINE_FEED);
        proof {
            assert(self@ =~= old(self)@ + record(line@));
        }
        Ok(())
    }
}

/// What a capped sink reports when a record does not fit.
#[derive(Debug, Clone, Copy, PartialEq, Eq)]
pub struct Full;

/// A sink that holds its bytes in memory and takes no more than a fixed
/// number of them.
pub struct Capped {
    bytes: Vec<u8>,
    limit: usize,
}

impl Capped {
    /// How many more bytes the sink takes.
    pub closed spec fn room(&self) -> nat {
        if self.bytes@.len() <= self.limit {
            (self.limit - self.bytes@.len()) as nat
        } else {
            0
        }
    }

    /// An empty sink that takes `limit` bytes.
    pub fn new(limit: usize) -> (sink: Self)
        ensures
            sink.written() == Seq::<u8>::empty(),
            sink.room() == limit,
    {
        Capped { bytes: Vec::new(), limit }
    }

    /// The bytes taken so far.
    pub fn bytes(&self) -> (taken: &Vec<u8>)
        ensures
            taken@ == self.written(),
    {
        &self.bytes
    }
}

/// A capped sink takes of each record what fits. It fails on the record
/// that does not fit whole, and on every record after it.
impl LineSink for Capped {
    type Failure = Full;

    closed spec fn written(&self) -> Seq<u8> {
        self.bytes@
    }

    open spec fn infallible(&self) -> bool {
        false
    }

    fn write_line(&mut self, line: &str) -> (outcome: Result<(), Full>)
        ensures
            outcome is Ok <==> record(line@).len() <= old(self).room(),
            outcome is Ok ==> final(self).room() == old(self).room() - record(line@).len(),
            outcome is Err ==> final(self).room() == 0 && final(self).written() == old(
                self,
            ).written() + record(line@).take(old(self).room() as int),
    {
        let bytes = line.as_bytes();
        let count: usize = bytes.len();
        let mut i: usize = 0;
        while i < count
            invariant
                i <= count,
                count == bytes@.len(),
                bytes@ == encode_utf8(line@),
                self.limit == old(self).limit,
                self.bytes@ == old(self).bytes@ + bytes@.take(i as int),
                i <= old(self).room(),
            decreases count - i,
        {
            if self.bytes.len() >= self.limit {
                proof {
                    assert(bytes@.take(i as int) =~= record(line@).take(i as int));
                    assert(bytes@.take(i as int).is_prefix_of(record(line@)));
                }
                return Err(Full);
            }
            self.bytes.push(bytes[i]);
            proof {
                assert(bytes@.take(i + 1) =~= bytes@.take(i as int).push(bytes@[i as int]));
            }
            i += 1;
        }
        if self.bytes.len() >= self.limit {
            proof {
                assert(bytes@.take(count as int) =~= record(line@).take(count as int));
                assert(bytes@.take(count as int).is_prefix_of(record(line@)));
            }
            return Err(Full);
        }
        self.bytes.push(LINE_FEED);
        proof {
            assert(bytes@.take(count as int) =~= bytes@);
            assert(self.bytes@ =~= old(self).bytes@ + record(line@));
        }
        Ok(())
    }
}

} // verus!
