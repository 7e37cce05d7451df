//! Lines of a text held in memory.

use std::convert::Infallible;
use vstd::prelude::*;
use vstd::string::*;
use vstd::utf8::*;
use crate::encoding::{
    lemma_encode_around_ascii, lemma_encode_ascii, lemma_encode_injective, lemma_first_ascii,
    lemma_split_text, CARRIAGE_RETURN, LINE_FEED,
};
use crate::source::{good_reads, LineSource};

verus! {

/// Where the first line feed of `text` stands; the length of `text` where
/// it holds none.
pub open spec fn first_line_feed(text: Seq<char>) -> int
    decreases text.len(),
{
    if text.len() == 0 || text[0] == '\n' {
        0
    } else {
        1 + first_line_feed(text.drop_first())
    }
}

/// `line` without the carriage return at its end, if it ends in one.
pub open spec fn without_return(line: Seq<char>) -> Seq<char> {
    if line.len() > 0 && line.last() == '\r' {
        line.drop_last()
    } else {
        line
    }
}

/// The lines of `text`. A line ends at a line feed or at the end of the
/// text; the line feed, and a carriage return directly before it, are its
/// terminator and no part of the line. Nothing follows the last line feed
/// of a text that ends in one: the empty text has no line.
pub open spec fn lines_of(text: Seq<char>) -> Seq<Seq<char>>
    decreases text.len(),
{
    let cut = first_line_feed(text);
    if text.len() == 0 {
        Seq::empty()
    } else if 0 <= cut < text.len() {
        seq![without_return(text.take(cut))] + lines_of(text.skip(cut + 1))
    } else {
        seq![text]
    }
}

/// The first line feed stands within the text or at its end, after
/// characters that are no line feeds.
pub proof fn lemma_first_line_feed(text: Seq<char>)
    ensures
        0 <= first_line_feed(text) <= text.len(),
        forall|i: int| 0 <= i < first_line_feed(text) ==> text[i] != '\n',
        first_line_feed(text) < text.len() ==> text[first_line_feed(text)] == '\n',
    decreases text.len(),
{
    if text.len() == 0 || text[0] == '\n' {
    } else {
        let rest = text.drop_first();
        lemma_first_line_feed(rest);
        assert forall|i: int| 0 <= i < first_line_feed(text) implies text[i] != '\n' by {
            if i > 0 {
                assert(text[i] == rest[i - 1]);
            }
        }
        if first_line_feed(text) < text.len() {
            assert(text[first_line_feed(text)] == rest[first_line_feed(rest)]);
        }
    }
}

/// A text without a line feed before index `at`, and with one there or
/// ending there, has its first line feed at `at`.
pub proof fn lemma_first_line_feed_at(text: Seq<char>, at: int)
    requires
        0 <= at <= text.len(),
        forall|i: int| 0 <= i < at ==> text[i] != '\n',
        at < text.len() ==> text[at] == '\n',
    ensures
        first_line_feed(text) == at,
{
    lemma_first_line_feed(text);
    let found = first_line_feed(text);
    if found < at {
        assert(text[found] == '\n');
    }
}

/// A text that is not empty and holds no line feed is one line.
pub proof fn lemma_one_line(text: Seq<char>)
    requires
        text.len() > 0,
        forall|i: int| 0 <= i < text.len() ==> text[i] != '\n',
    ensures
        lines_of(text) == seq![text],
{
    lemma_first_line_feed_at(text, text.len() as int);
}

/// Where the bytes of `text` hold no line feed before the byte `end`, and
/// that byte is a line feed or the end of the bytes, the bytes before `end`
/// are those of the characters before the first line feed of `text`.
proof fn lemma_cut_at_byte(text: Seq<char>, head: Seq<char>, tail: Seq<char>, end: int)
    requires
        0 <= end <= encode_utf8(text).len(),
        forall|k: int| 0 <= k < end ==> encode_utf8(text)[k] != LINE_FEED,
        end < encode_utf8(text).len() ==> encode_utf8(text)[end] == LINE_FEED,
        encode_utf8(head) == encode_utf8(text).subrange(0, end),
        encode_utf8(tail) == encode_utf8(text).subrange(end, encode_utf8(text).len() as int),
    ensures
        text == head + tail,
        first_line_feed(text) == head.len(),
        end == encode_utf8(text).len() ==> tail.len() == 0,
{
    let bytes = encode_utf8(text);
    lemma_split_text(text, head, tail, end);
    assert forall|i: int| 0 <= i < head.len() implies text[i] != '\n' by {
        assert(text[i] == head[i]);
        if head[i] == '\n' {
            lemma_encode_around_ascii(head, i);
            let offset = encode_utf8(head.take(i)).len() as int;
            assert(encode_utf8(head).len() == end);
            assert(encode_utf8(head)[offset] == LINE_FEED);
            assert(bytes.subrange(0, end)[offset] == bytes[offset]);
        }
    }
    if end == bytes.len() {
        assert(encode_utf8(tail) =~= encode_utf8(Seq::<char>::empty()));
        lemma_encode_injective(tail, Seq::<char>::empty());
    } else {
        assert(encode_utf8(tail)[0] == LINE_FEED);
        lemma_first_ascii(tail);
        char_u32_cast(tail[0], 0x0A);
        char_u32_cast('\n', 0x0A);
    }
    lemma_first_line_feed_at(text, head.len() as int);
}

/// The lines of a text held in memory, handed over one after the other.
pub struct TextLines<'a> {
    rest: &'a str,
}

impl<'a> TextLines<'a> {
    /// The text whose lines are yet to be handed over.
    pub closed spec fn remaining(&self) -> Seq<char> {
        self.rest@
    }

    /// A source of the lines of `text`.
    pub fn new(text: &'a str) -> (lines: Self)
        ensures
            lines.remaining() == text@,
            lines.pending() == good_reads::<Infallible>(lines_of(text@)),
    {
        TextLines { rest: text }
    }
}

impl<'a> LineSource for TextLines<'a> {
    type Failure = Infallible;

    open spec fn pending(&self) -> Seq<Result<Seq<char>, Infallible>> {
        good_reads(lines_of(self.remaining()))
    }

    fn next_line(&mut self) -> (event: Option<Result<String, Infallible>>) {
        let text: &'a str = self.rest;
        if text.is_empty() {
            return None;
        }
        let bytes = text.as_bytes();
        let length: usize = bytes.len();
        let mut end: usize = 0;
        while end < length && bytes[end] != LINE_FEED
            invariant
                end <= length,
                length == bytes@.len(),
                forall|k: int| 0 <= k < end ==> bytes@[k] != LINE_FEED,
            decreases length - end,
        {
            end += 1;
        }
        proof {
            encode_utf8_valid_utf8(text@);
            is_char_boundary_start_end_of_seq(bytes@);
            if end < length {
                is_char_boundary_iff_not_is_continuation_byte(bytes@, end as int);
            }
        }
        let (head, tail) = text.split_at(end);
        proof {
            lemma_cut_at_byte(text@, head@, tail@, end as int);
        }
        if end == length {
            self.rest = tail;
            proof {
                assert(head@ =~= text@);
                assert(lines_of(tail@) =~= Seq::<Seq<char>>::empty());
                assert(good_reads::<Infallible>(lines_of(text@)).drop_first() =~= good_reads::<
                    Infallible,
                >(lines_of(tail@)));
            }
            return Some(Ok(head.to_owned()));
        }
        proof {
            encode_utf8_valid_utf8(tail@);
            reveal_with_fuel(is_char_boundary, 2);
            assert(is_char_boundary(tail.spec_bytes(), 1));
        }
        let (feed, after) = tail.split_at(1);
        self.rest = after;
        proof {
            lemma_split_text(tail@, feed@, after@, 1);
            lemma_encode_ascii('\n');
            assert(encode_utf8(feed@) =~= seq![LINE_FEED]);
            lemma_encode_injective(feed@, seq!['\n']);
            assert(text@ =~= head@ + seq!['\n'] + after@);
            assert(text@.take(head@.len() as int) =~= head@);
            assert(text@.skip(head@.len() as int + 1) =~= after@);
            assert(good_reads::<Infallible>(lines_of(text@)).drop_first() =~= good_reads::<
                Infallible,
            >(lines_of(after@)));
        }
        if end > 0 && bytes[end - 1] == CARRIAGE_RETURN {
            proof {
                encode_utf8_valid_utf8(head@);
                is_char_boundary_iff_not_is_continuation_byte(head.spec_bytes(), end - 1);
            }
            let (line, ending) = head.split_at(end - 1);
            proof {
                lemma_split_text(head@, line@, ending@, end - 1);
                lemma_encode_ascii('\r');
                assert(encode_utf8(ending@) =~= seq![CARRIAGE_RETURN]);
                lemma_encode_injective(ending@, seq!['\r']);
                assert(head@ =~= line@ + seq!['\r']);
                assert(head@.drop_last() =~= line@);
            }
            Some(Ok(line.to_owned()))
        } else {
            proof {
                if head@.len() > 0 && head@.last() == '\r' {
                    let last = head@.len() - 1;
                    lemma_encode_around_ascii(head@, last);
                    assert(head@.skip(last + 1) =~= Seq::<char>::empty());
                    assert(encode_utf8(head@).last() == CARRIAGE_RETURN);
                }
            }
            Some(Ok(head.to_owned()))
        }
    }
}

} // verus!
