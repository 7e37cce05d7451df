//! Literal containment of one sequence in another.

use vstd::prelude::*;
use vstd::string::*;
use vstd::utf8::*;
use crate::encoding::{lemma_decode_concat, lemma_encode_concat, lemma_valid_suffix};

verus! {

/// `needle` stands in `hay` as a contiguous run that starts at index `at`.
pub open spec fn occurs_at<T>(hay: Seq<T>, needle: Seq<T>, at: int) -> bool {
    &&& 0 <= at
    &&& at + needle.len() <= hay.len()
    &&& hay.subrange(at, at + needle.len()) == needle
}

/// `needle` stands somewhere in `hay` as a contiguous run.
pub open spec fn contains<T>(hay: Seq<T>, needle: Seq<T>) -> bool {
    exists|at: int| occurs_at(hay, needle, at)
}

/// A character sequence contains another exactly when its UTF-8 bytes
/// contain the other's bytes: no encoded character can begin in the middle
/// of another one.
pub proof fn lemma_contains_encoded(hay: Seq<char>, needle: Seq<char>)
    ensures
        contains(encode_utf8(hay), encode_utf8(needle)) <==> contains(hay, needle),
{
    let hay_bytes = encode_utf8(hay);
    let needle_bytes = encode_utf8(needle);
    if contains(hay, needle) {
        let at = choose|at: int| occurs_at(hay, needle, at);
        let before = hay.subrange(0, at);
        let after = hay.subrange(at + needle.len(), hay.len() as int);
        assert(hay.subrange(at, at + needle.len()) == needle);
        assert(hay =~= before + needle + after);
        lemma_encode_concat(before, needle);
        lemma_encode_concat(before + needle, after);
        let offset = encode_utf8(before).len() as int;
        assert(hay_bytes.subrange(offset, offset + needle_bytes.len()) =~= needle_bytes);
        assert(occurs_at(hay_bytes, needle_bytes, offset));
    }
    if contains(hay_bytes, needle_bytes) {
        if needle.len() == 0 {
            assert(hay.subrange(0, 0) =~= needle);
            assert(occurs_at(hay, needle, 0));
        } else {
            let offset = choose|at: int| occurs_at(hay_bytes, needle_bytes, at);
            let end = offset + needle_bytes.len();
            encode_utf8_valid_utf8(hay);
            encode_utf8_valid_utf8(needle);
            encode_utf8_first_scalar(needle);
            assert(needle_bytes.len() > 0);
            assert(hay_bytes.subrange(offset, end)[0] == needle_bytes[0]);
            assert(!is_continuation_byte(hay_bytes[offset]));
            is_char_boundary_iff_not_is_continuation_byte(hay_bytes, offset);
            valid_utf8_split(hay_bytes, offset);
            let head = hay_bytes.subrange(0, offset);
            let tail = hay_bytes.subrange(offset, hay_bytes.len() as int);
            let rest = hay_bytes.subrange(end, hay_bytes.len() as int);
            assert(tail =~= needle_bytes + rest);
            lemma_valid_suffix(needle_bytes, rest);
            lemma_decode_concat(needle_bytes, rest);
            lemma_decode_concat(head, tail);
            assert(hay_bytes =~= head + tail);
            encode_utf8_decode_utf8(hay);
            encode_utf8_decode_utf8(needle);
            let before = decode_utf8(head);
            assert(hay == before + (needle + decode_utf8(rest)));
            let at = before.len() as int;
            assert(hay.subrange(at, at + needle.len()) =~= needle);
            assert(occurs_at(hay, needle, at));
        }
    }
}

/// Whether `needle` stands in `hay` from byte `at` on.
pub fn starts_at(hay: &[u8], needle: &[u8], at: usize) -> (found: bool)
    ensures
        found == occurs_at(hay@, needle@, at as int),
{
    let length: usize = hay.len();
    let width: usize = needle.len();
    if at > length || width > length - at {
        return false;
    }
    let mut j: usize = 0;
    while j < width
        invariant
            j <= width,
            width == needle@.len(),
            length == hay@.len(),
            at + width <= length,
            forall|k: int| 0 <= k < j ==> hay@[at + k] == needle@[k],
        decreases width - j,
    {
        if hay[at + j] != needle[j] {
            proof {
                let window = hay@.subrange(at as int, at + width);
                assert(window[j as int] == hay@[at + j]);
            }
            return false;
        }
        j += 1;
    }
    proof {
        assert(hay@.subrange(at as int, at + width) =~= needle@);
    }
    true
}

/// Whether the bytes of `needle` stand somewhere in `hay`.
pub fn bytes_contain(hay: &[u8], needle: &[u8]) -> (found: bool)
    ensures
        found == contains(hay@, needle@),
{
    let length: usize = hay.len();
    let width: usize = needle.len();
    if width == 0 {
        proof {
            assert(hay@.subrange(0, 0) =~= needle@);
            assert(occurs_at(hay@, needle@, 0));
        }
        return true;
    }
    if width > length {
        return false;
    }
    let last: usize = length - width;
    let mut at: usize = 0;
    while at <= last
        invariant
            at <= last + 1,
            last + width == length,
            0 < width,
            length == hay@.len(),
            width == needle@.len(),
            forall|k: int| 0 <= k < at ==> !occurs_at(hay@, needle@, k),
        decreases last + 1 - at,
    {
        if starts_at(hay, needle, at) {
            return true;
        }
        at += 1;
    }
    false
}

/// The match decision for one line: whether `pattern` stands in `line` as
/// it is written, character for character. Nothing is trimmed and no case
/// is folded. The empty pattern stands in every line.
pub fn line_contains(line: &str, pattern: &str) -> (found: bool)
    ensures
        found == contains(line@, pattern@),
{
    proof {
        lemma_contains_encoded(line@, pattern@);
    }
    bytes_contain(line.as_bytes(), pattern.as_bytes())
}

} // verus!
