//! Facts about the UTF-8 bytes of character sequences.

use vstd::prelude::*;
use vstd::utf8::*;

verus! {

/// The byte of a line feed.
pub const LINE_FEED: u8 = 0x0A;

/// The byte of a carriage return.
pub const CARRIAGE_RETURN: u8 = 0x0D;

/// Encoding a concatenation gives the concatenation of the encodings.
pub proof fn lemma_encode_concat(a: Seq<char>, b: Seq<char>)
    ensures
        encode_utf8(a + b) == encode_utf8(a) + encode_utf8(b),
    decreases a.len(),
{
    if a.len() == 0 {
        assert(a + b =~= b);
        assert(encode_utf8(a) + encode_utf8(b) =~= encode_utf8(b));
    } else {
        lemma_encode_concat(a.drop_first(), b);
        assert((a + b).drop_first() =~= a.drop_first() + b);
        assert(encode_utf8(a + b) =~= encode_utf8(a) + encode_utf8(b));
    }
}

/// Decoding a concatenation of two valid encodings gives the concatenation
/// of what each decodes to.
pub proof fn lemma_decode_concat(x: Seq<u8>, y: Seq<u8>)
    requires
        valid_utf8(x),
        valid_utf8(y),
    ensures
        valid_utf8(x + y),
        decode_utf8(x + y) == decode_utf8(x) + decode_utf8(y),
{
    decode_utf8_encode_utf8(x);
    decode_utf8_encode_utf8(y);
    lemma_encode_concat(decode_utf8(x), decode_utf8(y));
    encode_utf8_decode_utf8(decode_utf8(x) + decode_utf8(y));
    valid_utf8_concat(x, y);
}

/// What follows a valid encoding inside a valid encoding is valid too.
pub proof fn lemma_valid_suffix(x: Seq<u8>, y: Seq<u8>)
    requires
        valid_utf8(x),
        valid_utf8(x + y),
    ensures
        valid_utf8(y),
    decreases x.len(),
{
    if x.len() == 0 {
        assert(x + y =~= y);
    } else {
        let whole = x + y;
        assert(whole[0] == x[0]);
        assert(x.len() >= 2 ==> whole[1] == x[1]);
        assert(x.len() >= 3 ==> whole[2] == x[2]);
        assert(x.len() >= 4 ==> whole[3] == x[3]);
        assert(length_of_first_scalar(whole) == length_of_first_scalar(x));
        assert(pop_first_scalar(whole) =~= pop_first_scalar(x) + y);
        lemma_valid_suffix(pop_first_scalar(x), y);
    }
}

/// Two character sequences with the same encoding are the same sequence.
pub proof fn lemma_encode_injective(a: Seq<char>, b: Seq<char>)
    requires
        encode_utf8(a) == encode_utf8(b),
    ensures
        a == b,
{
    encode_utf8_decode_utf8(a);
    encode_utf8_decode_utf8(b);
}

/// A text whose bytes fall into two encodings at `mid` is the two decoded
/// parts, one after the other.
pub proof fn lemma_split_text(whole: Seq<char>, left: Seq<char>, right: Seq<char>, mid: int)
    requires
        0 <= mid <= encode_utf8(whole).len(),
        encode_utf8(left) == encode_utf8(whole).subrange(0, mid),
        encode_utf8(right) == encode_utf8(whole).subrange(mid, encode_utf8(whole).len() as int),
    ensures
        whole == left + right,
{
    lemma_encode_concat(left, right);
    assert(encode_utf8(left) + encode_utf8(right) =~= encode_utf8(whole));
    lemma_encode_injective(left + right, whole);
}

/// A character below 128 is encoded as the one byte of the same number.
pub proof fn lemma_encode_ascii(c: char)
    requires
        (c as u32) < 0x80,
    ensures
        encode_utf8(seq![c]) == seq![c as u8],
{
    let scalar = c as u32;
    assert(leading_byte_width_1(scalar) == scalar as u8) by (bit_vector)
        requires
            scalar < 0x80,
    ;
    reveal_with_fuel(encode_utf8, 2);
    assert(seq![c].drop_first() =~= Seq::<char>::empty());
    assert(encode_utf8(seq![c]) =~= seq![c as u8]);
}

/// A character below 128 shows in the encoding as its own byte, between
/// the bytes of what stands before it and the bytes of what stands after
/// it.
pub proof fn lemma_encode_around_ascii(chars: Seq<char>, at: int)
    requires
        0 <= at < chars.len(),
        (chars[at] as u32) < 0x80,
    ensures
        encode_utf8(chars) == encode_utf8(chars.take(at)) + seq![chars[at] as u8] + encode_utf8(
            chars.skip(at + 1),
        ),
{
    let before = chars.take(at);
    let after = chars.skip(at + 1);
    assert(chars =~= before + seq![chars[at]] + after);
    lemma_encode_concat(before, seq![chars[at]]);
    lemma_encode_concat(before + seq![chars[at]], after);
    lemma_encode_ascii(chars[at]);
}

/// The encoding of a text that begins with a byte below 128 begins with the
/// character of that number.
pub proof fn lemma_first_ascii(chars: Seq<char>)
    requires
        encode_utf8(chars).len() > 0,
        encode_utf8(chars)[0] < 0x80,
    ensures
        chars.len() > 0,
        chars[0] as u32 == encode_utf8(chars)[0] as u32,
{
    let first = encode_utf8(chars)[0];
    encode_utf8_first_scalar(chars);
    assert(first & 0x7F == first) by (bit_vector)
        requires
            first < 0x80u8,
    ;
}

} // verus!
