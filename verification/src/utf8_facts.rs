//! Facts about the UTF-8 encoding of character sequences that the format
//! proofs use: encoding distributes over concatenation, and an ASCII byte
//! occurs in an encoding exactly where its character occurs.
use vstd::prelude::*;
use vstd::utf8::*;
use crate::text::lacks;

verus! {

/// Encoding a concatenation is concatenating the encodings.
pub proof fn lemma_encode_concat(a: Seq<char>, b: Seq<char>)
    ensures
        encode_utf8(a + b) == encode_utf8(a) + encode_utf8(b),
    decreases a.len(),
{
    if a.len() == 0 {
        assert(a + b =~= b);
        assert(encode_utf8(a) + encode_utf8(b) =~= encode_utf8(b));
    } else {
        assert((a + b)[0] == a[0]);
        assert((a + b).drop_first() =~= a.drop_first() + b);
        lemma_encode_concat(a.drop_first(), b);
        assert(encode_utf8(a + b) =~= encode_scalar(a[0] as u32) + (encode_utf8(a.drop_first())
            + encode_utf8(b)));
    }
}

proof fn lemma_width_1_byte(x: u32)
    requires
        x < 0x80,
    ensures
        leading_byte_width_1(x) == x as u8,
{
    assert((x & 0x7F) as u8 == x as u8) by (bit_vector)
        requires
            x < 0x80,
    ;
}

proof fn lemma_high_bytes(x: u32)
    ensures
        leading_byte_width_2(x) >= 0x80,
        leading_byte_width_3(x) >= 0x80,
        leading_byte_width_4(x) >= 0x80,
        last_continuation_byte(x) >= 0x80,
        second_last_continuation_byte(x) >= 0x80,
        third_last_continuation_byte(x) >= 0x80,
{
    assert(0xC0 | ((x >> 6) & 0x1F) as u8 >= 0x80) by (bit_vector);
    assert(0xE0 | ((x >> 12) & 0x0F) as u8 >= 0x80) by (bit_vector);
    assert(0xF0 | ((x >> 18) & 0x7) as u8 >= 0x80) by (bit_vector);
    assert(0x80 | (x & 0x3F) as u8 >= 0x80) by (bit_vector);
    assert(0x80 | ((x >> 6) & 0x3F) as u8 >= 0x80) by (bit_vector);
    assert(0x80 | ((x >> 12) & 0x3F) as u8 >= 0x80) by (bit_vector);
}

/// The encoding of one character: a single byte below 0x80 for ASCII, and
/// only bytes from 0x80 on otherwise.
pub proof fn lemma_encode_scalar_bytes(c: char)
    ensures
        (c as u32) < 0x80 ==> encode_scalar(c as u32) == seq![(c as u32) as u8],
        (c as u32) >= 0x80 ==> forall|i: int|
            0 <= i < encode_scalar(c as u32).len() ==> #[trigger] encode_scalar(c as u32)[i] >= 0x80,
        encode_scalar(c as u32).len() > 0,
{
    let x = c as u32;
    if x < 0x80 {
        lemma_width_1_byte(x);
    } else {
        lemma_high_bytes(x);
    }
}

/// The encoding of a one-character sequence is that character's encoding.
pub proof fn lemma_encode_single(c: char)
    ensures
        encode_utf8(seq![c]) == encode_scalar(c as u32),
{
    let t = seq![c];
    assert(t[0] == c);
    assert(t.drop_first() =~= Seq::<char>::empty());
    assert(encode_utf8(Seq::<char>::empty()) == Seq::<u8>::empty());
    assert(encode_utf8(t) == encode_scalar(t[0] as u32) + encode_utf8(t.drop_first()));
    assert(encode_utf8(t) =~= encode_scalar(c as u32));
}

/// Distinct characters have distinct code points.
pub proof fn lemma_char_code_injective(c: char, d: char)
    requires
        c != d,
    ensures
        (c as u32) != (d as u32),
{
    char_u32_cast(c, c as u32);
    char_u32_cast(d, d as u32);
}

/// The encoding of a single ASCII character is that character's byte.
pub proof fn lemma_encode_ascii(c: char)
    requires
        (c as u32) < 0x80,
    ensures
        encode_utf8(seq![c]) == seq![(c as u32) as u8],
{
    lemma_encode_scalar_bytes(c);
    lemma_encode_single(c);
}

/// An ASCII character absent from `s` leaves no byte of its value in the
/// encoding of `s`.
pub proof fn lemma_encode_lacks(s: Seq<char>, c: char)
    requires
        (c as u32) < 0x80,
        lacks(s, c),
    ensures
        lacks(encode_utf8(s), (c as u32) as u8),
    decreases s.len(),
{
    if s.len() > 0 {
        lemma_encode_lacks(s.drop_first(), c);
        let d = s[0];
        lemma_encode_scalar_bytes(d);
        let e = encode_scalar(d as u32);
        let r = encode_utf8(s.drop_first());
        assert(encode_utf8(s) == e + r);
        assert forall|i: int| 0 <= i < encode_utf8(s).len() implies encode_utf8(s)[i] != (
        c as u32) as u8 by {
            if i < e.len() {
                assert(encode_utf8(s)[i] == e[i]);
                if (d as u32) < 0x80 {
                    assert(d != c);
                    lemma_char_code_injective(d, c);
                }
            } else {
                assert(encode_utf8(s)[i] == r[i - e.len()]);
            }
        }
    }
}

/// When `s` does not end with the ASCII character `c`, its encoding does not
/// end with `c`'s byte.
pub proof fn lemma_encode_last(s: Seq<char>, c: char)
    requires
        (c as u32) < 0x80,
        s.len() > 0,
        s.last() != c,
    ensures
        encode_utf8(s).len() > 0,
        encode_utf8(s).last() != (c as u32) as u8,
{
    let d = s.last();
    lemma_encode_concat(s.drop_last(), seq![d]);
    assert(s.drop_last() + seq![d] =~= s);
    lemma_encode_scalar_bytes(d);
    lemma_encode_single(d);
    let e = encode_scalar(d as u32);
    assert(encode_utf8(s).last() == e.last());
    if (d as u32) < 0x80 {
        lemma_char_code_injective(d, c);
    } else {
        assert(e[e.len() - 1] >= 0x80);
    }
}

} // verus!
