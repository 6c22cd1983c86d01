//! Where the characters of a text stand among the bytes of its UTF-8
//! encoding.

use vstd::prelude::*;
use vstd::utf8::{
    decode_first_scalar, encode_scalar, encode_utf8, encode_utf8_decode_utf8,
    encode_utf8_first_scalar, encode_utf8_valid_utf8, is_char_boundary,
    is_char_boundary_iff_not_is_continuation_byte, is_char_boundary_start_end_of_seq,
    is_continuation_byte, length_of_first_scalar,
};

verus! {

/// The index, among the bytes of `s`, of the first byte of the character at
/// index `i` of `s`, and the number of its bytes for `i == s.len()`.
pub open spec fn offset(s: Seq<char>, i: int) -> int {
    encode_utf8(s.take(i)).len() as int
}

/// Encoding a text in two pieces gives the pieces of its encoding.
pub proof fn lemma_encode_concat(a: Seq<char>, b: Seq<char>)
    ensures
        encode_utf8(a + b) == encode_utf8(a) + encode_utf8(b),
    decreases a.len(),
{
    if a.len() == 0 {
        assert(a + b =~= b);
        assert(encode_utf8(a) + encode_utf8(b) =~= encode_utf8(b));
    } else {
        lemma_encode_concat(a.drop_first(), b);
        assert((a + b).drop_first() =~= a.drop_first() + b);
        assert(encode_scalar(a[0] as u32) + (encode_utf8(a.drop_first()) + encode_utf8(b))
            =~= encode_utf8(a) + encode_utf8(b));
    }
}

/// The bytes of `s` between the offsets of two of its indices encode the
/// characters between the two.
pub proof fn lemma_encode_window(s: Seq<char>, i: int, j: int)
    requires
        0 <= i <= j <= s.len(),
    ensures
        0 <= offset(s, i) <= offset(s, j) <= encode_utf8(s).len(),
        encode_utf8(s).subrange(offset(s, i), offset(s, j)) == encode_utf8(s.subrange(i, j)),
        offset(s, 0) == 0,
        offset(s, s.len() as int) == encode_utf8(s).len(),
{
    let head = s.take(i);
    let mid = s.subrange(i, j);
    let tail = s.skip(j);
    assert(s.take(j) =~= head + mid);
    assert(s =~= s.take(j) + tail);
    lemma_encode_concat(head, mid);
    lemma_encode_concat(s.take(j), tail);
    assert(encode_utf8(s).subrange(offset(s, i), offset(s, j)) =~= encode_utf8(mid));
    assert(s.take(0) =~= Seq::<char>::empty());
    assert(s.take(s.len() as int) =~= s);
}

/// The number of a character is the same as an `int` and as a `u32`.
pub proof fn lemma_char_number(c: char)
    ensures
        c as int == (c as u32) as int,
        0 <= c as int <= 0x10ffff,
{
}

/// The character at index `i` of `s` and its bytes: a byte below 128 is the
/// whole character, and has its number; any other byte starts a character
/// of a number from 128 on, which goes on in continuation bytes up to the
/// offset of the next character.
pub proof fn lemma_char_bytes(s: Seq<char>, i: int)
    requires
        0 <= i < s.len(),
    ensures
        ({
            let bytes = encode_utf8(s);
            let p = offset(s, i);
            let q = offset(s, i + 1);
            &&& 0 <= p < q <= bytes.len()
            &&& !is_continuation_byte(bytes[p])
            &&& bytes[p] < 0x80 <==> s[i] < '\u{80}'
            &&& bytes[p] < 0x80 ==> s[i] == bytes[p] as char && q == p + 1
            &&& forall|j: int| p < j < q ==> is_continuation_byte(#[trigger] bytes[j])
        }),
{
    let bytes = encode_utf8(s);
    let p = offset(s, i);
    let q = offset(s, i + 1);
    lemma_encode_window(s, i, i + 1);
    lemma_encode_window(s, i, s.len() as int);
    let rest = s.subrange(i, s.len() as int);
    let tail = bytes.subrange(p, bytes.len() as int);
    assert(tail == encode_utf8(rest));
    encode_utf8_first_scalar(rest);
    assert(rest[0] == s[i]);
    lemma_char_number(s[i]);
    let one = s.subrange(i, i + 1);
    assert(one[0] == s[i]);
    assert(one.drop_first() =~= Seq::<char>::empty());
    assert(encode_utf8(one.drop_first()) =~= Seq::<u8>::empty());
    assert(encode_utf8(one) =~= encode_scalar(s[i] as u32));
    assert(q - p == length_of_first_scalar(tail));
    assert(decode_first_scalar(tail) == s[i] as u32);
    assert(tail[0] == bytes[p]);
    let b0 = tail[0];
    if b0 <= 0x7f {
        assert((b0 & 0x7f) as u32 == b0 as u32) by (bit_vector)
            requires
                b0 <= 0x7f,
        ;
    }
    assert forall|j: int| p < j < q implies is_continuation_byte(#[trigger] bytes[j]) by {
        assert(bytes[j] == tail[j - p]);
    }
}

/// A text has no more characters than bytes.
pub proof fn lemma_offset_grows(s: Seq<char>, i: int)
    requires
        0 <= i <= s.len(),
    ensures
        i <= offset(s, i),
    decreases i,
{
    if i > 0 {
        lemma_offset_grows(s, i - 1);
        lemma_char_bytes(s, i - 1);
    } else {
        lemma_encode_window(s, 0, 0);
    }
}

/// A text whose bytes are those of `s` between the offsets of two of its
/// indices holds the characters of `s` between the two.
pub proof fn lemma_window_view(s: Seq<char>, i: int, j: int, t: Seq<char>)
    requires
        0 <= i <= j <= s.len(),
        encode_utf8(t) == encode_utf8(s).subrange(offset(s, i), offset(s, j)),
    ensures
        t == s.subrange(i, j),
{
    lemma_encode_window(s, i, j);
    encode_utf8_decode_utf8(t);
    encode_utf8_decode_utf8(s.subrange(i, j));
}

/// The offset of the next index lies behind the offset of an index by the
/// number of bytes that encode the character there.
pub proof fn lemma_offset_step(s: Seq<char>, i: int)
    requires
        0 <= i < s.len(),
    ensures
        offset(s, i + 1) == offset(s, i) + encode_scalar(s[i] as u32).len(),
{
    lemma_encode_window(s, i, i + 1);
    let one = s.subrange(i, i + 1);
    assert(one[0] == s[i]);
    assert(one.drop_first() =~= Seq::<char>::empty());
    assert(encode_utf8(one.drop_first()) =~= Seq::<u8>::empty());
    assert(encode_utf8(one) =~= encode_scalar(s[i] as u32));
}

/// The offset of every index of `s` is a character boundary of its bytes.
pub proof fn lemma_offset_is_boundary(s: Seq<char>, i: int)
    requires
        0 <= i <= s.len(),
    ensures
        is_char_boundary(encode_utf8(s), offset(s, i)),
{
    let bytes = encode_utf8(s);
    encode_utf8_valid_utf8(s);
    lemma_encode_window(s, i, s.len() as int);
    if i < s.len() {
        lemma_char_bytes(s, i);
        is_char_boundary_iff_not_is_continuation_byte(bytes, offset(s, i));
    } else {
        is_char_boundary_start_end_of_seq(bytes);
    }
}

/// The number of bytes that encode `c`.
pub fn width(c: char) -> (n: usize)
    ensures
        n == encode_scalar(c as u32).len(),
        1 <= n <= 4,
{
    let x: u32 = c as u32;
    if x < 0x80 {
        1
    } else if x < 0x800 {
        2
    } else if x < 0x10000 {
        3
    } else {
        4
    }
}

/// The text of `input` between two of its indices, which are given by
/// their offsets.
pub(crate) fn window<'a>(
    input: &'a str,
    Ghost(i): Ghost<int>,
    Ghost(j): Ghost<int>,
    from: usize,
    to: usize,
) -> (r: &'a str)
    requires
        0 <= i <= j <= input@.len(),
        from == offset(input@, i),
        to == offset(input@, j),
    ensures
        r@ == input@.subrange(i, j),
{
    let ghost s = input@;
    proof {
        lemma_offset_is_boundary(s, j);
        lemma_encode_window(s, 0, j);
        lemma_encode_window(s, i, j);
    }
    let (head, _) = input.split_at(to);
    proof {
        assert(s.subrange(0, j) =~= s.take(j));
        lemma_window_view(s, 0, j, head@);
        assert(head@ =~= s.take(j));
        assert(head@.take(i) =~= s.take(i));
        lemma_offset_is_boundary(head@, i);
        lemma_encode_window(head@, i, j);
    }
    let (_, r) = head.split_at(from);
    proof {
        assert(head@.subrange(i, j) =~= s.subrange(i, j));
        lemma_window_view(head@, i, j, r@);
    }
    r
}

} // verus!
