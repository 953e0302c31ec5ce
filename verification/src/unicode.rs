//! Executable UTF-8 character encoding and decoding, together with the
//! lemmas about splicing byte sequences at character boundaries that the
//! mutation algorithms rely on.

use vstd::prelude::*;
use vstd::utf8::*;
use vstd::string::StringSliceAdditionalSpecFns;

verus! {

broadcast use vstd::utf8::group_utf8_lib;

/// Relies on `core::char::from_u32`: it returns `Some` exactly for Unicode
/// scalar values, and the returned `char` has the given value.
#[verifier::external_body]
pub(crate) fn char_from_u32_checked(v: u32) -> (c: char)
    requires
        is_scalar(v),
    ensures
        c as u32 == v,
{
    core::char::from_u32(v).unwrap()
}

/// Relies on `core::str::from_utf8`: on valid UTF-8 input it succeeds, and
/// the resulting string slice views exactly the given bytes.
#[verifier::external_body]
pub(crate) fn bytes_as_str(v: &[u8]) -> (r: &str)
    requires
        valid_utf8(v@),
    ensures
        r.spec_bytes() == v@,
{
    core::str::from_utf8(v).unwrap()
}

/// From `encode_utf8(cs) == sb` it follows that `sb` is valid UTF-8 and
/// decodes back to `cs`.
pub proof fn lemma_encode_decode(cs: Seq<char>, sb: Seq<u8>)
    requires
        encode_utf8(cs) == sb,
    ensures
        valid_utf8(sb),
        decode_utf8(sb) == cs,
{
    encode_utf8_valid_utf8(cs);
    encode_utf8_decode_utf8(cs);
}

/// A character boundary always lies between 0 and the sequence length.
pub proof fn lemma_boundary_in_range(b: Seq<u8>, i: int)
    requires
        valid_utf8(b),
        is_char_boundary(b, i),
    ensures
        0 <= i <= b.len(),
{
    if i != 0 {
        assert(!(i < 0 || b.len() < i));
    }
}

/// Concatenating two valid UTF-8 sequences yields a valid sequence with the
/// join at a character boundary, and the decodings concatenate.
pub proof fn lemma_concat_utf8(b1: Seq<u8>, b2: Seq<u8>)
    requires
        valid_utf8(b1),
        valid_utf8(b2),
    ensures
        valid_utf8(b1 + b2),
        is_char_boundary(b1 + b2, b1.len() as int),
        decode_utf8(b1 + b2) == decode_utf8(b1) + decode_utf8(b2),
{
    valid_utf8_concat(b1, b2);
    if b2.len() == 0 {
        assert(b1 + b2 =~= b1);
        is_char_boundary_start_end_of_seq(b1 + b2);
        assert(decode_utf8(b2) =~= Seq::<char>::empty());
        assert(decode_utf8(b1) + decode_utf8(b2) =~= decode_utf8(b1));
    } else {
        assert((b1 + b2)[b1.len() as int] == b2[0]);
        assert(valid_first_scalar(b2));
        assert(!is_continuation_byte(b2[0]));
        is_char_boundary_iff_not_is_continuation_byte(b1 + b2, b1.len() as int);
        decode_utf8_split(b1 + b2, b1.len() as int);
        assert((b1 + b2).subrange(0, b1.len() as int) =~= b1);
        assert((b1 + b2).subrange(b1.len() as int, (b1 + b2).len() as int) =~= b2);
    }
}

/// Splicing: replacing the boundary-aligned span `start..end` of a valid
/// sequence by another valid sequence yields a valid sequence whose decoding
/// is the concatenation of the three decoded parts.
pub proof fn lemma_splice_utf8(b: Seq<u8>, start: int, end: int, mid: Seq<u8>)
    requires
        valid_utf8(b),
        0 <= start <= end <= b.len(),
        is_char_boundary(b, start),
        is_char_boundary(b, end),
        valid_utf8(mid),
    ensures
        valid_utf8(b.take(start) + mid + b.skip(end)),
        decode_utf8(b.take(start) + mid + b.skip(end)) == decode_utf8(b.take(start))
            + decode_utf8(mid) + decode_utf8(b.skip(end)),
        valid_utf8(b.take(start)),
        valid_utf8(b.skip(end)),
{
    valid_utf8_split(b, start);
    valid_utf8_split(b, end);
    assert(b.take(start) =~= b.subrange(0, start));
    assert(b.skip(end) =~= b.subrange(end, b.len() as int));
    lemma_concat_utf8(mid, b.skip(end));
    lemma_concat_utf8(b.take(start), mid + b.skip(end));
    assert(b.take(start) + mid + b.skip(end) =~= b.take(start) + (mid + b.skip(end)));
}

/// The position just past the character starting at boundary `i` is again a
/// character boundary.
pub proof fn lemma_next_boundary(b: Seq<u8>, i: int)
    requires
        valid_utf8(b),
        is_char_boundary(b, i),
        0 <= i < b.len(),
    ensures
        ({
            let w = length_of_first_scalar(b.subrange(i, b.len() as int));
            &&& 1 <= w <= 4
            &&& i + w <= b.len()
            &&& is_char_boundary(b, i + w)
        }),
{
    valid_utf8_split(b, i);
    let tail = b.subrange(i, b.len() as int);
    assert(valid_first_scalar(tail));
    let w = length_of_first_scalar(tail);
    assert(1 <= w <= 4);
    assert(w <= tail.len());
    if i + w == b.len() {
        is_char_boundary_start_end_of_seq(b);
    } else {
        let rest = pop_first_scalar(tail);
        assert(valid_utf8(rest));
        assert(rest.len() > 0);
        assert(valid_first_scalar(rest));
        assert(!is_continuation_byte(rest[0]));
        assert(rest[0] == b[i + w]);
        is_char_boundary_iff_not_is_continuation_byte(b, i + w);
    }
}

/// Classifies the bytes of a scalar's encoding: the first byte is never a
/// continuation byte, all following bytes are.
pub proof fn lemma_encode_scalar_bytes(c: u32)
    requires
        is_scalar(c),
    ensures
        1 <= encode_scalar(c).len() <= 4,
        !is_continuation_byte(encode_scalar(c)[0]),
        forall|i: int|
            1 <= i < encode_scalar(c).len() ==> is_continuation_byte(#[trigger] encode_scalar(c)[i]),
{
    if has_width_1_encoding(c) {
        assert(!is_continuation_byte(leading_byte_width_1(c))) by (bit_vector)
            requires
                has_width_1_encoding(c),
        ;
    } else if has_width_2_encoding(c) {
        assert(is_leading_byte_width_2(leading_byte_width_2(c)) && is_continuation_byte(
            last_continuation_byte(c),
        )) by (bit_vector)
            requires
                has_width_2_encoding(c),
        ;
    } else if has_width_3_encoding(c) {
        assert(is_leading_byte_width_3(leading_byte_width_3(c)) && is_continuation_byte(
            last_continuation_byte(c),
        ) && is_continuation_byte(second_last_continuation_byte(c))) by (bit_vector)
            requires
                has_width_3_encoding(c),
        ;
    } else {
        assert(is_leading_byte_width_4(leading_byte_width_4(c)) && is_continuation_byte(
            last_continuation_byte(c),
        ) && is_continuation_byte(second_last_continuation_byte(c)) && is_continuation_byte(
            third_last_continuation_byte(c),
        )) by (bit_vector)
            requires
                has_width_4_encoding(c),
        ;
    }
}

/// Appending one encoded character to a valid sequence: the appended encoding
/// is exactly the last scalar of the result. This pins down what `pop`
/// returns after a `push`.
pub proof fn lemma_last_scalar_of_append(b: Seq<u8>, c: char)
    requires
        valid_utf8(b),
    ensures
        ({
            let s = b + encode_scalar(c as u32);
            &&& length_of_last_scalar(s) == encode_scalar(c as u32).len()
            &&& decode_last_scalar(s) == c as u32
        }),
{
    char_is_scalar(c);
    let v = c as u32;
    let e = encode_scalar(v);
    let s = b + e;
    let n = s.len() as int;
    lemma_encode_scalar_bytes(v);
    if has_width_1_encoding(v) {
        assert(s[n - 1] == e[0]);
        assert(codepoint_width_1(leading_byte_width_1(v)) == v) by (bit_vector)
            requires
                has_width_1_encoding(v),
        ;
    } else if has_width_2_encoding(v) {
        assert(s[n - 1] == e[1] && s[n - 2] == e[0]);
        assert(codepoint_width_2(leading_byte_width_2(v), last_continuation_byte(v)) == v)
            by (bit_vector)
            requires
                has_width_2_encoding(v),
        ;
    } else if has_width_3_encoding(v) {
        assert(s[n - 1] == e[2] && s[n - 2] == e[1] && s[n - 3] == e[0]);
        assert(codepoint_width_3(
            leading_byte_width_3(v),
            second_last_continuation_byte(v),
            last_continuation_byte(v),
        ) == v) by (bit_vector)
            requires
                has_width_3_encoding(v),
        ;
    } else {
        assert(s[n - 1] == e[3] && s[n - 2] == e[2] && s[n - 3] == e[1] && s[n - 4] == e[0]);
        assert(codepoint_width_4(
            leading_byte_width_4(v),
            third_last_continuation_byte(v),
            second_last_continuation_byte(v),
            last_continuation_byte(v),
        ) == v) by (bit_vector)
            requires
                has_width_4_encoding(v),
        ;
    }
}

/// Encodes one character as its UTF-8 byte sequence.
pub fn encode_char(c: char) -> (r: Vec<u8>)
    ensures
        r@ == encode_scalar(c as u32),
        1 <= r@.len() <= 4,
{
    let v: u32 = c as u32;
    proof {
        char_is_scalar(c);
        assert((v & 0x7F) <= 0x7F && (v & 0x3F) <= 0x3F && ((v >> 6) & 0x1F) <= 0x1F && ((v >> 6)
            & 0x3F) <= 0x3F && ((v >> 12) & 0x0F) <= 0x0F && ((v >> 12) & 0x3F) <= 0x3F && ((v
            >> 18) & 0x7) <= 0x7) by (bit_vector);
    }
    let mut r: Vec<u8> = Vec::new();
    if v < 0x80 {
        r.push((v & 0x7F) as u8);
        proof {
            assert(r@ =~= encode_scalar(v));
        }
    } else if v < 0x800 {
        r.push(0xC0 | (((v >> 6) & 0x1F) as u8));
        r.push(0x80 | ((v & 0x3F) as u8));
        proof {
            assert(r@ =~= encode_scalar(v));
        }
    } else if v < 0x10000 {
        r.push(0xE0 | (((v >> 12) & 0x0F) as u8));
        r.push(0x80 | (((v >> 6) & 0x3F) as u8));
        r.push(0x80 | ((v & 0x3F) as u8));
        proof {
            assert(r@ =~= encode_scalar(v));
        }
    } else {
        r.push(0xF0 | (((v >> 18) & 0x7) as u8));
        r.push(0x80 | (((v >> 12) & 0x3F) as u8));
        r.push(0x80 | (((v >> 6) & 0x3F) as u8));
        r.push(0x80 | ((v & 0x3F) as u8));
        proof {
            assert(r@ =~= encode_scalar(v));
        }
    }
    r
}

proof fn lemma_char_at_widths(tail: Seq<u8>)
    requires
        valid_utf8(tail),
        tail.len() > 0,
    ensures
        valid_first_scalar(tail),
        length_of_first_scalar(tail) <= tail.len(),
        is_scalar(decode_first_scalar(tail)),
{
    assert(valid_first_scalar(tail));
    let v = decode_first_codepoint(tail);
    let b0 = tail[0];
    if is_leading_byte_width_1(b0) {
        assert(v <= 0x7F) by (bit_vector)
            requires
                v == codepoint_width_1(b0) && is_leading_byte_width_1(b0),
        ;
    } else if is_leading_byte_width_2(b0) {
        let b1 = tail[1];
        assert(v <= 0x7FF) by (bit_vector)
            requires
                v == codepoint_width_2(b0, b1),
        ;
    } else if is_leading_byte_width_3(b0) {
        let b1 = tail[1];
        let b2 = tail[2];
        assert(v <= 0xFFFF) by (bit_vector)
            requires
                v == codepoint_width_3(b0, b1, b2),
        ;
    } else {
    }
}

/// Decodes the character starting at byte offset `idx` of `s`, where the
/// bytes `idx..lim` form valid UTF-8. Returns the character and the width of
/// its encoding.
pub fn char_at(s: &[u8], idx: usize, lim: usize) -> (r: (char, usize))
    requires
        idx < lim,
        lim <= s@.len(),
        valid_utf8(s@.subrange(idx as int, lim as int)),
    ensures
        ({
            let tail = s@.subrange(idx as int, lim as int);
            &&& r.1 == length_of_first_scalar(tail)
            &&& 1 <= r.1 <= 4
            &&& idx + r.1 <= lim
            &&& r.0 as u32 == decode_first_scalar(tail)
            &&& encode_scalar(r.0 as u32) == s@.subrange(idx as int, idx + r.1)
        }),
{
    let ghost tail = s@.subrange(idx as int, lim as int);
    proof {
        lemma_char_at_widths(tail);
    }
    let b0: u8 = s[idx];
    proof {
        assert(b0 == tail[0]);
    }
    let (v, w): (u32, usize) = if b0 < 0x80 {
        proof {
            assert(is_leading_byte_width_1(b0));
        }
        (((b0 & 0x7F) as u32), 1)
    } else if b0 < 0xE0 {
        proof {
            assert(is_leading_byte_width_2(b0));
            assert(tail.len() >= 2);
        }
        let b1: u8 = s[idx + 1];
        proof {
            assert(b1 == tail[1]);
        }
        (((((b0 & 0x1F) as u32) << 6u32) | ((b1 & 0x3F) as u32)), 2)
    } else if b0 < 0xF0 {
        proof {
            assert(is_leading_byte_width_3(b0));
            assert(tail.len() >= 3);
        }
        let b1: u8 = s[idx + 1];
        let b2: u8 = s[idx + 2];
        proof {
            assert(b1 == tail[1] && b2 == tail[2]);
        }
        (((((b0 & 0x0F) as u32) << 12u32) | (((b1 & 0x3F) as u32) << 6u32) | ((b2 & 0x3F) as u32)),
            3)
    } else {
        proof {
            assert(is_leading_byte_width_4(b0));
            assert(tail.len() >= 4);
        }
        let b1: u8 = s[idx + 1];
        let b2: u8 = s[idx + 2];
        let b3: u8 = s[idx + 3];
        proof {
            assert(b1 == tail[1] && b2 == tail[2] && b3 == tail[3]);
        }
        (((((b0 & 0x07) as u32) << 18u32) | (((b1 & 0x3F) as u32) << 12u32) | (((b2
            & 0x3F) as u32) << 6u32) | ((b3 & 0x3F) as u32)), 4)
    };
    proof {
        assert(v == decode_first_scalar(tail));
        assert(w == length_of_first_scalar(tail));
        assert(is_scalar(v));
    }
    let c: char = char_from_u32_checked(v);
    proof {
        decode_utf8_first_scalar(tail);
        char_u32_cast(c, v);
        assert(encode_scalar(c as u32) == take_first_scalar(tail));
        assert(take_first_scalar(tail) =~= s@.subrange(idx as int, idx + w));
    }
    (c, w)
}

/// Finds the byte offset at which the last character of the valid span
/// `start..lim` of `s` begins, by scanning backwards over continuation
/// bytes.
pub fn last_char_start(s: &[u8], start: usize, lim: usize) -> (j: usize)
    requires
        start < lim,
        lim <= s@.len(),
        valid_utf8(s@.subrange(start as int, lim as int)),
    ensures
        start <= j < lim,
        is_char_boundary(s@.subrange(start as int, lim as int), j - start),
        length_of_first_scalar(s@.subrange(j as int, lim as int)) == lim - j,
        valid_utf8(s@.subrange(j as int, lim as int)),
{
    let ghost b = s@.subrange(start as int, lim as int);
    let mut j: usize = lim - 1;
    proof {
        is_char_boundary_iff_not_is_continuation_byte(b, 0);
        assert(valid_first_scalar(b));
        assert(!is_continuation_byte(b[0]));
    }
    while s[j] >= 0x80 && s[j] < 0xC0
        invariant
            start <= j < lim,
            lim <= s@.len(),
            b == s@.subrange(start as int, lim as int),
            valid_utf8(b),
            !is_continuation_byte(b[0]),
            forall|k: int| j - start < k < lim - start ==> is_continuation_byte(#[trigger] b[k]),
        decreases j,
    {
        proof {
            assert(b[j - start] == s@[j as int]);
            assert(is_continuation_byte(b[j - start]));
            assert(j > start);
        }
        j = j - 1;
    }
    proof {
        assert(b[j - start] == s@[j as int]);
        assert(!is_continuation_byte(b[j - start]));
        is_char_boundary_iff_not_is_continuation_byte(b, j - start);
        valid_utf8_split(b, j - start);
        let tail = b.subrange(j - start, lim - start);
        assert(tail =~= s@.subrange(j as int, lim as int));
        assert(valid_utf8(tail));
        assert(valid_first_scalar(tail));
        let w = length_of_first_scalar(tail);
        assert(w <= tail.len());
        if w < tail.len() {
            let rest = pop_first_scalar(tail);
            assert(valid_utf8(rest));
            assert(rest.len() > 0);
            assert(valid_first_scalar(rest));
            assert(!is_continuation_byte(rest[0]));
            assert(rest[0] == b[(j - start) + w]);
            assert(is_continuation_byte(b[(j - start) + w]));
            assert(false);
        }
    }
    j
}

/// A span between two character boundaries of a valid sequence is itself
/// valid, and the whole decoding is the concatenation of the three parts.
pub proof fn lemma_mid_valid(b: Seq<u8>, i: int, j: int)
    requires
        valid_utf8(b),
        is_char_boundary(b, i),
        is_char_boundary(b, j),
        0 <= i <= j <= b.len(),
    ensures
        valid_utf8(b.subrange(i, j)),
        decode_utf8(b) == decode_utf8(b.subrange(0, i)) + decode_utf8(b.subrange(i, j))
            + decode_utf8(b.subrange(j, b.len() as int)),
{
    valid_utf8_split(b, j);
    decode_utf8_split(b, j);
    let pre = b.subrange(0, j);
    if i == j {
        assert(b.subrange(i, j) =~= Seq::<u8>::empty());
        assert(decode_utf8(Seq::<u8>::empty()) =~= Seq::<char>::empty());
        valid_utf8_split(b, i);
        decode_utf8_split(b, i);
        assert(b.subrange(0, i) =~= pre);
        assert(decode_utf8(b.subrange(0, i)) + decode_utf8(b.subrange(i, j)) + decode_utf8(
            b.subrange(j, b.len() as int),
        ) =~= decode_utf8(pre) + decode_utf8(b.subrange(j, b.len() as int)));
    } else {
        assert(i < j);
        assert(pre[i] == b[i]);
        is_char_boundary_iff_not_is_continuation_byte(b, i);
        is_char_boundary_iff_not_is_continuation_byte(pre, i);
        valid_utf8_split(pre, i);
        decode_utf8_split(pre, i);
        assert(pre.subrange(0, i) =~= b.subrange(0, i));
        assert(pre.subrange(i, pre.len() as int) =~= b.subrange(i, j));
        assert(decode_utf8(b.subrange(0, i)) + decode_utf8(b.subrange(i, j)) + decode_utf8(
            b.subrange(j, b.len() as int),
        ) =~= (decode_utf8(pre.subrange(0, i)) + decode_utf8(pre.subrange(i, pre.len() as int)))
            + decode_utf8(b.subrange(j, b.len() as int)));
    }
}

/// The encoding of a one-character sequence is the character's scalar
/// encoding, and decodes back to that character.
pub proof fn lemma_single_char(c: char)
    ensures
        encode_utf8(seq![c]) == encode_scalar(c as u32),
        valid_utf8(encode_scalar(c as u32)),
        decode_utf8(encode_scalar(c as u32)) == seq![c],
{
    char_is_scalar(c);
    assert(seq![c].len() == 1);
    assert(seq![c][0] == c);
    assert(seq![c].drop_first() =~= Seq::<char>::empty());
    assert(encode_utf8(Seq::<char>::empty()) =~= Seq::<u8>::empty());
    assert(encode_utf8(seq![c]) =~= encode_scalar(c as u32) + encode_utf8(seq![c].drop_first()));
    assert(encode_scalar(c as u32) + Seq::<u8>::empty() =~= encode_scalar(c as u32));
    lemma_encode_decode(seq![c], encode_utf8(seq![c]));
}

/// Encoding distributes over concatenation of character sequences.
pub proof fn lemma_encode_append(c1: Seq<char>, c2: Seq<char>)
    ensures
        encode_utf8(c1 + c2) == encode_utf8(c1) + encode_utf8(c2),
    decreases c1.len(),
{
    if c1.len() == 0 {
        assert(c1 + c2 =~= c2);
        assert(encode_utf8(c1) =~= Seq::<u8>::empty());
        assert(encode_utf8(c1) + encode_utf8(c2) =~= encode_utf8(c2));
    } else {
        lemma_encode_append(c1.drop_first(), c2);
        assert((c1 + c2).drop_first() =~= c1.drop_first() + c2);
        assert((c1 + c2)[0] == c1[0]);
        assert(encode_utf8(c1 + c2) =~= encode_scalar(c1[0] as u32) + encode_utf8(
            (c1 + c2).drop_first(),
        ));
        assert(encode_scalar(c1[0] as u32) + (encode_utf8(c1.drop_first()) + encode_utf8(c2)) =~= (
        encode_scalar(c1[0] as u32) + encode_utf8(c1.drop_first())) + encode_utf8(c2));
        assert(encode_utf8(c1) =~= encode_scalar(c1[0] as u32) + encode_utf8(c1.drop_first()));
    }
}

/// The characters of `cs` selected by the mask `keep`, in order.
pub open spec fn mask_chars(cs: Seq<char>, keep: Seq<bool>) -> Seq<char>
    recommends
        keep.len() == cs.len(),
    decreases cs.len(),
{
    if cs.len() == 0 {
        seq![]
    } else {
        mask_chars(cs.drop_last(), keep.drop_last()) + if keep.len() == cs.len() && keep.last() {
            seq![cs.last()]
        } else {
            seq![]
        }
    }
}

} // verus!
