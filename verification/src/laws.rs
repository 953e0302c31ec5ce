//! The crate's laws: properties that relate several operations, stated over
//! the spec functions the operations' contracts use, and proved once and for
//! all. Properties of a single operation stand in that operation's own
//! `ensures` instead: promotion monotony in `clear`, `truncate` and
//! `shrink_to_fit`, drained characters in `drain` and the cursor methods,
//! and the unchanged capacity of a same-length `replace_range` in its
//! contract.

use vstd::prelude::*;
use vstd::utf8::*;

use crate::unicode::{lemma_encode_decode, lemma_last_scalar_of_append, mask_chars};

verus! {

broadcast use vstd::utf8::group_utf8_lib;

/// Building a string from text and reading it back yields that text:
/// decoding inverts encoding. Together with `new_str`'s contract, which
/// fixes the bytes to `encode_utf8(text@)` and the representation to heap
/// exactly when those bytes exceed the inline capacity, and `as_str`'s,
/// which returns `decode_utf8` of the bytes, the round trip is the identity.
pub proof fn lemma_new_str_as_str(text: Seq<char>)
    ensures
        decode_utf8(encode_utf8(text)) == text,
{
    lemma_encode_decode(text, encode_utf8(text));
}

/// A `push` followed by a `pop` on previously non-empty content restores the
/// content and returns the pushed character: appending one character's
/// encoding to valid bytes can be read back in only one way, so the
/// decomposition in `pop`'s contract is exactly the one `push` made.
pub proof fn lemma_push_then_pop(b1: Seq<u8>, c1: char, b2: Seq<u8>, c2: char)
    requires
        valid_utf8(b1),
        valid_utf8(b2),
        b1 + encode_scalar(c1 as u32) == b2 + encode_scalar(c2 as u32),
    ensures
        b1 == b2,
        c1 == c2,
{
    lemma_last_scalar_of_append(b1, c1);
    lemma_last_scalar_of_append(b2, c2);
    let s = b1 + encode_scalar(c1 as u32);
    assert(decode_last_scalar(s) == c1 as u32);
    assert(decode_last_scalar(s) == c2 as u32);
    char_u32_cast(c1, c1 as u32);
    char_u32_cast(c2, c1 as u32);
    assert(c1 == c2);
    assert(encode_scalar(c1 as u32).len() == encode_scalar(c2 as u32).len());
    assert(b1 =~= b2) by {
        assert(b1.len() == b2.len());
        assert(forall|i: int| 0 <= i < b1.len() ==> b1[i] == s[i] && b2[i] == s[i]);
    }
}

/// An `insert_str` at a boundary-aligned offset, immediately followed by a
/// `remove_range` of exactly the inserted span, restores the original
/// content, for any content `b`, inserted bytes `a` and offset `idx`.
pub proof fn lemma_insert_then_remove_range(b: Seq<u8>, a: Seq<u8>, idx: int)
    requires
        0 <= idx <= b.len(),
    ensures
        ({
            let inserted = b.take(idx) + a + b.skip(idx);
            inserted.take(idx) + inserted.skip(idx + a.len()) == b
        }),
{
    let inserted = b.take(idx) + a + b.skip(idx);
    assert(inserted.take(idx) =~= b.take(idx));
    assert(inserted.skip(idx + a.len()) =~= b.skip(idx));
    assert(b.take(idx) + b.skip(idx) =~= b);
}

/// `retain` with a predicate that holds of every character is the identity
/// on the content: a mask that keeps everything selects the whole sequence.
pub proof fn lemma_retain_keep_all(cs: Seq<char>, keep: Seq<bool>)
    requires
        keep.len() == cs.len(),
        forall|i: int| 0 <= i < keep.len() ==> keep[i],
    ensures
        mask_chars(cs, keep) == cs,
    decreases cs.len(),
{
    if cs.len() == 0 {
        assert(mask_chars(cs, keep) =~= cs);
    } else {
        lemma_retain_keep_all(cs.drop_last(), keep.drop_last());
        assert(mask_chars(cs, keep) =~= cs.drop_last() + seq![cs.last()]);
        assert(cs.drop_last() + seq![cs.last()] =~= cs);
    }
}

/// `retain` with a predicate that holds of no character empties the content:
/// a mask that keeps nothing selects the empty sequence. That the value is
/// not demoted from the heap is part of `retain`'s own contract.
pub proof fn lemma_retain_keep_none(cs: Seq<char>, keep: Seq<bool>)
    requires
        keep.len() == cs.len(),
        forall|i: int| 0 <= i < keep.len() ==> !keep[i],
    ensures
        mask_chars(cs, keep) == Seq::<char>::empty(),
    decreases cs.len(),
{
    if cs.len() == 0 {
        assert(mask_chars(cs, keep) =~= Seq::<char>::empty());
    } else {
        lemma_retain_keep_none(cs.drop_last(), keep.drop_last());
        assert(mask_chars(cs, keep) =~= Seq::<char>::empty());
    }
}

} // verus!
