//! The string value itself: a two-variant sum over the inline and the heap
//! storage, with one-way promotion from inline to heap.
//!
//! The view of a value is its UTF-8 byte sequence; `wf()` states that the
//! bytes are valid UTF-8 and the active buffer is well formed. Character
//! content is spoken of through `vstd::utf8::decode_utf8` of the view.
//!
//! Every mutation is one instance of splicing: replacing a boundary-aligned
//! byte span by replacement bytes. The private `splice_bytes` performs the
//! in-place byte moves once for both representations, and each public
//! operation adds the UTF-8 reasoning on top.

use vstd::prelude::*;
use vstd::utf8::*;

use crate::byte_ops::{copy_down, copy_in, copy_up, lemma_splice_shift};
use crate::drain::Drain;
use crate::heap::{grown_cap, HeapBuffer};
use crate::inline::InlineBuffer;
use crate::unicode::{
    bytes_as_str, char_at, encode_char, last_char_start, lemma_boundary_in_range,
    char_from_u32_checked, lemma_concat_utf8, lemma_encode_append, lemma_encode_decode,
    lemma_mid_valid, lemma_next_boundary, lemma_single_char, lemma_splice_utf8, mask_chars,
};
use crate::utf16::{
    combined_scalar, utf16_chars, utf16_chars_lossy, utf16_first_invalid, utf16_valid,
    DecodeUtf16Error,
};
use crate::SSO_CAPACITY;

verus! {

broadcast use vstd::utf8::group_utf8_lib;

/// A UTF-8 string which stores short content inline and is transparently
/// promoted to heap storage when the content outgrows the inline capacity.
/// Promotion is one-way: clearing or shrinking never demotes.
#[derive(Debug, Clone)]
pub enum String {
    /// Heap-allocated representation.
    Heap(HeapBuffer),
    /// Inline (small-string) representation.
    Sso(InlineBuffer),
}

impl View for String {
    type V = Seq<u8>;

    open spec fn view(&self) -> Seq<u8> {
        match self {
            String::Heap(h) => h@,
            String::Sso(b) => b@,
        }
    }
}

impl String {
    /// The active buffer's own invariant.
    pub open spec fn buf_wf(&self) -> bool {
        match self {
            String::Heap(h) => h.wf(),
            String::Sso(b) => b.wf(),
        }
    }

    /// Well-formedness: the bytes are valid UTF-8 and the active buffer's own
    /// invariant holds.
    pub open spec fn wf(&self) -> bool {
        &&& valid_utf8(self@)
        &&& self.buf_wf()
    }

    /// Whether the value currently uses heap storage.
    pub open spec fn spec_is_alloc(&self) -> bool {
        self is Heap
    }

    /// The capacity the value reports: the fixed inline capacity, or the heap
    /// buffer's reservation.
    pub open spec fn spec_capacity(&self) -> int {
        match self {
            String::Heap(h) => h.spec_cap(),
            String::Sso(_) => SSO_CAPACITY as int,
        }
    }

    /// The representation after an operation leaves the content `new_len`
    /// bytes long: heap values stay heap, inline values are promoted exactly
    /// when the inline capacity is exceeded.
    pub open spec fn spec_alloc_after(&self, new_len: int) -> bool {
        self.spec_is_alloc() || new_len > SSO_CAPACITY as int
    }

    /// The capacity after an operation leaves the content `new_len` bytes
    /// long: unchanged while it suffices, the exact requirement on promotion,
    /// and amortized growth on the heap.
    pub open spec fn spec_cap_after(&self, new_len: int) -> int {
        if !self.spec_is_alloc() {
            if new_len <= SSO_CAPACITY as int {
                SSO_CAPACITY as int
            } else {
                new_len
            }
        } else {
            grown_cap(self.spec_capacity(), new_len)
        }
    }

    /// Creates a new empty instance, in the inline representation.
    pub fn new() -> (r: String)
        ensures
            r.wf(),
            r@ == Seq::<u8>::empty(),
            !r.spec_is_alloc(),
            r.spec_capacity() == SSO_CAPACITY as int,
    {
        String::Sso(InlineBuffer::new())
    }

    /// Creates a new instance with the provided initial value, choosing the
    /// representation by length.
    pub fn new_str(text: &str) -> (r: String)
        ensures
            r.wf(),
            r@ == encode_utf8(text@),
            r.spec_is_alloc() == (encode_utf8(text@).len() > SSO_CAPACITY as int),
            r.spec_capacity() == if encode_utf8(text@).len() > SSO_CAPACITY as int {
                encode_utf8(text@).len() as int
            } else {
                SSO_CAPACITY as int
            },
    {
        match InlineBuffer::from_str_checked(text) {
            Ok(sso) => String::Sso(sso),
            Err(_) => {
                let b: &[u8] = text.as_bytes();
                proof {
                    lemma_encode_decode(text@, b@);
                }
                String::Heap(HeapBuffer::from_slice(b))
            },
        }
    }

    /// Creates a new inline instance; the text must fit the inline capacity.
    pub fn new_sso(text: &str) -> (r: String)
        requires
            encode_utf8(text@).len() <= SSO_CAPACITY as int,
        ensures
            r.wf(),
            r@ == encode_utf8(text@),
            !r.spec_is_alloc(),
            r.spec_capacity() == SSO_CAPACITY as int,
    {
        let b: &[u8] = text.as_bytes();
        proof {
            lemma_encode_decode(text@, b@);
        }
        String::Sso(InlineBuffer::from_slice(b))
    }

    /// Creates a new empty instance with the specified capacity: inline if it
    /// fits, otherwise already heap-allocated.
    pub fn with_capacity(capacity: usize) -> (r: String)
        ensures
            r.wf(),
            r@ == Seq::<u8>::empty(),
            r.spec_is_alloc() == (capacity > SSO_CAPACITY),
            r.spec_capacity() == if capacity > SSO_CAPACITY {
                capacity as int
            } else {
                SSO_CAPACITY as int
            },
    {
        if capacity <= SSO_CAPACITY {
            String::new()
        } else {
            String::Heap(HeapBuffer::with_capacity(capacity))
        }
    }

    /// Returns whether the string is heap allocated.
    pub fn is_alloc(&self) -> (r: bool)
        ensures
            r == self.spec_is_alloc(),
    {
        match self {
            String::Heap(_) => true,
            String::Sso(_) => false,
        }
    }

    /// Returns the length of the underlying byte storage.
    pub fn len(&self) -> (r: usize)
        requires
            self.buf_wf(),
        ensures
            r == self@.len(),
    {
        match self {
            String::Heap(h) => h.len(),
            String::Sso(b) => b.len(),
        }
    }

    /// Returns whether the string is empty.
    pub fn is_empty(&self) -> (r: bool)
        requires
            self.buf_wf(),
        ensures
            r == (self@.len() == 0),
    {
        self.len() == 0
    }

    /// Returns the number of bytes the underlying storage can hold without
    /// growing.
    pub fn capacity(&self) -> (r: usize)
        requires
            self.buf_wf(),
        ensures
            r == self.spec_capacity(),
    {
        match self {
            String::Heap(h) => h.capacity(),
            String::Sso(_) => SSO_CAPACITY,
        }
    }

    /// Access to the content as bytes.
    pub fn as_bytes(&self) -> (r: &[u8])
        ensures
            r@ == self@,
    {
        match self {
            String::Heap(h) => h.as_slice(),
            String::Sso(b) => b.as_slice_total(),
        }
    }

    /// The content as a string slice.
    pub fn as_str(&self) -> (r: &str)
        requires
            self.wf(),
        ensures
            encode_utf8(r@) == self@,
            r@ == decode_utf8(self@),
    {
        let b: &[u8] = self.as_bytes();
        let s: &str = bytes_as_str(b);
        proof {
            lemma_encode_decode(s@, self@);
        }
        s
    }

    /// Copies the inline content into a fresh heap buffer of the given
    /// reservation. Promotion is the only caller.
    fn assert_heap_from_sso(&self, capacity: usize) -> (h: HeapBuffer)
        requires
            self.buf_wf(),
            !self.spec_is_alloc(),
            self@.len() <= capacity,
        ensures
            h.wf(),
            h@ == self@,
            h.spec_cap() == capacity,
    {
        match self {
            String::Sso(b) => {
                let mut h = HeapBuffer::with_capacity(capacity);
                h.extend_from_slice(b.as_slice());
                h
            },
            String::Heap(_) => vstd::pervasive::unreached(),
        }
    }

    /// The one shared mutation primitive: replaces the byte span
    /// `start..end` by `rep`, shifting the tail in place. Purely byte-level;
    /// callers establish UTF-8 validity of the outcome. Promotes an inline
    /// value exactly when the new length exceeds the inline capacity.
    fn splice_bytes(&mut self, start: usize, end: usize, rep: &[u8])
        requires
            old(self).buf_wf(),
            start <= end,
            end <= old(self)@.len(),
            old(self)@.len() - (end - start) + rep@.len() <= usize::MAX,
        ensures
            final(self).buf_wf(),
            final(self)@ == old(self)@.take(start as int) + rep@ + old(self)@.skip(end as int),
            final(self).spec_is_alloc() == old(self).spec_alloc_after(
                old(self)@.len() - (end - start) + rep@.len(),
            ),
            final(self).spec_capacity() == old(self).spec_cap_after(
                old(self)@.len() - (end - start) + rep@.len(),
            ),
    {
        let l: usize = self.len();
        let rl: usize = rep.len();
        let removed: usize = end - start;
        let nl: usize = l - removed + rl;
        let ghost v = old(self)@;
        if !self.is_alloc() && nl > SSO_CAPACITY {
            let h = self.assert_heap_from_sso(nl);
            *self = String::Heap(h);
        }
        match self {
            String::Heap(h) => {
                if nl > l {
                    h.reserve(nl - l);
                    h.grow_zeroes(nl - l);
                    proof {
                        assert(grown_cap(h.spec_cap(), nl as int) >= nl as int);
                    }
                }
                let ghost f0 = h@;
                proof {
                    assert(f0.take(l as int) =~= v);
                    lemma_splice_shift(f0, start as int, end as int, l as int, rep@);
                }
                let s: &mut [u8] = h.slice_mut();
                if start + rl >= end {
                    copy_up(s, end, start + rl, l - end);
                } else {
                    copy_down(s, end, start + rl, l - end);
                }
                copy_in(s, start, rep);
                proof {
                    let f1 = f0.take(start + rl) + f0.subrange(end as int, l as int) + f0.skip(
                        nl as int,
                    );
                    assert(h@ == f1.take(start as int) + rep@ + f1.skip(start + rl));
                }
                if nl < l {
                    h.truncate(nl);
                }
                proof {
                    assert(h@ =~= v.take(start as int) + rep@ + v.skip(end as int));
                }
            },
            String::Sso(b) => {
                let ghost f0 = b.spec_full();
                proof {
                    assert(f0.take(l as int) =~= v);
                    lemma_splice_shift(f0, start as int, end as int, l as int, rep@);
                }
                let s: &mut [u8] = b.slice_mut();
                if start + rl >= end {
                    copy_up(s, end, start + rl, l - end);
                } else {
                    copy_down(s, end, start + rl, l - end);
                }
                copy_in(s, start, rep);
                proof {
                    let f1 = f0.take(start + rl) + f0.subrange(end as int, l as int) + f0.skip(
                        nl as int,
                    );
                    assert(b.spec_full() == f1.take(start as int) + rep@ + f1.skip(start + rl));
                }
                b.set_len(nl);
                proof {
                    assert(b@ =~= v.take(start as int) + rep@ + v.skip(end as int));
                }
            },
        }
    }

    /// Clears the content, leaving representation and capacity intact:
    /// a heap value stays heap.
    pub fn clear(&mut self)
        requires
            old(self).wf(),
        ensures
            final(self).wf(),
            final(self)@ == Seq::<u8>::empty(),
            final(self).spec_is_alloc() == old(self).spec_is_alloc(),
            final(self).spec_capacity() == old(self).spec_capacity(),
    {
        match self {
            String::Heap(h) => h.clear(),
            String::Sso(b) => {
                b.set_len(0);
                proof {
                    assert(b@ =~= Seq::<u8>::empty());
                }
            },
        }
    }

    /// Shortens the string to `new_len` bytes, which must lie on a character
    /// boundary; does nothing when `new_len` is not below the current length.
    /// Representation and capacity are untouched.
    pub fn truncate(&mut self, new_len: usize)
        requires
            old(self).wf(),
            new_len < old(self)@.len() ==> is_char_boundary(old(self)@, new_len as int),
        ensures
            final(self).wf(),
            final(self)@ == if new_len < old(self)@.len() {
                old(self)@.take(new_len as int)
            } else {
                old(self)@
            },
            final(self).spec_is_alloc() == old(self).spec_is_alloc(),
            final(self).spec_capacity() == old(self).spec_capacity(),
    {
        let l: usize = self.len();
        if new_len >= l {
            return ;
        }
        proof {
            valid_utf8_split(self@, new_len as int);
            assert(self@.take(new_len as int) =~= self@.subrange(0, new_len as int));
        }
        match self {
            String::Heap(h) => h.truncate(new_len),
            String::Sso(b) => {
                let ghost prev = b@;
                b.set_len(new_len);
                proof {
                    assert(b@ =~= prev.take(new_len as int));
                }
            },
        }
    }

    /// Reserves space for at least `additional` further bytes. An inline
    /// value whose inline capacity cannot cover the requirement is promoted
    /// to the heap; it is never demoted.
    pub fn reserve(&mut self, additional: usize)
        requires
            old(self).wf(),
            old(self)@.len() + additional <= usize::MAX,
        ensures
            final(self).wf(),
            final(self)@ == old(self)@,
            final(self).spec_is_alloc() == (old(self).spec_is_alloc() || old(self)@.len()
                + additional > SSO_CAPACITY as int),
            final(self).spec_capacity() == if old(self)@.len() + additional
                <= old(self).spec_capacity() {
                old(self).spec_capacity()
            } else if !old(self).spec_is_alloc() {
                (old(self)@.len() + additional) as int
            } else {
                grown_cap(old(self).spec_capacity(), (old(self)@.len() + additional) as int)
            },
    {
        let capacity: usize = self.capacity();
        let required: usize = self.len() + additional;
        if required <= capacity {
            return ;
        }
        match self {
            String::Sso(_) => {
                let h = self.assert_heap_from_sso(required);
                *self = String::Heap(h);
            },
            String::Heap(h) => h.reserve(additional),
        }
    }

    /// Reserves space for exactly `additional` further bytes, without
    /// amortized slack; promotes exactly as `reserve` does.
    pub fn reserve_exact(&mut self, additional: usize)
        requires
            old(self).wf(),
            old(self)@.len() + additional <= usize::MAX,
        ensures
            final(self).wf(),
            final(self)@ == old(self)@,
            final(self).spec_is_alloc() == (old(self).spec_is_alloc() || old(self)@.len()
                + additional > SSO_CAPACITY as int),
            final(self).spec_capacity() == if old(self)@.len() + additional
                <= old(self).spec_capacity() {
                old(self).spec_capacity()
            } else {
                (old(self)@.len() + additional) as int
            },
    {
        let capacity: usize = self.capacity();
        let required: usize = self.len() + additional;
        if required <= capacity {
            return ;
        }
        match self {
            String::Sso(_) => {
                let h = self.assert_heap_from_sso(required);
                *self = String::Heap(h);
            },
            String::Heap(h) => h.reserve_exact(additional),
        }
    }

    /// Shrinks the capacity to match the length. Does nothing while the
    /// string is not heap allocated, and never demotes a heap value.
    pub fn shrink_to_fit(&mut self)
        requires
            old(self).wf(),
        ensures
            final(self).wf(),
            final(self)@ == old(self)@,
            final(self).spec_is_alloc() == old(self).spec_is_alloc(),
            final(self).spec_capacity() == if old(self).spec_is_alloc() {
                old(self)@.len() as int
            } else {
                SSO_CAPACITY as int
            },
    {
        match self {
            String::Heap(h) => h.shrink_to_fit(),
            String::Sso(_) => (),
        }
    }

    /// Appends the given string at the end, promoting first if the inline
    /// remaining capacity is insufficient.
    pub fn push_str(&mut self, string: &str)
        requires
            old(self).wf(),
            old(self)@.len() + encode_utf8(string@).len() <= usize::MAX,
        ensures
            final(self).wf(),
            final(self)@ == old(self)@ + encode_utf8(string@),
            decode_utf8(final(self)@) == decode_utf8(old(self)@) + string@,
            final(self).spec_is_alloc() == old(self).spec_alloc_after(
                (old(self)@.len() + encode_utf8(string@).len()) as int,
            ),
            final(self).spec_capacity() == old(self).spec_cap_after(
                (old(self)@.len() + encode_utf8(string@).len()) as int,
            ),
    {
        let sb: &[u8] = string.as_bytes();
        proof {
            lemma_encode_decode(string@, sb@);
        }
        let l: usize = self.len();
        let ghost v = self@;
        self.splice_bytes(l, l, sb);
        proof {
            assert(v.take(l as int) =~= v);
            assert(v.skip(l as int) =~= Seq::<u8>::empty());
            assert(v.take(l as int) + sb@ + v.skip(l as int) =~= v + sb@);
            lemma_concat_utf8(v, sb@);
        }
    }

    /// Appends the given character at the end.
    pub fn push(&mut self, ch: char)
        requires
            old(self).wf(),
            old(self)@.len() + encode_scalar(ch as u32).len() <= usize::MAX,
        ensures
            final(self).wf(),
            final(self)@ == old(self)@ + encode_scalar(ch as u32),
            decode_utf8(final(self)@) == decode_utf8(old(self)@).push(ch),
            final(self).spec_is_alloc() == old(self).spec_alloc_after(
                (old(self)@.len() + encode_scalar(ch as u32).len()) as int,
            ),
            final(self).spec_capacity() == old(self).spec_cap_after(
                (old(self)@.len() + encode_scalar(ch as u32).len()) as int,
            ),
    {
        let eb: Vec<u8> = encode_char(ch);
        let l: usize = self.len();
        let ghost v = self@;
        self.splice_bytes(l, l, eb.as_slice());
        proof {
            lemma_single_char(ch);
            assert(v.take(l as int) =~= v);
            assert(v.skip(l as int) =~= Seq::<u8>::empty());
            assert(v.take(l as int) + eb@ + v.skip(l as int) =~= v + eb@);
            lemma_concat_utf8(v, eb@);
            assert(decode_utf8(v) + seq![ch] =~= decode_utf8(v).push(ch));
        }
    }

    /// Removes and returns the last character, if there is any. The
    /// representation and the capacity never change.
    pub fn pop(&mut self) -> (r: Option<char>)
        requires
            old(self).wf(),
        ensures
            final(self).wf(),
            final(self).spec_is_alloc() == old(self).spec_is_alloc(),
            final(self).spec_capacity() == old(self).spec_capacity(),
            old(self)@.len() == 0 ==> r is None && final(self)@ == old(self)@,
            old(self)@.len() > 0 ==> (r matches Some(c) && final(self)@ + encode_scalar(c as u32)
                == old(self)@ && decode_utf8(old(self)@) == decode_utf8(final(self)@).push(c)),
    {
        let l: usize = self.len();
        if l == 0 {
            return None;
        }
        let ghost v = self@;
        proof {
            assert(v.subrange(0, l as int) =~= v);
        }
        let j: usize = last_char_start(self.as_bytes(), 0, l);
        let (c, w): (char, usize) = char_at(self.as_bytes(), j, l);
        proof {
            assert(j + w == l);
            assert(encode_scalar(c as u32) == v.subrange(j as int, l as int));
            valid_utf8_split(v, j as int);
        }
        let none: Vec<u8> = Vec::new();
        self.splice_bytes(j, l, none.as_slice());
        proof {
            assert(self@ =~= v.take(j as int));
            assert(v.subrange(j as int, l as int) =~= v.skip(j as int));
            assert(v.take(j as int) + encode_scalar(c as u32) =~= v);
            assert(v.take(j as int) =~= v.subrange(0, j as int));
            lemma_concat_utf8(v.take(j as int), encode_scalar(c as u32));
            lemma_single_char(c);
            assert(decode_utf8(v.take(j as int)) + seq![c] =~= decode_utf8(
                v.take(j as int),
            ).push(c));
            assert(old(self).spec_alloc_after(j as int) == old(self).spec_is_alloc());
        }
        Some(c)
    }

    /// Removes and returns the character at byte offset `idx`, which must lie
    /// on a character boundary inside the string. The representation and the
    /// capacity never change.
    pub fn remove(&mut self, idx: usize) -> (r: char)
        requires
            old(self).wf(),
            idx < old(self)@.len(),
            is_char_boundary(old(self)@, idx as int),
        ensures
            final(self).wf(),
            final(self).spec_is_alloc() == old(self).spec_is_alloc(),
            final(self).spec_capacity() == old(self).spec_capacity(),
            r as u32 == decode_first_scalar(old(self)@.subrange(idx as int, old(self)@.len() as int)),
            encode_scalar(r as u32) == old(self)@.subrange(
                idx as int,
                idx + encode_scalar(r as u32).len(),
            ),
            final(self)@ == old(self)@.take(idx as int) + old(self)@.skip(
                idx + encode_scalar(r as u32).len(),
            ),
            decode_utf8(final(self)@) == decode_utf8(old(self)@.take(idx as int)) + decode_utf8(
                old(self)@.skip(idx + encode_scalar(r as u32).len()),
            ),
    {
        let l: usize = self.len();
        let ghost v = self@;
        proof {
            valid_utf8_split(v, idx as int);
        }
        let (c, w): (char, usize) = char_at(self.as_bytes(), idx, l);
        proof {
            lemma_next_boundary(v, idx as int);
            assert(encode_scalar(c as u32).len() == w);
        }
        let none: Vec<u8> = Vec::new();
        self.splice_bytes(idx, idx + w, none.as_slice());
        proof {
            lemma_splice_utf8(v, idx as int, idx + w, Seq::<u8>::empty());
            assert(v.take(idx as int) + Seq::<u8>::empty() + v.skip(idx + w) =~= v.take(idx as int)
                + v.skip(idx + w));
            assert(self@ =~= v.take(idx as int) + v.skip(idx + w));
            assert(decode_utf8(Seq::<u8>::empty()) =~= Seq::<char>::empty());
            assert(decode_utf8(v.take(idx as int)) + Seq::<char>::empty() + decode_utf8(
                v.skip(idx + w),
            ) =~= decode_utf8(v.take(idx as int)) + decode_utf8(v.skip(idx + w)));
            assert(old(self).spec_alloc_after((l - w) as int) == old(self).spec_is_alloc());
        }
        c
    }

    /// Removes the byte range `range.start..range.end`, whose ends must lie
    /// on character boundaries. The representation and the capacity never
    /// change.
    pub fn remove_range(&mut self, range: core::ops::Range<usize>)
        requires
            old(self).wf(),
            range.start <= range.end,
            is_char_boundary(old(self)@, range.start as int),
            is_char_boundary(old(self)@, range.end as int),
        ensures
            final(self).wf(),
            final(self).spec_is_alloc() == old(self).spec_is_alloc(),
            final(self).spec_capacity() == old(self).spec_capacity(),
            final(self)@ == old(self)@.take(range.start as int) + old(self)@.skip(
                range.end as int,
            ),
            decode_utf8(final(self)@) == decode_utf8(old(self)@.take(range.start as int))
                + decode_utf8(old(self)@.skip(range.end as int)),
    {
        let start: usize = range.start;
        let end: usize = range.end;
        let l: usize = self.len();
        let ghost v = self@;
        proof {
            lemma_boundary_in_range(v, end as int);
            assert(l == v.len());
        }
        let none: Vec<u8> = Vec::new();
        self.splice_bytes(start, end, none.as_slice());
        proof {
            lemma_splice_utf8(v, start as int, end as int, Seq::<u8>::empty());
            assert(v.take(start as int) + Seq::<u8>::empty() + v.skip(end as int) =~= v.take(
                start as int,
            ) + v.skip(end as int));
            assert(self@ =~= v.take(start as int) + v.skip(end as int));
            assert(decode_utf8(Seq::<u8>::empty()) =~= Seq::<char>::empty());
            assert(decode_utf8(v.take(start as int)) + Seq::<char>::empty() + decode_utf8(
                v.skip(end as int),
            ) =~= decode_utf8(v.take(start as int)) + decode_utf8(v.skip(end as int)));
            assert(old(self).spec_alloc_after((v.len() - (end - start)) as int) == old(
                self,
            ).spec_is_alloc());
        }
    }

    /// Inserts the given string at byte offset `idx`, which must lie on a
    /// character boundary; promotes first if the inline capacity would be
    /// exceeded.
    pub fn insert_str(&mut self, idx: usize, string: &str)
        requires
            old(self).wf(),
            is_char_boundary(old(self)@, idx as int),
            old(self)@.len() + encode_utf8(string@).len() <= usize::MAX,
        ensures
            final(self).wf(),
            final(self)@ == old(self)@.take(idx as int) + encode_utf8(string@) + old(self)@.skip(
                idx as int,
            ),
            decode_utf8(final(self)@) == decode_utf8(old(self)@.take(idx as int)) + string@
                + decode_utf8(old(self)@.skip(idx as int)),
            final(self).spec_is_alloc() == old(self).spec_alloc_after(
                (old(self)@.len() + encode_utf8(string@).len()) as int,
            ),
            final(self).spec_capacity() == old(self).spec_cap_after(
                (old(self)@.len() + encode_utf8(string@).len()) as int,
            ),
    {
        let sb: &[u8] = string.as_bytes();
        proof {
            lemma_encode_decode(string@, sb@);
            lemma_boundary_in_range(old(self)@, idx as int);
        }
        let ghost v = self@;
        self.splice_bytes(idx, idx, sb);
        proof {
            lemma_splice_utf8(v, idx as int, idx as int, sb@);
            assert(v.skip(idx as int) =~= v.subrange(idx as int, v.len() as int));
        }
    }

    /// Inserts the given character at byte offset `idx`, which must lie on a
    /// character boundary.
    pub fn insert(&mut self, idx: usize, ch: char)
        requires
            old(self).wf(),
            is_char_boundary(old(self)@, idx as int),
            old(self)@.len() + encode_scalar(ch as u32).len() <= usize::MAX,
        ensures
            final(self).wf(),
            final(self)@ == old(self)@.take(idx as int) + encode_scalar(ch as u32) + old(
                self,
            )@.skip(idx as int),
            decode_utf8(final(self)@) == decode_utf8(old(self)@.take(idx as int)) + seq![ch]
                + decode_utf8(old(self)@.skip(idx as int)),
            final(self).spec_is_alloc() == old(self).spec_alloc_after(
                (old(self)@.len() + encode_scalar(ch as u32).len()) as int,
            ),
            final(self).spec_capacity() == old(self).spec_cap_after(
                (old(self)@.len() + encode_scalar(ch as u32).len()) as int,
            ),
    {
        let eb: Vec<u8> = encode_char(ch);
        proof {
            lemma_single_char(ch);
            lemma_boundary_in_range(old(self)@, idx as int);
        }
        let ghost v = self@;
        self.splice_bytes(idx, idx, eb.as_slice());
        proof {
            lemma_splice_utf8(v, idx as int, idx as int, eb@);
            assert(v.skip(idx as int) =~= v.subrange(idx as int, v.len() as int));
        }
    }

    /// Replaces the byte range `range.start..range.end`, whose ends must lie
    /// on character boundaries, by the given string. When the replacement has
    /// exactly the range's length, neither the representation nor the
    /// capacity changes.
    pub fn replace_range(&mut self, range: core::ops::Range<usize>, string: &str)
        requires
            old(self).wf(),
            range.start <= range.end,
            is_char_boundary(old(self)@, range.start as int),
            is_char_boundary(old(self)@, range.end as int),
            old(self)@.len() - (range.end - range.start) + encode_utf8(string@).len()
                <= usize::MAX,
        ensures
            final(self).wf(),
            final(self)@ == old(self)@.take(range.start as int) + encode_utf8(string@) + old(
                self,
            )@.skip(range.end as int),
            decode_utf8(final(self)@) == decode_utf8(old(self)@.take(range.start as int)) + string@
                + decode_utf8(old(self)@.skip(range.end as int)),
            final(self).spec_is_alloc() == old(self).spec_alloc_after(
                (old(self)@.len() - (range.end - range.start) + encode_utf8(string@).len()) as int,
            ),
            final(self).spec_capacity() == old(self).spec_cap_after(
                (old(self)@.len() - (range.end - range.start) + encode_utf8(string@).len()) as int,
            ),
            encode_utf8(string@).len() == range.end - range.start ==> final(self).spec_is_alloc()
                == old(self).spec_is_alloc() && final(self).spec_capacity() == old(
                self,
            ).spec_capacity(),
    {
        let start: usize = range.start;
        let end: usize = range.end;
        let sb: &[u8] = string.as_bytes();
        proof {
            lemma_encode_decode(string@, sb@);
            lemma_boundary_in_range(old(self)@, end as int);
        }
        let ghost v = self@;
        self.splice_bytes(start, end, sb);
        proof {
            lemma_splice_utf8(v, start as int, end as int, sb@);
            if sb@.len() == end - start {
                assert(old(self).spec_alloc_after(v.len() as int) == old(self).spec_is_alloc());
            }
        }
    }

    /// Moves the `count` content bytes starting at `src` down to `dst`,
    /// in place; everything else, representation and capacity included, is
    /// unchanged.
    fn copy_within_down(&mut self, src: usize, dst: usize, count: usize)
        requires
            old(self).buf_wf(),
            dst <= src,
            src + count <= old(self)@.len(),
        ensures
            final(self).buf_wf(),
            final(self)@ == old(self)@.take(dst as int) + old(self)@.subrange(
                src as int,
                src + count,
            ) + old(self)@.skip(dst + count),
            final(self)@.len() == old(self)@.len(),
            final(self).spec_is_alloc() == old(self).spec_is_alloc(),
            final(self).spec_capacity() == old(self).spec_capacity(),
    {
        let ghost v = old(self)@;
        match self {
            String::Heap(h) => {
                let s: &mut [u8] = h.slice_mut();
                copy_down(s, src, dst, count);
            },
            String::Sso(b) => {
                let ghost f0 = b.spec_full();
                let ghost l = b.spec_len();
                let s: &mut [u8] = b.slice_mut();
                copy_down(s, src, dst, count);
                proof {
                    let f1 = f0.take(dst as int) + f0.subrange(src as int, src + count) + f0.skip(
                        dst + count,
                    );
                    assert(b.spec_full() == f1);
                    let tgt = v.take(dst as int) + v.subrange(src as int, src + count) + v.skip(
                        dst + count,
                    );
                    assert(tgt.len() == l);
                    assert forall|k: int| 0 <= k < l implies f1[k] == tgt[k] by {
                        if k < dst {
                            assert(f1[k] == f0[k]);
                            assert(tgt[k] == v[k]);
                        } else if k < dst + count {
                            assert(f1[k] == f0.subrange(src as int, src + count)[k - dst]);
                            assert(f1[k] == f0[src + (k - dst)]);
                            assert(tgt[k] == v.subrange(src as int, src + count)[k - dst]);
                            assert(tgt[k] == v[src + (k - dst)]);
                        } else {
                            assert(f1[k] == f0.skip(dst + count)[k - (dst + count)]);
                            assert(f1[k] == f0[k]);
                            assert(tgt[k] == v.skip(dst + count)[k - (dst + count)]);
                            assert(tgt[k] == v[k]);
                        }
                    }
                    assert(b@ =~= tgt);
                }
            },
        }
    }

    /// Shortens the content to exactly `l` bytes, leaving representation and
    /// capacity intact.
    fn set_content_len(&mut self, l: usize)
        requires
            old(self).buf_wf(),
            l <= old(self)@.len(),
        ensures
            final(self).buf_wf(),
            final(self)@ == old(self)@.take(l as int),
            final(self).spec_is_alloc() == old(self).spec_is_alloc(),
            final(self).spec_capacity() == old(self).spec_capacity(),
    {
        match self {
            String::Heap(h) => h.truncate(l),
            String::Sso(b) => {
                let ghost prev = b@;
                b.set_len(l);
                proof {
                    assert(b@ =~= prev.take(l as int));
                }
            },
        }
    }

    /// Retains only the characters for which the predicate returns true,
    /// visiting each character exactly once in the original order and
    /// compacting the kept characters in place. Neither the representation
    /// nor the capacity changes: retaining nothing never demotes a heap
    /// value.
    pub fn retain<F: Fn(char) -> bool>(&mut self, f: F)
        requires
            old(self).wf(),
            forall|c: char| #[trigger] f.requires((c,)),
        ensures
            final(self).wf(),
            final(self).spec_is_alloc() == old(self).spec_is_alloc(),
            final(self).spec_capacity() == old(self).spec_capacity(),
            exists|keep: Seq<bool>|
                {
                    &&& keep.len() == decode_utf8(old(self)@).len()
                    &&& decode_utf8(final(self)@) == mask_chars(decode_utf8(old(self)@), keep)
                    &&& forall|i: int|
                        0 <= i < keep.len() ==> f.ensures(
                            (decode_utf8(old(self)@)[i],),
                            #[trigger] keep[i],
                        )
                },
    {
        let l: usize = self.len();
        let ghost v = old(self)@;
        let mut read: usize = 0;
        let mut write: usize = 0;
        let ghost mut prefix: Seq<char> = Seq::empty();
        let ghost mut keep: Seq<bool> = Seq::empty();
        proof {
            assert(v.take(0) =~= Seq::<u8>::empty());
            assert(decode_utf8(Seq::<u8>::empty()) =~= Seq::<char>::empty());
            assert(mask_chars(prefix, keep) =~= Seq::<char>::empty());
            assert(encode_utf8(Seq::<char>::empty()) =~= Seq::<u8>::empty());
            assert(self@.take(0) =~= Seq::<u8>::empty());
        }
        while read < l
            invariant
                forall|c: char| #[trigger] f.requires((c,)),
                valid_utf8(v),
                v.len() == l,
                self.buf_wf(),
                self@.len() == l,
                self.spec_is_alloc() == old(self).spec_is_alloc(),
                self.spec_capacity() == old(self).spec_capacity(),
                0 <= write <= read <= l,
                is_char_boundary(v, read as int),
                forall|k: int| read as int <= k < l ==> #[trigger] self@[k] == v[k],
                prefix == decode_utf8(v.take(read as int)),
                keep.len() == prefix.len(),
                self@.take(write as int) == encode_utf8(mask_chars(prefix, keep)),
                forall|i: int|
                    0 <= i < keep.len() ==> f.ensures((prefix[i],), #[trigger] keep[i]),
            decreases l - read,
        {
            let ghost read0 = read as int;
            let ghost write0 = write as int;
            let ghost cur0 = self@;
            let ghost prefix0 = prefix;
            let ghost keep0 = keep;
            proof {
                valid_utf8_split(v, read0);
                assert(self@.subrange(read0, l as int) =~= v.subrange(read0, l as int));
            }
            let (c, w): (char, usize) = char_at(self.as_bytes(), read, l);
            proof {
                lemma_next_boundary(v, read0);
                lemma_single_char(c);
                assert(cur0.subrange(read0, read0 + w) =~= v.subrange(read0, read0 + w));
                assert(encode_scalar(c as u32) == v.subrange(read0, read0 + w));
            }
            let kept: bool = f(c);
            if kept {
                if write < read {
                    self.copy_within_down(read, write, w);
                }
                write = write + w;
            }
            read = read + w;
            proof {
                let enc = encode_scalar(c as u32);
                // the processed prefix grows by one character
                assert(v.take(read0 + w) =~= v.take(read0) + enc);
                lemma_concat_utf8(v.take(read0), enc);
                assert(decode_utf8(v.take(read0) + enc) == decode_utf8(v.take(read0)) + seq![c]);
                prefix = prefix.push(c);
                keep = keep.push(kept);
                assert(prefix =~= decode_utf8(v.take(read as int)));
                assert(prefix.drop_last() =~= prefix0);
                assert(keep.drop_last() =~= keep0);
                let m0 = mask_chars(prefix0, keep0);
                let m1 = mask_chars(prefix, keep);
                if kept {
                    assert(m1 == mask_chars(prefix.drop_last(), keep.drop_last()) + seq![c]);
                    assert(m1 == m0 + seq![c]);
                    lemma_encode_append(m0, seq![c]);
                    assert(encode_utf8(m1) == encode_utf8(m0) + enc);
                    if write0 < read0 {
                        assert(self@ == cur0.take(write0) + cur0.subrange(read0, read0 + w)
                            + cur0.skip(write0 + w));
                        assert(self@.take(write as int) =~= cur0.take(write0) + enc);
                        assert forall|k: int| read as int <= k < l implies self@[k] == cur0[k] by {
                            assert(self@[k] == cur0.skip(write0 + w)[k - (write0 + w)]);
                        }
                    } else {
                        assert(write0 == read0);
                        assert(self@ == cur0);
                        assert(self@.take(write as int) =~= cur0.take(write0) + enc);
                    }
                    assert(self@.take(write as int) == encode_utf8(m1));
                } else {
                    assert(m1 == mask_chars(prefix.drop_last(), keep.drop_last())
                        + Seq::<char>::empty());
                    assert(m1 =~= m0);
                    assert(self@ == cur0);
                }
                assert forall|k: int| read as int <= k < l implies self@[k] == v[k] by {
                    assert(self@[k] == cur0[k]);
                    assert(cur0[k] == v[k]);
                }
            }
        }
        self.set_content_len(write);
        proof {
            assert(v.take(l as int) =~= v);
            assert(decode_utf8(final(self)@) == mask_chars(decode_utf8(v), keep)) by {
                lemma_encode_decode(mask_chars(prefix, keep), self@);
            }
            assert(keep.len() == decode_utf8(v).len());
        }
    }

    /// Decodes a UTF-16 encoded sequence into a string. Succeeds exactly on
    /// well-formed input; otherwise reports the first unpaired surrogate.
    #[verifier::rlimit(60)]
    pub fn from_utf16(utf16: &[u16]) -> (r: Result<String, DecodeUtf16Error>)
        requires
            utf16@.len() * 3 <= usize::MAX,
        ensures
            utf16_valid(utf16@) <==> r is Ok,
            r matches Ok(s) ==> s.wf() && s@ == encode_utf8(utf16_chars(utf16@))
                && s.spec_is_alloc() == (utf16@.len() > SSO_CAPACITY as int || s@.len()
                > SSO_CAPACITY as int),
            r matches Err(e) ==> e.spec_code() == utf16_first_invalid(utf16@),
    {
        let n: usize = utf16.len();
        let mut res = String::with_capacity(n);
        let mut i: usize = 0;
        proof {
            assert(utf16@.skip(0) =~= utf16@);
            assert(decode_utf8(Seq::<u8>::empty()) =~= Seq::<char>::empty());
            assert(Seq::<char>::empty() + utf16_chars(utf16@) =~= utf16_chars(utf16@));
        }
        while i < n
            invariant
                n == utf16@.len(),
                n * 3 <= usize::MAX,
                0 <= i <= n,
                res.wf(),
                res@.len() <= 3 * i,
                res.spec_is_alloc() == (n > SSO_CAPACITY || res@.len() > SSO_CAPACITY as int),
                utf16_valid(utf16@) == utf16_valid(utf16@.skip(i as int)),
                utf16_chars(utf16@) == decode_utf8(res@) + utf16_chars(utf16@.skip(i as int)),
                !utf16_valid(utf16@) ==> utf16_first_invalid(utf16@) == utf16_first_invalid(
                    utf16@.skip(i as int),
                ),
            decreases n - i,
        {
            let ghost tail = utf16@.skip(i as int);
            let u: u16 = utf16[i];
            proof {
                assert(tail[0] == utf16@[i as int]);
            }
            if u < 0xD800 || u >= 0xE000 {
                proof {
                    assert(is_scalar(u as u32));
                }
                let c: char = char_from_u32_checked(u as u32);
                let ghost prev = res@;
                proof {
                    char_u32_cast(c, u as u32);
                    assert(encode_scalar(c as u32).len() <= 3);
                }
                res.push(c);
                i = i + 1;
                proof {
                    assert(tail.drop_first() =~= utf16@.skip(i as int));
                    assert(utf16_chars(tail) == seq![c] + utf16_chars(utf16@.skip(i as int)));
                    assert(utf16_valid(tail) == utf16_valid(utf16@.skip(i as int)));
                    if !utf16_valid(utf16@) {
                        assert(utf16_first_invalid(tail) == utf16_first_invalid(
                            utf16@.skip(i as int),
                        ));
                    }
                    assert(decode_utf8(prev) + (seq![c] + utf16_chars(utf16@.skip(i as int)))
                        =~= decode_utf8(prev).push(c) + utf16_chars(utf16@.skip(i as int)));
                }
            } else if u < 0xDC00 {
                let mut paired: bool = false;
                let mut u2: u16 = 0;
                if i + 1 < n {
                    u2 = utf16[i + 1];
                    if 0xDC00 <= u2 && u2 < 0xE000 {
                        paired = true;
                    }
                }
                if paired {
                    proof {
                        assert(tail.len() >= 2);
                        assert(tail[1] == utf16@[i + 1]);
                    }
                    let scalar: u32 = 0x10000 + (((u as u32) - 0xD800) * 0x400 + ((
                    u2 as u32) - 0xDC00));
                    proof {
                        assert(scalar == combined_scalar(u, u2));
                        assert(is_scalar(scalar));
                    }
                    let c: char = char_from_u32_checked(scalar);
                    let ghost prev = res@;
                    proof {
                        char_u32_cast(c, scalar);
                        assert(encode_scalar(c as u32).len() <= 4);
                    }
                    res.push(c);
                    i = i + 2;
                    proof {
                        assert(tail.skip(2) =~= utf16@.skip(i as int));
                        assert(utf16_chars(tail) == seq![c] + utf16_chars(utf16@.skip(i as int)));
                        assert(utf16_valid(tail) == utf16_valid(utf16@.skip(i as int)));
                        if !utf16_valid(utf16@) {
                            assert(utf16_first_invalid(tail) == utf16_first_invalid(
                                utf16@.skip(i as int),
                            ));
                        }
                        assert(decode_utf8(prev) + (seq![c] + utf16_chars(utf16@.skip(i as int)))
                            =~= decode_utf8(prev).push(c) + utf16_chars(utf16@.skip(i as int)));
                    }
                } else {
                    proof {
                        assert(!utf16_valid(tail));
                        assert(utf16_first_invalid(tail) == u);
                    }
                    return Err(DecodeUtf16Error::new(u));
                }
            } else {
                proof {
                    assert(!utf16_valid(tail));
                    assert(utf16_first_invalid(tail) == u);
                }
                return Err(DecodeUtf16Error::new(u));
            }
        }
        proof {
            assert(utf16@.skip(n as int) =~= Seq::<u16>::empty());
            assert(utf16_valid(Seq::<u16>::empty()));
            assert(utf16_chars(Seq::<u16>::empty()) =~= Seq::<char>::empty());
            assert(utf16_chars(utf16@) =~= decode_utf8(res@));
            decode_utf8_encode_utf8(res@);
        }
        Ok(res)
    }

    /// Decodes a UTF-16 encoded sequence into a string, replacing every
    /// unpaired surrogate with the Unicode replacement character.
    #[verifier::rlimit(60)]
    pub fn from_utf16_lossy(utf16: &[u16]) -> (r: String)
        requires
            utf16@.len() * 3 <= usize::MAX,
        ensures
            r.wf(),
            r@ == encode_utf8(utf16_chars_lossy(utf16@)),
            r.spec_is_alloc() == (utf16@.len() > SSO_CAPACITY as int || r@.len()
                > SSO_CAPACITY as int),
    {
        let n: usize = utf16.len();
        let mut res = String::with_capacity(n);
        let mut i: usize = 0;
        proof {
            assert(utf16@.skip(0) =~= utf16@);
            assert(decode_utf8(Seq::<u8>::empty()) =~= Seq::<char>::empty());
            assert(Seq::<char>::empty() + utf16_chars_lossy(utf16@) =~= utf16_chars_lossy(utf16@));
        }
        while i < n
            invariant
                n == utf16@.len(),
                n * 3 <= usize::MAX,
                0 <= i <= n,
                res.wf(),
                res@.len() <= 3 * i,
                res.spec_is_alloc() == (n > SSO_CAPACITY || res@.len() > SSO_CAPACITY as int),
                utf16_chars_lossy(utf16@) == decode_utf8(res@) + utf16_chars_lossy(
                    utf16@.skip(i as int),
                ),
            decreases n - i,
        {
            let ghost tail = utf16@.skip(i as int);
            let u: u16 = utf16[i];
            proof {
                assert(tail[0] == utf16@[i as int]);
            }
            let mut paired: bool = false;
            let mut u2: u16 = 0;
            if 0xD800 <= u && u < 0xDC00 && i + 1 < n {
                u2 = utf16[i + 1];
                if 0xDC00 <= u2 && u2 < 0xE000 {
                    paired = true;
                }
            }
            if paired {
                proof {
                    assert(tail.len() >= 2);
                    assert(tail[1] == utf16@[i + 1]);
                }
                let scalar: u32 = 0x10000 + (((u as u32) - 0xD800) * 0x400 + ((u2 as u32)
                    - 0xDC00));
                proof {
                    assert(scalar == combined_scalar(u, u2));
                    assert(is_scalar(scalar));
                }
                let c: char = char_from_u32_checked(scalar);
                let ghost prev = res@;
                proof {
                    char_u32_cast(c, scalar);
                    assert(encode_scalar(c as u32).len() <= 4);
                }
                res.push(c);
                i = i + 2;
                proof {
                    assert(tail.skip(2) =~= utf16@.skip(i as int));
                    assert(utf16_chars_lossy(tail) == seq![c] + utf16_chars_lossy(
                        utf16@.skip(i as int),
                    ));
                    assert(decode_utf8(prev) + (seq![c] + utf16_chars_lossy(utf16@.skip(i as int)))
                        =~= decode_utf8(prev).push(c) + utf16_chars_lossy(utf16@.skip(i as int)));
                }
            } else {
                let c: char = if u < 0xD800 || u >= 0xE000 {
                    proof {
                        assert(is_scalar(u as u32));
                    }
                    char_from_u32_checked(u as u32)
                } else {
                    '\u{FFFD}'
                };
                let ghost prev = res@;
                proof {
                    if u < 0xD800 || u >= 0xE000 {
                        char_u32_cast(c, u as u32);
                    }
                    assert(encode_scalar(c as u32).len() <= 3);
                }
                res.push(c);
                i = i + 1;
                proof {
                    assert(tail.drop_first() =~= utf16@.skip(i as int));
                    assert(utf16_chars_lossy(tail) == seq![c] + utf16_chars_lossy(
                        utf16@.skip(i as int),
                    ));
                    assert(decode_utf8(prev) + (seq![c] + utf16_chars_lossy(utf16@.skip(i as int)))
                        =~= decode_utf8(prev).push(c) + utf16_chars_lossy(utf16@.skip(i as int)));
                }
            }
        }
        proof {
            assert(utf16@.skip(n as int) =~= Seq::<u16>::empty());
            assert(utf16_chars_lossy(Seq::<u16>::empty()) =~= Seq::<char>::empty());
            assert(utf16_chars_lossy(utf16@) =~= decode_utf8(res@));
            decode_utf8_encode_utf8(res@);
        }
        res
    }

    /// Removes the byte range `range.start..range.end`, whose ends must lie
    /// on character boundaries, and returns its characters as a draining
    /// cursor. The removal is applied to the owner at once; the
    /// representation and the capacity never change.
    pub fn drain(&mut self, range: core::ops::Range<usize>) -> (r: Drain)
        requires
            old(self).wf(),
            range.start <= range.end,
            is_char_boundary(old(self)@, range.start as int),
            is_char_boundary(old(self)@, range.end as int),
        ensures
            final(self).wf(),
            final(self).spec_is_alloc() == old(self).spec_is_alloc(),
            final(self).spec_capacity() == old(self).spec_capacity(),
            final(self)@ == old(self)@.take(range.start as int) + old(self)@.skip(
                range.end as int,
            ),
            r.wf(),
            r.spec_remaining() == old(self)@.subrange(range.start as int, range.end as int),
            decode_utf8(old(self)@) == decode_utf8(old(self)@.take(range.start as int))
                + decode_utf8(r.spec_remaining()) + decode_utf8(old(self)@.skip(range.end as int)),
    {
        let start: usize = range.start;
        let end: usize = range.end;
        let l: usize = self.len();
        let ghost v = self@;
        proof {
            lemma_boundary_in_range(v, end as int);
            lemma_mid_valid(v, start as int, end as int);
            assert(l == v.len());
        }
        let mut drained: Vec<u8> = Vec::new();
        let s: &[u8] = self.as_bytes();
        let mut k: usize = start;
        proof {
            assert(drained@ =~= v.subrange(start as int, start as int));
        }
        while k < end
            invariant
                start <= k <= end,
                end <= s@.len(),
                s@ == v,
                drained@ == v.subrange(start as int, k as int),
            decreases end - k,
        {
            let b: u8 = s[k];
            drained.push(b);
            proof {
                assert(v.subrange(start as int, k + 1) =~= v.subrange(start as int, k as int).push(
                    v[k as int],
                ));
            }
            k = k + 1;
        }
        proof {
            assert(drained@ =~= v.subrange(start as int, end as int));
        }
        let none: Vec<u8> = Vec::new();
        self.splice_bytes(start, end, none.as_slice());
        proof {
            lemma_splice_utf8(v, start as int, end as int, Seq::<u8>::empty());
            assert(v.take(start as int) + Seq::<u8>::empty() + v.skip(end as int) =~= v.take(
                start as int,
            ) + v.skip(end as int));
            assert(self@ =~= v.take(start as int) + v.skip(end as int));
            assert(old(self).spec_alloc_after((v.len() - (end - start)) as int) == old(
                self,
            ).spec_is_alloc());
            assert(v.subrange(0, start as int) =~= v.take(start as int));
            assert(v.subrange(end as int, v.len() as int) =~= v.skip(end as int));
        }
        Drain::new(drained)
    }

    /// Sets the string's length to `new_len` bytes, which may not exceed the
    /// current length and must leave valid UTF-8 behind; the classical
    /// caller obligation of an unchecked length update is the precondition
    /// here. Capacity and representation are untouched.
    pub fn set_len(&mut self, new_len: usize)
        requires
            old(self).wf(),
            new_len <= old(self)@.len(),
            valid_utf8(old(self)@.take(new_len as int)),
        ensures
            final(self).wf(),
            final(self)@ == old(self)@.take(new_len as int),
            final(self).spec_is_alloc() == old(self).spec_is_alloc(),
            final(self).spec_capacity() == old(self).spec_capacity(),
    {
        self.set_content_len(new_len);
    }
}

} // verus!
