//! The fixed-capacity in-value byte storage used while a string is short.

use vstd::prelude::*;

use crate::SSO_CAPACITY;

verus! {

/// The error returned when text does not fit the fixed inline capacity.
#[derive(Debug, Clone, Copy, PartialEq, Eq, Structural)]
pub struct Overflow;

/// A fixed byte array together with the number of bytes currently in use.
/// No operation on it ever allocates.
#[derive(Debug, Clone, Copy)]
pub struct InlineBuffer {
    buf: [u8; SSO_CAPACITY],
    len: u8,
}

impl View for InlineBuffer {
    type V = Seq<u8>;

    // The length is clamped to the capacity, so the view is meaningful for
    // every value; well-formed values are never clamped.
    open spec fn view(&self) -> Seq<u8> {
        self.spec_full().take(
            if self.spec_len() <= SSO_CAPACITY as int {
                self.spec_len()
            } else {
                SSO_CAPACITY as int
            },
        )
    }
}

impl InlineBuffer {
    /// The whole fixed array, including bytes past the used length.
    pub closed spec fn spec_full(&self) -> Seq<u8> {
        self.buf@
    }

    /// The number of bytes in use.
    pub closed spec fn spec_len(&self) -> int {
        self.len as int
    }

    /// The length field never exceeds the fixed capacity, which the array
    /// always has exactly.
    pub open spec fn wf(&self) -> bool {
        &&& 0 <= self.spec_len() <= SSO_CAPACITY as int
        &&& self.spec_full().len() == SSO_CAPACITY as int
    }

    /// Creates an empty buffer.
    pub fn new() -> (r: InlineBuffer)
        ensures
            r.wf(),
            r@ == Seq::<u8>::empty(),
    {
        let r = InlineBuffer { buf: [0; SSO_CAPACITY], len: 0 };
        proof {
            assert(r@ =~= Seq::<u8>::empty());
        }
        r
    }

    /// Creates a buffer holding a copy of `s`, which must fit.
    pub fn from_slice(s: &[u8]) -> (r: InlineBuffer)
        requires
            s@.len() <= SSO_CAPACITY as int,
        ensures
            r.wf(),
            r@ == s@,
    {
        let n: usize = s.len();
        let mut buf: [u8; SSO_CAPACITY] = [0; SSO_CAPACITY];
        let mut i: usize = 0;
        while i < n
            invariant
                n == s@.len(),
                n <= SSO_CAPACITY,
                buf@.len() == SSO_CAPACITY as int,
                0 <= i <= n,
                forall|j: int| 0 <= j < i ==> buf@[j] == s@[j],
            decreases n - i,
        {
            buf[i] = s[i];
            i = i + 1;
        }
        let r = InlineBuffer { buf, len: n as u8 };
        proof {
            assert(r@ =~= s@);
        }
        r
    }

    /// Number of bytes in use.
    pub fn len(&self) -> (r: usize)
        requires
            self.wf(),
        ensures
            r == self@.len(),
    {
        self.len as usize
    }

    /// Number of bytes still free.
    pub fn remaining(&self) -> (r: usize)
        requires
            self.wf(),
        ensures
            r == SSO_CAPACITY as int - self@.len(),
    {
        SSO_CAPACITY - (self.len as usize)
    }

    /// The bytes in use, as a slice.
    pub fn as_slice(&self) -> (r: &[u8])
        requires
            self.wf(),
        ensures
            r@ == self@,
    {
        let s: &[u8] = self.buf.as_slice();
        let r: &[u8] = &s[0..(self.len as usize)];
        proof {
            assert(r@ =~= self@);
        }
        r
    }

    /// The bytes in use, as a slice, without a well-formedness assumption:
    /// the length is clamped exactly as in the view.
    pub fn as_slice_total(&self) -> (r: &[u8])
        ensures
            r@ == self@,
    {
        let mut n: usize = self.len as usize;
        let s: &[u8] = self.buf.as_slice();
        if n > s.len() {
            n = s.len();
        }
        let r: &[u8] = &s[0..n];
        proof {
            assert(r@ =~= self@);
        }
        r
    }

    /// Mutable access to the whole fixed array; the used length is unchanged.
    pub fn slice_mut(&mut self) -> (r: &mut [u8])
        requires
            old(self).wf(),
        ensures
            r@ == old(self).spec_full(),
            final(self).spec_full() == final(r)@,
            final(self).spec_len() == old(self).spec_len(),
            final(r)@.len() == SSO_CAPACITY as int ==> final(self).wf(),
    {
        vstd::array::ref_mut_array_unsizing_coercion(&mut self.buf)
    }

    /// Sets the used length.
    pub fn set_len(&mut self, l: usize)
        requires
            old(self).wf(),
            l <= SSO_CAPACITY,
        ensures
            final(self).wf(),
            final(self).spec_full() == old(self).spec_full(),
            final(self)@ == old(self).spec_full().take(l as int),
    {
        self.len = l as u8;
    }

    /// Creates a buffer holding the given text, or reports overflow when the
    /// text does not fit: the result is an error exactly when the encoding
    /// is longer than the capacity.
    pub fn from_str_checked(text: &str) -> (r: Result<InlineBuffer, Overflow>)
        ensures
            vstd::utf8::encode_utf8(text@).len() <= SSO_CAPACITY as int <==> r is Ok,
            r matches Ok(b) ==> b.wf() && b@ == vstd::utf8::encode_utf8(text@),
    {
        let s: &[u8] = text.as_bytes();
        if s.len() <= SSO_CAPACITY {
            Ok(InlineBuffer::from_slice(s))
        } else {
            Err(Overflow)
        }
    }

    /// Appends text which the caller has checked to fit the remaining
    /// capacity; the classical caller obligation is the precondition here.
    pub fn push_str_unchecked(&mut self, text: &str)
        requires
            old(self).wf(),
            old(self)@.len() + vstd::utf8::encode_utf8(text@).len() <= SSO_CAPACITY as int,
        ensures
            final(self).wf(),
            final(self)@ == old(self)@ + vstd::utf8::encode_utf8(text@),
    {
        let s: &[u8] = text.as_bytes();
        let l: usize = self.len();
        let n: usize = s.len();
        let ghost v = self@;
        let buf: &mut [u8] = self.slice_mut();
        crate::byte_ops::copy_in(buf, l, s);
        self.set_len(l + n);
        proof {
            assert(self@ =~= v + s@);
        }
    }

    /// Returns whether `idx` lies on a character boundary of the content,
    /// which must be valid UTF-8.
    pub fn is_char_boundary(&self, idx: usize) -> (r: bool)
        requires
            self.wf(),
            vstd::utf8::valid_utf8(self@),
        ensures
            r == vstd::utf8::is_char_boundary(self@, idx as int),
    {
        let l: usize = self.len();
        if idx > l {
            proof {
                assert(!vstd::utf8::is_char_boundary(self@, idx as int));
            }
            false
        } else if idx == l {
            proof {
                vstd::utf8::is_char_boundary_start_end_of_seq(self@);
            }
            true
        } else {
            let s: &[u8] = self.as_slice();
            let b: u8 = s[idx];
            proof {
                vstd::utf8::is_char_boundary_iff_not_is_continuation_byte(self@, idx as int);
            }
            !(b >= 0x80 && b < 0xC0)
        }
    }
}

} // verus!
