//! The growable, heap-backed byte storage a string is promoted to once its
//! content outgrows the inline capacity.
//!
//! Besides the bytes themselves the buffer tracks its reserved capacity as a
//! plain field, so that the capacity of every operation is stated exactly:
//! growth is monotone and at least what was requested, doubling the previous
//! reservation when that is larger.

use vstd::prelude::*;

verus! {

/// An owned, growable byte buffer with explicit capacity accounting.
#[derive(Debug, Clone)]
pub struct HeapBuffer {
    data: Vec<u8>,
    cap: usize,
}

impl View for HeapBuffer {
    type V = Seq<u8>;

    open spec fn view(&self) -> Seq<u8> {
        self.spec_data()
    }
}

/// The capacity after asking a buffer of capacity `cap` and content length
/// `len` to hold at least `required` bytes with amortized growth.
pub open spec fn grown_cap(cap: int, required: int) -> int {
    if required <= cap {
        cap
    } else if 2 * cap > required && 2 * cap <= usize::MAX as int {
        2 * cap
    } else {
        required
    }
}

/// Relies on `Vec::shrink_to_fit`: it only changes the allocation, never the
/// contents.
#[verifier::external_body]
fn vec_shrink_to_fit(v: &mut Vec<u8>)
    ensures
        final(v)@ == old(v)@,
{
    v.shrink_to_fit()
}

impl HeapBuffer {
    pub closed spec fn spec_data(&self) -> Seq<u8> {
        self.data@
    }

    /// The reserved capacity.
    pub closed spec fn spec_cap(&self) -> int {
        self.cap as int
    }

    /// The reserved capacity always covers the content.
    pub open spec fn wf(&self) -> bool {
        self@.len() <= self.spec_cap()
    }

    /// Creates an empty buffer with the given reservation.
    pub fn with_capacity(capacity: usize) -> (r: HeapBuffer)
        ensures
            r.wf(),
            r@ == Seq::<u8>::empty(),
            r.spec_cap() == capacity,
    {
        HeapBuffer { data: Vec::with_capacity(capacity), cap: capacity }
    }

    /// Creates a buffer holding a copy of `s`, reserving exactly its length.
    pub fn from_slice(s: &[u8]) -> (r: HeapBuffer)
        ensures
            r.wf(),
            r@ == s@,
            r.spec_cap() == s@.len(),
    {
        let mut r = HeapBuffer { data: Vec::with_capacity(s.len()), cap: s.len() };
        r.extend_from_slice(s);
        r
    }

    /// Number of bytes held.
    pub fn len(&self) -> (r: usize)
        ensures
            r == self@.len(),
    {
        self.data.len()
    }

    /// The reserved capacity.
    pub fn capacity(&self) -> (r: usize)
        ensures
            r == self.spec_cap(),
    {
        self.cap
    }

    /// The bytes held, as a slice.
    pub fn as_slice(&self) -> (r: &[u8])
        ensures
            r@ == self@,
    {
        self.data.as_slice()
    }

    /// Mutable access to the held bytes; capacity is unchanged.
    pub fn slice_mut(&mut self) -> (r: &mut [u8])
        requires
            old(self).wf(),
        ensures
            r@ == old(self)@,
            final(self)@ == final(r)@,
            final(self).spec_cap() == old(self).spec_cap(),
            final(r)@.len() == old(self)@.len() ==> final(self).wf(),
    {
        self.data.as_mut_slice()
    }

    /// Appends a copy of `s`, growing the reservation to the new length if it
    /// was smaller.
    pub fn extend_from_slice(&mut self, s: &[u8])
        requires
            old(self)@.len() + s@.len() <= usize::MAX,
        ensures
            final(self).wf(),
            final(self)@ == old(self)@ + s@,
            final(self).spec_cap() == vstd::math::max(
                old(self).spec_cap(),
                (old(self)@.len() + s@.len()) as int,
            ),
    {
        let n: usize = s.len();
        let mut i: usize = 0;
        while i < n
            invariant
                n == s@.len(),
                old(self)@.len() + n <= usize::MAX,
                0 <= i <= n,
                self.data@ == old(self)@ + s@.take(i as int),
                self.cap == old(self).cap,
            decreases n - i,
        {
            let b: u8 = s[i];
            self.data.push(b);
            proof {
                assert(old(self)@ + s@.take(i + 1) =~= (old(self)@ + s@.take(i as int)).push(
                    s@[i as int],
                ));
            }
            i = i + 1;
        }
        proof {
            assert(s@.take(n as int) =~= s@);
        }
        let new_len: usize = self.data.len();
        if new_len > self.cap {
            self.cap = new_len;
        }
    }

    /// Extends the content with `count` zero bytes; used to open room before
    /// an in-place shift.
    pub fn grow_zeroes(&mut self, count: usize)
        requires
            old(self)@.len() + count <= usize::MAX,
        ensures
            final(self).wf(),
            final(self)@ == old(self)@ + Seq::<u8>::new(count as nat, |i: int| 0u8),
            final(self).spec_cap() == vstd::math::max(
                old(self).spec_cap(),
                (old(self)@.len() + count) as int,
            ),
    {
        let mut i: usize = 0;
        while i < count
            invariant
                old(self)@.len() + count <= usize::MAX,
                0 <= i <= count,
                self.data@ == old(self)@ + Seq::<u8>::new(i as nat, |k: int| 0u8),
                self.cap == old(self).cap,
            decreases count - i,
        {
            self.data.push(0);
            proof {
                assert(old(self)@ + Seq::<u8>::new((i + 1) as nat, |k: int| 0u8) =~= (old(self)@
                    + Seq::<u8>::new(i as nat, |k: int| 0u8)).push(0u8));
            }
            i = i + 1;
        }
        let new_len: usize = self.data.len();
        if new_len > self.cap {
            self.cap = new_len;
        }
    }

    /// Shortens the content to `l` bytes; the reservation is untouched.
    pub fn truncate(&mut self, l: usize)
        requires
            old(self).wf(),
            l <= old(self)@.len(),
        ensures
            final(self).wf(),
            final(self)@ == old(self)@.take(l as int),
            final(self).spec_cap() == old(self).spec_cap(),
    {
        self.data.truncate(l);
    }

    /// Empties the content; the reservation is untouched.
    pub fn clear(&mut self)
        requires
            old(self).wf(),
        ensures
            final(self).wf(),
            final(self)@ == Seq::<u8>::empty(),
            final(self).spec_cap() == old(self).spec_cap(),
    {
        self.data.clear();
    }

    /// Reserves room for at least `additional` more bytes, with amortized
    /// (doubling) growth.
    pub fn reserve(&mut self, additional: usize)
        requires
            old(self).wf(),
            old(self)@.len() + additional <= usize::MAX,
        ensures
            final(self).wf(),
            final(self)@ == old(self)@,
            final(self).spec_cap() == grown_cap(
                old(self).spec_cap(),
                (old(self)@.len() + additional) as int,
            ),
    {
        let required: usize = self.data.len() + additional;
        if required <= self.cap {
            return ;
        }
        self.data.reserve(additional);
        if self.cap <= usize::MAX / 2 && 2 * self.cap > required {
            self.cap = 2 * self.cap;
        } else {
            self.cap = required;
        }
    }

    /// Reserves room for exactly `additional` more bytes beyond the current
    /// content, without amortized slack.
    pub fn reserve_exact(&mut self, additional: usize)
        requires
            old(self).wf(),
            old(self)@.len() + additional <= usize::MAX,
        ensures
            final(self).wf(),
            final(self)@ == old(self)@,
            final(self).spec_cap() == vstd::math::max(
                old(self).spec_cap(),
                (old(self)@.len() + additional) as int,
            ),
    {
        let required: usize = self.data.len() + additional;
        if required <= self.cap {
            return ;
        }
        self.data.reserve(additional);
        self.cap = required;
    }

    /// Releases the unused reservation, dropping the capacity to the length.
    pub fn shrink_to_fit(&mut self)
        requires
            old(self).wf(),
        ensures
            final(self).wf(),
            final(self)@ == old(self)@,
            final(self).spec_cap() == old(self)@.len(),
    {
        vec_shrink_to_fit(&mut self.data);
        self.cap = self.data.len();
    }
}

} // verus!
