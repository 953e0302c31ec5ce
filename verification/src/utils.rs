//! Small helpers: range validation against a string slice, and the minimal
//! string view of the heap buffer.

use vstd::prelude::*;
use vstd::string::StringSliceAdditionalSpecFns;
use vstd::utf8::*;

use crate::heap::HeapBuffer;
use crate::unicode::bytes_as_str;

verus! {

/// Validates a byte range against a string slice and returns its start, end
/// and length. The runtime assertions such a helper classically performs are
/// preconditions here: both ends lie on character boundaries and are ordered.
pub fn assert_range_len(this: &str, range: &core::ops::Range<usize>) -> (r: (usize, usize, usize))
    requires
        range.start <= range.end,
        is_char_boundary(this.spec_bytes(), range.start as int),
        is_char_boundary(this.spec_bytes(), range.end as int),
    ensures
        r.0 == range.start,
        r.1 == range.end,
        r.2 == range.end - range.start,
{
    (range.start, range.end, range.end - range.start)
}

/// A minimal read-only string view of a byte container.
pub trait MiniStr {
    /// The byte content of the value.
    spec fn text_bytes(&self) -> Seq<u8>;

    /// Gets the content as a string slice.
    fn as_str(&self) -> (r: &str)
        requires
            valid_utf8(self.text_bytes()),
        ensures
            encode_utf8(r@) == self.text_bytes(),
    ;
}

impl MiniStr for HeapBuffer {
    open spec fn text_bytes(&self) -> Seq<u8> {
        self@
    }

    fn as_str(&self) -> (r: &str) {
        bytes_as_str(self.as_slice())
    }
}

} // verus!
