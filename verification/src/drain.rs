//! A draining cursor over a removed range of a string.
//!
//! `String::drain` excises the chosen byte range from the owner and hands
//! its characters to a `Drain` value, which can be consumed from the front,
//! from the back, or read as the remaining sub-string at any point.

use vstd::prelude::*;
use vstd::utf8::*;

use crate::unicode::{bytes_as_str, char_at, last_char_start, lemma_encode_decode, lemma_mid_valid, lemma_next_boundary};

verus! {

broadcast use vstd::utf8::group_utf8_lib;

/// The characters drained out of a string, with a double-ended cursor over
/// the not yet consumed part.
#[derive(Debug)]
pub struct Drain {
    bytes: Vec<u8>,
    front: usize,
    back: usize,
}

impl Drain {
    /// All bytes the drain was created with.
    pub closed spec fn spec_bytes(&self) -> Seq<u8> {
        self.bytes@
    }

    /// The front cursor, a byte offset into the drained bytes.
    pub closed spec fn spec_front(&self) -> int {
        self.front as int
    }

    /// The back cursor, a byte offset into the drained bytes.
    pub closed spec fn spec_back(&self) -> int {
        self.back as int
    }

    /// The bytes not yet yielded from either end.
    pub open spec fn spec_remaining(&self) -> Seq<u8> {
        self.spec_bytes().subrange(self.spec_front(), self.spec_back())
    }

    /// The drained bytes are valid UTF-8 and both cursors sit on character
    /// boundaries.
    pub open spec fn wf(&self) -> bool {
        &&& valid_utf8(self.spec_bytes())
        &&& 0 <= self.spec_front() <= self.spec_back() <= self.spec_bytes().len()
        &&& is_char_boundary(self.spec_bytes(), self.spec_front())
        &&& is_char_boundary(self.spec_bytes(), self.spec_back())
    }

    pub(crate) fn new(bytes: Vec<u8>) -> (r: Drain)
        requires
            valid_utf8(bytes@),
        ensures
            r.wf(),
            r.spec_bytes() == bytes@,
            r.spec_remaining() == bytes@,
    {
        let back: usize = bytes.len();
        let r = Drain { bytes, front: 0, back };
        proof {
            is_char_boundary_start_end_of_seq(r.spec_bytes());
            assert(r.spec_remaining() =~= r.spec_bytes());
        }
        r
    }

    /// The remaining sub-string of this drain.
    pub fn as_str(&self) -> (r: &str)
        requires
            self.wf(),
        ensures
            encode_utf8(r@) == self.spec_remaining(),
            r@ == decode_utf8(self.spec_remaining()),
    {
        proof {
            lemma_mid_valid(self.spec_bytes(), self.spec_front(), self.spec_back());
        }
        let s: &[u8] = self.bytes.as_slice();
        let part: &[u8] = &s[self.front..self.back];
        let r: &str = bytes_as_str(part);
        proof {
            lemma_encode_decode(r@, self.spec_remaining());
        }
        r
    }

    /// Yields the next character from the front, if any is left.
    pub fn next(&mut self) -> (r: Option<char>)
        requires
            old(self).wf(),
        ensures
            final(self).wf(),
            final(self).spec_bytes() == old(self).spec_bytes(),
            final(self).spec_back() == old(self).spec_back(),
            old(self).spec_remaining().len() == 0 ==> r is None && *final(self) == *old(self),
            old(self).spec_remaining().len() > 0 ==> (r matches Some(c) && old(
                self,
            ).spec_remaining() == encode_scalar(c as u32) + final(self).spec_remaining()
                && decode_utf8(old(self).spec_remaining()) == seq![c] + decode_utf8(
                final(self).spec_remaining(),
            )),
    {
        if self.front == self.back {
            proof {
                assert(self.spec_remaining() =~= Seq::<u8>::empty());
            }
            return None;
        }
        let ghost b = self.spec_bytes();
        let ghost rem = self.spec_remaining();
        proof {
            lemma_mid_valid(b, self.spec_front(), self.spec_back());
        }
        let (c, w): (char, usize) = char_at(self.bytes.as_slice(), self.front, self.back);
        proof {
            lemma_next_boundary(b, self.spec_front());
            assert(b.subrange(self.spec_front(), b.len() as int)[0] == rem[0]);
            assert(encode_scalar(c as u32) =~= rem.subrange(0, w as int)) by {
                assert(encode_scalar(c as u32) == b.subrange(
                    self.spec_front(),
                    self.spec_front() + w,
                ));
            }
        }
        self.front = self.front + w;
        proof {
            crate::unicode::lemma_single_char(c);
            lemma_mid_valid(b, self.spec_front(), self.spec_back());
            assert(rem =~= encode_scalar(c as u32) + self.spec_remaining());
            crate::unicode::lemma_concat_utf8(encode_scalar(c as u32), self.spec_remaining());
        }
        Some(c)
    }

    /// Yields the next character from the back, if any is left.
    pub fn next_back(&mut self) -> (r: Option<char>)
        requires
            old(self).wf(),
        ensures
            final(self).wf(),
            final(self).spec_bytes() == old(self).spec_bytes(),
            final(self).spec_front() == old(self).spec_front(),
            old(self).spec_remaining().len() == 0 ==> r is None && *final(self) == *old(self),
            old(self).spec_remaining().len() > 0 ==> (r matches Some(c) && old(
                self,
            ).spec_remaining() == final(self).spec_remaining() + encode_scalar(c as u32)
                && decode_utf8(old(self).spec_remaining()) == decode_utf8(
                final(self).spec_remaining(),
            ).push(c)),
    {
        if self.front == self.back {
            proof {
                assert(self.spec_remaining() =~= Seq::<u8>::empty());
            }
            return None;
        }
        let ghost b = self.spec_bytes();
        let ghost rem = self.spec_remaining();
        proof {
            lemma_mid_valid(b, self.spec_front(), self.spec_back());
        }
        let j: usize = last_char_start(self.bytes.as_slice(), self.front, self.back);
        let (c, w): (char, usize) = char_at(self.bytes.as_slice(), j, self.back);
        proof {
            assert(j + w == self.spec_back());
            assert(encode_scalar(c as u32) == b.subrange(j as int, self.spec_back()));
            assert(is_char_boundary(rem, j - self.spec_front()));
            if j - self.spec_front() == 0 {
                is_char_boundary_start_end_of_seq(b);
            } else {
                assert(rem[j - self.spec_front()] == b[j as int]);
                is_char_boundary_iff_not_is_continuation_byte(rem, j - self.spec_front());
                is_char_boundary_iff_not_is_continuation_byte(b, j as int);
            }
        }
        self.back = j;
        proof {
            crate::unicode::lemma_single_char(c);
            lemma_mid_valid(b, self.spec_front(), self.spec_back());
            assert(rem =~= self.spec_remaining() + encode_scalar(c as u32));
            crate::unicode::lemma_concat_utf8(self.spec_remaining(), encode_scalar(c as u32));
            assert(decode_utf8(self.spec_remaining()) + seq![c] =~= decode_utf8(
                self.spec_remaining(),
            ).push(c));
        }
        Some(c)
    }
}

} // verus!
