//! Extension methods on `str` that build values of this crate's string type
//! instead of the standard one: repetition and ASCII case mapping.

use vstd::prelude::*;
use vstd::utf8::*;

use crate::string::String;
use crate::unicode::{
    char_at, char_from_u32_checked, lemma_concat_utf8, lemma_encode_append, lemma_encode_decode,
    lemma_single_char,
};
use crate::SSO_CAPACITY;

verus! {

broadcast use vstd::utf8::group_utf8_lib;

/// `n` copies of `b`, concatenated.
pub open spec fn repeat_bytes(b: Seq<u8>, n: nat) -> Seq<u8>
    decreases n,
{
    if n == 0 {
        Seq::empty()
    } else {
        repeat_bytes(b, (n - 1) as nat) + b
    }
}

/// The ASCII uppercase mapping of one character: the letters a to z map to
/// A to Z, every other character is unchanged.
pub open spec fn ascii_upper_char(c: char) -> char {
    if 0x61 <= c as u32 <= 0x7A {
        ((c as u32 - 0x20) as u32) as char
    } else {
        c
    }
}

/// The ASCII lowercase mapping of one character: the letters A to Z map to
/// a to z, every other character is unchanged.
pub open spec fn ascii_lower_char(c: char) -> char {
    if 0x41 <= c as u32 <= 0x5A {
        ((c as u32 + 0x20) as u32) as char
    } else {
        c
    }
}

/// The ASCII uppercase mapping applied to every character.
pub open spec fn ascii_upper_chars(cs: Seq<char>) -> Seq<char> {
    cs.map_values(|c: char| ascii_upper_char(c))
}

/// The ASCII lowercase mapping applied to every character.
pub open spec fn ascii_lower_chars(cs: Seq<char>) -> Seq<char> {
    cs.map_values(|c: char| ascii_lower_char(c))
}

/// Methods a string slice gains from this crate.
pub trait StrExt {
    /// The character content the contracts below speak about.
    spec fn chars_view(&self) -> Seq<char>;

    /// Creates a new string by repeating this one `times` times.
    fn repeat(&self, times: usize) -> (r: String)
        requires
            encode_utf8(self.chars_view()).len() * times <= usize::MAX,
        ensures
            r.wf(),
            r@ == repeat_bytes(encode_utf8(self.chars_view()), times as nat),
            r.spec_is_alloc() == (encode_utf8(self.chars_view()).len() * times
                > SSO_CAPACITY as int),
    ;

    /// Returns a copy of this string where each character is mapped to its
    /// ASCII upper case equivalent.
    fn to_ascii_uppercase(&self) -> (r: String)
        ensures
            r.wf(),
            r@ == encode_utf8(ascii_upper_chars(self.chars_view())),
            r.spec_is_alloc() == (encode_utf8(self.chars_view()).len() > SSO_CAPACITY as int),
    ;

    /// Returns a copy of this string where each character is mapped to its
    /// ASCII lower case equivalent.
    fn to_ascii_lowercase(&self) -> (r: String)
        ensures
            r.wf(),
            r@ == encode_utf8(ascii_lower_chars(self.chars_view())),
            r.spec_is_alloc() == (encode_utf8(self.chars_view()).len() > SSO_CAPACITY as int),
    ;
}

impl StrExt for str {
    open spec fn chars_view(&self) -> Seq<char> {
        self@
    }

    fn repeat(&self, times: usize) -> (r: String) {
        let bytes: &[u8] = self.as_bytes();
        let len: usize = bytes.len();
        proof {
            assert(bytes@ == encode_utf8(self@));
        }
        let required: usize = len * times;
        let mut r = String::with_capacity(required);
        let mut i: usize = 0;
        proof {
            assert(repeat_bytes(encode_utf8(self@), 0) =~= Seq::<u8>::empty());
        }
        while i < times
            invariant
                len == encode_utf8(self@).len(),
                required == len * times,
                0 <= i <= times,
                r.wf(),
                r@ == repeat_bytes(encode_utf8(self@), i as nat),
                r@.len() == i * len,
                r.spec_is_alloc() == (required > SSO_CAPACITY),
            decreases times - i,
        {
            proof {
                assert((i + 1) * len <= times * len && i * len + len == (i + 1) * len)
                    by (nonlinear_arith)
                    requires
                        i < times,
                        len >= 0,
                ;
            }
            r.push_str(self);
            i = i + 1;
            proof {
                assert(r@ =~= repeat_bytes(encode_utf8(self@), i as nat));
            }
        }
        r
    }

    fn to_ascii_uppercase(&self) -> (r: String) {
        let b: &[u8] = self.as_bytes();
        let n: usize = b.len();
        proof {
            lemma_encode_decode(self@, b@);
            is_char_boundary_start_end_of_seq(b@);
        }
        let mut r = String::with_capacity(n);
        let mut i: usize = 0;
        let ghost sv = self@;
        proof {
            assert(b@.take(0) =~= Seq::<u8>::empty());
            assert(decode_utf8(Seq::<u8>::empty()) =~= Seq::<char>::empty());
            assert(ascii_upper_chars(Seq::<char>::empty()) =~= Seq::<char>::empty());
            assert(encode_utf8(Seq::<char>::empty()) =~= Seq::<u8>::empty());
        }
        while i < n
            invariant
                n == b@.len(),
                b@ == encode_utf8(sv),
                valid_utf8(b@),
                0 <= i <= n,
                is_char_boundary(b@, i as int),
                r.wf(),
                r@ == encode_utf8(ascii_upper_chars(decode_utf8(b@.take(i as int)))),
                r@.len() == i,
                r.spec_is_alloc() == (n > SSO_CAPACITY || i > SSO_CAPACITY),
            decreases n - i,
        {
            let ghost i0 = i as int;
            let ghost pre = decode_utf8(b@.take(i0));
            proof {
                valid_utf8_split(b@, i0);
            }
            let (c, w): (char, usize) = char_at(b, i, n);
            let v: u32 = c as u32;
            let c2: char = if 0x61 <= v && v <= 0x7A {
                char_from_u32_checked(v - 0x20)
            } else {
                c
            };
            proof {
                char_u32_cast(c, v);
                if 0x61 <= v && v <= 0x7A {
                    char_u32_cast(c2, (v - 0x20) as u32);
                }
                assert(c2 == ascii_upper_char(c));
                lemma_single_char(c);
                lemma_single_char(c2);
                assert(encode_scalar(c as u32).len() == w);
                assert(encode_scalar(c2 as u32).len() == w);
                crate::unicode::lemma_next_boundary(b@, i0);
            }
            r.push(c2);
            i = i + w;
            proof {
                assert(b@.take(i as int) =~= b@.take(i0) + encode_scalar(c as u32));
                lemma_concat_utf8(b@.take(i0), encode_scalar(c as u32));
                assert(decode_utf8(b@.take(i as int)) == pre + seq![c]);
                assert(pre + seq![c] =~= pre.push(c));
                assert(ascii_upper_chars(pre.push(c)) =~= ascii_upper_chars(pre).push(c2));
                assert(ascii_upper_chars(pre).push(c2) =~= ascii_upper_chars(pre) + seq![c2]);
                lemma_encode_append(ascii_upper_chars(pre), seq![c2]);
            }
        }
        proof {
            assert(b@.take(n as int) =~= b@);
        }
        r
    }

    fn to_ascii_lowercase(&self) -> (r: String) {
        let b: &[u8] = self.as_bytes();
        let n: usize = b.len();
        proof {
            lemma_encode_decode(self@, b@);
            is_char_boundary_start_end_of_seq(b@);
        }
        let mut r = String::with_capacity(n);
        let mut i: usize = 0;
        let ghost sv = self@;
        proof {
            assert(b@.take(0) =~= Seq::<u8>::empty());
            assert(decode_utf8(Seq::<u8>::empty()) =~= Seq::<char>::empty());
            assert(ascii_lower_chars(Seq::<char>::empty()) =~= Seq::<char>::empty());
            assert(encode_utf8(Seq::<char>::empty()) =~= Seq::<u8>::empty());
        }
        while i < n
            invariant
                n == b@.len(),
                b@ == encode_utf8(sv),
                valid_utf8(b@),
                0 <= i <= n,
                is_char_boundary(b@, i as int),
                r.wf(),
                r@ == encode_utf8(ascii_lower_chars(decode_utf8(b@.take(i as int)))),
                r@.len() == i,
                r.spec_is_alloc() == (n > SSO_CAPACITY || i > SSO_CAPACITY),
            decreases n - i,
        {
            let ghost i0 = i as int;
            let ghost pre = decode_utf8(b@.take(i0));
            proof {
                valid_utf8_split(b@, i0);
            }
            let (c, w): (char, usize) = char_at(b, i, n);
            let v: u32 = c as u32;
            let c2: char = if 0x41 <= v && v <= 0x5A {
                char_from_u32_checked(v + 0x20)
            } else {
                c
            };
            proof {
                char_u32_cast(c, v);
                if 0x41 <= v && v <= 0x5A {
                    char_u32_cast(c2, (v + 0x20) as u32);
                }
                assert(c2 == ascii_lower_char(c));
                lemma_single_char(c);
                lemma_single_char(c2);
                assert(encode_scalar(c as u32).len() == w);
                assert(encode_scalar(c2 as u32).len() == w);
                crate::unicode::lemma_next_boundary(b@, i0);
            }
            r.push(c2);
            i = i + w;
            proof {
                assert(b@.take(i as int) =~= b@.take(i0) + encode_scalar(c as u32));
                lemma_concat_utf8(b@.take(i0), encode_scalar(c as u32));
                assert(decode_utf8(b@.take(i as int)) == pre + seq![c]);
                assert(pre + seq![c] =~= pre.push(c));
                assert(ascii_lower_chars(pre.push(c)) =~= ascii_lower_chars(pre).push(c2));
                assert(ascii_lower_chars(pre).push(c2) =~= ascii_lower_chars(pre) + seq![c2]);
                lemma_encode_append(ascii_lower_chars(pre), seq![c2]);
            }
        }
        proof {
            assert(b@.take(n as int) =~= b@);
        }
        r
    }
}

} // verus!
