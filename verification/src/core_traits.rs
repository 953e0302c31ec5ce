//! Comparison and construction glue: strings compare by their decoded
//! content alone, so an inline and a heap value holding the same text are
//! equal whatever their representation.

use vstd::prelude::*;
use vstd::utf8::encode_utf8;

use crate::byte_ops::{bytes_cmp, bytes_eq, spec_bytes_cmp};
use crate::string::String;

verus! {

impl PartialEq for String {
    fn eq(&self, other: &String) -> (r: bool) {
        bytes_eq(self.as_bytes(), other.as_bytes())
    }
}

impl vstd::std_specs::cmp::PartialEqSpecImpl for String {
    open spec fn obeys_eq_spec() -> bool {
        true
    }

    open spec fn eq_spec(&self, other: &String) -> bool {
        self@ == other@
    }
}

impl Eq for String {

}

impl PartialEq<&str> for String {
    fn eq(&self, other: &&str) -> (r: bool) {
        bytes_eq(self.as_bytes(), other.as_bytes())
    }
}

impl vstd::std_specs::cmp::PartialEqSpecImpl<&str> for String {
    open spec fn obeys_eq_spec() -> bool {
        true
    }

    open spec fn eq_spec(&self, other: &&str) -> bool {
        self@ == encode_utf8((*other)@)
    }
}

impl PartialEq<std::string::String> for String {
    fn eq(&self, other: &std::string::String) -> (r: bool) {
        bytes_eq(self.as_bytes(), other.as_str().as_bytes())
    }
}

impl vstd::std_specs::cmp::PartialEqSpecImpl<std::string::String> for String {
    open spec fn obeys_eq_spec() -> bool {
        true
    }

    open spec fn eq_spec(&self, other: &std::string::String) -> bool {
        self@ == encode_utf8(other@)
    }
}

impl PartialEq<String> for &str {
    fn eq(&self, other: &String) -> (r: bool) {
        bytes_eq(self.as_bytes(), other.as_bytes())
    }
}

impl vstd::std_specs::cmp::PartialEqSpecImpl<String> for &str {
    open spec fn obeys_eq_spec() -> bool {
        true
    }

    open spec fn eq_spec(&self, other: &String) -> bool {
        encode_utf8((*self)@) == other@
    }
}

impl PartialOrd for String {
    fn partial_cmp(&self, other: &String) -> (r: Option<core::cmp::Ordering>) {
        Some(bytes_cmp(self.as_bytes(), other.as_bytes()))
    }
}

impl vstd::std_specs::cmp::PartialOrdSpecImpl for String {
    open spec fn obeys_partial_cmp_spec() -> bool {
        true
    }

    open spec fn partial_cmp_spec(&self, other: &String) -> Option<core::cmp::Ordering> {
        Some(spec_bytes_cmp(self@, other@))
    }
}

impl Default for String {
    /// Creates an empty string, in the inline representation.
    fn default() -> (r: String)
        ensures
            r.wf(),
            r@ == Seq::<u8>::empty(),
            !r.spec_is_alloc(),
    {
        String::new()
    }
}

} // verus!
