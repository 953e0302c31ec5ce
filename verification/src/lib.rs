//! A string type optimized for small contents: short strings live entirely in
//! the value's own storage, longer ones are promoted to a growable heap buffer.
//!
//! The content of a string is modelled as its UTF-8 byte sequence; every public
//! operation states exactly which bytes the value holds afterwards, and that
//! the bytes always form valid UTF-8.

mod byte_ops;
mod core_traits;
mod drain;
mod heap;
mod inline;
pub mod laws;
mod str_ext;
mod string;
mod unicode;
mod utf16;
mod utils;

pub use drain::Drain;
pub use heap::HeapBuffer;
pub use inline::{InlineBuffer, Overflow};
pub use str_ext::StrExt;
pub use string::String;
pub use utf16::DecodeUtf16Error;
pub use utils::{assert_range_len, MiniStr};

use vstd::prelude::*;

verus! {

/// Number of content bytes a string can hold without allocating: two machine
/// words minus one byte for the length and one for the variant tag.
pub const SSO_CAPACITY: usize = 14;

} // verus!
