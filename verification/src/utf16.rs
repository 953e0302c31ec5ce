//! UTF-16 decoding: the meaning of a sequence of 16-bit code units, both
//! strict (failing at the first unpaired surrogate) and lossy (substituting
//! the replacement character).

use vstd::prelude::*;

verus! {

/// True for code units in the surrogate range, which never stand alone.
pub open spec fn is_surrogate(u: u16) -> bool {
    0xD800 <= u < 0xE000
}

/// True for code units that open a surrogate pair.
pub open spec fn is_high_surrogate(u: u16) -> bool {
    0xD800 <= u < 0xDC00
}

/// True for code units that close a surrogate pair.
pub open spec fn is_low_surrogate(u: u16) -> bool {
    0xDC00 <= u < 0xE000
}

/// The scalar value encoded by a surrogate pair.
pub open spec fn combined_scalar(hi: u16, lo: u16) -> u32
    recommends
        is_high_surrogate(hi),
        is_low_surrogate(lo),
{
    (0x10000 + (hi as int - 0xD800) * 0x400 + (lo as int - 0xDC00)) as u32
}

/// True when the unit sequence is well-formed UTF-16: every surrogate opens
/// or closes a complete pair.
pub open spec fn utf16_valid(units: Seq<u16>) -> bool
    decreases units.len(),
{
    if units.len() == 0 {
        true
    } else if !is_surrogate(units[0]) {
        utf16_valid(units.drop_first())
    } else if is_high_surrogate(units[0]) && units.len() >= 2 && is_low_surrogate(units[1]) {
        utf16_valid(units.skip(2))
    } else {
        false
    }
}

/// The characters encoded by a well-formed UTF-16 unit sequence.
pub open spec fn utf16_chars(units: Seq<u16>) -> Seq<char>
    recommends
        utf16_valid(units),
    decreases units.len(),
{
    if units.len() == 0 {
        seq![]
    } else if !is_surrogate(units[0]) {
        seq![(units[0] as u32) as char] + utf16_chars(units.drop_first())
    } else if is_high_surrogate(units[0]) && units.len() >= 2 && is_low_surrogate(units[1]) {
        seq![combined_scalar(units[0], units[1]) as char] + utf16_chars(units.skip(2))
    } else {
        seq![]
    }
}

/// The first code unit at which an ill-formed UTF-16 sequence breaks:
/// the unpaired surrogate that strict decoding reports.
pub open spec fn utf16_first_invalid(units: Seq<u16>) -> u16
    recommends
        !utf16_valid(units),
    decreases units.len(),
{
    if units.len() == 0 {
        0
    } else if !is_surrogate(units[0]) {
        utf16_first_invalid(units.drop_first())
    } else if is_high_surrogate(units[0]) && units.len() >= 2 && is_low_surrogate(units[1]) {
        utf16_first_invalid(units.skip(2))
    } else {
        units[0]
    }
}

/// The characters read from an arbitrary UTF-16 unit sequence when every
/// unpaired surrogate is replaced by U+FFFD.
pub open spec fn utf16_chars_lossy(units: Seq<u16>) -> Seq<char>
    decreases units.len(),
{
    if units.len() == 0 {
        seq![]
    } else if !is_surrogate(units[0]) {
        seq![(units[0] as u32) as char] + utf16_chars_lossy(units.drop_first())
    } else if is_high_surrogate(units[0]) && units.len() >= 2 && is_low_surrogate(units[1]) {
        seq![combined_scalar(units[0], units[1]) as char] + utf16_chars_lossy(units.skip(2))
    } else {
        seq!['\u{FFFD}'] + utf16_chars_lossy(units.drop_first())
    }
}

/// On well-formed input, lossy decoding reads exactly the strict characters.
pub proof fn lemma_utf16_lossy_of_valid(units: Seq<u16>)
    requires
        utf16_valid(units),
    ensures
        utf16_chars_lossy(units) == utf16_chars(units),
    decreases units.len(),
{
    if units.len() == 0 {
    } else if !is_surrogate(units[0]) {
        lemma_utf16_lossy_of_valid(units.drop_first());
    } else {
        lemma_utf16_lossy_of_valid(units.skip(2));
    }
}

/// The error strict UTF-16 decoding returns: the unpaired surrogate unit it
/// stopped at.
#[derive(Debug, Clone, Copy)]
pub struct DecodeUtf16Error {
    code: u16,
}

impl DecodeUtf16Error {
    /// The code unit the error reports.
    pub closed spec fn spec_code(&self) -> u16 {
        self.code
    }

    pub(crate) fn new(code: u16) -> (r: DecodeUtf16Error)
        ensures
            r.spec_code() == code,
    {
        DecodeUtf16Error { code }
    }

    /// Returns the unpaired surrogate which caused the decode to fail.
    pub fn unpaired_surrogate(&self) -> (r: u16)
        ensures
            r == self.spec_code(),
    {
        self.code
    }
}

} // verus!
