//! Conversions between UTF-16 code units and `char`.

use vstd::prelude::*;
use vstd::utf8::is_scalar;

verus! {

/// The error of a surrogate pair that names no Unicode scalar value.
#[derive(Debug, Clone, PartialEq)]
pub struct CharTryFromSurrogateError {}

impl CharTryFromSurrogateError {
    /// The text that describes this error.
    pub fn message(&self) -> (text: &'static str)
        ensures
            text@ == "converted integer out of range for `char`"@,
    {
        "converted integer out of range for `char`"
    }
}

/// The code that a pair of UTF-16 units stands for, where both lie at or above
/// the start of their surrogate range.
pub open spec fn surrogate_pair_code(high: u16, low: u16) -> int {
    (high - 0xD800) * 0x400 + (low - 0xDC00) + 0x10000
}

/// Whether a pair of UTF-16 units combines into a Unicode scalar value.
pub open spec fn is_surrogate_pair(high: u16, low: u16) -> bool {
    &&& high >= 0xD800
    &&& low >= 0xDC00
    &&& surrogate_pair_code(high, low) <= 0x10FFFF
}

/// `char::try_from` on a `u32`: the scalar value with the given code, where there is
/// one, and nothing for a surrogate or a code above `0x10FFFF`.
#[verifier::external_body]
pub(crate) fn char_from_u32(code: u32) -> (c: Option<char>)
    ensures
        c is Some <==> is_scalar(code),
        c matches Some(ch) ==> ch as u32 == code,
{
    char::try_from(code).ok()
}

/// Combines a high and a low UTF-16 surrogate into the character they encode.
pub fn try_from_utf16_surrogate_pair(high: u16, low: u16) -> (r: Result<
    char,
    CharTryFromSurrogateError,
>)
    ensures
        r is Ok <==> is_surrogate_pair(high, low),
        r matches Ok(c) ==> c as u32 == surrogate_pair_code(high, low),
{
    if high < 0xD800 || low < 0xDC00 {
        return Err(CharTryFromSurrogateError {});
    }
    let code: u32 = ((high - 0xD800) as u32) * 0x400 + ((low - 0xDC00) as u32) + 0x10000;
    match char_from_u32(code) {
        Some(c) => Ok(c),
        None => Err(CharTryFromSurrogateError {}),
    }
}

} // verus!
