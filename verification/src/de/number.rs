//! Numbers as `serde_json` takes them.
//!
//! A scan does not look into a number: it takes every run of bytes that
//! starts like one. Whether such a run is a number is asked of `serde_json`
//! when a document is made a tree of values.

use std::str::FromStr;
use vstd::prelude::*;
use crate::de::tree::Json;
use crate::std_ext::str::{str_trim, trim_chars};

verus! {

/// Whether `serde_json` takes the text for a number.
pub uninterp spec fn is_number(text: Seq<char>) -> bool;

/// `serde_json::Number::from_str`: whether the text, as a whole, is a
/// number of JSON that `serde_json` can hold. What the number is, is not
/// said.
#[verifier::external_body]
pub(crate) fn number_from_str(text: &str) -> (r: bool)
    ensures
        r == is_number(text@),
{
    serde_json::Number::from_str(text).is_ok()
}

/// What the text of a number of a document stands for: a number, if
/// `serde_json` takes the text without the white space around it for one,
/// and else a string. Either has the text as it stands in the input.
pub open spec fn number_json(text: Seq<char>) -> Json {
    if is_number(trim_chars(text)) {
        Json::Num(text)
    } else {
        Json::Str(text)
    }
}

/// Whether `serde_json` takes the text, without the white space around
/// it, for a number.
pub fn reads_as_number(text: &str) -> (r: bool)
    ensures
        r == is_number(trim_chars(text@)),
{
    number_from_str(str_trim(text))
}

} // verus!
