//! Splitting a JSON array into the texts of its top-level elements.
use vstd::prelude::*;
use vstd::string::*;

use crate::error::CodecError;
use crate::json::{fault_error, json_element_texts, json_elements, to_codec_error, trim, trimmed};

verus! {

/// A sequence of values written in the input as one JSON array.
#[derive(Debug, PartialEq)]
pub struct Array<T>(pub Vec<T>);

/// Whether a text opens with `[` and closes with a separate `]`.
pub open spec fn is_bracketed(t: Seq<char>) -> bool {
    t.len() >= 2 && t[0] == '[' && t.last() == ']'
}

/// Splits the text of a JSON array into the compact texts of its top-level
/// elements, in order; a nested array or object stays one element. White
/// space around the array is ignored.
pub fn split_array(raw: &str) -> (r: Result<Vec<String>, CodecError>)
    ensures
        !is_bracketed(trimmed(raw@)) ==> (r matches Err(CodecError::MalformedArray(t)) && t@
            == trimmed(raw@)),
        is_bracketed(trimmed(raw@)) ==> match json_elements(trimmed(raw@)) {
            Ok(elements) => r is Ok && r->Ok_0@.map_values(|s: String| s@) == elements,
            Err(f) => r == Err::<Vec<String>, CodecError>(fault_error(f)),
        },
{
    let t = trim(raw);
    let n = t.unicode_len();
    if n < 2 || t.get_char(0) != '[' || t.get_char(n - 1) != ']' {
        return Err(CodecError::MalformedArray(String::from_str(t)));
    }
    match json_element_texts(t) {
        Ok(elements) => Ok(elements),
        Err(f) => Err(to_codec_error(f)),
    }
}

} // verus!
