//! The calls into serde_json and std that the codecs rest on.
use vstd::prelude::*;

use crate::error::CodecError;
use crate::text::slots_text;

verus! {

/// How serde_json classifies a failure to read a text.
#[derive(Debug, Clone, Copy, PartialEq, Eq, Structural)]
pub enum JsonFault {
    /// The text is not syntactically valid JSON, or ends too early.
    Syntax,
    /// The text is valid JSON, but a value has the wrong type.
    Data,
}

/// What serde_json reads from a text as an array of optional 32-bit integers.
pub uninterp spec fn json_slots(text: Seq<char>) -> Result<Seq<Option<i32>>, JsonFault>;

/// What serde_json reads from a text as an array of arbitrary values, each
/// written back as compact JSON text.
pub uninterp spec fn json_elements(text: Seq<char>) -> Result<Seq<Seq<char>>, JsonFault>;

/// Whether a character is white space in Unicode's sense (property White_Space).
pub open spec fn is_white(c: char) -> bool {
    ('\u{9}' <= c && c <= '\u{d}') || c == ' ' || c == '\u{85}' || c == '\u{a0}'
        || c == '\u{1680}' || ('\u{2000}' <= c && c <= '\u{200a}') || c == '\u{2028}'
        || c == '\u{2029}' || c == '\u{202f}' || c == '\u{205f}' || c == '\u{3000}'
}

/// The text without its leading white space.
pub open spec fn trim_start(s: Seq<char>) -> Seq<char>
    decreases s.len(),
{
    if s.len() > 0 && is_white(s[0]) {
        trim_start(s.drop_first())
    } else {
        s
    }
}

/// The text without its trailing white space.
pub open spec fn trim_end(s: Seq<char>) -> Seq<char>
    decreases s.len(),
{
    if s.len() > 0 && is_white(s.last()) {
        trim_end(s.drop_last())
    } else {
        s
    }
}

/// The text without its leading and trailing white space.
pub open spec fn trimmed(s: Seq<char>) -> Seq<char> {
    trim_end(trim_start(s))
}

/// The error that a failure of serde_json becomes.
pub open spec fn fault_error(f: JsonFault) -> CodecError {
    match f {
        JsonFault::Syntax => CodecError::ParseError,
        JsonFault::Data => CodecError::TypeMismatch,
    }
}

/// Turns a failure of serde_json into the library's error.
pub fn to_codec_error(f: JsonFault) -> (e: CodecError)
    ensures
        e == fault_error(f),
{
    match f {
        JsonFault::Syntax => CodecError::ParseError,
        JsonFault::Data => CodecError::TypeMismatch,
    }
}

/// Relies on `str::trim`: it removes leading and trailing characters whose
/// `char::is_whitespace` holds, that is Unicode's White_Space property.
#[verifier::external_body]
pub(crate) fn trim(s: &str) -> (r: &str)
    ensures
        r@ == trimmed(s@),
{
    s.trim()
}

/// Relies on `serde_json::to_string` at `Vec<Option<i32>>`: the compact
/// writer puts out `[`, the slots separated by `,`, each an integer in decimal
/// (written by itoa) or `null`, then `]`; writing such a vector cannot fail.
#[verifier::external_body]
pub(crate) fn slots_to_json(slots: &Vec<Option<i32>>) -> (r: String)
    ensures
        r@ == slots_text(slots@),
{
    serde_json::to_string(slots).expect("a vector of optional integers is always written")
}

/// Relies on `serde_json::from_str` at `Vec<Option<i32>>`, and on
/// `serde_json::Error::is_data` to tell a type error from a syntax error.
/// The result depends on the text alone, and the compact text of a vector is
/// read back as that vector.
#[verifier::external_body]
pub(crate) fn json_to_slots(text: &str) -> (r: Result<Vec<Option<i32>>, JsonFault>)
    ensures
        json_slots(text@) == match r {
            Ok(v) => Ok(v@),
            Err(f) => Err::<Seq<Option<i32>>, JsonFault>(f),
        },
        forall|v: Seq<Option<i32>>| #[trigger] slots_text(v) == text@ ==> r is Ok && r->Ok_0@ == v,
{
    match serde_json::from_str::<Vec<Option<i32>>>(text) {
        Ok(v) => Ok(v),
        Err(e) => Err(if e.is_data() { JsonFault::Data } else { JsonFault::Syntax }),
    }
}

/// Relies on `serde_json::from_str` at `Vec<serde_json::Value>`, on the
/// `Display` of `serde_json::Value`, which writes a value as compact JSON, and
/// on `serde_json::Error::is_data`. The result depends on the text alone.
#[verifier::external_body]
pub(crate) fn json_element_texts(text: &str) -> (r: Result<Vec<String>, JsonFault>)
    ensures
        json_elements(text@) == match r {
            Ok(v) => Ok(v@.map_values(|s: String| s@)),
            Err(f) => Err::<Seq<Seq<char>>, JsonFault>(f),
        },
{
    match serde_json::from_str::<Vec<serde_json::Value>>(text) {
        Ok(values) => Ok(values.iter().map(|v| v.to_string()).collect()),
        Err(e) => Err(if e.is_data() { JsonFault::Data } else { JsonFault::Syntax }),
    }
}

} // verus!
