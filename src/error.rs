use vstd::prelude::*;

verus! {

/// Why a text could not be turned into a value.
#[derive(Debug, Clone, PartialEq, Eq)]
pub enum CodecError {
    /// The text, once trimmed, is not enclosed in `[` and `]`; holds that text.
    MalformedArray(String),
    /// The text is not syntactically valid JSON.
    ParseError,
    /// A JSON value has the wrong shape for what is being decoded.
    TypeMismatch,
    /// The slots of a tree do not fit the level-order expansion rule.
    MalformedTree,
}

} // verus!
