//! The failures a parse can end in.

use vstd::prelude::*;

verus! {

/// Why a parse stopped.
///
/// - `TokenizeError`: no token pattern matches at the scan position.
/// - `MalformedTagError`: a tag has no non-whitespace content, so no name.
/// - `MalformedAttributeError`: the attribute text of a tag does not form
///   key/value pairs, or a key is not followed by a value.
/// - `UnbalancedTagError`: a closing tag has no matching open tag on the
///   stack, or input ends with tags still open.
#[derive(Debug, Clone, Copy, PartialEq, Eq, Structural)]
pub enum ParseError {
    TokenizeError,
    MalformedTagError,
    MalformedAttributeError,
    UnbalancedTagError,
}

impl ParseError {
    /// A short description, for callers that report the failure.
    pub fn describe(&self) -> (r: &'static str)
    {
        match self {
            ParseError::TokenizeError => "no token pattern matches the input",
            ParseError::MalformedTagError => "a tag has no name",
            ParseError::MalformedAttributeError => "attribute text does not form key/value pairs",
            ParseError::UnbalancedTagError => "open and close tags do not balance",
        }
    }
}

} // verus!
