//! The closed error taxonomy of the decoding pipeline and the validator,
//! and the shared "expected X found Y" message shape.

use vstd::prelude::*;
use vstd::string::StringExecFns;

verus! {

/// Every failure the pipeline can report, decoding-time and
/// validation-time kinds together with the kinds owned by the
/// command-line and persistence layers.
#[derive(Debug, Clone, Copy, PartialEq, Eq, Structural)]
pub enum ParserErrorType {
    TrailerError,
    ParseInteger,
    ParseFloat,
    ItemError,
    HeaderError,
    FacturaError,
    CurrencyError,
    InvalidDate,
    InvalidPath,
    FailedDBConnection,
    InvalidNumberOfArguments,
    ItemSumNotEqual,
    NotSameItems,
}

/// A classified failure: a kind from the closed taxonomy and a
/// human-readable message.
#[derive(Debug)]
pub struct ParserError {
    pub kind: ParserErrorType,
    pub message: String,
}

/// The message every classified failure carries.
pub open spec fn expected_found(expected: Seq<char>, found: Seq<char>) -> Seq<char> {
    "Expected "@ + expected + " found "@ + found
}

impl ParserError {
    /// Builds a classified failure with the shared message shape.
    pub fn new(kind: ParserErrorType, expected: &str, found: &str) -> (e: ParserError)
        ensures
            e.kind == kind,
            e.message@ == expected_found(expected@, found@),
    {
        let mut message = "Expected ".to_owned();
        message.append(expected);
        message.append(" found ");
        message.append(found);
        ParserError { kind, message }
    }
}

} // verus!
