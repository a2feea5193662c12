//! The ways in which text can fail to parse.

use vstd::prelude::*;

verus! {

/// Why a text was rejected. Parsing stops at the first line that fails, so
/// a failed parse reports exactly one of these.
#[derive(Debug, Clone, Copy, PartialEq, Eq, Structural)]
pub enum SyntaxError {
    /// A line that neither opens nor closes a block holds no `=`.
    MissingAssignment,
    /// The right-hand side of an assignment has none of the known shapes.
    UnsupportedValue,
}

impl SyntaxError {
    /// The text of the message for this error.
    pub open spec fn message_text(self) -> Seq<char> {
        match self {
            SyntaxError::MissingAssignment => "Invalid syntax"@,
            SyntaxError::UnsupportedValue => "Unsupported value type"@,
        }
    }

    /// The message for this error.
    pub fn message(&self) -> (out: String)
        ensures
            out@ == self.message_text(),
    {
        match self {
            SyntaxError::MissingAssignment => String::from_str("Invalid syntax"),
            SyntaxError::UnsupportedValue => String::from_str("Unsupported value type"),
        }
    }
}

} // verus!
