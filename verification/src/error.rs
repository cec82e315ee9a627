//! What can go wrong.

use vstd::prelude::*;
use vstd::string::StringExecFns;

verus! {

/// The failures of parsing and of running a program.
#[derive(Clone, Copy, Debug, PartialEq, Eq, Structural)]
pub enum Error {
    /// A loop is opened and never closed.
    MismatchedBrackets,
    /// A line of input is neither a number from 0 to 255 nor has a first
    /// character to stand for one.
    InputParseError,
}

impl Error {
    /// The text of the message for each failure.
    pub open spec fn message_text(self) -> Seq<char> {
        match self {
            Error::MismatchedBrackets => "mismatched brackets: a loop is never closed"@,
            Error::InputParseError => "could not parse input: the line is empty"@,
        }
    }

    /// A message for the user.
    pub fn message(&self) -> (text: String)
        ensures
            text@ == self.message_text(),
    {
        match self {
            Error::MismatchedBrackets => String::from_str(
                "mismatched brackets: a loop is never closed",
            ),
            Error::InputParseError => String::from_str("could not parse input: the line is empty"),
        }
    }
}

} // verus!
