//! What can go wrong: a line that cannot be read, or input and output that
//! fail.

use vstd::prelude::*;
use vstd::std_specs::convert::FromSpecImpl;

verus! {

/// `std::io::Error`, carried through unread.
#[verifier::external_type_specification]
#[verifier::external_body]
pub struct ExIoError(std::io::Error);

/// A line that cannot be read, with the number of the line. The first line
/// of a text has the number 0.
#[derive(Debug, Clone, Copy, PartialEq, Eq, Structural)]
pub enum ParseError {
    /// The line opens a section header with `[` and does not close it with
    /// `]`, or names no section.
    InvalidSection(usize),
    /// The line is no header and holds no `=`.
    MissingSeparator(usize),
    /// Nothing but white space stands before the `=`.
    EmptyKey(usize),
}

impl ParseError {
    /// The number of the line that could not be read, counted from 0.
    pub open spec fn spec_line(&self) -> usize {
        match self {
            ParseError::InvalidSection(n) => *n,
            ParseError::MissingSeparator(n) => *n,
            ParseError::EmptyKey(n) => *n,
        }
    }

    /// The number of the line that could not be read, counted from 0.
    #[verifier::when_used_as_spec(spec_line)]
    pub fn line(&self) -> (n: usize)
        ensures
            n == self.spec_line(),
    {
        match self {
            ParseError::InvalidSection(n) => *n,
            ParseError::MissingSeparator(n) => *n,
            ParseError::EmptyKey(n) => *n,
        }
    }

    /// What is wrong with the line, in words.
    pub fn message(&self) -> (text: &'static str)
        ensures
            text@ == match self {
                ParseError::InvalidSection(_) => "invalid section header"@,
                ParseError::MissingSeparator(_) => "missing separator"@,
                ParseError::EmptyKey(_) => "empty key"@,
            },
    {
        match self {
            ParseError::InvalidSection(_) => "invalid section header",
            ParseError::MissingSeparator(_) => "missing separator",
            ParseError::EmptyKey(_) => "empty key",
        }
    }
}

/// Why a document could not be read or written.
#[derive(Debug)]
pub enum Error {
    /// Reading or writing failed.
    Io(std::io::Error),
    /// A line of the text could not be read.
    Parse(ParseError),
}

impl From<ParseError> for Error {
    fn from(e: ParseError) -> (r: Error) {
        Error::Parse(e)
    }
}

impl FromSpecImpl<ParseError> for Error {
    open spec fn obeys_from_spec() -> bool {
        true
    }

    open spec fn from_spec(e: ParseError) -> Error {
        Error::Parse(e)
    }
}

impl From<std::io::Error> for Error {
    fn from(e: std::io::Error) -> (r: Error) {
        Error::Io(e)
    }
}

impl FromSpecImpl<std::io::Error> for Error {
    open spec fn obeys_from_spec() -> bool {
        true
    }

    open spec fn from_spec(e: std::io::Error) -> Error {
        Error::Io(e)
    }
}

} // verus!
