//! The failures of a parse.

use vstd::prelude::*;

verus! {

/// `std::io::Error`, carried through unread.
#[verifier::external_type_specification]
#[verifier::external_body]
pub struct ExIoError(std::io::Error);

/// Why a document could not be read.
#[derive(Debug)]
pub enum Error {
    /// The input could not be obtained.
    Io(std::io::Error),
    /// The input breaks the grammar, or a token's text is not UTF-8.
    Parse,
    /// The input ends inside a token.
    Eof,
}

impl From<std::io::Error> for Error {
    fn from(value: std::io::Error) -> (error: Self) {
        Error::Io(value)
    }
}

impl vstd::std_specs::convert::FromSpecImpl<std::io::Error> for Error {
    open spec fn obeys_from_spec() -> bool {
        true
    }

    open spec fn from_spec(value: std::io::Error) -> Self {
        Error::Io(value)
    }
}

impl Error {
    /// The message that describes the failure: a fixed one for a failure of
    /// the parse, and for a failure of the input what that failure displays.
    pub fn message(&self) -> (text: String)
        ensures
            *self == Error::Parse ==> text@ == "Parsing error."@,
            *self == Error::Eof ==> text@ == "EOF reached."@,
            *self matches Error::Io(error) ==> vstd::string::to_string_from_display_ensures::<
                std::io::Error,
            >(&error, text),
    {
        match self {
            Error::Io(error) => error.to_string(),
            Error::Parse => "Parsing error.".to_owned(),
            Error::Eof => "EOF reached.".to_owned(),
        }
    }
}

} // verus!
