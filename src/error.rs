use vstd::prelude::*;

verus! {

/// Declares `std::io::Error` so that the library's error type can carry a
/// failure of the byte source that a caller reads from.
#[verifier::external_type_specification]
#[verifier::external_body]
pub struct ExIoError(std::io::Error);

/// Everything that can go wrong while indexing or reading a line source.
#[derive(Debug)]
pub enum Error {
    /// A failure of the underlying byte source.
    Io(std::io::Error),
    /// The persisted header or index body does not agree with the bytes around it.
    MalformedIndex,
    /// No persisted index is present where one was expected.
    MissingIndex,
    /// A line number at or past the number of lines.
    OutOfBounds,
    /// A line is not valid UTF-8 text.
    UTF8Error,
    /// A binary search ran out of candidates.
    NotFound,
}

impl Error {
    /// A short description of the error, for messages.
    pub fn describe(&self) -> (r: &'static str) {
        match self {
            Error::Io(_) => "Io",
            Error::MalformedIndex => "MalformedIndex",
            Error::MissingIndex => "MissingIndex",
            Error::OutOfBounds => "OutOfBounds",
            Error::UTF8Error => "UTF8Error",
            Error::NotFound => "NotFound",
        }
    }
}

} // verus!
