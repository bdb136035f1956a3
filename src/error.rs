//! Errors of a decode: a code from a closed set and the byte offset at which it was found.
use vstd::prelude::*;

verus! {

/// The broad class of an [`Error`].
#[derive(Debug, Clone, Copy, PartialEq, Eq, Structural)]
pub enum Category {
    /// The byte stream under the decoder failed.
    Io,
    /// The input is not valid Rison.
    Syntax,
    /// The input is valid Rison but not what the caller's target accepts.
    Data,
    /// The input ended where more was required.
    Eof,
}

/// std::io::Error, carried unopened inside [`Code::Io`].
#[verifier::external_type_specification]
#[verifier::external_body]
pub struct ExIoError(std::io::Error);

/// What went wrong.
#[derive(Debug)]
pub enum Code {
    /// A failure reported by the code that builds the target value.
    Message(String),
    /// A failure of the underlying byte stream.
    Io(std::io::Error),
    EofValue,
    EofList,
    EofObject,
    EofString,
    EofMarker,
    ExpectedColon,
    ExpectedListSepOrEnd,
    ExpectedObjectSepOrEnd,
    InvalidMarker,
    InvalidEscape,
    InvalidNumber,
    InvalidUnicode,
    TrailingChars,
}

/// The category that each code belongs to.
pub open spec fn category_of(c: Code) -> Category {
    match c {
        Code::Message(_) => Category::Data,
        Code::Io(_) => Category::Io,
        Code::EofValue | Code::EofList | Code::EofObject | Code::EofString
        | Code::EofMarker => Category::Eof,
        _ => Category::Syntax,
    }
}

/// An error that stops a decode.
#[derive(Debug)]
pub struct Error {
    pub code: Code,
    pub position: Option<usize>,
}

/// A syntax or end-of-input error found by the decoder at byte offset `pos`.
pub open spec fn at(code: Code, pos: int) -> Error {
    Error { code, position: Some(pos as usize) }
}

impl Error {
    /// An error found by the decoder at byte offset `position`.
    pub fn new(code: Code, position: usize) -> (r: Error)
        ensures
            r.code == code,
            r.position == Some(position),
    {
        Error { code, position: Some(position) }
    }

    /// A failure from the code that builds the target value; it has no position.
    pub fn custom(msg: String) -> (r: Error)
        ensures
            r.code == Code::Message(msg),
            r.position is None,
    {
        Error { code: Code::Message(msg), position: None }
    }

    /// Categorizes this error.
    pub fn classify(&self) -> (r: Category)
        ensures
            r == category_of(self.code),
    {
        match self.code {
            Code::Message(_) => Category::Data,
            Code::Io(_) => Category::Io,
            Code::EofValue | Code::EofList | Code::EofObject | Code::EofString
            | Code::EofMarker => Category::Eof,
            Code::ExpectedColon | Code::ExpectedListSepOrEnd | Code::ExpectedObjectSepOrEnd
            | Code::InvalidMarker | Code::InvalidEscape | Code::InvalidNumber
            | Code::InvalidUnicode | Code::TrailingChars => Category::Syntax,
        }
    }

    /// Zero-based byte offset at which the error was detected, where it has one.
    pub fn position(&self) -> (r: Option<usize>)
        ensures
            r == self.position,
    {
        self.position
    }

    /// The code of this error.
    pub fn code(&self) -> (r: &Code)
        ensures
            *r == self.code,
    {
        &self.code
    }
}

} // verus!
