//! The error taxonomy: a closed set of kinds, a message, and an optional
//! one-based line/column location.

use vstd::prelude::*;

verus! {

/// The kinds of errors that decoding or encoding can report.
#[derive(Debug)]
pub enum ErrorKind {
    /// Invalid TOON syntax.
    InvalidSyntax,
    /// An invalid escape sequence inside a quoted string.
    InvalidEscape,
    /// A string was opened but never closed.
    UnterminatedString,
    /// A key-value line without the required colon.
    MissingColon,
    /// Indentation breaks the configured discipline.
    IndentationError,
    /// A blank line inside an array in strict mode.
    BlankLineInArray,
    /// The number of array elements differs from the declared count.
    CountMismatch,
    /// The number of cells in a tabular row differs from the header.
    WidthMismatch,
    /// Path expansion met conflicting values.
    ExpansionConflict,
    /// An array body uses a delimiter other than the declared one.
    DelimiterMismatch,
    /// An array header that cannot be read.
    InvalidHeader,
    /// An input or output failure, with its description.
    Io(String),
    /// A free-form error message.
    Custom(String),
}

/// An error, carrying a kind, a message, and an optional location.
#[derive(Debug)]
pub struct Error {
    kind: ErrorKind,
    message: String,
    line: Option<usize>,
    column: Option<usize>,
}

impl Error {
    /// The kind this error was built with.
    pub closed spec fn spec_kind(&self) -> ErrorKind {
        self.kind
    }

    /// The message this error was built with.
    pub closed spec fn spec_message(&self) -> Seq<char> {
        self.message@
    }

    /// The one-based line, where one is known.
    pub closed spec fn spec_line(&self) -> Option<usize> {
        self.line
    }

    /// The one-based column, where one is known.
    pub closed spec fn spec_column(&self) -> Option<usize> {
        self.column
    }

    /// Creates an error of the given kind, without a location.
    pub fn new(kind: ErrorKind, message: &str) -> (e: Error)
        ensures
            e.spec_kind() == kind,
            e.spec_message() == message@,
            e.spec_line() is None,
            e.spec_column() is None,
    {
        Error { kind, message: message.to_owned(), line: None, column: None }
    }

    /// Attaches a one-based line and column to this error.
    pub fn with_location(self, line: usize, column: usize) -> (e: Error)
        ensures
            e.spec_kind() == self.spec_kind(),
            e.spec_message() == self.spec_message(),
            e.spec_line() == Some(line),
            e.spec_column() == Some(column),
    {
        Error { kind: self.kind, message: self.message, line: Some(line), column: Some(column) }
    }

    /// Creates a free-form error: the message doubles as the kind's text.
    pub fn custom(msg: &str) -> (e: Error)
        ensures
            e.spec_kind() matches ErrorKind::Custom(s) && s@ == msg@,
            e.spec_message() == msg@,
            e.spec_line() is None,
            e.spec_column() is None,
    {
        Error {
            kind: ErrorKind::Custom(msg.to_owned()),
            message: msg.to_owned(),
            line: None,
            column: None,
        }
    }

    /// The kind of this error.
    pub fn kind(&self) -> (r: &ErrorKind)
        ensures
            *r == self.spec_kind(),
    {
        &self.kind
    }

    /// The message of this error.
    pub fn message(&self) -> (r: &str)
        ensures
            r@ == self.spec_message(),
    {
        self.message.as_str()
    }

    /// The one-based line of this error, where one is known.
    pub fn line(&self) -> (r: Option<usize>)
        ensures
            r == self.spec_line(),
    {
        self.line
    }

    /// The one-based column of this error, where one is known.
    pub fn column(&self) -> (r: Option<usize>)
        ensures
            r == self.spec_column(),
    {
        self.column
    }
}

} // verus!
