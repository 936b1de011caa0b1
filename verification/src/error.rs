//! The error type of the library: a kind, a description for the user and,
//! where the error belongs to a line of a file, that line's number.

use crate::text::{decimal, decimal_string};
use vstd::prelude::*;
use vstd::string::*;

verus! {

/// What went wrong. Every kind ends the indexing run that met it.
#[derive(Debug, Clone, Copy, PartialEq, Eq, Structural)]
pub enum ErrorKind {
    /// The root that was to be indexed is not a directory.
    NotADirectory,
    /// The file system could not be read.
    Io,
    /// A path cannot be written as text.
    PathEncoding,
    /// The first significant line of a localization file does not end in a colon.
    MalformedLanguageSpecifier,
    /// The first significant line of a localization file names no known language.
    UnrecognizedLanguageSpecifier,
    /// A line of a localization file is not of the form `key:0 "value"`.
    MalformedKeyLine,
    /// The store refused an operation.
    PersistenceFailure,
    /// Any other failure, known by its description only.
    Other,
}

/// What an `Error` holds, as plain values.
pub struct ErrorView {
    pub kind: ErrorKind,
    pub description: Seq<char>,
    /// Counted from one.
    pub line_number: Option<nat>,
}

/// `std::io::Error`, the error of the standard library's input and output.
/// Nothing is known of what a value of it holds.
#[verifier::external_type_specification]
#[verifier::external_body]
pub struct ExIoError(std::io::Error);

/// `std::path::StripPrefixError`, the error of the standard library for a
/// path that does not start with a given prefix. Nothing is known of what a
/// value of it holds.
#[verifier::external_type_specification]
#[verifier::external_body]
pub struct ExStripPrefixError(std::path::StripPrefixError);

/// What `std::path::StripPrefixError` shows of itself to a user, through its
/// `Display`. Nothing is claimed of the text.
#[verifier::external_body]
fn strip_prefix_error_text(error: &std::path::StripPrefixError) -> (text: String) {
    error.to_string()
}

/// What `std::io::Error` shows of itself to a user, through its `Display`.
/// Nothing is claimed of the text.
#[verifier::external_body]
fn io_error_text(error: &std::io::Error) -> (text: String) {
    error.to_string()
}

#[derive(Debug, Clone)]
pub struct Error {
    kind: ErrorKind,
    description: String,
    line_number: Option<usize>,
}

impl View for Error {
    type V = ErrorView;

    closed spec fn view(&self) -> ErrorView {
        ErrorView {
            kind: self.kind,
            description: self.description@,
            line_number: match self.line_number {
                Some(n) => Some(n as nat),
                None => None,
            },
        }
    }
}

/// The text `path:line_number: description`.
pub open spec fn file_reference(path: Seq<char>, line_number: nat, description: Seq<char>) -> Seq<
    char,
> {
    path + seq![':'] + decimal(line_number) + seq![':', ' '] + description
}

/// The text of the error for a root that is not a directory.
pub open spec fn not_a_directory_text(root: Seq<char>) -> Seq<char> {
    "Root path `"@ + root + "` doesn't point to a directory"@
}

/// The text of the error for a path that is not valid UTF-8; `path` is what
/// can be shown of it.
pub open spec fn path_encoding_text(path: Seq<char>) -> Seq<char> {
    "path `"@ + path + "` contains invalid UTF-8"@
}

impl Error {
    /// An error of kind `Other` with the given description.
    pub fn new(description: String) -> (e: Error)
        ensures
            e@ == (ErrorView { kind: ErrorKind::Other, description: description@, line_number: None }),
    {
        Error { kind: ErrorKind::Other, description, line_number: None }
    }

    /// An error of the given kind with the given description.
    pub fn with_kind(kind: ErrorKind, description: String) -> (e: Error)
        ensures
            e@ == (ErrorView { kind, description: description@, line_number: None }),
    {
        Error { kind, description, line_number: None }
    }

    /// An error of kind `Other` that belongs to line `line_number` of the file
    /// at `path`; its description starts with that place.
    pub fn with_file_reference(path: &str, line_number: usize, description: &str) -> (e: Error)
        ensures
            e@ == (ErrorView {
                kind: ErrorKind::Other,
                description: file_reference(path@, line_number as nat, description@),
                line_number: Some(line_number as nat),
            }),
    {
        let mut text = String::from_str(path);
        text.push(':');
        let number = decimal_string(line_number);
        text.append(number.as_str());
        text.push(':');
        text.push(' ');
        text.append(description);
        proof {
            assert(text@ =~= file_reference(path@, line_number as nat, description@));
        }
        Error { kind: ErrorKind::Other, description: text, line_number: Some(line_number) }
    }

    /// The same error under another kind.
    pub fn of_kind(self, kind: ErrorKind) -> (e: Error)
        ensures
            e@ == (ErrorView { kind, ..self@ }),
    {
        Error { kind, description: self.description, line_number: self.line_number }
    }

    /// The error for an indexing root that is not a directory.
    pub fn not_a_directory(root: &str) -> (e: Error)
        ensures
            e@ == (ErrorView {
                kind: ErrorKind::NotADirectory,
                description: not_a_directory_text(root@),
                line_number: None,
            }),
    {
        let mut text = String::from_str("Root path `");
        text.append(root);
        text.append("` doesn't point to a directory");
        Error { kind: ErrorKind::NotADirectory, description: text, line_number: None }
    }

    /// The error for a path that cannot be written as text.
    pub fn path_encoding(path: &str) -> (e: Error)
        ensures
            e@ == (ErrorView {
                kind: ErrorKind::PathEncoding,
                description: path_encoding_text(path@),
                line_number: None,
            }),
    {
        let mut text = String::from_str("path `");
        text.append(path);
        text.append("` contains invalid UTF-8");
        Error { kind: ErrorKind::PathEncoding, description: text, line_number: None }
    }

    /// The error for a failure of the file system, which `description`
    /// tells of.
    pub fn io(description: String) -> (e: Error)
        ensures
            e@ == (ErrorView { kind: ErrorKind::Io, description: description@, line_number: None }),
    {
        Error { kind: ErrorKind::Io, description, line_number: None }
    }

    /// The error for a failure of the store, which `description` tells of.
    pub fn persistence_failure(description: String) -> (e: Error)
        ensures
            e@ == (ErrorView {
                kind: ErrorKind::PersistenceFailure,
                description: description@,
                line_number: None,
            }),
    {
        Error { kind: ErrorKind::PersistenceFailure, description, line_number: None }
    }

    pub fn kind(&self) -> (kind: ErrorKind)
        ensures
            kind == self@.kind,
    {
        self.kind
    }

    pub fn description(&self) -> (description: &String)
        ensures
            description@ == self@.description,
    {
        &self.description
    }

    /// The number of the line that the error belongs to, counted from one.
    pub fn line_number(&self) -> (line_number: Option<usize>)
        ensures
            self@.line_number == match line_number {
                Some(n) => Some(n as nat),
                None => None,
            },
    {
        self.line_number
    }
}

impl vstd::std_specs::convert::FromSpecImpl<std::io::Error> for Error {
    /// The conversion is told of by the `ensures` of `from`, over views.
    open spec fn obeys_from_spec() -> bool {
        false
    }

    open spec fn from_spec(value: std::io::Error) -> Error {
        arbitrary()
    }
}

impl From<std::io::Error> for Error {
    /// An error of the file system becomes an error of kind `Io` with the
    /// text that the file system's error shows.
    fn from(error: std::io::Error) -> (e: Error)
        ensures
            e@.kind == ErrorKind::Io,
            e@.line_number is None,
    {
        Error::io(io_error_text(&error))
    }
}

impl vstd::std_specs::convert::FromSpecImpl<std::path::StripPrefixError> for Error {
    /// The conversion is told of by the `ensures` of `from`, over views.
    open spec fn obeys_from_spec() -> bool {
        false
    }

    open spec fn from_spec(value: std::path::StripPrefixError) -> Error {
        arbitrary()
    }
}

impl From<std::path::StripPrefixError> for Error {
    /// A path that does not lie under its root becomes an error of kind
    /// `Other` with the text that the standard library's error shows.
    fn from(error: std::path::StripPrefixError) -> (e: Error)
        ensures
            e@.kind == ErrorKind::Other,
            e@.line_number is None,
    {
        Error::new(strip_prefix_error_text(&error))
    }
}

impl vstd::std_specs::convert::FromSpecImpl<String> for Error {
    /// The conversion is told of by the `ensures` of `from`, over views.
    open spec fn obeys_from_spec() -> bool {
        false
    }

    open spec fn from_spec(value: String) -> Error {
        arbitrary()
    }
}

impl From<String> for Error {
    fn from(value: String) -> (e: Error)
        ensures
            e@ == (ErrorView { kind: ErrorKind::Other, description: value@, line_number: None }),
    {
        Error::new(value)
    }
}

impl vstd::std_specs::convert::FromSpecImpl<&str> for Error {
    /// The conversion is told of by the `ensures` of `from`, over views.
    open spec fn obeys_from_spec() -> bool {
        false
    }

    open spec fn from_spec(value: &str) -> Error {
        arbitrary()
    }
}

impl From<&str> for Error {
    fn from(value: &str) -> (e: Error)
        ensures
            e@ == (ErrorView { kind: ErrorKind::Other, description: value@, line_number: None }),
    {
        Error::new(String::from_str(value))
    }
}

} // verus!
