//! The errors of the library and the text that describes each.

use vstd::prelude::*;
use crate::text::{decimal, decimal_text};

verus! {

/// Everything that can go wrong while checking, building or serving a site.
#[derive(Debug)]
pub enum Error {
    /// An I/O operation failed on `path`; `message` is the operating
    /// system's description of the failure.
    Io { path: String, message: String },
    InvalidWorkspace(String),
    InvalidSlug(String),
    /// A source file is malformed at the 1-based `line`.
    Source { path: String, line: usize, message: String },
    Server(String),
}

/// The model of an error: its kind and the text it carries.
pub enum SpecError {
    Io { path: Seq<char>, message: Seq<char> },
    InvalidWorkspace(Seq<char>),
    InvalidSlug(Seq<char>),
    Source { path: Seq<char>, line: nat, message: Seq<char> },
    Server(Seq<char>),
}

impl View for Error {
    type V = SpecError;

    open spec fn view(&self) -> SpecError {
        match self {
            Error::Io { path, message } => SpecError::Io { path: path@, message: message@ },
            Error::InvalidWorkspace(m) => SpecError::InvalidWorkspace(m@),
            Error::InvalidSlug(m) => SpecError::InvalidSlug(m@),
            Error::Source { path, line, message } => SpecError::Source {
                path: path@,
                line: *line as nat,
                message: message@,
            },
            Error::Server(m) => SpecError::Server(m@),
        }
    }
}

/// The text of an error, as the command line prints it.
pub open spec fn error_text(e: SpecError) -> Seq<char> {
    match e {
        SpecError::Io { path, message } => "I/O error at "@ + path + ": "@ + message,
        SpecError::InvalidWorkspace(m) => "invalid workspace: "@ + m,
        SpecError::InvalidSlug(m) => "invalid slug: "@ + m,
        SpecError::Source { path, line, message } => path + ":"@ + decimal_text(line) + ": "@
            + message,
        SpecError::Server(m) => "server error: "@ + m,
    }
}

impl Error {
    /// The text of the error, as the command line prints it.
    pub fn describe(&self) -> (r: String)
        ensures
            r@ == error_text(self@),
    {
        let mut out = String::new();
        match self {
            Error::Io { path, message } => {
                out.append("I/O error at ");
                out.append(path.as_str());
                out.append(": ");
                out.append(message.as_str());
            },
            Error::InvalidWorkspace(m) => {
                out.append("invalid workspace: ");
                out.append(m.as_str());
            },
            Error::InvalidSlug(m) => {
                out.append("invalid slug: ");
                out.append(m.as_str());
            },
            Error::Source { path, line, message } => {
                out.append(path.as_str());
                out.append(":");
                let digits = decimal(*line);
                out.append(digits.as_str());
                out.append(": ");
                out.append(message.as_str());
            },
            Error::Server(m) => {
                out.append("server error: ");
                out.append(m.as_str());
            },
        }
        out
    }
}

#[verifier::external_type_specification]
#[verifier::external_body]
pub struct ExIoError(std::io::Error);

/// The text of an I/O error (`std::io::Error`'s `Display`). Nothing is
/// stated of it: the operating system words it.
#[verifier::external_body]
fn io_error_text(error: &std::io::Error) -> String {
    error.to_string()
}

/// Attaches the path an I/O operation worked on to its error.
pub trait IoContext<T>: Sized {
    fn at(self, path: &str) -> Result<T, Error>;
}

impl<T> IoContext<T> for Result<T, std::io::Error> {
    /// The value of a success, or an `Error::Io` at `path` that carries
    /// the error's text.
    fn at(self, path: &str) -> (r: Result<T, Error>)
        ensures
            match self {
                Ok(v) => r == Ok::<T, Error>(v),
                Err(_) => r matches Err(Error::Io { path: p, .. }) && p@ == path@,
            },
    {
        match self {
            Ok(v) => Ok(v),
            Err(e) => Err(Error::Io { path: String::from_str(path), message: io_error_text(&e) }),
        }
    }
}

} // verus!
