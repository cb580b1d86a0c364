//! Fatal error handling.
//!
//! Malformed docstrings and undocumented elements are handled per element
//! (via `DocComment::Error` / `DocComment::Absent`) and never abort the run.
//! This module only covers the fatal errors that may legitimately stop the
//! tool (e.g. invalid or unreadable input paths).
use vstd::prelude::*;
use crate::html::push_str;
use crate::text::{chars_of, push_all, string_from_chars};

verus! {

/// `std::io::Error`, carried through as the cause of I/O failures.
#[verifier::external_type_specification]
#[verifier::external_body]
pub struct ExIoError(std::io::Error);

/// A fatal error that halts the tool, surfaced to the user on exit.
#[derive(Debug)]
pub enum Error {
    /// The provided input directory does not exist or is not a directory.
    InvalidInputPath(String),
    /// A source file could not be read from disk.
    ReadFile(String, std::io::Error),
    /// A user-provided theme stylesheet could not be read.
    ReadTheme(String, std::io::Error),
    /// A Python source file failed to parse.
    ParseSource(String, String),
    /// The output directory could not be written.
    WriteOutput(String, std::io::Error),
    /// A generic message (e.g. no input/output arguments supplied).
    Message(String),
}

/// A `Result` whose error is the library's [`Error`].
pub type Result<T> = std::result::Result<T, Error>;

/// The message of an error whose cause is given by `cause` (the text of the
/// `std::io::Error`, which depends on the operating system).
pub open spec fn message_with(e: Error, cause: Seq<char>) -> Seq<char> {
    match e {
        Error::InvalidInputPath(p) => "input path '"@ + p@
            + "' does not exist or is not a directory"@,
        Error::ReadFile(path, _) => "could not read '"@ + path@ + "': "@ + cause,
        Error::ReadTheme(path, _) => "could not read theme '"@ + path@ + "': "@ + cause,
        Error::ParseSource(path, m) => "could not parse '"@ + path@ + "': "@ + m@,
        Error::WriteOutput(path, _) => "could not write output '"@ + path@ + "': "@ + cause,
        Error::Message(m) => m@,
    }
}

/// The text of an I/O error, as its `Display` gives it.
pub open spec fn io_text(e: std::io::Error, s: String) -> bool {
    vstd::string::to_string_from_display_ensures::<std::io::Error>(&e, s)
}

impl Error {
    /// The message shown to the user for this error.
    pub fn message(&self) -> (r: String)
        ensures
            match self {
                Error::ReadFile(_, e) => exists|s: String|
                    io_text(*e, s) && r@ == message_with(*self, s@),
                Error::ReadTheme(_, e) => exists|s: String|
                    io_text(*e, s) && r@ == message_with(*self, s@),
                Error::WriteOutput(_, e) => exists|s: String|
                    io_text(*e, s) && r@ == message_with(*self, s@),
                _ => r@ == message_with(*self, seq![]),
            },
    {
        let mut out: Vec<char> = Vec::new();
        match self {
            Error::InvalidInputPath(p) => {
                push_str(&mut out, "input path '");
                push_str(&mut out, p.as_str());
                push_str(&mut out, "' does not exist or is not a directory");
                assert(out@ =~= message_with(*self, seq![]));
            },
            Error::ReadFile(path, e) => {
                let cause = e.to_string();
                push_str(&mut out, "could not read '");
                push_str(&mut out, path.as_str());
                push_str(&mut out, "': ");
                push_str(&mut out, cause.as_str());
                let r = string_from_chars(&out);
                assert(io_text(*e, cause) && r@ == message_with(*self, cause@));
                return r;
            },
            Error::ReadTheme(path, e) => {
                let cause = e.to_string();
                push_str(&mut out, "could not read theme '");
                push_str(&mut out, path.as_str());
                push_str(&mut out, "': ");
                push_str(&mut out, cause.as_str());
                let r = string_from_chars(&out);
                assert(io_text(*e, cause) && r@ == message_with(*self, cause@));
                return r;
            },
            Error::ParseSource(path, m) => {
                push_str(&mut out, "could not parse '");
                push_str(&mut out, path.as_str());
                push_str(&mut out, "': ");
                push_str(&mut out, m.as_str());
                assert(out@ =~= message_with(*self, seq![]));
            },
            Error::WriteOutput(path, e) => {
                let cause = e.to_string();
                push_str(&mut out, "could not write output '");
                push_str(&mut out, path.as_str());
                push_str(&mut out, "': ");
                push_str(&mut out, cause.as_str());
                let r = string_from_chars(&out);
                assert(io_text(*e, cause) && r@ == message_with(*self, cause@));
                return r;
            },
            Error::Message(m) => {
                let v = chars_of(m.as_str());
                push_all(&mut out, &v);
                assert(out@ =~= message_with(*self, seq![]));
            },
        }
        string_from_chars(&out)
    }
}

} // verus!
