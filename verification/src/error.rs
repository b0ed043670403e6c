//! Error types for the engine boundary.
//!
//! User-authored markdown never produces `Error` values — those become
//! `Diagnostic`s attached to the `Document`. `Error` is reserved for
//! host-side failures (I/O, engine misuse, runtime load failures).

use vstd::prelude::*;

use crate::text::{dec, usize_to_string};

verus! {

#[verifier::external_type_specification]
#[verifier::external_body]
pub struct ExIoError(std::io::Error);

/// `Display` of `std::io::Error`. Its text comes from the platform (and, for
/// an OS error, its locale), so nothing is stated of it.
#[verifier::external_body]
fn io_error_to_string(e: &std::io::Error) -> (r: String) {
    e.to_string()
}

#[derive(Debug)]
pub enum Error {
    Io(std::io::Error),
    Config(String),
    Runtime(String),
    Render(String),
    StrictDiagnostics { count: usize },
    Other(String),
}

pub type Result<T> = std::result::Result<T, Error>;

/// The message of an error (what it displays as). For an I/O error this is
/// the message's prefix; the I/O error's own text follows it.
pub open spec fn error_message(e: Error) -> Seq<char> {
    match e {
        Error::Io(_) => "I/O error: "@,
        Error::Config(m) => "engine not configured: "@ + m@,
        Error::Runtime(m) => "runtime error: "@ + m@,
        Error::Render(m) => "render error: "@ + m@,
        Error::StrictDiagnostics { count } => "strict mode: document has "@ + dec(count as nat)
            + " error diagnostic(s)"@,
        Error::Other(m) => m@,
    }
}

impl Error {
    /// The error's message.
    pub fn message(&self) -> (r: String)
        ensures
            !(*self is Io) ==> r@ == error_message(*self),
            *self is Io ==> error_message(*self).is_prefix_of(r@),
    {
        match self {
            Error::Io(io) => {
                let mut s = "I/O error: ".to_owned();
                let t = io_error_to_string(io);
                s.append(t.as_str());
                s
            },
            Error::Config(m) => {
                let mut s = "engine not configured: ".to_owned();
                s.append(m.as_str());
                s
            },
            Error::Runtime(m) => {
                let mut s = "runtime error: ".to_owned();
                s.append(m.as_str());
                s
            },
            Error::Render(m) => {
                let mut s = "render error: ".to_owned();
                s.append(m.as_str());
                s
            },
            Error::StrictDiagnostics { count } => {
                let mut s = "strict mode: document has ".to_owned();
                let n = usize_to_string(*count);
                s.append(n.as_str());
                s.append(" error diagnostic(s)");
                s
            },
            Error::Other(m) => m.clone(),
        }
    }
}

impl From<std::io::Error> for Error {
    fn from(e: std::io::Error) -> (r: Error) {
        Error::Io(e)
    }
}

impl vstd::std_specs::convert::FromSpecImpl<std::io::Error> for Error {
    open spec fn obeys_from_spec() -> bool {
        true
    }

    open spec fn from_spec(e: std::io::Error) -> Error {
        Error::Io(e)
    }
}

} // verus!
