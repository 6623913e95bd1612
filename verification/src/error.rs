//! What goes wrong with an image: a kind, and a sentence for the user.

use vstd::prelude::*;
use vstd::string::*;
use std::io::Error as IoError;
use std::io::ErrorKind;

verus! {

/// The kinds of errors.
#[derive(Clone, Copy, Debug, PartialEq, Eq, Structural)]
pub enum Kind {
    /// Damaged or unexpected data.
    InvalidData,
    /// A variant of a format that is not handled.
    Unsupported,
    /// The data ends where more of it is needed.
    UnexpectedEof,
    /// Anything else.
    Other,
}

/// An error: its kind and what to tell the user.
#[derive(Debug)]
pub struct Error {
    pub kind: Kind,
    pub what: String,
}

/// What an `Error` says.
pub ghost struct Fault {
    pub kind: Kind,
    pub what: Seq<char>,
}

impl View for Error {
    type V = Fault;

    open spec fn view(&self) -> Fault {
        Fault { kind: self.kind, what: self.what@ }
    }
}

/// Damaged or unexpected data, in words.
pub open spec fn bad_fault(what: Seq<char>) -> Fault {
    Fault { kind: Kind::InvalidData, what }
}

/// A variant that is not handled, in words.
pub open spec fn unsupported_fault(what: Seq<char>) -> Fault {
    Fault { kind: Kind::Unsupported, what }
}

/// Does `r` give what `s` says: the same value, or an error that says the same?
pub open spec fn gives<T>(r: Result<T, Error>, s: Result<T, Fault>) -> bool {
    match (r, s) {
        (Ok(a), Ok(b)) => a == b,
        (Err(e), Err(f)) => e@ == f,
        _ => false,
    }
}

impl Error {
    /// The sentence for the user.
    pub fn message(&self) -> (s: &str)
        ensures
            s@ == self@.what,
    {
        self.what.as_str()
    }
}

/// `std::io::Error`, an error of reading.
#[verifier::external_type_specification]
#[verifier::external_body]
pub struct ExIo(IoError);

/// What an error of reading says.
pub uninterp spec fn reading_fault(e: IoError) -> Fault;

/// `std::io::Error::kind`, as far as kinds are told apart here, and the error's text.
#[verifier::external_body]
pub(crate) fn reading_error(e: IoError) -> (r: Error)
    ensures
        r@ == reading_fault(e),
{
    let what = e.to_string();
    match e.kind() {
        ErrorKind::InvalidData => Error { kind: Kind::InvalidData, what },
        ErrorKind::Unsupported => Error { kind: Kind::Unsupported, what },
        ErrorKind::UnexpectedEof => Error { kind: Kind::UnexpectedEof, what },
        _ => Error { kind: Kind::Other, what },
    }
}

} // verus!
