//! The library's error type.
use vstd::prelude::*;
use vstd::string::*;
use crate::text::{int_error_message, int_error_text, IntErrorKind};

verus! {

/// What went wrong.
#[derive(Clone, Copy, Debug, PartialEq, Eq, Structural)]
pub enum ErrorKind {
    ArgError,
    SecretTooLarge,
    RandomFailure,
    ShareParseError,
    ChecksumMismatch,
    IncompatibleShares,
    NotEnoughShares,
    IoError,
}

/// An error: its kind, a fixed description and an optional detail.
#[derive(Debug)]
pub struct Error {
    pub kind: ErrorKind,
    pub descr: &'static str,
    pub detail: Option<String>,
}

impl Error {
    pub fn new(kind: ErrorKind, descr: &'static str, detail: Option<String>) -> (r: Error)
        ensures
            r.kind == kind,
            r.descr == descr,
            r.detail == detail,
    {
        Error { kind, descr, detail }
    }

    /// The text shown to a user: the description, then the detail in parentheses.
    pub fn message(&self) -> (r: String)
        ensures
            r@ == (match self.detail {
                None => self.descr@,
                Some(d) => self.descr@ + " ("@ + d@ + ")"@,
            }),
    {
        let mut s = String::from_str(self.descr);
        match &self.detail {
            None => {},
            Some(d) => {
                s.append(" (");
                s.append(d.as_str());
                s.append(")");
            },
        }
        s
    }
}

/// The error for text that is not a number in 0..=255, with the reason as its detail.
pub fn pie2io(kind: ErrorKind, reason: IntErrorKind) -> (e: Error)
    ensures
        e.kind == kind,
        e.descr == "Integer parsing error",
        e.detail matches Some(d) && d@ == int_error_text(reason),
{
    Error::new(kind, "Integer parsing error", Some(int_error_message(reason)))
}

/// An error of the given kind, description and detail.
pub fn other_io_err(kind: ErrorKind, descr: &'static str, detail: Option<String>) -> (e: Error)
    ensures
        e.kind == kind,
        e.descr == descr,
        e.detail == detail,
{
    Error::new(kind, descr, detail)
}

/// `n` copies of `x`.
pub fn new_vec(n: usize, x: u8) -> (r: Vec<u8>)
    ensures
        r@ == Seq::new(n as nat, |i: int| x),
{
    let mut r: Vec<u8> = Vec::new();
    let mut i: usize = 0;
    while i < n
        invariant
            i <= n,
            r@ =~= Seq::new(i as nat, |j: int| x),
        decreases n - i,
    {
        r.push(x);
        i = i + 1;
    }
    r
}

} // verus!
