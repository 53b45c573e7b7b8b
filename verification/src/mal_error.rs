//! Typed errors for the tokenizer and the reader. Every malformed input is
//! reported through a [`MalError`]; the library never panics on input.

use vstd::prelude::*;

verus! {

/// The stable classification of a read failure.
#[derive(Clone, Copy, Debug, PartialEq, Eq, Structural)]
pub enum ErrorKind {
    /// A string literal was opened but never closed before input ended.
    UnterminatedString,
    /// A list was opened but input ended before its closing parenthesis.
    UnbalancedList,
    /// A map was opened but input ended, or a key had no paired value,
    /// before its closing brace.
    UnbalancedMap,
    /// A map key position held something other than a symbol or a string.
    InvalidMapKey,
    /// A token stood in a position where no production can consume it.
    UnsupportedToken,
    /// Nesting of lists and maps exceeded the reader's depth bound.
    NestingTooDeep,
}

/// A read failure: a stable kind plus a human-readable message.
#[derive(Debug)]
pub struct MalError {
    pub kind: ErrorKind,
    pub message: String,
}

impl MalError {
    pub fn new(kind: ErrorKind, message: String) -> (e: MalError)
        ensures
            e.kind == kind,
            e.message == message,
    {
        MalError { kind, message }
    }
}

} // verus!
