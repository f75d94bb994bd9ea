//! A streaming, pull-based JSON navigator.
//!
//! The parser tokenizes a byte stream one element at a time and lets the
//! caller move around the logical document tree (next key, next sibling,
//! next child, pattern search, subtree extraction) while holding only
//! O(nesting depth) state.
//!
//! Every position in the document carries a fractional "level" coordinate:
//! container contexts sit at whole levels, and the gap between a key and its
//! value sits half a level deeper.  Since the coordinate is always a
//! half-integer, the code stores it doubled, in *half-steps*: a document
//! level of `2.0` is the half-step value `4`, and the pending-value position
//! `2.5` is `5`.

use vstd::prelude::*;

pub mod json_walker;
pub mod laws;
pub mod model;
pub mod parser_core;
pub mod source;
pub mod types;

verus! {

/// The byte value that stands for "no byte": it doubles as the end-of-stream
/// sentinel in the one-byte lookahead.
pub const NIL: u8 = 0;

/// Which fatal structural fault stopped a parse session.
#[derive(Debug, PartialEq, Eq, Clone, Copy)]
pub enum FaultKind {
    /// A byte that no transition of the current automaton state accepts.
    UnexpectedByte,
    /// End of stream reached between an opening quote and its closing quote.
    UnterminatedString,
    /// A number with a dangling sign, a second decimal point, or no digit
    /// at the position that requires one.
    BadNumber,
    /// A word that starts like `null`, `true` or `false` but differs from it.
    BadLiteral,
    /// End of stream while containers are still open.
    Truncated,
    /// More input after the document already closed.
    TrailingData,
    /// Token bytes that do not form UTF-8 text.
    InvalidUtf8,
    /// An internal counter left its representable range; this is the
    /// should-be-impossible bookkeeping fault.
    Internal,
}

/// A fatal structural fault: the session that produced it is dead, and every
/// later operation on it reports the same fault.
///
/// It carries the context the spec demands for diagnosis: the offending
/// byte, the level coordinate (in half-steps), the latest key, the sibling
/// ordinal, and the recent raw-byte history when one is kept.
#[derive(Debug, PartialEq, Eq)]
pub struct Fault {
    pub kind: FaultKind,
    pub byte: u8,
    pub level_halves: i128,
    pub key: String,
    pub nth: usize,
    pub history: Vec<u8>,
}

impl Fault {
    /// A field-by-field copy, pinned to the original through the views of
    /// its owned fields.
    pub fn duplicate(&self) -> (r: Fault)
        ensures
            r.kind == self.kind,
            r.byte == self.byte,
            r.level_halves == self.level_halves,
            r.nth == self.nth,
            r.key@ == self.key@,
            r.history@ == self.history@,
    {
        let history = self.history.clone();
        assert(history@ =~= self.history@);
        Fault {
            kind: self.kind,
            byte: self.byte,
            level_halves: self.level_halves,
            key: self.key.clone(),
            nth: self.nth,
            history,
        }
    }
}

/// The coarse class of an error returned by the navigation surface.
#[derive(Debug, PartialEq, Eq)]
pub enum ErrorKind {
    /// End of stream: the request legitimately found no more matching data.
    /// This is the recoverable outcome a caller is expected to handle.
    EOS,
    Serde,
    ParseBoolError,
    ParseIntError,
    ParseFloatError,
    WrongDataType,
    OOPS,
    /// A fatal structural fault; the `fault` field holds its details.
    Fatal,
}

/// The error type of the navigation surface.  End of stream and fatal
/// structural faults are disjoint kinds: the former is an ordinary result,
/// the latter ends the session.
#[derive(Debug, PartialEq, Eq)]
pub struct Error {
    pub kind: ErrorKind,
    pub msg: String,
    pub fault: Option<Fault>,
}

impl Error {
    /// The recoverable end-of-stream outcome.
    pub fn new_eos() -> (r: Error)
        ensures
            r.kind == ErrorKind::EOS,
            r.msg@ == "End of stream"@,
            r.fault is None,
    {
        Error { kind: ErrorKind::EOS, msg: "End of stream".to_owned(), fault: None }
    }

    /// Wraps a fatal structural fault.
    pub fn from_fault(f: Fault) -> (r: Error)
        ensures
            r.kind == ErrorKind::Fatal,
            r.msg@ == "Fatal structural fault"@,
            r.fault == Some(f),
    {
        Error { kind: ErrorKind::Fatal, msg: "Fatal structural fault".to_owned(), fault: Some(f) }
    }
}

} // verus!
