//! The positioned error vocabulary of the assembly front-end.
//!
//! An error pairs the `(line, word)` position of the offending token with a
//! classification of what went wrong. The construction is pure: positions are
//! accepted as given, without validation, because only the caller that walked
//! the token stream knows which positions exist.

use vstd::prelude::*;

verus! {

/// Error from parsing script assembly text.
#[derive(Debug, PartialEq, Eq)]
pub struct ParseAsmError {
    /// The position of the instruction that caused the error.
    ///
    /// The value is `(line, word)`, both zero-based: the line index counts
    /// every input line, and the word index counts the whitespace-delimited
    /// words within that line.
    pub position: (usize, usize),
    /// The kind of error that occurred.
    pub kind: ParseAsmErrorKind,
}

/// The different kinds of [`ParseAsmError`]s that can occur.
///
/// The enumeration is open: callers must not assume it is exhaustive, so
/// that further kinds can be added without breaking them.
#[derive(Debug, PartialEq, Eq)]
#[non_exhaustive]
pub enum ParseAsmErrorKind {
    /// The assembly text ended while more words were expected.
    UnexpectedEof,
    /// A word matched neither a known mnemonic nor a decodable hex literal.
    UnknownInstruction,
    /// Invalid hexadecimal bytes.
    InvalidHex,
    /// A byte push exceeding the maximum size.
    PushExceedsMaxSize,
    /// A byte push with a non-minimal size prefix.
    ///
    /// Such a push is not necessarily invalid, but it cannot be
    /// reconstructed by the assembler this front-end feeds.
    NonMinimalBytePush,
}

impl Clone for ParseAsmErrorKind {
    fn clone(&self) -> (r: Self)
        ensures
            r == *self,
    {
        match self {
            ParseAsmErrorKind::UnexpectedEof => ParseAsmErrorKind::UnexpectedEof,
            ParseAsmErrorKind::UnknownInstruction => ParseAsmErrorKind::UnknownInstruction,
            ParseAsmErrorKind::InvalidHex => ParseAsmErrorKind::InvalidHex,
            ParseAsmErrorKind::PushExceedsMaxSize => ParseAsmErrorKind::PushExceedsMaxSize,
            ParseAsmErrorKind::NonMinimalBytePush => ParseAsmErrorKind::NonMinimalBytePush,
        }
    }
}

impl Clone for ParseAsmError {
    fn clone(&self) -> (r: Self)
        ensures
            r == *self,
    {
        ParseAsmError { position: self.position, kind: self.kind.clone() }
    }
}

/// Create a [`ParseAsmError`] with the given position and kind.
pub fn asm_err(position: (usize, usize), kind: ParseAsmErrorKind) -> (e: ParseAsmError)
    ensures
        e.position == position,
        e.kind == kind,
{
    ParseAsmError { position, kind }
}

} // verus!
