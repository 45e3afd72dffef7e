//! Tokens: the instruction symbols found in a source text.

use vstd::prelude::*;

verus! {

/// The eight instruction symbols of the language.
#[derive(Debug, PartialEq, Eq, Copy, Clone, Structural)]
pub enum TokenKind {
    /// `+`
    Add,
    /// `-`
    Sub,
    /// `>`
    Right,
    /// `<`
    Left,
    /// `,`
    Read,
    /// `.`
    Write,
    /// `[`
    BeginLoop,
    /// `]`
    EndLoop,
}

/// One instruction symbol together with the byte range `start..end` it
/// occupies in the source text.
#[derive(Debug, PartialEq, Eq, Copy, Clone, Structural)]
pub struct Token {
    pub kind: TokenKind,
    pub start: usize,
    pub end: usize,
}

} // verus!
