//! The lexer: source bytes to tokens.

use crate::token::{Token, TokenKind};
use vstd::prelude::*;

verus! {

/// The byte `+`.
pub const PLUS: u8 = 0x2b;

/// The byte `-`.
pub const MINUS: u8 = 0x2d;

/// The byte `>`.
pub const GREATER: u8 = 0x3e;

/// The byte `<`.
pub const LESS: u8 = 0x3c;

/// The byte `,`.
pub const COMMA: u8 = 0x2c;

/// The byte `.`.
pub const DOT: u8 = 0x2e;

/// The byte `[`.
pub const OPEN: u8 = 0x5b;

/// The byte `]`.
pub const CLOSE: u8 = 0x5d;

/// The instruction a source byte stands for, if any. Every other byte is
/// commentary.
pub open spec fn symbol_kind(byte: u8) -> Option<TokenKind> {
    if byte == PLUS {
        Some(TokenKind::Add)
    } else if byte == MINUS {
        Some(TokenKind::Sub)
    } else if byte == GREATER {
        Some(TokenKind::Right)
    } else if byte == LESS {
        Some(TokenKind::Left)
    } else if byte == COMMA {
        Some(TokenKind::Read)
    } else if byte == DOT {
        Some(TokenKind::Write)
    } else if byte == OPEN {
        Some(TokenKind::BeginLoop)
    } else if byte == CLOSE {
        Some(TokenKind::EndLoop)
    } else {
        None
    }
}

/// The token sequence of a source text: one token per instruction byte, in
/// source order, each carrying the position of its byte in the whole text.
pub open spec fn lex(input: Seq<u8>) -> Seq<Token>
    decreases input.len(),
{
    if input.len() == 0 {
        Seq::empty()
    } else {
        let before = lex(input.drop_last());
        let at = input.len() - 1;
        match symbol_kind(input.last()) {
            Some(kind) => before.push(Token { kind, start: at as usize, end: (at + 1) as usize }),
            None => before,
        }
    }
}

/// Every token of a text stands on an instruction byte of that text, names
/// the instruction of that byte and covers that one byte, and there are no
/// more tokens than bytes.
pub proof fn lemma_lex_positions(input: Seq<u8>)
    requires
        input.len() <= usize::MAX,
    ensures
        lex(input).len() <= input.len(),
        forall|i: int|
            0 <= i < lex(input).len() ==> {
                let token = #[trigger] lex(input)[i];
                &&& token.start < input.len()
                &&& token.end == token.start + 1
                &&& symbol_kind(input[token.start as int]) == Some(token.kind)
            },
    decreases input.len(),
{
    if input.len() > 0 {
        lemma_lex_positions(input.drop_last());
    }
}

/// Classifies one source byte.
fn classify(byte: u8) -> (kind: Option<TokenKind>)
    ensures
        kind == symbol_kind(byte),
{
    if byte == PLUS {
        Some(TokenKind::Add)
    } else if byte == MINUS {
        Some(TokenKind::Sub)
    } else if byte == GREATER {
        Some(TokenKind::Right)
    } else if byte == LESS {
        Some(TokenKind::Left)
    } else if byte == COMMA {
        Some(TokenKind::Read)
    } else if byte == DOT {
        Some(TokenKind::Write)
    } else if byte == OPEN {
        Some(TokenKind::BeginLoop)
    } else if byte == CLOSE {
        Some(TokenKind::EndLoop)
    } else {
        None
    }
}

/// Lexes a source text. Never fails: bytes that are no instruction are skipped.
pub fn tokenize(input: &[u8]) -> (tokens: Vec<Token>)
    ensures
        tokens@ == lex(input@),
{
    let mut tokens: Vec<Token> = Vec::new();
    let mut offset: usize = 0;
    while offset < input.len()
        invariant
            offset <= input.len(),
            tokens@ == lex(input@.take(offset as int)),
        decreases input.len() - offset,
    {
        proof {
            assert(input@.take(offset + 1).drop_last() == input@.take(offset as int));
        }
        match classify(input[offset]) {
            Some(kind) => {
                tokens.push(Token { kind, start: offset, end: offset + 1 });
            },
            None => {},
        }
        offset += 1;
    }
    proof {
        assert(input@.take(offset as int) == input@);
    }
    tokens
}

} // verus!
