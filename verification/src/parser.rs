//! The parser: tokens to operations, one for one.

use crate::operation::{Operation, OperationKind};
use crate::optimizer::total_argument;
use crate::token::{Token, TokenKind};
use vstd::prelude::*;

verus! {

/// The operation kind that a token kind stands for.
pub open spec fn operation_kind(kind: TokenKind) -> OperationKind {
    match kind {
        TokenKind::Add => OperationKind::Add,
        TokenKind::Sub => OperationKind::Sub,
        TokenKind::Right => OperationKind::Right,
        TokenKind::Left => OperationKind::Left,
        TokenKind::Read => OperationKind::Read,
        TokenKind::Write => OperationKind::Write,
        TokenKind::BeginLoop => OperationKind::BeginLoop,
        TokenKind::EndLoop => OperationKind::EndLoop,
    }
}

/// The operation of one token: a single repetition at the pointer itself,
/// with source positions counted from one.
pub open spec fn operation_of(token: Token) -> Operation {
    Operation {
        kind: operation_kind(token.kind),
        argument: 1,
        offset: 0,
        start: (token.start + 1) as usize,
        end: (token.end + 1) as usize,
    }
}

/// Whether the positions of a token can be counted from one without leaving
/// the machine's range.
pub open spec fn shiftable(token: Token) -> bool {
    token.start < usize::MAX && token.end < usize::MAX
}

/// The operations of a token sequence, in the same order.
pub open spec fn parse(tokens: Seq<Token>) -> Seq<Operation> {
    tokens.map_values(|token: Token| operation_of(token))
}

/// The arguments of freshly parsed operations add up to their number.
pub proof fn lemma_parse_total(tokens: Seq<Token>)
    ensures
        total_argument(parse(tokens)) == tokens.len(),
    decreases tokens.len(),
{
    if tokens.len() > 0 {
        lemma_parse_total(tokens.drop_last());
        assert(parse(tokens).drop_last() == parse(tokens.drop_last()));
    }
}

/// Turns each token into its operation. Loop brackets are not matched here.
pub fn generate_program(tokens: &[Token]) -> (operations: Vec<Operation>)
    requires
        forall|i: int| 0 <= i < tokens@.len() ==> shiftable(#[trigger] tokens@[i]),
    ensures
        operations@ == parse(tokens@),
{
    let mut operations: Vec<Operation> = Vec::new();
    let mut i: usize = 0;
    while i < tokens.len()
        invariant
            i <= tokens.len(),
            operations@ == parse(tokens@.take(i as int)),
            forall|j: int| 0 <= j < tokens@.len() ==> shiftable(#[trigger] tokens@[j]),
        decreases tokens.len() - i,
    {
        let token: Token = tokens[i];
        assert(shiftable(tokens@[i as int]));
        let kind: OperationKind = match token.kind {
            TokenKind::Add => OperationKind::Add,
            TokenKind::Sub => OperationKind::Sub,
            TokenKind::Right => OperationKind::Right,
            TokenKind::Left => OperationKind::Left,
            TokenKind::Read => OperationKind::Read,
            TokenKind::Write => OperationKind::Write,
            TokenKind::BeginLoop => OperationKind::BeginLoop,
            TokenKind::EndLoop => OperationKind::EndLoop,
        };
        operations.push(
            Operation { kind, argument: 1, offset: 0, start: token.start + 1, end: token.end + 1 },
        );
        i += 1;
        assert(operations@ == parse(tokens@.take(i as int)));
    }
    assert(tokens@.take(i as int) == tokens@);
    operations
}

} // verus!
