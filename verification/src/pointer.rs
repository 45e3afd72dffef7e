//! Where the pointer goes: the meaning of the instructions that move it.
//!
//! A position is a cell index. Positions from zero up to the length of the
//! tape are on the tape; a move may carry the pointer off it, and the two
//! corrections bring it back by one tape length.

use crate::compiler::{emitted, TAPE_SIZE};
use crate::instruction::Instruction;
use crate::operation::{Operation, OperationKind};
use vstd::prelude::*;

verus! {

/// The position of the pointer after one instruction. Only four
/// instructions move the pointer.
pub open spec fn position_after(instruction: Instruction, position: int) -> int {
    match instruction {
        Instruction::Advance { cells } => position + cells,
        Instruction::Retreat { cells } => position - cells,
        Instruction::WrapAtEnd => if position >= TAPE_SIZE {
            position - TAPE_SIZE
        } else {
            position
        },
        Instruction::WrapAtStart => if position < 0 {
            position + TAPE_SIZE
        } else {
            position
        },
        _ => position,
    }
}

/// The position of the pointer after a stretch of instructions without
/// jumps, run one after the other.
pub open spec fn position_through(code: Seq<Instruction>, position: int) -> int
    decreases code.len(),
{
    if code.len() == 0 {
        position
    } else {
        position_after(code.last(), position_through(code.drop_last(), position))
    }
}

/// Whether an operation moves the pointer.
pub open spec fn is_move(op: Operation) -> bool {
    op.kind == OperationKind::Right || op.kind == OperationKind::Left
}

/// The distance that a move covers, counted towards the end of the tape.
pub open spec fn displacement(op: Operation) -> int {
    if op.kind == OperationKind::Right {
        op.argument as int
    } else {
        -(op.argument as int)
    }
}

/// A move by no more than the length of the tape is a plain move by the
/// argument reduced by that length; nothing brings the pointer back if it
/// leaves the tape.
pub proof fn short_move_is_plain(before: Seq<Operation>, op: Operation, position: int)
    requires
        is_move(op),
        op.argument <= TAPE_SIZE,
    ensures
        op.argument < TAPE_SIZE ==> position_through(emitted(before, op), position) == position
            + displacement(op),
        op.argument == TAPE_SIZE ==> position_through(emitted(before, op), position) == position,
{
    let code = emitted(before, op);
    assert(code.len() == 1);
    assert(code.drop_last() == Seq::<Instruction>::empty());
    assert(position_through(code.drop_last(), position) == position);
}

/// A move by more than the length of the tape, begun on the tape, ends on
/// the tape, at the position that the move reaches when the tape is taken
/// as a circle.
pub proof fn long_move_wraps(before: Seq<Operation>, op: Operation, position: int)
    requires
        is_move(op),
        op.argument > TAPE_SIZE,
        0 <= position < TAPE_SIZE,
    ensures
        position_through(emitted(before, op), position) == (position + displacement(op))
            % (TAPE_SIZE as int),
        0 <= position_through(emitted(before, op), position) < TAPE_SIZE,
{
    let code = emitted(before, op);
    assert(code.len() == 2);
    let first = code.drop_last();
    assert(first.len() == 1);
    assert(first.drop_last() == Seq::<Instruction>::empty());
    assert(position_through(first.drop_last(), position) == position);
    assert(position_through(first, position) == position_after(code[0], position));
    assert(position_through(code, position) == position_after(
        code[1],
        position_after(code[0], position),
    ));
}

/// Moving by a whole tape length more than `short` does ends where `short`
/// ends, as long as `short` itself stays on the tape.
pub proof fn move_past_tape_equals_short_move(
    before_long: Seq<Operation>,
    long: Operation,
    before_short: Seq<Operation>,
    short: Operation,
    position: int,
)
    requires
        is_move(short),
        long.kind == short.kind,
        0 < short.argument < TAPE_SIZE,
        long.argument == short.argument + TAPE_SIZE,
        0 <= position < TAPE_SIZE,
        0 <= position + displacement(short) < TAPE_SIZE,
    ensures
        position_through(emitted(before_long, long), position) == position_through(
            emitted(before_short, short),
            position,
        ),
{
    short_move_is_plain(before_short, short, position);
    long_move_wraps(before_long, long, position);
}

} // verus!
