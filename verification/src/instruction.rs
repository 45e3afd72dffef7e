//! The primitive instructions of a compiled routine.
//!
//! A routine works on a tape of byte cells through a pointer. The
//! instructions name no register and no encoding: a back end turns each of
//! them into the machine instructions of its target.

use vstd::prelude::*;

verus! {

/// A jump target. Every loop owns two: `Backward(k)` stands right after the
/// test that opens loop `k`, `Forward(k)` right after the test that closes it.
#[derive(Debug, PartialEq, Eq, Copy, Clone, Hash, Structural)]
pub enum Label {
    Backward(usize),
    Forward(usize),
}

/// One primitive instruction. An `offset` displaces the cell that the
/// instruction works on from the pointer.
#[derive(Debug, PartialEq, Eq, Copy, Clone, Hash, Structural)]
pub enum Instruction {
    /// Jump to `target` if the cell is zero.
    JumpIfZero { offset: i32, target: Label },
    /// Jump to `target` if the cell is not zero.
    JumpIfNotZero { offset: i32, target: Label },
    /// The place that jumps to `label` arrive at.
    Mark { label: Label },
    /// Add one to the cell, wrapping at 255.
    Increment { offset: i32 },
    /// Subtract one from the cell, wrapping at 0.
    Decrement { offset: i32 },
    /// Add `amount` to the cell, wrapping at 255.
    AddByte { offset: i32, amount: u8 },
    /// Subtract `amount` from the cell, wrapping at 0.
    SubByte { offset: i32, amount: u8 },
    /// Move the pointer `cells` cells towards the end of the tape.
    Advance { cells: u32 },
    /// Move the pointer `cells` cells towards the start of the tape.
    Retreat { cells: u32 },
    /// If the pointer has reached or passed the end of the tape, move it back
    /// by the length of the tape.
    WrapAtEnd,
    /// If the pointer has fallen before the start of the tape, move it
    /// forward by the length of the tape.
    WrapAtStart,
    /// Read one byte of input into the cell, as one input operation.
    ReadByte { offset: i32 },
    /// Write the cell to the output, as one output operation.
    WriteByte { offset: i32 },
    /// Store zero in the cell.
    StoreZero { offset: i32 },
    /// Leave the routine with `status`; zero reports success.
    Return { status: u8 },
}

} // verus!
