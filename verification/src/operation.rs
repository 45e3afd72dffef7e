//! Operations: the intermediate form that the optimizer rewrites and the
//! code generator consumes.

use vstd::prelude::*;

verus! {

/// What an operation does. `SetZero` has no source symbol: only the optimizer
/// produces it.
#[derive(Debug, PartialEq, Eq, Copy, Clone, Hash, Structural)]
pub enum OperationKind {
    /// Add to a cell.
    Add,
    /// Subtract from a cell.
    Sub,
    /// Move the pointer towards the end of the tape.
    Right,
    /// Move the pointer towards the start of the tape.
    Left,
    /// Read one input byte into a cell.
    Read,
    /// Write a cell to the output.
    Write,
    /// Open a loop.
    BeginLoop,
    /// Close a loop.
    EndLoop,
    /// Store zero in a cell.
    SetZero,
}

/// One operation. `argument` counts repetitions, `offset` displaces the cell
/// it works on from the pointer, and `start..end` is the source range it
/// came from.
#[derive(Debug, PartialEq, Eq, Copy, Clone, Hash, Structural)]
pub struct Operation {
    pub kind: OperationKind,
    pub argument: u32,
    pub offset: i32,
    pub start: usize,
    pub end: usize,
}

} // verus!
