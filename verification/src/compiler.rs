//! The code generator: operations to a routine, or a nesting error.

use crate::instruction::{Instruction, Label};
use crate::labels::{resolved, routine_labels_resolved};
use crate::operation::{Operation, OperationKind};
use vstd::prelude::*;

verus! {

/// The number of cells of a tape.
pub const TAPE_SIZE: usize = 30000;

/// The status with which a routine reports success.
pub const SUCCESS: u8 = 0;

/// Why a sequence of operations has no routine.
#[derive(Debug, PartialEq, Eq, Copy, Clone, Structural)]
pub enum CompileError {
    /// An `EndLoop` closes a loop that was never opened.
    UnmatchedEndLoop,
    /// At the end of the sequence a loop is still open.
    UnmatchedBeginLoop,
}

impl CompileError {
    /// The text that reports this error.
    pub open spec fn text(self) -> Seq<char> {
        match self {
            CompileError::UnmatchedEndLoop => "] without matching ["@,
            CompileError::UnmatchedBeginLoop => "[ without matching ]"@,
        }
    }

    /// The text that reports this error.
    pub fn message(&self) -> (message: &'static str)
        ensures
            message@ == self.text(),
    {
        match self {
            CompileError::UnmatchedEndLoop => "] without matching [",
            CompileError::UnmatchedBeginLoop => "[ without matching ]",
        }
    }
}

// ---------------------------------------------------------------------------
// Nesting
// ---------------------------------------------------------------------------
/// How many loops a sequence opens.
pub open spec fn loops_opened(operations: Seq<Operation>) -> nat
    decreases operations.len(),
{
    if operations.len() == 0 {
        0
    } else {
        loops_opened(operations.drop_last()) + if operations.last().kind
            == OperationKind::BeginLoop {
            1nat
        } else {
            0nat
        }
    }
}

/// What one operation adds to the nesting depth.
pub open spec fn depth_change(kind: OperationKind) -> int {
    match kind {
        OperationKind::BeginLoop => 1,
        OperationKind::EndLoop => -1,
        _ => 0,
    }
}

/// The nesting depth after a sequence: loops opened less loops closed.
pub open spec fn depth(operations: Seq<Operation>) -> int
    decreases operations.len(),
{
    if operations.len() == 0 {
        0
    } else {
        depth(operations.drop_last()) + depth_change(operations.last().kind)
    }
}

/// Whether some `EndLoop` closes a loop that was never opened: the depth
/// falls below zero somewhere along the sequence.
pub open spec fn closes_unopened(operations: Seq<Operation>) -> bool {
    exists|k: int| 0 <= k <= operations.len() && depth(#[trigger] operations.take(k)) < 0
}

/// Whether every loop is opened before it is closed, and closed in the end.
pub open spec fn well_nested(operations: Seq<Operation>) -> bool {
    !closes_unopened(operations) && depth(operations) == 0
}

/// The loops that are open after a sequence, outermost first. A loop is
/// named by the number of loops opened before it.
pub open spec fn open_loops(operations: Seq<Operation>) -> Seq<nat>
    decreases operations.len(),
{
    if operations.len() == 0 {
        Seq::empty()
    } else {
        let before = open_loops(operations.drop_last());
        match operations.last().kind {
            OperationKind::BeginLoop => before.push(loops_opened(operations.drop_last())),
            OperationKind::EndLoop => if before.len() > 0 {
                before.drop_last()
            } else {
                before
            },
            _ => before,
        }
    }
}

// ---------------------------------------------------------------------------
// Emission
// ---------------------------------------------------------------------------
/// The instructions of a pointer move by `argument` cells: a move by the
/// remainder that `argument` leaves on division by the length of the tape,
/// followed by one correction if `argument` is more than that length.
pub open spec fn emitted_move(argument: u32, towards_end: bool) -> Seq<Instruction> {
    let cells = (argument as int % TAPE_SIZE as int) as u32;
    let step = if towards_end {
        Instruction::Advance { cells }
    } else {
        Instruction::Retreat { cells }
    };
    let correction = if towards_end {
        Instruction::WrapAtEnd
    } else {
        Instruction::WrapAtStart
    };
    if argument > TAPE_SIZE {
        seq![step, correction]
    } else {
        seq![step]
    }
}

/// `count` writes of the cell at `offset`, each an output operation of its
/// own.
pub open spec fn writes(count: nat, offset: i32) -> Seq<Instruction> {
    Seq::new(count, |i: int| Instruction::WriteByte { offset })
}

/// The instructions of the operation `op` that arrives after `before`.
pub open spec fn emitted(before: Seq<Operation>, op: Operation) -> Seq<Instruction> {
    let offset = op.offset;
    match op.kind {
        OperationKind::BeginLoop => {
            let k = loops_opened(before) as usize;
            seq![
                Instruction::JumpIfZero { offset, target: Label::Forward(k) },
                Instruction::Mark { label: Label::Backward(k) },
            ]
        },
        OperationKind::EndLoop => {
            let k = open_loops(before).last() as usize;
            seq![
                Instruction::JumpIfNotZero { offset, target: Label::Backward(k) },
                Instruction::Mark { label: Label::Forward(k) },
            ]
        },
        OperationKind::Add => if op.argument == 1 {
            seq![Instruction::Increment { offset }]
        } else {
            seq![Instruction::AddByte { offset, amount: (op.argument as int % 256) as u8 }]
        },
        OperationKind::Sub => if op.argument == 1 {
            seq![Instruction::Decrement { offset }]
        } else {
            seq![Instruction::SubByte { offset, amount: (op.argument as int % 256) as u8 }]
        },
        OperationKind::Right => emitted_move(op.argument, true),
        OperationKind::Left => emitted_move(op.argument, false),
        OperationKind::Read => seq![Instruction::ReadByte { offset }],
        OperationKind::Write => writes(op.argument as nat, offset),
        OperationKind::SetZero => seq![Instruction::StoreZero { offset }],
    }
}

/// The instructions of a whole sequence, without the final return.
pub open spec fn body(operations: Seq<Operation>) -> Seq<Instruction>
    decreases operations.len(),
{
    if operations.len() == 0 {
        Seq::empty()
    } else {
        body(operations.drop_last()) + emitted(operations.drop_last(), operations.last())
    }
}

/// The routine of a sequence: its instructions, then a return that reports
/// success.
pub open spec fn routine(operations: Seq<Operation>) -> Seq<Instruction> {
    body(operations).push(Instruction::Return { status: SUCCESS })
}

/// Whether a stretch of instructions ends in a return that reports success
/// and holds no other return.
pub open spec fn returns_success(code: Seq<Instruction>) -> bool {
    &&& code.len() > 0
    &&& code.last() == (Instruction::Return { status: SUCCESS })
    &&& forall|i: int| 0 <= i < code.len() - 1 ==> !(#[trigger] code[i] is Return)
}

/// No operation emits a return.
pub proof fn lemma_body_never_returns(operations: Seq<Operation>)
    ensures
        forall|i: int| 0 <= i < body(operations).len() ==> !(#[trigger] body(operations)[i]
            is Return),
    decreases operations.len(),
{
    if operations.len() > 0 {
        let before = operations.drop_last();
        lemma_body_never_returns(before);
        let old_code = body(before);
        let new_code = emitted(before, operations.last());
        assert forall|i: int| 0 <= i < body(operations).len() implies !(
        #[trigger] body(operations)[i] is Return) by {
            if i < old_code.len() {
                assert(body(operations)[i] == old_code[i]);
            } else {
                assert(body(operations)[i] == new_code[i - old_code.len()]);
            }
        }
    }
}

/// Every routine ends in the one return it holds, and that return reports
/// success: no routine reports anything else.
pub proof fn routine_returns_success(operations: Seq<Operation>)
    ensures
        returns_success(routine(operations)),
{
    lemma_body_never_returns(operations);
    let code = routine(operations);
    assert forall|i: int| 0 <= i < code.len() - 1 implies !(#[trigger] code[i] is Return) by {
        assert(code[i] == body(operations)[i]);
    }
}

/// What compiling a sequence gives: its routine if it is well nested, else
/// the nesting error.
pub open spec fn compiled(operations: Seq<Operation>) -> Result<Seq<Instruction>, CompileError> {
    if closes_unopened(operations) {
        Err(CompileError::UnmatchedEndLoop)
    } else if depth(operations) > 0 {
        Err(CompileError::UnmatchedBeginLoop)
    } else {
        Ok(routine(operations))
    }
}

// ---------------------------------------------------------------------------
// Tapes and programs
// ---------------------------------------------------------------------------
/// The tape that a routine works on: `TAPE_SIZE` byte cells.
pub struct State {
    tape: [u8; TAPE_SIZE],
}

impl View for State {
    type V = Seq<u8>;

    closed spec fn view(&self) -> Seq<u8> {
        self.tape@
    }
}

impl State {
    /// A fresh tape: every cell is zero.
    pub fn new() -> (state: State)
        ensures
            state@.len() == TAPE_SIZE,
            forall|i: int| 0 <= i < TAPE_SIZE ==> state@[i] == 0,
    {
        State { tape: [0; TAPE_SIZE] }
    }

    /// The cells, to read.
    pub fn tape(&self) -> (cells: &[u8; TAPE_SIZE])
        ensures
            cells@ == self@,
    {
        &self.tape
    }

    /// The cells, to hand to a routine that works on them.
    pub fn tape_mut(&mut self) -> (cells: &mut [u8; TAPE_SIZE])
        ensures
            cells@ == old(self)@,
            final(self)@ == final(cells)@,
    {
        &mut self.tape
    }
}

/// Whether a stretch of instructions is the routine of some well-nested
/// sequence of operations.
pub open spec fn is_routine(code: Seq<Instruction>) -> bool {
    exists|operations: Seq<Operation>|
        operations.len() <= usize::MAX && well_nested(operations) && code == #[trigger] routine(
            operations,
        )
}

/// A compiled routine and its entry point. Only `compile` makes one, so a
/// program is always the routine of a well-nested sequence of operations,
/// entered at its first instruction.
pub struct Program {
    code: Vec<Instruction>,
    start: usize,
}

impl View for Program {
    type V = Seq<Instruction>;

    closed spec fn view(&self) -> Seq<Instruction> {
        self.code@
    }
}

impl Program {
    #[verifier::type_invariant]
    spec fn validated(&self) -> bool {
        is_routine(self.code@) && self.start == 0
    }

    /// The index of the instruction at which the routine is entered.
    pub closed spec fn entry(&self) -> nat {
        self.start as nat
    }

    /// The instructions of the routine. They are the routine of a
    /// well-nested sequence, so their labels are resolved and they end in
    /// the one return, which reports success.
    pub fn instructions(&self) -> (code: &[Instruction])
        ensures
            code@ == self@,
            is_routine(code@),
            resolved(code@),
            returns_success(code@),
    {
        proof {
            use_type_invariant(self);
            let operations = choose|operations: Seq<Operation>|
                operations.len() <= usize::MAX && well_nested(operations) && self.code@
                    == #[trigger] routine(operations);
            routine_labels_resolved(operations);
            routine_returns_success(operations);
        }
        self.code.as_slice()
    }

    /// Whether a status that a routine returned reports success.
    pub fn succeeded(status: u8) -> (ok: bool)
        ensures
            ok == (status == SUCCESS),
    {
        status == SUCCESS
    }

    /// The index of the instruction at which the routine is entered: always
    /// the first.
    pub fn start(&self) -> (start: usize)
        ensures
            start == self.entry(),
            start == 0,
    {
        proof {
            use_type_invariant(self);
        }
        self.start
    }
}

/// Compiles a sequence of operations into a routine. Fails if the loops are
/// not well nested, and only then.
pub fn compile(operations: &[Operation]) -> (result: Result<Program, CompileError>)
    ensures
        match result {
            Ok(program) => compiled(operations@) == Ok::<Seq<Instruction>, CompileError>(program@)
                && program.entry() == 0,
            Err(error) => compiled(operations@) == Err::<Seq<Instruction>, CompileError>(error),
        },
{
    let mut code: Vec<Instruction> = Vec::new();
    let mut loops: Vec<usize> = Vec::new();
    let mut opened: usize = 0;
    let mut i: usize = 0;
    proof {
        assert(operations@.take(0) == Seq::<Operation>::empty());
    }
    while i < operations.len()
        invariant
            i <= operations.len(),
            forall|k: int| 0 <= k <= i ==> depth(#[trigger] operations@.take(k)) >= 0,
            code@ == body(operations@.take(i as int)),
            loops@.len() == depth(operations@.take(i as int)),
            loops@.len() == open_loops(operations@.take(i as int)).len(),
            forall|j: int|
                0 <= j < loops@.len() ==> loops@[j] == open_loops(operations@.take(i as int))[j],
            opened == loops_opened(operations@.take(i as int)),
            opened <= i,
        decreases operations.len() - i,
    {
        let op: Operation = operations[i];
        let offset: i32 = op.offset;
        let ghost before = operations@.take(i as int);
        let ghost after = operations@.take(i + 1);
        proof {
            assert(after.drop_last() == before);
            assert(after.last() == op);
        }
        match op.kind {
            OperationKind::BeginLoop => {
                loops.push(opened);
                code.push(Instruction::JumpIfZero { offset, target: Label::Forward(opened) });
                code.push(Instruction::Mark { label: Label::Backward(opened) });
                opened += 1;
            },
            OperationKind::EndLoop => {
                match loops.pop() {
                    Some(k) => {
                        code.push(
                            Instruction::JumpIfNotZero { offset, target: Label::Backward(k) },
                        );
                        code.push(Instruction::Mark { label: Label::Forward(k) });
                    },
                    None => {
                        proof {
                            assert(depth(after) < 0);
                            assert(operations@.take(i + 1) == after);
                        }
                        return Err(CompileError::UnmatchedEndLoop);
                    },
                }
            },
            OperationKind::Add => {
                if op.argument == 1 {
                    code.push(Instruction::Increment { offset });
                } else {
                    code.push(Instruction::AddByte { offset, amount: (op.argument % 256) as u8 });
                }
            },
            OperationKind::Sub => {
                if op.argument == 1 {
                    code.push(Instruction::Decrement { offset });
                } else {
                    code.push(Instruction::SubByte { offset, amount: (op.argument % 256) as u8 });
                }
            },
            OperationKind::Right => {
                code.push(Instruction::Advance { cells: op.argument % (TAPE_SIZE as u32) });
                if op.argument > TAPE_SIZE as u32 {
                    code.push(Instruction::WrapAtEnd);
                }
            },
            OperationKind::Left => {
                code.push(Instruction::Retreat { cells: op.argument % (TAPE_SIZE as u32) });
                if op.argument > TAPE_SIZE as u32 {
                    code.push(Instruction::WrapAtStart);
                }
            },
            OperationKind::Read => {
                code.push(Instruction::ReadByte { offset });
            },
            OperationKind::Write => {
                let ghost base = code@;
                let mut written: u32 = 0;
                while written < op.argument
                    invariant
                        written <= op.argument,
                        code@ == base + writes(written as nat, offset),
                    decreases op.argument - written,
                {
                    code.push(Instruction::WriteByte { offset });
                    written += 1;
                }
            },
            OperationKind::SetZero => {
                code.push(Instruction::StoreZero { offset });
            },
        }
        i += 1;
        proof {
            assert(code@ == body(before) + emitted(before, op));
        }
    }
    proof {
        assert(operations@.take(i as int) == operations@);
    }
    if !loops.is_empty() {
        return Err(CompileError::UnmatchedBeginLoop);
    }
    code.push(Instruction::Return { status: SUCCESS });
    proof {
        assert(well_nested(operations@));
        assert(code@ == routine(operations@));
    }
    Ok(Program { code, start: 0 })
}

} // verus!
