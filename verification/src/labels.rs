//! Jump targets: in the routine of a well-nested sequence every label is
//! marked at most once, and every jump goes to a label that is marked.

use crate::compiler::{
    body, closes_unopened, depth, emitted, loops_opened, open_loops, routine, well_nested,
    SUCCESS,
};
use crate::instruction::{Instruction, Label};
use crate::operation::{Operation, OperationKind};
use vstd::prelude::*;

verus! {

/// The label that an instruction jumps to, if it jumps.
pub open spec fn jump_target(instruction: Instruction) -> Option<Label> {
    match instruction {
        Instruction::JumpIfZero { target, .. } => Some(target),
        Instruction::JumpIfNotZero { target, .. } => Some(target),
        _ => None,
    }
}

/// The loop that a label belongs to.
pub open spec fn loop_of(label: Label) -> nat {
    match label {
        Label::Backward(k) => k as nat,
        Label::Forward(k) => k as nat,
    }
}

/// Whether an instruction marks `label`.
pub open spec fn marks_label(instruction: Instruction, label: Label) -> bool {
    instruction == (Instruction::Mark { label })
}

/// How often `label` is marked in a stretch of instructions.
pub open spec fn marks(code: Seq<Instruction>, label: Label) -> nat
    decreases code.len(),
{
    if code.len() == 0 {
        0
    } else {
        marks(code.drop_last(), label) + if marks_label(code.last(), label) {
            1nat
        } else {
            0nat
        }
    }
}

/// The marks of two stretches in a row add up.
pub proof fn lemma_marks_concat(first: Seq<Instruction>, second: Seq<Instruction>, label: Label)
    ensures
        marks(first + second, label) == marks(first, label) + marks(second, label),
    decreases second.len(),
{
    if second.len() == 0 {
        assert(first + second == first);
    } else {
        lemma_marks_concat(first, second.drop_last(), label);
        assert((first + second).drop_last() == first + second.drop_last());
    }
}

/// A stretch in which no instruction marks `label` has no mark of it.
pub proof fn lemma_marks_none(code: Seq<Instruction>, label: Label)
    requires
        forall|i: int| 0 <= i < code.len() ==> !marks_label(#[trigger] code[i], label),
    ensures
        marks(code, label) == 0,
    decreases code.len(),
{
    if code.len() > 0 {
        lemma_marks_none(code.drop_last(), label);
    }
}

/// The marks of a jump followed by a mark.
pub proof fn lemma_marks_of_jump_and_mark(jump: Instruction, marked: Label, label: Label)
    requires
        jump_target(jump) is Some,
    ensures
        marks(seq![jump, Instruction::Mark { label: marked }], label) == if marked == label {
            1nat
        } else {
            0nat
        },
{
    let code = seq![jump, Instruction::Mark { label: marked }];
    let first = code.drop_last();
    assert(first == seq![jump]);
    assert(first.drop_last() == Seq::<Instruction>::empty());
    assert(marks(first.drop_last(), label) == 0);
    assert(marks(first, label) == 0);
}

/// If a sequence closes no loop that was not opened, then neither does the
/// sequence without its last operation, and the depth is not negative.
pub proof fn lemma_prefix_not_unopened(operations: Seq<Operation>)
    requires
        operations.len() > 0,
        !closes_unopened(operations),
    ensures
        !closes_unopened(operations.drop_last()),
        depth(operations) >= 0,
{
    let before = operations.drop_last();
    assert(operations.take(operations.len() as int) == operations);
    if closes_unopened(before) {
        let k = choose|k: int| 0 <= k <= before.len() && depth(#[trigger] before.take(k)) < 0;
        assert(operations.take(k) == before.take(k));
    }
}

/// Whether the labels of a body are in order with the loops of its
/// operations: the loops that are open were opened in rising order, each
/// loop opened so far has its backward label marked once, each loop closed
/// so far has its forward label marked once, no other label is marked, and
/// no jump leaves the loops opened so far.
pub open spec fn labels_in_order(operations: Seq<Operation>) -> bool {
    let code = body(operations);
    let opened = loops_opened(operations);
    let open = open_loops(operations);
    &&& opened <= operations.len()
    &&& open.len() == depth(operations)
    &&& forall|j: int| 0 <= j < open.len() ==> #[trigger] open[j] < opened
    &&& forall|i: int, j: int| 0 <= i < j < open.len() ==> #[trigger] open[i] < #[trigger] open[j]
    &&& forall|k: usize| #[trigger]
        marks(code, Label::Backward(k)) == if k < opened {
            1nat
        } else {
            0nat
        }
    &&& forall|k: usize| #[trigger]
        marks(code, Label::Forward(k)) == if k < opened && !open.contains(k as nat) {
            1nat
        } else {
            0nat
        }
    &&& forall|i: int|
        0 <= i < code.len() ==> match jump_target(#[trigger] code[i]) {
            Some(label) => loop_of(label) < opened,
            None => true,
        }
}

/// The labels of a body are in order as long as no loop is closed that was
/// not opened.
pub proof fn lemma_labels_in_order(operations: Seq<Operation>)
    requires
        !closes_unopened(operations),
        operations.len() <= usize::MAX,
    ensures
        labels_in_order(operations),
    decreases operations.len(),
{
    if operations.len() == 0 {
        assert(body(operations) == Seq::<Instruction>::empty());
        assert forall|k: usize| #[trigger]
            marks(body(operations), Label::Forward(k)) == 0nat by {}
    } else {
        let before = operations.drop_last();
        let op = operations.last();
        lemma_prefix_not_unopened(operations);
        lemma_labels_in_order(before);
        let old_code = body(before);
        let new_code = emitted(before, op);
        let code = body(operations);
        let opened = loops_opened(before);
        let open = open_loops(before);
        assert(code == old_code + new_code);
        assert forall|label: Label| #[trigger]
            marks(code, label) == marks(old_code, label) + marks(new_code, label) by {
            lemma_marks_concat(old_code, new_code, label);
        }
        match op.kind {
            OperationKind::BeginLoop => {
                let k = opened as usize;
                let jump = Instruction::JumpIfZero { offset: op.offset, target: Label::Forward(k) };
                assert(new_code == seq![jump, Instruction::Mark { label: Label::Backward(k) }]);
                assert forall|label: Label| #[trigger]
                    marks(new_code, label) == if label == Label::Backward(k) {
                        1nat
                    } else {
                        0nat
                    } by {
                    lemma_marks_of_jump_and_mark(jump, Label::Backward(k), label);
                }
                let now_open = open_loops(operations);
                assert(now_open == open.push(opened));
                assert forall|j: usize| #[trigger]
                    marks(code, Label::Forward(j)) == if j < opened + 1 && !now_open.contains(
                        j as nat,
                    ) {
                        1nat
                    } else {
                        0nat
                    } by {
                    if j as nat == opened {
                        assert(now_open[open.len() as int] == j as nat);
                    } else {
                        if open.contains(j as nat) {
                            let at = choose|at: int| 0 <= at < open.len() && open[at] == j as nat;
                            assert(now_open[at] == j as nat);
                        }
                        if now_open.contains(j as nat) {
                            let at = choose|at: int|
                                0 <= at < now_open.len() && now_open[at] == j as nat;
                            assert(open[at] == j as nat);
                        }
                    }
                }
                assert forall|i: int| 0 <= i < code.len() implies match jump_target(
                    #[trigger] code[i],
                ) {
                    Some(label) => loop_of(label) < opened + 1,
                    None => true,
                } by {
                    if i < old_code.len() {
                        assert(code[i] == old_code[i]);
                    } else {
                        assert(code[i] == new_code[i - old_code.len()]);
                    }
                }
            },
            OperationKind::EndLoop => {
                assert(open.len() > 0);
                let closed = open.last();
                let k = closed as usize;
                let jump = Instruction::JumpIfNotZero {
                    offset: op.offset,
                    target: Label::Backward(k),
                };
                assert(new_code == seq![jump, Instruction::Mark { label: Label::Forward(k) }]);
                assert forall|label: Label| #[trigger]
                    marks(new_code, label) == if label == Label::Forward(k) {
                        1nat
                    } else {
                        0nat
                    } by {
                    lemma_marks_of_jump_and_mark(jump, Label::Forward(k), label);
                }
                let now_open = open_loops(operations);
                assert(now_open == open.drop_last());
                assert(open[open.len() - 1] < opened);
                assert forall|j: usize| #[trigger]
                    marks(code, Label::Forward(j)) == if j < opened && !now_open.contains(
                        j as nat,
                    ) {
                        1nat
                    } else {
                        0nat
                    } by {
                    if j as nat == closed {
                        assert(open.contains(closed));
                        if now_open.contains(closed) {
                            let at = choose|at: int|
                                0 <= at < now_open.len() && now_open[at] == closed;
                            assert(open[at] < open[open.len() - 1]);
                        }
                    } else {
                        if open.contains(j as nat) {
                            let at = choose|at: int| 0 <= at < open.len() && open[at] == j as nat;
                            assert(now_open[at] == j as nat);
                        }
                        if now_open.contains(j as nat) {
                            let at = choose|at: int|
                                0 <= at < now_open.len() && now_open[at] == j as nat;
                            assert(open[at] == j as nat);
                        }
                    }
                }
                assert forall|i: int| 0 <= i < code.len() implies match jump_target(
                    #[trigger] code[i],
                ) {
                    Some(label) => loop_of(label) < opened,
                    None => true,
                } by {
                    if i < old_code.len() {
                        assert(code[i] == old_code[i]);
                    } else {
                        assert(code[i] == new_code[i - old_code.len()]);
                    }
                }
            },
            _ => {
                assert forall|label: Label| #[trigger] marks(new_code, label) == 0nat by {
                    lemma_marks_none(new_code, label);
                }
                assert forall|i: int| 0 <= i < code.len() implies match jump_target(
                    #[trigger] code[i],
                ) {
                    Some(label) => loop_of(label) < opened,
                    None => true,
                } by {
                    if i < old_code.len() {
                        assert(code[i] == old_code[i]);
                    } else {
                        assert(code[i] == new_code[i - old_code.len()]);
                    }
                }
            },
        }
    }
}

/// Whether no label is marked twice and every jump goes to a label that is
/// marked: a back end can then bind each label once and resolve every jump.
pub open spec fn resolved(code: Seq<Instruction>) -> bool {
    &&& forall|label: Label| #[trigger] marks(code, label) <= 1
    &&& forall|i: int|
        0 <= i < code.len() ==> match jump_target(#[trigger] code[i]) {
            Some(label) => marks(code, label) == 1,
            None => true,
        }
}

/// The routine of a well-nested sequence is resolved.
pub proof fn routine_labels_resolved(operations: Seq<Operation>)
    requires
        well_nested(operations),
        operations.len() <= usize::MAX,
    ensures
        resolved(routine(operations)),
{
    lemma_labels_in_order(operations);
    let code = body(operations);
    let done = Instruction::Return { status: SUCCESS };
    let all = routine(operations);
    assert(all.drop_last() == code);
    assert(open_loops(operations).len() == 0);
    assert forall|label: Label| #[trigger] marks(all, label) == marks(code, label) by {}
    assert forall|label: Label| #[trigger] marks(all, label) <= 1 by {
        match label {
            Label::Backward(k) => {
                assert(marks(code, Label::Backward(k)) <= 1);
            },
            Label::Forward(k) => {
                assert(marks(code, Label::Forward(k)) <= 1);
            },
        }
    }
    assert forall|i: int| 0 <= i < all.len() implies match jump_target(#[trigger] all[i]) {
        Some(label) => marks(all, label) == 1,
        None => true,
    } by {
        if i < code.len() {
            assert(all[i] == code[i]);
            match jump_target(code[i]) {
                Some(label) => {
                    match label {
                        Label::Backward(k) => {
                            assert(marks(code, Label::Backward(k)) == 1);
                        },
                        Label::Forward(k) => {
                            assert(!open_loops(operations).contains(k as nat));
                            assert(marks(code, Label::Forward(k)) == 1);
                        },
                    }
                },
                None => {},
            }
        } else {
            assert(all[i] == done);
        }
    }
}

} // verus!
