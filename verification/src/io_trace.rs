//! Input and output: which reads and writes a sequence of operations asks
//! for, in program order, and that the optimizer asks for the same.

use crate::compiler::{body, emitted, writes};
use crate::instruction::Instruction;
use crate::operation::{Operation, OperationKind};
use crate::optimizer::{
    cancel_adjacent, cancels, closes_counting_loop, coalesce, continues_run, fuse_loops,
    lemma_run_length_bounds, lemma_run_tail_continues, merged, net_operation, optimized,
    run_length, runs_fit, set_zero_over, total_argument,
};
use vstd::prelude::*;

verus! {

/// Whether an instruction reads input or writes output.
pub open spec fn is_io(instruction: Instruction) -> bool {
    instruction is ReadByte || instruction is WriteByte
}

/// The reads and writes that one operation asks for: one read for a `Read`
/// whatever its argument, one write for each unit of the argument of a
/// `Write`, and nothing for any other operation.
pub open spec fn io_of(op: Operation) -> Seq<Instruction> {
    match op.kind {
        OperationKind::Read => seq![Instruction::ReadByte { offset: op.offset }],
        OperationKind::Write => writes(op.argument as nat, op.offset),
        _ => Seq::empty(),
    }
}

/// The reads and writes of a sequence of operations, in program order.
pub open spec fn io_trace(operations: Seq<Operation>) -> Seq<Instruction>
    decreases operations.len(),
{
    if operations.len() == 0 {
        Seq::empty()
    } else {
        io_trace(operations.drop_last()) + io_of(operations.last())
    }
}

/// The reads and writes of two sequences in a row are those of the first,
/// then those of the second.
pub proof fn lemma_io_trace_concat(first: Seq<Operation>, second: Seq<Operation>)
    ensures
        io_trace(first + second) == io_trace(first) + io_trace(second),
    decreases second.len(),
{
    if second.len() == 0 {
        assert(first + second == first);
        assert(io_trace(first) + io_trace(second) == io_trace(first));
    } else {
        lemma_io_trace_concat(first, second.drop_last());
        assert((first + second).drop_last() == first + second.drop_last());
        assert(io_trace(first) + (io_trace(second.drop_last()) + io_of(second.last())) == (
        io_trace(first) + io_trace(second.drop_last())) + io_of(second.last()));
    }
}

/// What one more operation adds to the reads and writes.
pub proof fn lemma_io_trace_push(operations: Seq<Operation>, op: Operation)
    ensures
        io_trace(operations.push(op)) == io_trace(operations) + io_of(op),
{
    assert(operations.push(op).drop_last() == operations);
}

/// The reads and writes of one operation alone.
pub proof fn lemma_io_trace_single(op: Operation)
    ensures
        io_trace(seq![op]) == io_of(op),
{
    let single = seq![op];
    assert(single.drop_last() == Seq::<Operation>::empty());
    assert(io_trace(single.drop_last()) == Seq::<Instruction>::empty());
    assert(Seq::<Instruction>::empty() + io_of(op) == io_of(op));
}

/// A stretch of operations of one kind at one offset asks for as many
/// writes as its arguments add up to if the kind is `Write`, and for
/// nothing if the kind is neither `Write` nor `Read`.
pub proof fn lemma_uniform_io(stretch: Seq<Operation>, kind: OperationKind, offset: i32)
    requires
        kind != OperationKind::Read,
        forall|i: int|
            0 <= i < stretch.len() ==> (#[trigger] stretch[i]).kind == kind && stretch[i].offset
                == offset,
    ensures
        io_trace(stretch) == if kind == OperationKind::Write {
            writes(total_argument(stretch), offset)
        } else {
            Seq::<Instruction>::empty()
        },
    decreases stretch.len(),
{
    if stretch.len() == 0 {
        assert(writes(0, offset) == Seq::<Instruction>::empty());
    } else {
        let before = stretch.drop_last();
        lemma_uniform_io(before, kind, offset);
        let last = stretch.last();
        assert(last.kind == kind && last.offset == offset);
        if kind == OperationKind::Write {
            assert(writes(total_argument(before), offset) + writes(last.argument as nat, offset)
                == writes(total_argument(stretch), offset));
        } else {
            assert(io_of(last) == Seq::<Instruction>::empty());
            assert(Seq::<Instruction>::empty() + Seq::<Instruction>::empty() == Seq::<
                Instruction,
            >::empty());
        }
    }
}

/// Coalescing keeps the reads and writes, where every run fits.
pub proof fn lemma_coalesce_keeps_io(operations: Seq<Operation>)
    requires
        runs_fit(operations),
    ensures
        io_trace(coalesce(operations)) == io_trace(operations),
    decreases operations.len(),
{
    if operations.len() > 0 {
        let n = run_length(operations) as int;
        lemma_run_length_bounds(operations);
        let run = operations.take(n);
        let rest = operations.skip(n);
        let one = seq![merged(run)];
        lemma_coalesce_keeps_io(rest);
        assert(operations == run + rest);
        lemma_io_trace_concat(run, rest);
        lemma_io_trace_concat(one, coalesce(rest));
        lemma_io_trace_single(merged(run));
        let first = operations[0];
        if first.kind == OperationKind::Read {
            assert(n == 1);
        }
        if n == 1 {
            assert(run == seq![first]);
            lemma_io_trace_single(first);
            assert(run.drop_last() == Seq::<Operation>::empty());
            assert(total_argument(run.drop_last()) == 0);
            assert(total_argument(run) == first.argument);
        } else {
            assert forall|i: int| 0 <= i < run.len() implies (#[trigger] run[i]).kind
                == first.kind && run[i].offset == first.offset by {
                if i > 0 {
                    lemma_run_tail_continues(first, operations.skip(1), i - 1);
                    assert(continues_run(first, operations.skip(1)[i - 1]));
                }
            }
            lemma_uniform_io(run, first.kind, first.offset);
        }
    }
}

/// Loop fusion keeps the reads and writes: the loops that it removes hold
/// none.
pub proof fn lemma_fuse_loops_keeps_io(operations: Seq<Operation>)
    ensures
        io_trace(fuse_loops(operations)) == io_trace(operations),
    decreases operations.len(),
{
    if operations.len() > 0 {
        let before = operations.drop_last();
        let op = operations.last();
        let buffer = fuse_loops(before);
        lemma_fuse_loops_keeps_io(before);
        lemma_io_trace_push(buffer, op);
        if closes_counting_loop(buffer, op) {
            let kept = buffer.take(buffer.len() - 2);
            let begin = buffer[buffer.len() - 2];
            let only = buffer.last();
            let nothing = Seq::<Instruction>::empty();
            assert(buffer == kept.push(begin).push(only));
            lemma_io_trace_push(kept, begin);
            lemma_io_trace_push(kept.push(begin), only);
            lemma_io_trace_push(kept, set_zero_over(begin, op));
            assert(io_trace(kept) + nothing == io_trace(kept));
        }
    }
}

/// Cancellation keeps the reads and writes: it touches only additions,
/// subtractions and moves.
pub proof fn lemma_cancel_adjacent_keeps_io(operations: Seq<Operation>)
    ensures
        io_trace(cancel_adjacent(operations)) == io_trace(operations),
    decreases operations.len(),
{
    if operations.len() > 0 {
        let before = operations.drop_last();
        let op = operations.last();
        let buffer = cancel_adjacent(before);
        lemma_cancel_adjacent_keeps_io(before);
        lemma_io_trace_push(buffer, op);
        if buffer.len() > 0 && cancels(buffer.last(), op) {
            let kept = buffer.drop_last();
            let nothing = Seq::<Instruction>::empty();
            assert(buffer == kept.push(buffer.last()));
            lemma_io_trace_push(kept, buffer.last());
            assert(io_trace(kept) + nothing == io_trace(kept));
            match net_operation(buffer.last(), op) {
                Some(net) => {
                    lemma_io_trace_push(kept, net);
                },
                None => {},
            }
        }
    }
}

/// The optimizer changes neither which reads and writes a program asks
/// for, nor how many, nor their order.
pub proof fn optimizer_keeps_io(operations: Seq<Operation>)
    requires
        runs_fit(operations),
    ensures
        io_trace(optimized(operations)) == io_trace(operations),
{
    lemma_coalesce_keeps_io(operations);
    lemma_fuse_loops_keeps_io(coalesce(operations));
    lemma_cancel_adjacent_keeps_io(fuse_loops(coalesce(operations)));
}

/// Filtering a stretch for a condition that every instruction meets keeps
/// it whole, and for one that no instruction meets leaves nothing.
pub proof fn lemma_filter_all_or_none(code: Seq<Instruction>, wanted: spec_fn(Instruction) -> bool)
    ensures
        (forall|i: int| 0 <= i < code.len() ==> wanted(#[trigger] code[i])) ==> code.filter(wanted)
            == code,
        (forall|i: int| 0 <= i < code.len() ==> !wanted(#[trigger] code[i])) ==> code.filter(
            wanted,
        ) == Seq::<Instruction>::empty(),
    decreases code.len(),
{
    reveal(Seq::filter);
    if code.len() > 0 {
        lemma_filter_all_or_none(code.drop_last(), wanted);
        if forall|i: int| 0 <= i < code.len() ==> wanted(#[trigger] code[i]) {
            assert(code.drop_last().push(code.last()) == code);
        }
    }
}

/// The reads and writes among the instructions of one operation are those
/// that the operation asks for.
pub proof fn lemma_emitted_io(before: Seq<Operation>, op: Operation)
    ensures
        emitted(before, op).filter(|instruction: Instruction| is_io(instruction)) == io_of(op),
{
    let wanted = |instruction: Instruction| is_io(instruction);
    lemma_filter_all_or_none(emitted(before, op), wanted);
}

/// The reads and writes among the instructions of a body are exactly those
/// that its operations ask for, in the same order: one instruction each.
pub proof fn body_io_is_trace(operations: Seq<Operation>)
    ensures
        body(operations).filter(|instruction: Instruction| is_io(instruction)) == io_trace(
            operations,
        ),
    decreases operations.len(),
{
    let wanted = |instruction: Instruction| is_io(instruction);
    if operations.len() == 0 {
        assert(body(operations).filter(wanted) == Seq::<Instruction>::empty()) by {
            reveal(Seq::filter);
        }
    } else {
        let before = operations.drop_last();
        let op = operations.last();
        body_io_is_trace(before);
        let old_code = body(before);
        let new_code = emitted(before, op);
        Seq::filter_distributes_over_add(old_code, new_code, wanted);
        assert(new_code.filter(wanted) == io_of(op)) by {
            lemma_emitted_io(before, op);
        }
    }
}

} // verus!
