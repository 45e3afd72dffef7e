//! Loop nesting: which sequences are well nested, and that the optimizer
//! leaves the nesting of a sequence as it found it.

use crate::compiler::{
    closes_unopened, compiled, depth, depth_change, well_nested, CompileError,
};
use crate::operation::{Operation, OperationKind};
use crate::instruction::Instruction;
use crate::optimizer::{
    cancel_adjacent, cancels, closes_counting_loop, coalesce, fuse_loops,
    lemma_run_length_bounds, lemma_run_tail_continues, merged, net_operation, optimized,
    run_length, set_zero_over,
};
use vstd::prelude::*;

verus! {

/// Whether an operation opens or closes a loop.
pub open spec fn is_bracket(kind: OperationKind) -> bool {
    kind == OperationKind::BeginLoop || kind == OperationKind::EndLoop
}

/// The lowest depth that a sequence passes through, the depth of zero
/// before its first operation included.
pub open spec fn lowest(operations: Seq<Operation>) -> int
    decreases operations.len(),
{
    if operations.len() == 0 {
        0
    } else {
        let before = lowest(operations.drop_last());
        if depth(operations) < before {
            depth(operations)
        } else {
            before
        }
    }
}

/// No prefix is shallower than the lowest depth.
pub proof fn lemma_lowest_is_lower_bound(operations: Seq<Operation>, k: int)
    requires
        0 <= k <= operations.len(),
    ensures
        lowest(operations) <= depth(operations.take(k)),
    decreases operations.len(),
{
    if k == operations.len() {
        assert(operations.take(k) == operations);
    } else {
        lemma_lowest_is_lower_bound(operations.drop_last(), k);
        assert(operations.drop_last().take(k) == operations.take(k));
    }
}

/// Some prefix is exactly as shallow as the lowest depth.
pub proof fn lemma_lowest_is_reached(operations: Seq<Operation>) -> (k: int)
    ensures
        0 <= k <= operations.len(),
        depth(operations.take(k)) == lowest(operations),
    decreases operations.len(),
{
    if operations.len() == 0 || lowest(operations) == depth(operations) {
        assert(operations.take(operations.len() as int) == operations);
        operations.len() as int
    } else {
        let k = lemma_lowest_is_reached(operations.drop_last());
        assert(operations.drop_last().take(k) == operations.take(k));
        k
    }
}

/// A loop is closed without having been opened exactly if the lowest depth
/// is below zero.
pub proof fn lemma_closes_unopened_is_lowest(operations: Seq<Operation>)
    ensures
        closes_unopened(operations) <==> lowest(operations) < 0,
{
    if closes_unopened(operations) {
        let k = choose|k: int|
            0 <= k <= operations.len() && depth(#[trigger] operations.take(k)) < 0;
        lemma_lowest_is_lower_bound(operations, k);
    }
    if lowest(operations) < 0 {
        let k = lemma_lowest_is_reached(operations);
        assert(depth(operations.take(k)) < 0);
    }
}

/// The depth after two sequences is the sum of their depths.
pub proof fn lemma_depth_concat(first: Seq<Operation>, second: Seq<Operation>)
    ensures
        depth(first + second) == depth(first) + depth(second),
    decreases second.len(),
{
    if second.len() == 0 {
        assert(first + second == first);
    } else {
        lemma_depth_concat(first, second.drop_last());
        assert((first + second).drop_last() == first + second.drop_last());
    }
}

/// The lowest depth of two sequences in a row: the second starts at the
/// depth that the first ends at.
pub proof fn lemma_lowest_concat(first: Seq<Operation>, second: Seq<Operation>)
    ensures
        lowest(first + second) == if depth(first) + lowest(second) < lowest(first) {
            depth(first) + lowest(second)
        } else {
            lowest(first)
        },
    decreases second.len(),
{
    lemma_lowest_is_lower_bound(first, first.len() as int);
    assert(first.take(first.len() as int) == first);
    if second.len() == 0 {
        assert(first + second == first);
    } else {
        lemma_lowest_concat(first, second.drop_last());
        lemma_depth_concat(first, second);
        assert((first + second).drop_last() == first + second.drop_last());
    }
}

/// A sequence without brackets stays at depth zero.
pub proof fn lemma_flat(operations: Seq<Operation>)
    requires
        forall|i: int| 0 <= i < operations.len() ==> !is_bracket(#[trigger] operations[i].kind),
    ensures
        depth(operations) == 0,
        lowest(operations) == 0,
    decreases operations.len(),
{
    if operations.len() > 0 {
        lemma_flat(operations.drop_last());
    }
}

/// One operation alone changes the depth by what it adds, and passes below
/// zero only if it closes a loop.
pub proof fn lemma_single(op: Operation)
    ensures
        depth(seq![op]) == depth_change(op.kind),
        lowest(seq![op]) == if op.kind == OperationKind::EndLoop {
            -1int
        } else {
            0int
        },
{
    let single = seq![op];
    assert(single.drop_last() == Seq::<Operation>::empty());
    assert(depth(single.drop_last()) == 0);
    assert(lowest(single.drop_last()) == 0);
}

// ---------------------------------------------------------------------------
// How well-nested sequences are built
// ---------------------------------------------------------------------------
/// Compiling succeeds exactly on the well-nested sequences.
pub proof fn compiled_iff_well_nested(operations: Seq<Operation>)
    ensures
        compiled(operations) is Ok <==> well_nested(operations),
        compiled(operations) == Err::<Seq<Instruction>, CompileError>(
            CompileError::UnmatchedEndLoop,
        ) <==> closes_unopened(operations),
        compiled(operations) == Err::<Seq<Instruction>, CompileError>(
            CompileError::UnmatchedBeginLoop,
        ) <==> !closes_unopened(operations) && depth(operations) > 0,
{
    if !closes_unopened(operations) {
        assert(operations.take(operations.len() as int) == operations);
    }
}

/// The empty sequence is well nested.
pub proof fn well_nested_empty()
    ensures
        well_nested(Seq::<Operation>::empty()),
{
    lemma_closes_unopened_is_lowest(Seq::<Operation>::empty());
}

/// A sequence without brackets is well nested.
pub proof fn well_nested_flat(operations: Seq<Operation>)
    requires
        forall|i: int| 0 <= i < operations.len() ==> !is_bracket(#[trigger] operations[i].kind),
    ensures
        well_nested(operations),
{
    lemma_flat(operations);
    lemma_closes_unopened_is_lowest(operations);
}

/// Two well-nested sequences in a row are well nested.
pub proof fn well_nested_concat(first: Seq<Operation>, second: Seq<Operation>)
    requires
        well_nested(first),
        well_nested(second),
    ensures
        well_nested(first + second),
{
    lemma_closes_unopened_is_lowest(first);
    lemma_closes_unopened_is_lowest(second);
    lemma_closes_unopened_is_lowest(first + second);
    lemma_depth_concat(first, second);
    lemma_lowest_concat(first, second);
}

/// A well-nested sequence inside a loop is well nested, so loops nest to any
/// depth.
pub proof fn well_nested_loop(begin: Operation, inner: Seq<Operation>, end: Operation)
    requires
        begin.kind == OperationKind::BeginLoop,
        end.kind == OperationKind::EndLoop,
        well_nested(inner),
    ensures
        well_nested(seq![begin] + inner + seq![end]),
{
    let open = seq![begin];
    let close = seq![end];
    lemma_single(begin);
    lemma_single(end);
    lemma_closes_unopened_is_lowest(inner);
    lemma_depth_concat(open, inner);
    lemma_lowest_concat(open, inner);
    lemma_depth_concat(open + inner, close);
    lemma_lowest_concat(open + inner, close);
    lemma_closes_unopened_is_lowest(open + inner + close);
}

/// An `EndLoop` on its own closes a loop that was never opened.
pub proof fn lone_end_loop_unopened(end: Operation)
    requires
        end.kind == OperationKind::EndLoop,
    ensures
        closes_unopened(seq![end]),
{
    lemma_single(end);
    lemma_closes_unopened_is_lowest(seq![end]);
}

/// A `BeginLoop` on its own leaves a loop open.
pub proof fn lone_begin_loop_unclosed(begin: Operation)
    requires
        begin.kind == OperationKind::BeginLoop,
    ensures
        !closes_unopened(seq![begin]),
        depth(seq![begin]) == 1,
{
    lemma_single(begin);
    lemma_closes_unopened_is_lowest(seq![begin]);
}

// ---------------------------------------------------------------------------
// The optimizer and nesting
// ---------------------------------------------------------------------------
/// Whether two sequences end at the same depth and pass through the same
/// lowest depth. Such sequences compile or fail alike.
pub open spec fn same_nesting(first: Seq<Operation>, second: Seq<Operation>) -> bool {
    depth(first) == depth(second) && lowest(first) == lowest(second)
}

/// What one more operation does to the depth and to the lowest depth.
pub proof fn lemma_push(operations: Seq<Operation>, op: Operation)
    ensures
        depth(operations.push(op)) == depth(operations) + depth_change(op.kind),
        lowest(operations.push(op)) == if depth(operations.push(op)) < lowest(operations) {
            depth(operations.push(op))
        } else {
            lowest(operations)
        },
        lowest(operations) <= depth(operations),
{
    assert(operations.push(op).drop_last() == operations);
    lemma_lowest_is_lower_bound(operations, operations.len() as int);
    assert(operations.take(operations.len() as int) == operations);
}

/// Coalescing keeps the nesting.
pub proof fn lemma_coalesce_keeps_nesting(operations: Seq<Operation>)
    ensures
        same_nesting(coalesce(operations), operations),
    decreases operations.len(),
{
    if operations.len() > 0 {
        let n = run_length(operations) as int;
        lemma_run_length_bounds(operations);
        let run = operations.take(n);
        let rest = operations.skip(n);
        let one = seq![merged(run)];
        lemma_coalesce_keeps_nesting(rest);
        assert(operations == run + rest);
        lemma_single(merged(run));
        if n == 1 {
            assert(run == seq![operations[0]]);
            lemma_single(operations[0]);
        } else {
            assert forall|i: int| 0 <= i < run.len() implies !is_bracket(
                #[trigger] run[i].kind,
            ) by {
                if i > 0 {
                    lemma_run_tail_continues(operations[0], operations.skip(1), i - 1);
                }
            }
            lemma_flat(run);
        }
        lemma_depth_concat(run, rest);
        lemma_lowest_concat(run, rest);
        lemma_depth_concat(one, coalesce(rest));
        lemma_lowest_concat(one, coalesce(rest));
    }
}

/// Loop fusion keeps the nesting: the loop that it removes was opened and
/// closed in place.
pub proof fn lemma_fuse_loops_keeps_nesting(operations: Seq<Operation>)
    ensures
        same_nesting(fuse_loops(operations), operations),
    decreases operations.len(),
{
    if operations.len() > 0 {
        let before = operations.drop_last();
        let op = operations.last();
        let buffer = fuse_loops(before);
        lemma_fuse_loops_keeps_nesting(before);
        assert(before.push(op) == operations);
        lemma_push(before, op);
        lemma_push(buffer, op);
        if closes_counting_loop(buffer, op) {
            let kept = buffer.take(buffer.len() - 2);
            let begin = buffer[buffer.len() - 2];
            let only = buffer.last();
            assert(buffer == kept.push(begin).push(only));
            lemma_push(kept, begin);
            lemma_push(kept.push(begin), only);
            lemma_push(kept, set_zero_over(begin, op));
        }
    }
}

/// Cancellation keeps the nesting: it touches no bracket.
pub proof fn lemma_cancel_adjacent_keeps_nesting(operations: Seq<Operation>)
    ensures
        same_nesting(cancel_adjacent(operations), operations),
    decreases operations.len(),
{
    if operations.len() > 0 {
        let before = operations.drop_last();
        let op = operations.last();
        let buffer = cancel_adjacent(before);
        lemma_cancel_adjacent_keeps_nesting(before);
        assert(before.push(op) == operations);
        lemma_push(before, op);
        lemma_push(buffer, op);
        if buffer.len() > 0 && cancels(buffer.last(), op) {
            let kept = buffer.drop_last();
            assert(buffer == kept.push(buffer.last()));
            lemma_push(kept, buffer.last());
            match net_operation(buffer.last(), op) {
                Some(net) => {
                    lemma_push(kept, net);
                },
                None => {},
            }
        }
    }
}

/// The optimizer leaves the nesting as it found it: what it returns is well
/// nested exactly if what it was given is, and otherwise fails to compile
/// with the same error.
pub proof fn optimizer_keeps_nesting(operations: Seq<Operation>)
    ensures
        depth(optimized(operations)) == depth(operations),
        closes_unopened(optimized(operations)) == closes_unopened(operations),
        well_nested(optimized(operations)) == well_nested(operations),
        compiled(optimized(operations)) is Ok <==> compiled(operations) is Ok,
        compiled(operations) is Err ==> compiled(optimized(operations)) == compiled(operations),
{
    lemma_coalesce_keeps_nesting(operations);
    lemma_fuse_loops_keeps_nesting(coalesce(operations));
    lemma_cancel_adjacent_keeps_nesting(fuse_loops(coalesce(operations)));
    lemma_closes_unopened_is_lowest(operations);
    lemma_closes_unopened_is_lowest(optimized(operations));
}

} // verus!
