//! Which operation sequences the optimizer leaves alone.
//!
//! A sequence is settled when no pass finds anything to rewrite in it. The
//! settled sequences are exactly the fixed points of the optimizer, and the
//! optimizer never makes a sequence longer.

use crate::operation::{Operation, OperationKind};
use crate::optimizer::{
    cancel_adjacent, cancels, closes_counting_loop, coalesce, continues_run, fuse_loops,
    lemma_run_length_bounds, merged, optimized, repeatable, run_length, total_argument,
};
use vstd::prelude::*;

verus! {

/// Whether the operations at `i` and `i + 1` belong to one run.
pub open spec fn mergeable_at(operations: Seq<Operation>, i: int) -> bool {
    &&& 0 <= i
    &&& i + 1 < operations.len()
    &&& repeatable(operations[i].kind)
    &&& continues_run(operations[i], operations[i + 1])
}

/// Whether the operations at `i`, `i + 1` and `i + 2` are a loop around one
/// addition or subtraction, closed by a plain `EndLoop`.
pub open spec fn fusible_at(operations: Seq<Operation>, i: int) -> bool {
    &&& 0 <= i
    &&& i + 2 < operations.len()
    &&& operations[i].kind == OperationKind::BeginLoop
    &&& (operations[i + 1].kind == OperationKind::Add || operations[i + 1].kind
        == OperationKind::Sub)
    &&& operations[i + 2].kind == OperationKind::EndLoop
    &&& operations[i + 2].offset == 0
    &&& operations[i + 2].argument == 1
}

/// Whether the operation at `i + 1` works against the one at `i`.
pub open spec fn cancelling_at(operations: Seq<Operation>, i: int) -> bool {
    &&& 0 <= i
    &&& i + 1 < operations.len()
    &&& cancels(operations[i], operations[i + 1])
}

/// No two neighbours belong to one run.
pub open spec fn coalesced(operations: Seq<Operation>) -> bool {
    forall|i: int| !mergeable_at(operations, i)
}

/// No loop around a single addition or subtraction is left.
pub open spec fn fused(operations: Seq<Operation>) -> bool {
    forall|i: int| !fusible_at(operations, i)
}

/// No operation works against its left neighbour.
pub open spec fn cancelled(operations: Seq<Operation>) -> bool {
    forall|i: int| !cancelling_at(operations, i)
}

/// No pass finds anything to rewrite.
pub open spec fn settled(operations: Seq<Operation>) -> bool {
    coalesced(operations) && fused(operations) && cancelled(operations)
}

/// A run of one operation merges into that operation.
pub proof fn lemma_merged_single(op: Operation)
    ensures
        merged(seq![op]) == op,
{
    assert(seq![op].drop_last() == Seq::<Operation>::empty());
    assert(total_argument(seq![op].drop_last()) == 0);
    assert(total_argument(seq![op]) == op.argument);
}

/// Coalescing never lengthens a sequence, and it keeps the length exactly
/// when no two neighbours belong to one run; it then changes nothing.
pub proof fn lemma_coalesce_fixed(operations: Seq<Operation>)
    ensures
        coalesce(operations).len() <= operations.len(),
        coalesce(operations).len() == operations.len() <==> coalesced(operations),
        coalesced(operations) <==> coalesce(operations) == operations,
    decreases operations.len(),
{
    if operations.len() == 0 {
        assert(coalesce(operations) == operations);
    } else {
        let n = run_length(operations) as int;
        let rest = operations.skip(n);
        lemma_run_length_bounds(operations);
        lemma_coalesce_fixed(rest);
        if n == 1 {
            assert(operations.take(1) == seq![operations[0]]);
            lemma_merged_single(operations[0]);
            assert(!mergeable_at(operations, 0)) by {
                if operations.len() > 1 && repeatable(operations[0].kind) {
                    assert(operations.skip(1)[0] == operations[1]);
                }
            }
            if coalesced(rest) {
                assert forall|i: int| !mergeable_at(operations, i) by {
                    if i >= 1 {
                        assert(!mergeable_at(rest, i - 1));
                    }
                }
                assert(coalesce(operations) == operations);
            } else {
                let i = choose|i: int| mergeable_at(rest, i);
                assert(mergeable_at(operations, i + 1));
            }
        } else {
            assert(operations.skip(1)[0] == operations[1]);
            assert(mergeable_at(operations, 0));
        }
    }
}

/// Loop fusion never lengthens a sequence, and it keeps the length exactly
/// when there is no loop to fuse; it then changes nothing.
pub proof fn lemma_fuse_loops_fixed(operations: Seq<Operation>)
    ensures
        fuse_loops(operations).len() <= operations.len(),
        fuse_loops(operations).len() == operations.len() <==> fused(operations),
        fused(operations) <==> fuse_loops(operations) == operations,
    decreases operations.len(),
{
    if operations.len() == 0 {
        assert(fuse_loops(operations) == operations);
    } else {
        let before = operations.drop_last();
        let op = operations.last();
        lemma_fuse_loops_fixed(before);
        if fused(before) {
            if closes_counting_loop(before, op) {
                assert(fusible_at(operations, operations.len() - 3));
            } else {
                assert(before.push(op) == operations);
                assert forall|i: int| !fusible_at(operations, i) by {
                    if fusible_at(operations, i) {
                        if i + 3 < operations.len() {
                            assert(fusible_at(before, i));
                        }
                    }
                }
            }
        } else {
            let i = choose|i: int| fusible_at(before, i);
            assert(fusible_at(operations, i));
        }
    }
}

/// Cancellation never lengthens a sequence, and it keeps the length exactly
/// when no operation works against its left neighbour; it then changes
/// nothing.
pub proof fn lemma_cancel_adjacent_fixed(operations: Seq<Operation>)
    ensures
        cancel_adjacent(operations).len() <= operations.len(),
        cancel_adjacent(operations).len() == operations.len() <==> cancelled(operations),
        cancelled(operations) <==> cancel_adjacent(operations) == operations,
    decreases operations.len(),
{
    if operations.len() == 0 {
        assert(cancel_adjacent(operations) == operations);
    } else {
        let before = operations.drop_last();
        let op = operations.last();
        lemma_cancel_adjacent_fixed(before);
        if cancelled(before) {
            if before.len() > 0 && cancels(before.last(), op) {
                assert(cancelling_at(operations, operations.len() - 2));
            } else {
                assert(before.push(op) == operations);
                assert forall|i: int| !cancelling_at(operations, i) by {
                    if cancelling_at(operations, i) {
                        if i + 2 < operations.len() {
                            assert(cancelling_at(before, i));
                        }
                    }
                }
            }
        } else {
            let i = choose|i: int| cancelling_at(before, i);
            assert(cancelling_at(operations, i));
        }
    }
}

/// The optimizer never lengthens a sequence.
pub proof fn optimized_no_longer(operations: Seq<Operation>)
    ensures
        optimized(operations).len() <= operations.len(),
{
    lemma_coalesce_fixed(operations);
    lemma_fuse_loops_fixed(coalesce(operations));
    lemma_cancel_adjacent_fixed(fuse_loops(coalesce(operations)));
}

/// The optimizer leaves a sequence unchanged if and only if the sequence is
/// settled.
pub proof fn optimized_fixed_point(operations: Seq<Operation>)
    ensures
        optimized(operations) == operations <==> settled(operations),
{
    lemma_coalesce_fixed(operations);
    lemma_fuse_loops_fixed(coalesce(operations));
    lemma_cancel_adjacent_fixed(fuse_loops(coalesce(operations)));
    if optimized(operations) == operations {
        lemma_fuse_loops_fixed(operations);
        lemma_cancel_adjacent_fixed(operations);
    }
}

/// Optimizing a second time changes nothing, provided the first result is
/// settled. Cancellation can bring two operations of one run side by side,
/// and fusion two `SetZero`s; such a first result is not settled, and a
/// second round merges them.
pub proof fn optimize_idempotent(operations: Seq<Operation>)
    requires
        settled(optimized(operations)),
    ensures
        optimized(optimized(operations)) == optimized(operations),
{
    optimized_fixed_point(optimized(operations));
}

} // verus!
