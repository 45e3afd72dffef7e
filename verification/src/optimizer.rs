//! The optimizer: three peephole passes over an operation sequence.
//!
//! Each pass is specified by a function on sequences; the executable passes
//! are proved to compute exactly those functions.

use crate::operation::{Operation, OperationKind};
use vstd::prelude::*;

verus! {

// ---------------------------------------------------------------------------
// Repetition coalescing
// ---------------------------------------------------------------------------
/// The kinds whose repetitions merge into one operation.
pub open spec fn repeatable(kind: OperationKind) -> bool {
    kind == OperationKind::Add || kind == OperationKind::Sub || kind == OperationKind::Left || kind
        == OperationKind::Right || kind == OperationKind::Write || kind == OperationKind::SetZero
}

/// Whether `op` continues the run that `first` began: same kind, same
/// offset, and the argument of `first`.
pub open spec fn continues_run(first: Operation, op: Operation) -> bool {
    op.kind == first.kind && op.argument == first.argument && op.offset == first.offset
}

/// How many operations at the front of `operations` continue the run that
/// `first` began.
pub open spec fn run_tail(first: Operation, operations: Seq<Operation>) -> nat
    decreases operations.len(),
{
    if operations.len() > 0 && continues_run(first, operations[0]) {
        1 + run_tail(first, operations.skip(1))
    } else {
        0
    }
}

/// The length of the run at the front of a non-empty sequence. An operation
/// that is not repeatable is a run of its own.
pub open spec fn run_length(operations: Seq<Operation>) -> nat {
    if repeatable(operations[0].kind) {
        1 + run_tail(operations[0], operations.skip(1))
    } else {
        1
    }
}

/// The sum of the arguments of a sequence of operations.
pub open spec fn total_argument(operations: Seq<Operation>) -> nat
    decreases operations.len(),
{
    if operations.len() == 0 {
        0
    } else {
        total_argument(operations.drop_last()) + operations.last().argument as nat
    }
}

/// The one operation that a run becomes: it keeps the kind and offset of the
/// run, adds up the arguments, and spans the run's source range.
pub open spec fn merged(run: Seq<Operation>) -> Operation {
    Operation {
        kind: run[0].kind,
        argument: total_argument(run) as u32,
        offset: run[0].offset,
        start: run[0].start,
        end: run.last().end,
    }
}

/// Repetition coalescing: the sequence is cut into runs from the left, and
/// each run becomes one operation.
pub open spec fn coalesce(operations: Seq<Operation>) -> Seq<Operation>
    decreases operations.len(),
    via coalesce_terminates
{
    if operations.len() == 0 {
        Seq::empty()
    } else {
        let n = run_length(operations) as int;
        seq![merged(operations.take(n))] + coalesce(operations.skip(n))
    }
}

#[via_fn]
proof fn coalesce_terminates(operations: Seq<Operation>) {
    if operations.len() > 0 {
        lemma_run_length_bounds(operations);
    }
}

/// Whether the total of every run fits the argument of one operation.
pub open spec fn runs_fit(operations: Seq<Operation>) -> bool
    decreases operations.len(),
    via runs_fit_terminates
{
    operations.len() == 0 || {
        let n = run_length(operations) as int;
        total_argument(operations.take(n)) <= u32::MAX && runs_fit(operations.skip(n))
    }
}

#[via_fn]
proof fn runs_fit_terminates(operations: Seq<Operation>) {
    if operations.len() > 0 {
        lemma_run_length_bounds(operations);
    }
}

/// A run tail is no longer than the sequence it is counted in.
pub proof fn lemma_run_tail_bound(first: Operation, operations: Seq<Operation>)
    ensures
        run_tail(first, operations) <= operations.len(),
    decreases operations.len(),
{
    if operations.len() > 0 && continues_run(first, operations[0]) {
        lemma_run_tail_bound(first, operations.skip(1));
    }
}

/// Every operation within a run tail continues the run.
pub proof fn lemma_run_tail_continues(first: Operation, operations: Seq<Operation>, i: int)
    requires
        0 <= i < run_tail(first, operations),
    ensures
        i < operations.len(),
        continues_run(first, operations[i]),
    decreases operations.len(),
{
    if i > 0 {
        lemma_run_tail_continues(first, operations.skip(1), i - 1);
    }
}

/// The run at the front of a non-empty sequence has at least one operation
/// and lies within the sequence.
pub proof fn lemma_run_length_bounds(operations: Seq<Operation>)
    requires
        operations.len() > 0,
    ensures
        1 <= run_length(operations) <= operations.len(),
{
    lemma_run_tail_bound(operations[0], operations.skip(1));
}

/// The total of a prefix is at most the total of the whole.
pub proof fn lemma_total_argument_prefix(operations: Seq<Operation>, k: int)
    requires
        0 <= k <= operations.len(),
    ensures
        total_argument(operations.take(k)) <= total_argument(operations),
    decreases operations.len(),
{
    if k < operations.len() {
        lemma_total_argument_prefix(operations.drop_last(), k);
        assert(operations.drop_last().take(k) == operations.take(k));
    } else {
        assert(operations.take(k) == operations);
    }
}

/// The total of two sequences in a row is the sum of their totals.
pub proof fn lemma_total_argument_concat(first: Seq<Operation>, second: Seq<Operation>)
    ensures
        total_argument(first + second) == total_argument(first) + total_argument(second),
    decreases second.len(),
{
    if second.len() == 0 {
        assert(first + second == first);
    } else {
        lemma_total_argument_concat(first, second.drop_last());
        assert((first + second).drop_last() == first + second.drop_last());
    }
}

/// If the arguments of a whole sequence add up to no more than one argument
/// can hold, then so do the arguments of each of its runs.
pub proof fn runs_fit_within_total(operations: Seq<Operation>)
    requires
        total_argument(operations) <= u32::MAX,
    ensures
        runs_fit(operations),
    decreases operations.len(),
{
    if operations.len() > 0 {
        let n = run_length(operations) as int;
        lemma_run_length_bounds(operations);
        assert(operations == operations.take(n) + operations.skip(n));
        lemma_total_argument_concat(operations.take(n), operations.skip(n));
        runs_fit_within_total(operations.skip(n));
    }
}

/// Whether a sequence is a single run: it is not empty, its kind is
/// repeatable, and every operation has the kind, argument and offset of the
/// first.
pub open spec fn is_run(run: Seq<Operation>) -> bool {
    &&& run.len() > 0
    &&& repeatable(run[0].kind)
    &&& forall|i: int| 0 <= i < run.len() ==> continues_run(run[0], #[trigger] run[i])
}

/// The arguments of a run add up to the argument of one operation times the
/// length of the run.
pub proof fn lemma_run_total(run: Seq<Operation>)
    requires
        is_run(run),
    ensures
        total_argument(run) == run.len() * run[0].argument,
    decreases run.len(),
{
    let n = run.len() as int;
    let a = run[0].argument as int;
    if n > 1 {
        let shorter = run.drop_last();
        assert(is_run(shorter));
        lemma_run_total(shorter);
        assert(continues_run(run[0], run[n - 1]));
        assert(total_argument(run) == (n - 1) * a + a);
        assert((n - 1) * a + a == n * a) by (nonlinear_arith);
    } else {
        assert(run.drop_last() == Seq::<Operation>::empty());
        assert(total_argument(run.drop_last()) == 0);
        assert(total_argument(run) == a);
        assert(n * a == a) by (nonlinear_arith)
            requires
                n == 1,
        ;
    }
}

/// A stretch of operations that all continue the run of `first`, followed by
/// one that does not or by nothing, is a run tail of exactly its own length.
pub proof fn lemma_run_tail_of_stretch(first: Operation, stretch: Seq<Operation>, rest: Seq<Operation>)
    requires
        forall|i: int| 0 <= i < stretch.len() ==> continues_run(first, #[trigger] stretch[i]),
        rest.len() == 0 || !continues_run(first, rest[0]),
    ensures
        run_tail(first, stretch + rest) == stretch.len(),
    decreases stretch.len(),
{
    if stretch.len() == 0 {
        assert(stretch + rest == rest);
    } else {
        assert((stretch + rest)[0] == stretch[0]);
        assert((stretch + rest).skip(1) == stretch.skip(1) + rest);
        assert forall|i: int| 0 <= i < stretch.skip(1).len() implies continues_run(
            first,
            #[trigger] stretch.skip(1)[i],
        ) by {
            assert(stretch.skip(1)[i] == stretch[i + 1]);
        }
        lemma_run_tail_of_stretch(first, stretch.skip(1), rest);
    }
}

/// A run at the front of a sequence, followed by an operation that does not
/// continue it or by nothing, coalesces into one operation whose argument
/// is the sum of the arguments of the run; the rest coalesces on its own.
pub proof fn coalesce_leading_run(run: Seq<Operation>, rest: Seq<Operation>)
    requires
        is_run(run),
        rest.len() == 0 || !continues_run(run[0], rest[0]),
    ensures
        coalesce(run + rest) == seq![merged(run)] + coalesce(rest),
        total_argument(run) == run.len() * run[0].argument,
{
    let all = run + rest;
    assert(all[0] == run[0]);
    assert(all.skip(1) == run.skip(1) + rest);
    assert forall|i: int| 0 <= i < run.skip(1).len() implies continues_run(
        run[0],
        #[trigger] run.skip(1)[i],
    ) by {
        assert(run.skip(1)[i] == run[i + 1]);
    }
    lemma_run_tail_of_stretch(run[0], run.skip(1), rest);
    let n = run_length(all) as int;
    assert(n == run.len());
    assert(all.take(n) == run);
    assert(all.skip(n) == rest);
    lemma_run_total(run);
}

/// A sequence that is a single run coalesces into one operation.
pub proof fn coalesce_run(run: Seq<Operation>)
    requires
        is_run(run),
    ensures
        coalesce(run) == seq![merged(run)],
        total_argument(run) == run.len() * run[0].argument,
{
    let nothing = Seq::<Operation>::empty();
    coalesce_leading_run(run, nothing);
    assert(run + nothing == run);
    assert(coalesce(nothing) == nothing);
    assert(seq![merged(run)] + nothing == seq![merged(run)]);
}

fn is_repeatable(kind: OperationKind) -> (yes: bool)
    ensures
        yes == repeatable(kind),
{
    match kind {
        OperationKind::Add
        | OperationKind::Sub
        | OperationKind::Left
        | OperationKind::Right
        | OperationKind::Write
        | OperationKind::SetZero => true,
        _ => false,
    }
}

/// Merges every run of identical repeatable operations into one operation.
pub fn optimize_repetitions(operations: Vec<Operation>) -> (optimized: Vec<Operation>)
    requires
        runs_fit(operations@),
    ensures
        optimized@ == coalesce(operations@),
{
    let mut new_operations: Vec<Operation> = Vec::new();
    let mut i: usize = 0;
    proof {
        assert(operations@.skip(0) == operations@);
    }
    while i < operations.len()
        invariant
            i <= operations.len(),
            new_operations@ + coalesce(operations@.skip(i as int)) == coalesce(operations@),
            runs_fit(operations@.skip(i as int)),
        decreases operations.len() - i,
    {
        let op: Operation = operations[i];
        let ghost rest = operations@.skip(i as int);
        let ghost n = run_length(rest) as int;
        proof {
            lemma_run_length_bounds(rest);
        }
        let mut argument: u32 = op.argument;
        let mut end: usize = op.end;
        let mut j: usize = i + 1;
        proof {
            assert(operations@.subrange(i as int, j as int) == seq![op]);
            assert(seq![op].drop_last() == Seq::<Operation>::empty());
            assert(total_argument(seq![op].drop_last()) == 0);
            assert(total_argument(seq![op]) == op.argument);
            assert(rest.skip(1) == operations@.skip(j as int));
        }
        if is_repeatable(op.kind) {
            while j < operations.len() && operations[j].kind == op.kind && operations[j].argument
                == op.argument && operations[j].offset == op.offset
                invariant
                    i < j <= operations.len(),
                    op == operations@[i as int],
                    rest == operations@.skip(i as int),
                    n == run_length(rest),
                    repeatable(op.kind),
                    n == (j - i) + run_tail(op, operations@.skip(j as int)),
                    n <= rest.len(),
                    argument == total_argument(operations@.subrange(i as int, j as int)),
                    end == operations@[j - 1].end,
                    total_argument(rest.take(n)) <= u32::MAX,
                decreases operations.len() - j,
            {
                proof {
                    assert(operations@.skip(j as int).skip(1) == operations@.skip(j + 1));
                    assert(operations@.subrange(i as int, j + 1).drop_last() == operations@.subrange(
                        i as int,
                        j as int,
                    ));
                    lemma_total_argument_prefix(rest.take(n), j + 1 - i);
                    assert(rest.take(n).take(j + 1 - i) == operations@.subrange(i as int, j + 1));
                }
                argument += operations[j].argument;
                end = operations[j].end;
                j += 1;
            }
        }
        proof {
            assert(n == j - i);
            assert(rest.take(n) == operations@.subrange(i as int, j as int));
            assert(rest.skip(n) == operations@.skip(j as int));
            assert(coalesce(rest) == seq![merged(rest.take(n))] + coalesce(rest.skip(n)));
            let pushed = Operation {
                kind: op.kind,
                argument,
                offset: op.offset,
                start: op.start,
                end,
            };
            assert(merged(rest.take(n)) == pushed);
            assert(new_operations@.push(pushed) + coalesce(rest.skip(n)) == new_operations@ + (
            seq![pushed] + coalesce(rest.skip(n))));
        }
        new_operations.push(
            Operation { kind: op.kind, argument, offset: op.offset, start: op.start, end },
        );
        i = j;
    }
    proof {
        assert(operations@.skip(i as int) == Seq::<Operation>::empty());
    }
    new_operations
}

// ---------------------------------------------------------------------------
// Loop fusion
// ---------------------------------------------------------------------------
/// Whether `op` closes a loop whose whole body is the single addition or
/// subtraction that was buffered last.
pub open spec fn closes_counting_loop(buffer: Seq<Operation>, op: Operation) -> bool {
    &&& buffer.len() >= 2
    &&& op.kind == OperationKind::EndLoop
    &&& op.offset == 0
    &&& op.argument == 1
    &&& buffer[buffer.len() - 2].kind == OperationKind::BeginLoop
    &&& (buffer.last().kind == OperationKind::Add || buffer.last().kind == OperationKind::Sub)
}

/// The `SetZero` that replaces a counting loop opened by `begin` and closed
/// by `end`.
pub open spec fn set_zero_over(begin: Operation, end: Operation) -> Operation {
    Operation {
        kind: OperationKind::SetZero,
        argument: 1,
        offset: 0,
        start: begin.start,
        end: end.end,
    }
}

/// The output buffer of loop fusion after one more operation has arrived.
pub open spec fn fuse_step(buffer: Seq<Operation>, op: Operation) -> Seq<Operation> {
    if closes_counting_loop(buffer, op) {
        buffer.take(buffer.len() - 2).push(set_zero_over(buffer[buffer.len() - 2], op))
    } else {
        buffer.push(op)
    }
}

/// Loop fusion: a left-to-right scan in which every loop around a single
/// addition or subtraction collapses into one `SetZero`.
pub open spec fn fuse_loops(operations: Seq<Operation>) -> Seq<Operation>
    decreases operations.len(),
{
    if operations.len() == 0 {
        Seq::empty()
    } else {
        fuse_step(fuse_loops(operations.drop_last()), operations.last())
    }
}

/// A loop around a single addition or subtraction, whatever its step,
/// closed by a plain `EndLoop`, fuses into one `SetZero` that spans it.
pub proof fn fuse_counting_loop(begin: Operation, step: Operation, end: Operation)
    requires
        begin.kind == OperationKind::BeginLoop,
        step.kind == OperationKind::Add || step.kind == OperationKind::Sub,
        end.kind == OperationKind::EndLoop,
        end.offset == 0,
        end.argument == 1,
    ensures
        fuse_loops(seq![begin, step, end]) == seq![set_zero_over(begin, end)],
{
    let all = seq![begin, step, end];
    let two = seq![begin, step];
    let one = seq![begin];
    let none = Seq::<Operation>::empty();
    assert(all.drop_last() == two);
    assert(two.drop_last() == one);
    assert(one.drop_last() == none);
    assert(fuse_loops(none) == none);
    assert(fuse_loops(one) == one);
    assert(fuse_loops(two) == two);
    assert(two.take(0) == none);
}

/// Replaces every loop whose body is one addition or subtraction by a
/// `SetZero` that spans the loop.
pub fn optimize_loops(operations: Vec<Operation>) -> (optimized: Vec<Operation>)
    ensures
        optimized@ == fuse_loops(operations@),
{
    let mut new_operations: Vec<Operation> = Vec::new();
    let mut i: usize = 0;
    while i < operations.len()
        invariant
            i <= operations.len(),
            new_operations@ == fuse_loops(operations@.take(i as int)),
        decreases operations.len() - i,
    {
        let op: Operation = operations[i];
        let len: usize = new_operations.len();
        proof {
            assert(operations@.take(i + 1).drop_last() == operations@.take(i as int));
        }
        let mut fused: bool = false;
        if len > 1 && op.kind == OperationKind::EndLoop && op.offset == 0 && op.argument == 1 {
            let first_op: Operation = new_operations[len - 2];
            let second_op: Operation = new_operations[len - 1];
            if first_op.kind == OperationKind::BeginLoop && (second_op.kind == OperationKind::Add
                || second_op.kind == OperationKind::Sub) {
                new_operations.pop();
                new_operations.pop();
                new_operations.push(
                    Operation {
                        kind: OperationKind::SetZero,
                        argument: 1,
                        offset: 0,
                        start: first_op.start,
                        end: op.end,
                    },
                );
                fused = true;
            }
        }
        if !fused {
            new_operations.push(op);
        }
        i += 1;
    }
    proof {
        assert(operations@.take(i as int) == operations@);
    }
    new_operations
}

// ---------------------------------------------------------------------------
// Adjacent cancellation
// ---------------------------------------------------------------------------
/// The kind that undoes `kind`, for the four kinds that have one.
pub open spec fn opposite(kind: OperationKind) -> Option<OperationKind> {
    match kind {
        OperationKind::Add => Some(OperationKind::Sub),
        OperationKind::Sub => Some(OperationKind::Add),
        OperationKind::Left => Some(OperationKind::Right),
        OperationKind::Right => Some(OperationKind::Left),
        _ => None,
    }
}

/// Whether `op` works against `prev`: opposite kinds at the same offset.
pub open spec fn cancels(prev: Operation, op: Operation) -> bool {
    opposite(op.kind) == Some(prev.kind) && prev.offset == op.offset
}

/// What is left of `prev` followed by an `op` that works against it: the
/// stronger of the two with the difference of the arguments, or nothing when
/// they are equally strong.
pub open spec fn net_operation(prev: Operation, op: Operation) -> Option<Operation> {
    let net: int = prev.argument - op.argument;
    if net < 0 {
        Some(
            Operation {
                kind: op.kind,
                argument: (-net) as u32,
                offset: prev.offset,
                start: prev.start,
                end: op.end,
            },
        )
    } else if net > 0 {
        Some(
            Operation {
                kind: prev.kind,
                argument: net as u32,
                offset: prev.offset,
                start: prev.start,
                end: op.end,
            },
        )
    } else {
        None
    }
}

/// The output buffer of cancellation after one more operation has arrived.
pub open spec fn cancel_step(buffer: Seq<Operation>, op: Operation) -> Seq<Operation> {
    if buffer.len() > 0 && cancels(buffer.last(), op) {
        match net_operation(buffer.last(), op) {
            Some(merged) => buffer.drop_last().push(merged),
            None => buffer.drop_last(),
        }
    } else {
        buffer.push(op)
    }
}

/// Adjacent cancellation: a left-to-right scan in which each operation is
/// netted against the last buffered one when the two work against each other.
pub open spec fn cancel_adjacent(operations: Seq<Operation>) -> Seq<Operation>
    decreases operations.len(),
{
    if operations.len() == 0 {
        Seq::empty()
    } else {
        cancel_step(cancel_adjacent(operations.drop_last()), operations.last())
    }
}

/// Two operations that work against each other leave their net operation,
/// and nothing at all when their arguments are equal.
pub proof fn cancel_opposites(prev: Operation, op: Operation)
    requires
        cancels(prev, op),
    ensures
        cancel_adjacent(seq![prev, op]) == match net_operation(prev, op) {
            Some(net) => seq![net],
            None => Seq::<Operation>::empty(),
        },
        prev.argument == op.argument <==> net_operation(prev, op) is None,
{
    let two = seq![prev, op];
    let one = seq![prev];
    let none = Seq::<Operation>::empty();
    assert(two.drop_last() == one);
    assert(one.drop_last() == none);
    assert(cancel_adjacent(none) == none);
    assert(cancel_adjacent(one) == one);
    assert(one.drop_last().len() == 0);
}

/// The kind that undoes `kind`, if it has one.
fn opposite_kind(kind: OperationKind) -> (other: Option<OperationKind>)
    ensures
        other == opposite(kind),
{
    match kind {
        OperationKind::Add => Some(OperationKind::Sub),
        OperationKind::Sub => Some(OperationKind::Add),
        OperationKind::Left => Some(OperationKind::Right),
        OperationKind::Right => Some(OperationKind::Left),
        _ => None,
    }
}

/// Cancels adjacent additions against subtractions and adjacent moves left
/// against moves right.
pub fn optimize_adjacent_operations(program: Vec<Operation>) -> (optimized: Vec<Operation>)
    ensures
        optimized@ == cancel_adjacent(program@),
{
    let mut optimized: Vec<Operation> = Vec::new();
    let mut i: usize = 0;
    while i < program.len()
        invariant
            i <= program.len(),
            optimized@ == cancel_adjacent(program@.take(i as int)),
        decreases program.len() - i,
    {
        let op: Operation = program[i];
        let l: usize = optimized.len();
        proof {
            assert(program@.take(i + 1).drop_last() == program@.take(i as int));
        }
        let mut netted: bool = false;
        if l > 0 {
            let prev: Operation = optimized[l - 1];
            let against: bool = match opposite_kind(op.kind) {
                Some(kind) => kind == prev.kind,
                None => false,
            };
            if against && prev.offset == op.offset {
                optimized.pop();
                if prev.argument < op.argument {
                    optimized.push(
                        Operation {
                            kind: op.kind,
                            argument: op.argument - prev.argument,
                            offset: prev.offset,
                            start: prev.start,
                            end: op.end,
                        },
                    );
                } else if prev.argument > op.argument {
                    optimized.push(
                        Operation {
                            kind: prev.kind,
                            argument: prev.argument - op.argument,
                            offset: prev.offset,
                            start: prev.start,
                            end: op.end,
                        },
                    );
                }
                netted = true;
            }
        }
        if !netted {
            optimized.push(op);
        }
        i += 1;
    }
    proof {
        assert(program@.take(i as int) == program@);
    }
    optimized
}

// ---------------------------------------------------------------------------
// The whole optimizer
// ---------------------------------------------------------------------------
/// The optimized form of an operation sequence: coalescing, then loop
/// fusion, then cancellation.
pub open spec fn optimized(operations: Seq<Operation>) -> Seq<Operation> {
    cancel_adjacent(fuse_loops(coalesce(operations)))
}

/// Runs the three passes in their fixed order.
pub fn optimize(operations: Vec<Operation>) -> (result: Vec<Operation>)
    requires
        runs_fit(operations@),
    ensures
        result@ == optimized(operations@),
{
    let operations = optimize_repetitions(operations);
    let operations = optimize_loops(operations);
    optimize_adjacent_operations(operations)
}

} // verus!
