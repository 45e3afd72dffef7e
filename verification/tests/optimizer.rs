use bfjit::operation::{Operation, OperationKind};
use bfjit::optimizer::{
    optimize, optimize_adjacent_operations, optimize_loops, optimize_repetitions,
};
use bfjit::parser::generate_program;
use bfjit::tokenizer::tokenize;

fn op(kind: OperationKind, argument: u32, offset: i32, start: usize, end: usize) -> Operation {
    Operation { kind, argument, offset, start, end }
}

fn parsed(source: &[u8]) -> Vec<Operation> {
    generate_program(&tokenize(source))
}

#[test]
fn test_optimize_repetitions() {
    let operations = generate_program(&tokenize(b"+++--<<<>>>"));
    let new_operations = optimize_repetitions(operations);

    assert!(new_operations == vec![
        Operation {
            kind: OperationKind::Add,
            argument: 3,
            offset: 0,
            start: 1,
            end: 4
        },
        Operation {
            kind: OperationKind::Sub,
            argument: 2,
            offset: 0,
            start: 4,
            end: 6
        },
        Operation {
            kind: OperationKind::Left,
            argument: 3,
            offset: 0,
            start: 6,
            end: 9
        },
        Operation {
            kind: OperationKind::Right,
            argument: 3,
            offset: 0,
            start: 9,
            end: 12
        },
    ]);
}

#[test]
fn test_optimize_loops() {
    let operations = generate_program(&tokenize(b"[-][+]"));
    let new_operations = optimize_loops(operations);

    assert!(new_operations == vec![
        Operation {
            kind: OperationKind::SetZero,
            argument: 1,
            offset: 0,
            start: 1,
            end: 4
        },
        Operation {
            kind: OperationKind::SetZero,
            argument: 1,
            offset: 0,
            start: 4,
            end: 7
        },
    ]);

    assert!(optimize_repetitions(new_operations) == vec![
        Operation {
            kind: OperationKind::SetZero,
            argument: 2,
            offset: 0,
            start: 1,
            end: 7
        }
    ]);
}

#[test]
fn repetitions_of_plus_and_minus_before_cancellation() {
    let coalesced = optimize_repetitions(parsed(b"+++--"));
    assert_eq!(
        coalesced,
        vec![op(OperationKind::Add, 3, 0, 1, 4), op(OperationKind::Sub, 2, 0, 4, 6)]
    );
}

#[test]
fn repetitions_sum_arguments_of_a_run() {
    let run = vec![
        op(OperationKind::Write, 4, 2, 10, 11),
        op(OperationKind::Write, 4, 2, 11, 12),
        op(OperationKind::Write, 4, 2, 12, 13),
    ];
    assert_eq!(optimize_repetitions(run), vec![op(OperationKind::Write, 12, 2, 10, 13)]);
}

#[test]
fn repetitions_run_is_broken_by_argument_of_first() {
    let operations = vec![
        op(OperationKind::Add, 1, 0, 0, 1),
        op(OperationKind::Add, 1, 0, 1, 2),
        op(OperationKind::Add, 2, 0, 2, 3),
        op(OperationKind::Add, 2, 0, 3, 4),
    ];
    assert_eq!(
        optimize_repetitions(operations),
        vec![op(OperationKind::Add, 2, 0, 0, 2), op(OperationKind::Add, 4, 0, 2, 4)]
    );
}

#[test]
fn repetitions_run_is_broken_by_offset() {
    let operations = vec![op(OperationKind::Sub, 1, 0, 0, 1), op(OperationKind::Sub, 1, 1, 1, 2)];
    assert_eq!(optimize_repetitions(operations.clone()), operations);
}

#[test]
fn repetitions_leave_reads_and_brackets_alone() {
    let operations = parsed(b",,[[]]");
    assert_eq!(optimize_repetitions(operations.clone()), operations);
}

#[test]
fn repetitions_of_nothing() {
    assert_eq!(optimize_repetitions(vec![]), vec![]);
}

#[test]
fn repetitions_reach_the_largest_argument() {
    let operations = vec![
        op(OperationKind::Right, u32::MAX / 3, 0, 0, 1),
        op(OperationKind::Right, u32::MAX / 3, 0, 1, 2),
        op(OperationKind::Right, u32::MAX / 3, 0, 2, 3),
    ];
    assert_eq!(optimize_repetitions(operations), vec![op(OperationKind::Right, u32::MAX, 0, 0, 3)]);
}

#[test]
fn loops_minus_becomes_set_zero() {
    assert_eq!(optimize_loops(parsed(b"[-]")), vec![op(OperationKind::SetZero, 1, 0, 1, 4)]);
}

#[test]
fn loops_plus_becomes_set_zero() {
    assert_eq!(optimize_loops(parsed(b"[+]")), vec![op(OperationKind::SetZero, 1, 0, 1, 4)]);
}

#[test]
fn loops_with_any_step_become_set_zero() {
    let operations = vec![
        op(OperationKind::BeginLoop, 1, 0, 1, 2),
        op(OperationKind::Sub, 7, 3, 2, 9),
        op(OperationKind::EndLoop, 1, 0, 9, 10),
    ];
    assert_eq!(optimize_loops(operations), vec![op(OperationKind::SetZero, 1, 0, 1, 10)]);
}

#[test]
fn loops_with_longer_body_stay() {
    let operations = parsed(b"[->]");
    assert_eq!(optimize_loops(operations.clone()), operations);
}

#[test]
fn loops_closed_at_an_offset_stay() {
    let operations = vec![
        op(OperationKind::BeginLoop, 1, 0, 1, 2),
        op(OperationKind::Add, 1, 0, 2, 3),
        op(OperationKind::EndLoop, 1, 1, 3, 4),
    ];
    assert_eq!(optimize_loops(operations.clone()), operations);
}

#[test]
fn loops_closed_with_another_argument_stay() {
    let operations = vec![
        op(OperationKind::BeginLoop, 1, 0, 1, 2),
        op(OperationKind::Add, 1, 0, 2, 3),
        op(OperationKind::EndLoop, 2, 0, 3, 4),
    ];
    assert_eq!(optimize_loops(operations.clone()), operations);
}

#[test]
fn loops_fuse_inside_an_outer_loop() {
    let fused = optimize_loops(parsed(b"[[-]]"));
    assert_eq!(
        fused,
        vec![
            op(OperationKind::BeginLoop, 1, 0, 1, 2),
            op(OperationKind::SetZero, 1, 0, 2, 5),
            op(OperationKind::EndLoop, 1, 0, 5, 6),
        ]
    );
}

#[test]
fn loops_unbalanced_input_passes() {
    let operations = parsed(b"]-]");
    assert_eq!(optimize_loops(operations.clone()), operations);
}

#[test]
fn adjacent_plus_minus_cancel() {
    assert_eq!(optimize(parsed(b"+-")), vec![]);
}

#[test]
fn adjacent_two_plus_two_minus_cancel() {
    assert_eq!(optimize(parsed(b"++--")), vec![]);
}

#[test]
fn adjacent_three_plus_two_minus_leave_one_plus() {
    assert_eq!(optimize(parsed(b"+++--")), vec![op(OperationKind::Add, 1, 0, 1, 6)]);
}

#[test]
fn adjacent_weaker_first_takes_kind_of_second() {
    let operations = vec![op(OperationKind::Left, 2, 0, 1, 3), op(OperationKind::Right, 5, 0, 3, 8)];
    assert_eq!(
        optimize_adjacent_operations(operations),
        vec![op(OperationKind::Right, 3, 0, 1, 8)]
    );
}

#[test]
fn adjacent_stronger_first_keeps_its_kind() {
    let operations = vec![op(OperationKind::Sub, 9, 4, 1, 3), op(OperationKind::Add, 5, 4, 3, 8)];
    assert_eq!(optimize_adjacent_operations(operations), vec![op(OperationKind::Sub, 4, 4, 1, 8)]);
}

#[test]
fn adjacent_different_offsets_do_not_cancel() {
    let operations = vec![op(OperationKind::Add, 1, 0, 1, 2), op(OperationKind::Sub, 1, 1, 2, 3)];
    assert_eq!(optimize_adjacent_operations(operations.clone()), operations);
}

#[test]
fn adjacent_same_kind_does_not_merge() {
    let operations = vec![op(OperationKind::Add, 1, 0, 1, 2), op(OperationKind::Add, 1, 0, 2, 3)];
    assert_eq!(optimize_adjacent_operations(operations.clone()), operations);
}

#[test]
fn adjacent_cancellation_cascades() {
    // +  >  <  -   : the moves cancel, then the subtraction meets the addition.
    let operations = parsed(b"+><-");
    assert_eq!(optimize_adjacent_operations(operations), vec![]);
}

#[test]
fn adjacent_large_arguments_do_not_overflow() {
    let operations =
        vec![op(OperationKind::Add, 0, 0, 1, 2), op(OperationKind::Sub, u32::MAX, 0, 2, 3)];
    assert_eq!(
        optimize_adjacent_operations(operations),
        vec![op(OperationKind::Sub, u32::MAX, 0, 1, 3)]
    );
    let operations =
        vec![op(OperationKind::Add, u32::MAX, 0, 1, 2), op(OperationKind::Sub, 0, 0, 2, 3)];
    assert_eq!(
        optimize_adjacent_operations(operations),
        vec![op(OperationKind::Add, u32::MAX, 0, 1, 3)]
    );
}

#[test]
fn adjacent_reads_writes_and_brackets_pass() {
    let operations = parsed(b",.[]");
    assert_eq!(optimize_adjacent_operations(operations.clone()), operations);
}

#[test]
fn optimize_runs_the_passes_in_order() {
    // Coalescing sees "++" and "--" before cancellation does.
    let result = optimize(parsed(b"++[-]--"));
    assert_eq!(
        result,
        vec![
            op(OperationKind::Add, 2, 0, 1, 3),
            op(OperationKind::SetZero, 1, 0, 3, 6),
            op(OperationKind::Sub, 2, 0, 6, 8),
        ]
    );
}

#[test]
fn optimize_does_not_coalesce_fused_loops() {
    // Fusion comes after coalescing, so the two SetZero stay apart.
    let result = optimize(parsed(b"[-][+]"));
    assert_eq!(
        result,
        vec![op(OperationKind::SetZero, 1, 0, 1, 4), op(OperationKind::SetZero, 1, 0, 4, 7)]
    );
}

#[test]
fn optimize_twice_is_once_on_a_settled_result() {
    let once = optimize(parsed(b"+++--<<<>>>>[-]..,[>+<-]"));
    let twice = optimize(once.clone());
    assert_eq!(twice, once);
}

#[test]
fn optimize_twice_differs_where_cancellation_exposes_a_run() {
    let once = optimize(parsed(b"+><+"));
    assert_eq!(
        once,
        vec![op(OperationKind::Add, 1, 0, 1, 2), op(OperationKind::Add, 1, 0, 4, 5)]
    );
    let twice = optimize(once);
    assert_eq!(twice, vec![op(OperationKind::Add, 2, 0, 1, 5)]);
}

#[test]
fn optimize_empty() {
    assert_eq!(optimize(vec![]), vec![]);
}

#[test]
fn optimize_never_lengthens() {
    let sources: [&[u8]; 5] = [b"", b"+-+-", b"[[[]]]", b"]>+<[", b"++>+++++[<+>-]<."];
    for source in sources {
        let operations = parsed(source);
        let n = operations.len();
        assert!(optimize(operations).len() <= n);
    }
}
