use bfjit::compiler::{compile, CompileError, Program, State, SUCCESS, TAPE_SIZE};
use bfjit::instruction::{Instruction, Label};
use bfjit::operation::{Operation, OperationKind};
use bfjit::optimizer::optimize;
use bfjit::parser::generate_program;
use bfjit::pipeline::compile_source;
use bfjit::tokenizer::tokenize;

fn op(kind: OperationKind, argument: u32, offset: i32) -> Operation {
    Operation { kind, argument, offset, start: 0, end: 0 }
}

fn code_of(operations: &[Operation]) -> Vec<Instruction> {
    match compile(operations) {
        Ok(program) => {
            assert_eq!(program.start(), 0);
            program.instructions().to_vec()
        }
        Err(error) => panic!("{:?}", error),
    }
}

fn error_of(operations: &[Operation]) -> CompileError {
    match compile(operations) {
        Ok(_) => panic!("compiled"),
        Err(error) => error,
    }
}

const DONE: Instruction = Instruction::Return { status: 0 };

#[test]
fn status_zero_is_the_only_success() {
    assert_eq!(SUCCESS, 0);
    assert!(Program::succeeded(0));
    for status in 1..=255u8 {
        assert!(!Program::succeeded(status));
    }
}

#[test]
fn errors_have_their_texts() {
    assert_eq!(CompileError::UnmatchedEndLoop.message(), "] without matching [");
    assert_eq!(CompileError::UnmatchedBeginLoop.message(), "[ without matching ]");
}

#[test]
fn routine_ends_in_its_only_return() {
    let operations = generate_program(&tokenize(b"+[>,.<-].."));
    let code = code_of(&operations);
    let returns = code.iter().filter(|i| matches!(i, Instruction::Return { .. })).count();
    assert_eq!(returns, 1);
    assert_eq!(code[code.len() - 1], DONE);
}

#[test]
fn optimizing_keeps_reads_and_writes() {
    let source = b"..,+-..[-],>.<.";
    let plain: Vec<Instruction> = code_of(&generate_program(&tokenize(source)))
        .into_iter()
        .filter(|i| matches!(i, Instruction::ReadByte { .. } | Instruction::WriteByte { .. }))
        .collect();
    let better: Vec<Instruction> = code_of(&optimize(generate_program(&tokenize(source))))
        .into_iter()
        .filter(|i| matches!(i, Instruction::ReadByte { .. } | Instruction::WriteByte { .. }))
        .collect();
    assert_eq!(plain, better);
    assert_eq!(plain.len(), 8);
}

#[test]
fn labels_are_marked_once_and_jumps_land() {
    let operations = generate_program(&tokenize(b"[[+]>[-[.]]<]+[,]"));
    let code = code_of(&operations);
    let marked: Vec<Label> = code
        .iter()
        .filter_map(|i| match i {
            Instruction::Mark { label } => Some(*label),
            _ => None,
        })
        .collect();
    for (at, label) in marked.iter().enumerate() {
        assert!(!marked[..at].contains(label));
    }
    for instruction in &code {
        match instruction {
            Instruction::JumpIfZero { target, .. } | Instruction::JumpIfNotZero { target, .. } => {
                assert!(marked.contains(target));
            }
            _ => {}
        }
    }
    assert_eq!(marked.len(), 10);
}

#[test]
fn state_is_zeroed() {
    let state = State::new();
    assert_eq!(state.tape().len(), 30000);
    assert_eq!(TAPE_SIZE, 30000);
    assert!(state.tape().iter().all(|&cell| cell == 0));
}

#[test]
fn state_hands_out_its_cells() {
    let mut state = State::new();
    state.tape_mut()[3] = 9;
    assert_eq!(state.tape()[3], 9);
    assert_eq!(state.tape()[2], 0);
}

#[test]
fn compile_empty_returns_success() {
    assert_eq!(code_of(&[]), vec![DONE]);
}

#[test]
fn compile_lone_begin_loop_fails() {
    assert_eq!(error_of(&[op(OperationKind::BeginLoop, 1, 0)]), CompileError::UnmatchedBeginLoop);
}

#[test]
fn compile_lone_end_loop_fails() {
    assert_eq!(error_of(&[op(OperationKind::EndLoop, 1, 0)]), CompileError::UnmatchedEndLoop);
}

#[test]
fn compile_end_before_begin_reports_the_end() {
    let operations = generate_program(&tokenize(b"]["));
    assert_eq!(error_of(&operations), CompileError::UnmatchedEndLoop);
}

#[test]
fn compile_reports_open_loop_after_the_whole_sequence() {
    let operations = generate_program(&tokenize(b"[[]+"));
    assert_eq!(error_of(&operations), CompileError::UnmatchedBeginLoop);
}

#[test]
fn compile_unmatched_end_wins_over_open_loop() {
    let operations = generate_program(&tokenize(b"[]]["));
    assert_eq!(error_of(&operations), CompileError::UnmatchedEndLoop);
}

#[test]
fn compile_deeply_nested_loops() {
    let depth = 500;
    let mut source = vec![b'['; depth];
    source.extend(vec![b']'; depth]);
    let operations = generate_program(&tokenize(&source));
    let code = code_of(&operations);
    assert_eq!(code.len(), 4 * depth + 1);
    // The innermost loop is the last one opened and the first one closed.
    assert_eq!(
        code[2 * depth - 2],
        Instruction::JumpIfZero { offset: 0, target: Label::Forward(depth - 1) }
    );
    assert_eq!(code[2 * depth - 1], Instruction::Mark { label: Label::Backward(depth - 1) });
    assert_eq!(
        code[2 * depth],
        Instruction::JumpIfNotZero { offset: 0, target: Label::Backward(depth - 1) }
    );
    assert_eq!(code[2 * depth + 1], Instruction::Mark { label: Label::Forward(depth - 1) });
    assert_eq!(
        code[4 * depth - 2],
        Instruction::JumpIfNotZero { offset: 0, target: Label::Backward(0) }
    );
    assert_eq!(code[4 * depth - 1], Instruction::Mark { label: Label::Forward(0) });
}

#[test]
fn compile_loops_in_a_row_and_nested() {
    // [ [ ] ] [ ]
    let operations = generate_program(&tokenize(b"[[]][]"));
    assert_eq!(
        code_of(&operations),
        vec![
            Instruction::JumpIfZero { offset: 0, target: Label::Forward(0) },
            Instruction::Mark { label: Label::Backward(0) },
            Instruction::JumpIfZero { offset: 0, target: Label::Forward(1) },
            Instruction::Mark { label: Label::Backward(1) },
            Instruction::JumpIfNotZero { offset: 0, target: Label::Backward(1) },
            Instruction::Mark { label: Label::Forward(1) },
            Instruction::JumpIfNotZero { offset: 0, target: Label::Backward(0) },
            Instruction::Mark { label: Label::Forward(0) },
            Instruction::JumpIfZero { offset: 0, target: Label::Forward(2) },
            Instruction::Mark { label: Label::Backward(2) },
            Instruction::JumpIfNotZero { offset: 0, target: Label::Backward(2) },
            Instruction::Mark { label: Label::Forward(2) },
            DONE,
        ]
    );
}

#[test]
fn compile_loop_tests_use_the_offset() {
    let operations = [op(OperationKind::BeginLoop, 1, 3), op(OperationKind::EndLoop, 1, -2)];
    assert_eq!(
        code_of(&operations),
        vec![
            Instruction::JumpIfZero { offset: 3, target: Label::Forward(0) },
            Instruction::Mark { label: Label::Backward(0) },
            Instruction::JumpIfNotZero { offset: -2, target: Label::Backward(0) },
            Instruction::Mark { label: Label::Forward(0) },
            DONE,
        ]
    );
}

#[test]
fn compile_add_and_sub_by_one_use_the_single_step() {
    assert_eq!(
        code_of(&[op(OperationKind::Add, 1, 0), op(OperationKind::Sub, 1, 4)]),
        vec![Instruction::Increment { offset: 0 }, Instruction::Decrement { offset: 4 }, DONE]
    );
}

#[test]
fn compile_add_and_sub_by_more_use_the_immediate() {
    assert_eq!(
        code_of(&[op(OperationKind::Add, 5, -1), op(OperationKind::Sub, 255, 0)]),
        vec![
            Instruction::AddByte { offset: -1, amount: 5 },
            Instruction::SubByte { offset: 0, amount: 255 },
            DONE,
        ]
    );
}

#[test]
fn compile_add_wraps_at_byte_width() {
    assert_eq!(
        code_of(&[
            op(OperationKind::Add, 300, 0),
            op(OperationKind::Sub, 256, 0),
            op(OperationKind::Add, 257, 0),
            op(OperationKind::Add, 0, 0),
        ]),
        vec![
            Instruction::AddByte { offset: 0, amount: 44 },
            Instruction::SubByte { offset: 0, amount: 0 },
            Instruction::AddByte { offset: 0, amount: 1 },
            Instruction::AddByte { offset: 0, amount: 0 },
            DONE,
        ]
    );
}

#[test]
fn compile_short_moves_have_no_correction() {
    assert_eq!(
        code_of(&[op(OperationKind::Right, 5, 0), op(OperationKind::Left, 29999, 0)]),
        vec![Instruction::Advance { cells: 5 }, Instruction::Retreat { cells: 29999 }, DONE]
    );
}

#[test]
fn compile_move_by_one_tape_has_no_correction() {
    assert_eq!(
        code_of(&[op(OperationKind::Right, 30000, 0), op(OperationKind::Left, 30000, 0)]),
        vec![Instruction::Advance { cells: 0 }, Instruction::Retreat { cells: 0 }, DONE]
    );
}

#[test]
fn compile_move_right_past_the_tape_wraps() {
    let long = code_of(&[op(OperationKind::Right, TAPE_SIZE as u32 + 5, 0)]);
    let short = code_of(&[op(OperationKind::Right, 5, 0)]);
    assert_eq!(long, vec![Instruction::Advance { cells: 5 }, Instruction::WrapAtEnd, DONE]);
    assert_eq!(short, vec![Instruction::Advance { cells: 5 }, DONE]);
    assert_eq!(long[0], short[0]);
}

#[test]
fn compile_move_left_past_the_tape_wraps() {
    assert_eq!(
        code_of(&[op(OperationKind::Left, 70001, 0)]),
        vec![Instruction::Retreat { cells: 10001 }, Instruction::WrapAtStart, DONE]
    );
}

#[test]
fn compile_read_is_one_input_operation() {
    assert_eq!(
        code_of(&[op(OperationKind::Read, 1, 2), op(OperationKind::Read, 9, 0)]),
        vec![Instruction::ReadByte { offset: 2 }, Instruction::ReadByte { offset: 0 }, DONE]
    );
}

#[test]
fn compile_write_is_one_output_operation_per_unit() {
    assert_eq!(
        code_of(&[op(OperationKind::Write, 3, -7)]),
        vec![
            Instruction::WriteByte { offset: -7 },
            Instruction::WriteByte { offset: -7 },
            Instruction::WriteByte { offset: -7 },
            DONE,
        ]
    );
    assert_eq!(code_of(&[op(OperationKind::Write, 0, 0)]), vec![DONE]);
}

#[test]
fn compile_set_zero_stores_zero() {
    assert_eq!(
        code_of(&[op(OperationKind::SetZero, 2, 6)]),
        vec![Instruction::StoreZero { offset: 6 }, DONE]
    );
}

#[test]
fn optimizing_keeps_the_nesting_error() {
    let sources: [&[u8]; 4] = [b"[-]]", b"[[-]", b"+-]", b"[+-"];
    for source in sources {
        let plain = generate_program(&tokenize(source));
        let expected = error_of(&plain);
        assert_eq!(error_of(&optimize(plain)), expected);
    }
}

#[test]
fn source_transfer_loop_writes_once() {
    let program = match compile_source(b"++>+++++[<+>-]<.") {
        Ok(program) => program,
        Err(error) => panic!("{:?}", error),
    };
    let code = program.instructions().to_vec();
    assert_eq!(
        code,
        vec![
            Instruction::AddByte { offset: 0, amount: 2 },
            Instruction::Advance { cells: 1 },
            Instruction::AddByte { offset: 0, amount: 5 },
            Instruction::JumpIfZero { offset: 0, target: Label::Forward(0) },
            Instruction::Mark { label: Label::Backward(0) },
            Instruction::Retreat { cells: 1 },
            Instruction::Increment { offset: 0 },
            Instruction::Advance { cells: 1 },
            Instruction::Decrement { offset: 0 },
            Instruction::JumpIfNotZero { offset: 0, target: Label::Backward(0) },
            Instruction::Mark { label: Label::Forward(0) },
            Instruction::Retreat { cells: 1 },
            Instruction::WriteByte { offset: 0 },
            DONE,
        ]
    );
    let writes = code.iter().filter(|i| matches!(i, Instruction::WriteByte { .. })).count();
    let reads = code.iter().filter(|i| matches!(i, Instruction::ReadByte { .. })).count();
    assert_eq!(writes, 1);
    assert_eq!(reads, 0);
}

#[test]
fn source_copy_reads_once_and_writes_once() {
    let program = match compile_source(b",.") {
        Ok(program) => program,
        Err(error) => panic!("{:?}", error),
    };
    assert_eq!(
        program.instructions().to_vec(),
        vec![Instruction::ReadByte { offset: 0 }, Instruction::WriteByte { offset: 0 }, DONE]
    );
}

#[test]
fn source_empty_does_no_input_or_output() {
    let program = match compile_source(b"") {
        Ok(program) => program,
        Err(error) => panic!("{:?}", error),
    };
    assert_eq!(program.instructions().to_vec(), vec![DONE]);
    assert_eq!(program.start(), 0);
}

#[test]
fn source_with_unmatched_brackets_fails() {
    assert!(matches!(compile_source(b"["), Err(CompileError::UnmatchedBeginLoop)));
    assert!(matches!(compile_source(b"]"), Err(CompileError::UnmatchedEndLoop)));
    assert!(matches!(compile_source(b"+[-]]"), Err(CompileError::UnmatchedEndLoop)));
}

#[test]
fn source_counting_loop_becomes_a_store() {
    let program = match compile_source(b"[-]") {
        Ok(program) => program,
        Err(error) => panic!("{:?}", error),
    };
    assert_eq!(
        program.instructions().to_vec(),
        vec![Instruction::StoreZero { offset: 0 }, DONE]
    );
}
