//! From source text to routine in one call.

use crate::compiler::{compile, compiled, well_nested, CompileError, Program};
use crate::nesting::{compiled_iff_well_nested, optimizer_keeps_nesting};
use crate::instruction::Instruction;
use crate::optimizer::{optimize, optimized, runs_fit, runs_fit_within_total};
use crate::parser::{generate_program, lemma_parse_total, parse};
use crate::tokenizer::{lemma_lex_positions, lex, tokenize};
use vstd::prelude::*;

verus! {

/// What a source text compiles to: the routine of its optimized operations,
/// or the nesting error of its brackets.
pub open spec fn compiled_source(source: Seq<u8>) -> Result<Seq<Instruction>, CompileError> {
    compiled(optimized(parse(lex(source))))
}

/// A source text compiles exactly if its own brackets are well nested, and
/// otherwise fails with the error of its own brackets: optimizing neither
/// hides nor makes a nesting error.
pub proof fn source_error_is_bracket_error(source: Seq<u8>)
    ensures
        compiled_source(source) is Ok <==> well_nested(parse(lex(source))),
        compiled_source(source) is Err ==> compiled_source(source) == compiled(parse(lex(source))),
{
    optimizer_keeps_nesting(parse(lex(source)));
    compiled_iff_well_nested(parse(lex(source)));
    compiled_iff_well_nested(optimized(parse(lex(source))));
}

/// A source text of no more bytes than the argument of one operation can
/// count has no run that is too long to merge.
pub proof fn short_source_fits(source: Seq<u8>)
    requires
        source.len() <= u32::MAX,
    ensures
        runs_fit(parse(lex(source))),
{
    lemma_lex_positions(source);
    lemma_parse_total(lex(source));
    runs_fit_within_total(parse(lex(source)));
}

/// Lexes, parses, optimizes and compiles a source text.
pub fn compile_source(source: &[u8]) -> (result: Result<Program, CompileError>)
    requires
        source@.len() < usize::MAX,
        runs_fit(parse(lex(source@))),
    ensures
        match result {
            Ok(program) => compiled_source(source@) == Ok::<Seq<Instruction>, CompileError>(
                program@,
            ) && program.entry() == 0,
            Err(error) => compiled_source(source@) == Err::<Seq<Instruction>, CompileError>(error),
        },
{
    let tokens = tokenize(source);
    proof {
        lemma_lex_positions(source@);
    }
    let operations = generate_program(tokens.as_slice());
    let operations = optimize(operations);
    compile(operations.as_slice())
}

} // verus!
