//! A compiler for a minimal tape language with eight one-byte instructions.
//!
//! Source bytes are lexed into tokens, tokens become operations, operations
//! are shrunk by three peephole passes, and the result is lowered to a
//! routine of primitive instructions with resolved loop labels, which a
//! back end turns into machine code.
//!
//! - `token`, `tokenizer`: the lexer.
//! - `operation`, `parser`: the intermediate form and the parser.
//! - `optimizer`: the three passes; `normal_form`: their fixed points.
//! - `instruction`, `compiler`: routines, the code generator, the tape.
//! - `nesting`, `labels`, `pointer`, `io_trace`: what holds of every
//!   routine and of the optimizer's effect on it.
//! - `pipeline`: all stages in one call.

pub mod compiler;
pub mod instruction;
pub mod io_trace;
pub mod labels;
pub mod nesting;
pub mod normal_form;
pub mod operation;
pub mod optimizer;
pub mod parser;
pub mod pipeline;
pub mod pointer;
pub mod token;
pub mod tokenizer;
