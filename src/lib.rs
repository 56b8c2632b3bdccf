//! Translation of flat `+`/`-` integer expressions into an accumulator program.
//!
//! The pipeline has two verified stages: [`scanner::tokenize`] turns text into
//! tokens and [`emitter::emit`] turns tokens into instructions, which
//! [`listing::render`] spells as assembly text.
use vstd::prelude::*;

pub mod emitter;
pub mod laws;
pub mod listing;
pub mod machine;
pub mod scanner;
pub mod token;

use crate::emitter::{emit, emit_spec, Instruction};
use crate::listing::{listing, render};
use crate::scanner::{scan, tokenize};
use crate::token::{seq_result, CompileError};

verus! {

/// The instructions for the text `s`: its tokens, then their translation.
pub open spec fn compile_spec(s: Seq<char>) -> Result<Seq<Instruction>, CompileError> {
    match scan(s) {
        Ok(toks) => emit_spec(toks),
        Err(e) => Err(e),
    }
}

/// Scans `input` and translates its tokens; the first failure of either
/// stage is the result.
pub fn compile(input: &str) -> (r: Result<Vec<Instruction>, CompileError>)
    ensures
        seq_result(r) == compile_spec(input@),
{
    let tokens = tokenize(input)?;
    emit(&tokens)
}

/// The assembly listing for the text `input`, or the first failure.
pub fn translate(input: &str) -> (r: Result<String, CompileError>)
    ensures
        match compile_spec(input@) {
            Ok(p) => r is Ok && r->Ok_0@ == listing(p),
            Err(e) => r == Err::<String, CompileError>(e),
        },
{
    let program = compile(input)?;
    Ok(render(&program))
}

} // verus!
