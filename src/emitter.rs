//! The emitter: tokens to accumulator instructions.
use vstd::prelude::*;
use crate::token::{
    lemma_prepend_assoc, lemma_prepend_empty, prepend, seq_result, CompileError, Op, Token,
};

verus! {

/// One operation on the accumulator.
#[derive(Clone, Copy, Debug, PartialEq, Eq, Structural)]
pub enum Instruction {
    /// Sets the accumulator; only ever the first instruction.
    LoadImmediate(i64),
    AddImmediate(i64),
    SubtractImmediate(i64),
    /// Ends the program with the accumulator as its value.
    Return,
}

/// The instructions for the tokens `rest`, where `prev` is the token just
/// before them. A number takes its operation from the token right before it.
pub open spec fn emit_tail(prev: Token, rest: Seq<Token>) -> Result<Seq<Instruction>, CompileError>
    decreases rest.len(),
{
    if rest.len() == 0 {
        Ok(seq![])
    } else {
        match rest[0] {
            Token::EndOfInput => Ok(seq![Instruction::Return]),
            Token::Operator(_) => emit_tail(rest[0], rest.drop_first()),
            Token::Number(v) => match prev {
                Token::Operator(Op::Plus) => prepend(
                    seq![Instruction::AddImmediate(v)],
                    emit_tail(rest[0], rest.drop_first()),
                ),
                Token::Operator(Op::Minus) => prepend(
                    seq![Instruction::SubtractImmediate(v)],
                    emit_tail(rest[0], rest.drop_first()),
                ),
                _ => Err(CompileError::MissingOperator),
            },
        }
    }
}

/// The instructions for a token sequence: a load of the leading number, then
/// one operation per later number, up to the return at the end marker.
pub open spec fn emit_spec(toks: Seq<Token>) -> Result<Seq<Instruction>, CompileError> {
    if toks.len() > 0 && toks[0] is Number {
        prepend(
            seq![Instruction::LoadImmediate(toks[0]->Number_0)],
            emit_tail(toks[0], toks.drop_first()),
        )
    } else {
        Err(CompileError::MissingLeadingValue)
    }
}

/// Translates tokens into instructions in one left-to-right pass.
pub fn emit(tokens: &Vec<Token>) -> (r: Result<Vec<Instruction>, CompileError>)
    ensures
        seq_result(r) == emit_spec(tokens@),
{
    if tokens.len() == 0 {
        return Err(CompileError::MissingLeadingValue);
    }
    let first = tokens[0];
    let lead = match first {
        Token::Number(v) => v,
        _ => {
            return Err(CompileError::MissingLeadingValue);
        },
    };
    let mut out: Vec<Instruction> = Vec::new();
    out.push(Instruction::LoadImmediate(lead));
    assert(out@ =~= seq![Instruction::LoadImmediate(lead)]);
    let mut i: usize = 1;
    assert(tokens@.skip(1) =~= tokens@.drop_first());
    while i < tokens.len()
        invariant
            1 <= i <= tokens.len(),
            emit_spec(tokens@) == prepend(out@, emit_tail(tokens@[i - 1], tokens@.skip(i as int))),
        decreases tokens.len() - i,
    {
        let t = tokens[i];
        let prev = tokens[i - 1];
        let ghost rest = tokens@.skip(i as int);
        assert(rest[0] == t);
        assert(rest.drop_first() =~= tokens@.skip(i + 1));
        let ghost before = out@;
        match t {
            Token::EndOfInput => {
                out.push(Instruction::Return);
                assert(out@ =~= before + seq![Instruction::Return]);
                return Ok(out);
            },
            Token::Operator(_) => {},
            Token::Number(v) => {
                let ins = match prev {
                    Token::Operator(Op::Plus) => Instruction::AddImmediate(v),
                    Token::Operator(Op::Minus) => Instruction::SubtractImmediate(v),
                    _ => {
                        return Err(CompileError::MissingOperator);
                    },
                };
                proof {
                    lemma_prepend_assoc(before, seq![ins], emit_tail(t, tokens@.skip(i + 1)));
                }
                out.push(ins);
                assert(out@ =~= before + seq![ins]);
            },
        }
        i = i + 1;
    }
    assert(tokens@.skip(i as int) =~= Seq::<Token>::empty());
    proof {
        lemma_prepend_empty(Ok::<Seq<Instruction>, CompileError>(seq![]));
    }
    assert(out@ + Seq::<Instruction>::empty() =~= out@);
    Ok(out)
}

} // verus!
