//! Tokens, the two operators and the error kinds of the pipeline.
use vstd::prelude::*;

verus! {

/// One of the two binary operators.
#[derive(Clone, Copy, Debug, PartialEq, Eq, Structural)]
pub enum Op {
    Plus,
    Minus,
}

/// One lexical unit of an expression.
#[derive(Clone, Copy, Debug, PartialEq, Eq, Structural)]
pub enum Token {
    /// A non-negative decimal literal.
    Number(i64),
    /// A `+` or a `-`.
    Operator(Op),
    /// The end of the input; always the last token.
    EndOfInput,
}

/// Why a translation failed.
#[derive(Clone, Copy, Debug, PartialEq, Eq, Structural)]
pub enum CompileError {
    /// A character that is neither a digit, an operator nor whitespace.
    UnrecognizedCharacter(char),
    /// The first token is not a number.
    MissingLeadingValue,
    /// A number follows something other than an operator.
    MissingOperator,
    /// A run of digits exceeds the range of `i64`.
    NumericOverflow,
}

impl Op {
    /// The character that spells the operator.
    pub open spec fn spec_symbol(self) -> char {
        match self {
            Op::Plus => '+',
            Op::Minus => '-',
        }
    }

    /// The character that spells the operator.
    pub fn symbol(&self) -> (r: char)
        ensures
            r == self.spec_symbol(),
    {
        match self {
            Op::Plus => '+',
            Op::Minus => '-',
        }
    }
}

/// `r` with `xs` put in front of its items, or `r`'s error.
pub open spec fn prepend<T>(xs: Seq<T>, r: Result<Seq<T>, CompileError>) -> Result<Seq<T>, CompileError> {
    match r {
        Ok(ys) => Ok(xs + ys),
        Err(e) => Err(e),
    }
}

/// A result with its vector viewed as a sequence.
pub open spec fn seq_result<T>(r: Result<Vec<T>, CompileError>) -> Result<Seq<T>, CompileError> {
    match r {
        Ok(v) => Ok(v@),
        Err(e) => Err(e),
    }
}

pub proof fn lemma_prepend_empty<T>(r: Result<Seq<T>, CompileError>)
    ensures
        prepend(Seq::<T>::empty(), r) == r,
{
    if let Ok(c) = r {
        assert(Seq::<T>::empty() + c =~= c);
    }
}

pub proof fn lemma_prepend_assoc<T>(a: Seq<T>, b: Seq<T>, r: Result<Seq<T>, CompileError>)
    ensures
        prepend(a, prepend(b, r)) == prepend(a + b, r),
{
    if let Ok(c) = r {
        assert(a + (b + c) =~= (a + b) + c);
    }
}

} // verus!
