//! The scanner: text to tokens.
use vstd::prelude::*;
use crate::token::{
    lemma_prepend_assoc, lemma_prepend_empty, prepend, seq_result, CompileError, Op, Token,
};

verus! {

/// The whitespace that separates tokens.
pub open spec fn is_space(c: char) -> bool {
    c == ' ' || c == '\t' || c == '\n'
}

pub open spec fn is_digit(c: char) -> bool {
    '0' <= c && c <= '9'
}

pub open spec fn digit_value(c: char) -> int {
    c as int - '0' as int
}

pub open spec fn all_digits(d: Seq<char>) -> bool {
    forall|k: int| 0 <= k < d.len() ==> is_digit(#[trigger] d[k])
}

/// The number that a run of decimal digits spells, most significant first.
pub open spec fn digits_value(d: Seq<char>) -> int
    decreases d.len(),
{
    if d.len() == 0 {
        0
    } else {
        10 * digits_value(d.drop_last()) + digit_value(d.last())
    }
}

/// How many digits `s` starts with.
pub open spec fn digit_run(s: Seq<char>) -> nat
    decreases s.len(),
{
    if s.len() > 0 && is_digit(s[0]) {
        1 + digit_run(s.drop_first())
    } else {
        0
    }
}

/// The tokens of `s`, scanned left to right, or the first failure.
pub open spec fn scan(s: Seq<char>) -> Result<Seq<Token>, CompileError>
    decreases s.len(),
    via scan_decreases
{
    if s.len() == 0 {
        Ok(seq![Token::EndOfInput])
    } else if is_space(s[0]) {
        scan(s.drop_first())
    } else if s[0] == '+' {
        prepend(seq![Token::Operator(Op::Plus)], scan(s.drop_first()))
    } else if s[0] == '-' {
        prepend(seq![Token::Operator(Op::Minus)], scan(s.drop_first()))
    } else if is_digit(s[0]) {
        let n = digit_run(s);
        let v = digits_value(s.take(n as int));
        if v > i64::MAX {
            Err(CompileError::NumericOverflow)
        } else {
            prepend(seq![Token::Number(v as i64)], scan(s.skip(n as int)))
        }
    } else {
        Err(CompileError::UnrecognizedCharacter(s[0]))
    }
}

pub fn is_space_char(c: char) -> (r: bool)
    ensures
        r == is_space(c),
{
    c == ' ' || c == '\t' || c == '\n'
}

pub fn is_digit_char(c: char) -> (r: bool)
    ensures
        r == is_digit(c),
{
    '0' <= c && c <= '9'
}

/// Splits `input` into tokens: numbers, operators and a final end marker.
/// Whitespace separates tokens and is dropped. The first character that is
/// none of these, or a run of digits too large for `i64`, fails the scan.
pub fn tokenize(input: &str) -> (r: Result<Vec<Token>, CompileError>)
    ensures
        seq_result(r) == scan(input@),
{
    let n = input.unicode_len();
    let mut tokens: Vec<Token> = Vec::new();
    let mut i: usize = 0;
    assert(input@.skip(0) =~= input@);
    proof {
        lemma_prepend_empty(scan(input@));
    }
    while i < n
        invariant
            n == input@.len(),
            i <= n,
            scan(input@) == prepend(tokens@, scan(input@.skip(i as int))),
        decreases n - i,
    {
        let c = input.get_char(i);
        let ghost rest = input@.skip(i as int);
        assert(rest[0] == c);
        assert(rest.drop_first() =~= input@.skip(i + 1));
        if is_space_char(c) {
            i = i + 1;
        } else if c == '+' || c == '-' {
            let op = if c == '+' {
                Op::Plus
            } else {
                Op::Minus
            };
            proof {
                lemma_prepend_assoc(tokens@, seq![Token::Operator(op)], scan(input@.skip(i + 1)));
            }
            assert(scan(rest) == prepend(seq![Token::Operator(op)], scan(input@.skip(i + 1))));
            let ghost before = tokens@;
            tokens.push(Token::Operator(op));
            assert(tokens@ =~= before + seq![Token::Operator(op)]);
            i = i + 1;
        } else if is_digit_char(c) {
            let start = i;
            let mut v: i64 = 0;
            let mut fits = true;
            while i < n && is_digit_char(input.get_char(i))
                invariant
                    n == input@.len(),
                    start <= i <= n,
                    start < n,
                    is_digit(input@[start as int]),
                    scan(input@) == prepend(tokens@, scan(input@.skip(start as int))),
                    forall|k: int| start <= k < i ==> is_digit(#[trigger] input@[k]),
                    fits ==> v == digits_value(input@.subrange(start as int, i as int)),
                    !fits ==> digits_value(input@.subrange(start as int, i as int)) > i64::MAX,
                decreases n - i,
            {
                let d = input.get_char(i);
                let ghost prev = input@.subrange(start as int, i as int);
                let ghost next = input@.subrange(start as int, i + 1);
                assert(next.drop_last() =~= prev);
                assert(all_digits(prev));
                proof {
                    lemma_digits_value_nonneg(prev);
                }
                if fits {
                    let w: i128 = v as i128 * 10 + (d as u32 - '0' as u32) as i128;
                    if w <= i64::MAX as i128 {
                        v = w as i64;
                    } else {
                        fits = false;
                    }
                }
                i = i + 1;
            }
            let ghost t = input@.skip(start as int);
            let ghost m = (i - start) as int;
            assert(t.take(m) =~= input@.subrange(start as int, i as int));
            assert(t.skip(m) =~= input@.skip(i as int));
            assert(t[0] == input@[start as int]);
            proof {
                lemma_digit_run_exact(t, m);
            }
            if !fits {
                return Err(CompileError::NumericOverflow);
            }
            assert(digits_value(t.take(m)) == v);
            assert(scan(t) == prepend(seq![Token::Number(v)], scan(input@.skip(i as int))));
            proof {
                lemma_prepend_assoc(tokens@, seq![Token::Number(v)], scan(input@.skip(i as int)));
            }
            let ghost before = tokens@;
            tokens.push(Token::Number(v));
            assert(tokens@ =~= before + seq![Token::Number(v)]);
        } else {
            return Err(CompileError::UnrecognizedCharacter(c));
        }
    }
    assert(input@.skip(i as int) =~= Seq::<char>::empty());
    let ghost before = tokens@;
    tokens.push(Token::EndOfInput);
    assert(tokens@ =~= before + seq![Token::EndOfInput]);
    Ok(tokens)
}

pub proof fn lemma_digits_value_nonneg(d: Seq<char>)
    requires
        all_digits(d),
    ensures
        digits_value(d) >= 0,
    decreases d.len(),
{
    if d.len() > 0 {
        assert(is_digit(d[d.len() - 1]));
        assert(all_digits(d.drop_last()));
        lemma_digits_value_nonneg(d.drop_last());
    }
}

/// The digit run of `s` is made of digits and ends at a non-digit or at the end.
pub proof fn lemma_digit_run_shape(s: Seq<char>)
    ensures
        digit_run(s) <= s.len(),
        forall|k: int| 0 <= k < digit_run(s) ==> is_digit(#[trigger] s[k]),
        digit_run(s) < s.len() ==> !is_digit(s[digit_run(s) as int]),
    decreases s.len(),
{
    if s.len() > 0 && is_digit(s[0]) {
        let u = s.drop_first();
        lemma_digit_run_shape(u);
        assert forall|k: int| 0 <= k < digit_run(s) implies is_digit(#[trigger] s[k]) by {
            if k > 0 {
                assert(s[k] == u[k - 1]);
            }
        }
        if digit_run(s) < s.len() {
            assert(s[digit_run(s) as int] == u[digit_run(u) as int]);
        }
    }
}

/// A sequence that starts with exactly `m` digits has a digit run of `m`.
pub proof fn lemma_digit_run_exact(t: Seq<char>, m: int)
    requires
        0 <= m <= t.len(),
        forall|k: int| 0 <= k < m ==> is_digit(#[trigger] t[k]),
        m == t.len() || !is_digit(t[m]),
    ensures
        digit_run(t) == m,
    decreases m,
{
    if m > 0 {
        let u = t.drop_first();
        assert forall|k: int| 0 <= k < m - 1 implies is_digit(#[trigger] u[k]) by {
            assert(u[k] == t[k + 1]);
        }
        lemma_digit_run_exact(u, m - 1);
    }
}

#[via_fn]
proof fn scan_decreases(s: Seq<char>) {
    if s.len() > 0 && is_digit(s[0]) {
        lemma_digit_run_bounded(s);
    }
}

pub proof fn lemma_digit_run_bounded(s: Seq<char>)
    ensures
        digit_run(s) <= s.len(),
        s.len() > 0 && is_digit(s[0]) ==> digit_run(s) >= 1,
    decreases s.len(),
{
    if s.len() > 0 && is_digit(s[0]) {
        lemma_digit_run_bounded(s.drop_first());
    }
}

} // verus!
