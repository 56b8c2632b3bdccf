//! Laws of the pipeline as a whole.
use vstd::prelude::*;
use crate::compile_spec;
use crate::emitter::{emit_spec, emit_tail, Instruction};
use crate::listing::{decimal, digit_char, spell, token_text};
use crate::machine::{run, run_from};
use crate::scanner::{
    all_digits, digit_value, digit_run, digits_value, is_digit, is_space, lemma_digit_run_exact,
    lemma_digit_run_shape, scan,
};
use crate::token::{prepend, CompileError, Op, Token};

verus! {

/// A literal that the scanner reads as one number: digits that fit in `i64`.
pub open spec fn valid_literal(d: Seq<char>) -> bool {
    d.len() > 0 && all_digits(d) && digits_value(d) <= i64::MAX
}

/// Text made of whitespace alone.
pub open spec fn blank(w: Seq<char>) -> bool {
    forall|k: int| 0 <= k < w.len() ==> is_space(#[trigger] w[k])
}

/// One operator and the literal after it: whitespace before the operator,
/// the operator, whitespace after it, and the literal.
pub type Term = (Seq<char>, Op, Seq<char>, Seq<char>);

/// The text of `terms`, one after the other.
pub open spec fn terms_text(terms: Seq<Term>) -> Seq<char>
    decreases terms.len(),
{
    if terms.len() == 0 {
        Seq::empty()
    } else {
        terms[0].0 + seq![terms[0].1.spec_symbol()] + terms[0].2 + terms[0].3 + terms_text(
            terms.drop_first(),
        )
    }
}

/// The tokens that the scanner gives for `terms_text(terms)`.
pub open spec fn terms_tokens(terms: Seq<Term>) -> Seq<Token>
    decreases terms.len(),
{
    if terms.len() == 0 {
        Seq::empty()
    } else {
        seq![Token::Operator(terms[0].1), Token::Number(digits_value(terms[0].3) as i64)]
            + terms_tokens(terms.drop_first())
    }
}

pub open spec fn apply(op: Op, acc: int, v: int) -> int {
    match op {
        Op::Plus => acc + v,
        Op::Minus => acc - v,
    }
}

/// The value of `acc` followed by `terms`, evaluated left to right.
pub open spec fn fold_terms(acc: int, terms: Seq<Term>) -> int
    decreases terms.len(),
{
    if terms.len() == 0 {
        acc
    } else {
        fold_terms(apply(terms[0].1, acc, digits_value(terms[0].3)), terms.drop_first())
    }
}

pub open spec fn valid_term(t: Term) -> bool {
    blank(t.0) && blank(t.2) && valid_literal(t.3)
}

pub open spec fn valid_terms(terms: Seq<Term>) -> bool {
    forall|k: int| 0 <= k < terms.len() ==> valid_term(#[trigger] terms[k])
}

proof fn lemma_valid_terms_tail(terms: Seq<Term>)
    requires
        valid_terms(terms),
        terms.len() > 0,
    ensures
        valid_term(terms[0]),
        valid_terms(terms.drop_first()),
{
    let tail = terms.drop_first();
    assert forall|k: int| 0 <= k < tail.len() implies valid_term(#[trigger] tail[k]) by {
        assert(tail[k] == terms[k + 1]);
    }
}

/// Whitespace in front of text does not change how it scans.
pub proof fn lemma_scan_skips_blank(w: Seq<char>, s: Seq<char>)
    requires
        blank(w),
    ensures
        scan(w + s) == scan(s),
    decreases w.len(),
{
    if w.len() > 0 {
        let t = w + s;
        let u = w.drop_first();
        assert(t[0] == w[0]);
        assert(is_space(w[0]));
        assert(t.drop_first() =~= u + s);
        assert forall|k: int| 0 <= k < u.len() implies is_space(#[trigger] u[k]) by {
            assert(u[k] == w[k + 1]);
        }
        lemma_scan_skips_blank(u, s);
    } else {
        assert(w + s =~= s);
    }
}

/// A run of digits followed by something that is not a digit scans as one number.
pub proof fn lemma_scan_literal(d: Seq<char>, rest: Seq<char>)
    requires
        valid_literal(d),
        rest.len() == 0 || !is_digit(rest[0]),
    ensures
        scan(d + rest) == prepend(seq![Token::Number(digits_value(d) as i64)], scan(rest)),
{
    let t = d + rest;
    let m = d.len() as int;
    assert forall|k: int| 0 <= k < m implies is_digit(#[trigger] t[k]) by {
        assert(t[k] == d[k]);
    }
    if rest.len() > 0 {
        assert(t[m] == rest[0]);
    }
    lemma_digit_run_exact(t, m);
    assert(t.take(m) =~= d);
    assert(t.skip(m) =~= rest);
    assert(t[0] == d[0]);
    assert(is_digit(d[0]));
}

/// An operator symbol scans as one operator token.
pub proof fn lemma_scan_operator(op: Op, rest: Seq<char>)
    ensures
        scan(seq![op.spec_symbol()] + rest) == prepend(seq![Token::Operator(op)], scan(rest)),
{
    let t = seq![op.spec_symbol()] + rest;
    assert(t.drop_first() =~= rest);
    assert(t[0] == op.spec_symbol());
}

pub proof fn lemma_scan_terms(terms: Seq<Term>, trail: Seq<char>)
    requires
        valid_terms(terms),
        blank(trail),
    ensures
        scan(terms_text(terms) + trail) == Ok::<Seq<Token>, CompileError>(
            terms_tokens(terms) + seq![Token::EndOfInput],
        ),
        (terms_text(terms) + trail).len() == 0 || !is_digit((terms_text(terms) + trail)[0]),
    decreases terms.len(),
{
    if terms.len() == 0 {
        assert(terms_tokens(terms) + seq![Token::EndOfInput] =~= seq![Token::EndOfInput]);
        assert(terms_text(terms) + trail =~= trail + Seq::<char>::empty());
        lemma_scan_skips_blank(trail, Seq::empty());
        if trail.len() > 0 {
            assert(is_space(trail[0]));
        }
    } else {
        let (w1, op, w2, d) = terms[0];
        let tail = terms.drop_first();
        lemma_valid_terms_tail(terms);
        let rest = terms_text(tail) + trail;
        lemma_scan_terms(tail, trail);
        lemma_scan_literal(d, rest);
        lemma_scan_skips_blank(w2, d + rest);
        lemma_scan_operator(op, w2 + (d + rest));
        lemma_scan_skips_blank(w1, seq![op.spec_symbol()] + (w2 + (d + rest)));
        let text = terms_text(terms) + trail;
        assert(text =~= w1 + (seq![op.spec_symbol()] + (w2 + (d + rest))));
        assert(terms_tokens(terms) + seq![Token::EndOfInput] =~= seq![Token::Operator(op)] + (
        seq![Token::Number(digits_value(d) as i64)] + (terms_tokens(tail)
            + seq![Token::EndOfInput])));
        if w1.len() > 0 {
            assert(text[0] == w1[0]);
            assert(is_space(w1[0]));
        } else {
            assert(text[0] == op.spec_symbol());
        }
    }
}

/// After a number, the tokens of `terms` and the end marker translate into a
/// program that returns the left-to-right value of `acc` and `terms`.
pub proof fn lemma_emit_terms(prev: i64, terms: Seq<Term>, acc: int)
    requires
        valid_terms(terms),
    ensures
        emit_tail(Token::Number(prev), terms_tokens(terms) + seq![Token::EndOfInput]) is Ok,
        run_from(
            emit_tail(Token::Number(prev), terms_tokens(terms) + seq![Token::EndOfInput])->Ok_0,
            acc,
        ) == Some(fold_terms(acc, terms)),
    decreases terms.len(),
{
    let toks = terms_tokens(terms) + seq![Token::EndOfInput];
    if terms.len() == 0 {
        assert(toks =~= seq![Token::EndOfInput]);
        let p = seq![Instruction::Return];
        assert(run_from(p, acc) == Some(acc));
    } else {
        let op = terms[0].1;
        let d = terms[0].3;
        let v = digits_value(d) as i64;
        let tail = terms.drop_first();
        lemma_valid_terms_tail(terms);
        crate::scanner::lemma_digits_value_nonneg(d);
        let next = apply(op, acc, v as int);
        lemma_emit_terms(v, tail, next);
        let rest = terms_tokens(tail) + seq![Token::EndOfInput];
        assert(toks =~= seq![Token::Operator(op), Token::Number(v)] + rest);
        assert(toks.drop_first() =~= seq![Token::Number(v)] + rest);
        assert((seq![Token::Number(v)] + rest).drop_first() =~= rest);
        let inner = emit_tail(Token::Number(v), rest)->Ok_0;
        let ins = match op {
            Op::Plus => Instruction::AddImmediate(v),
            Op::Minus => Instruction::SubtractImmediate(v),
        };
        assert(emit_tail(Token::Operator(op), seq![Token::Number(v)] + rest) == prepend(
            seq![ins],
            emit_tail(Token::Number(v), rest),
        ));
        assert((seq![ins] + inner).drop_first() =~= inner);
        assert(run_from(seq![ins] + inner, acc) == run_from(inner, next));
    }
}

/// A well-formed expression, a literal followed by operators and literals
/// with optional whitespace around each operator and at both ends, compiles,
/// and its program returns the exact left-to-right value of the expression.
pub proof fn lemma_compile_evaluates(
    lead: Seq<char>,
    first: Seq<char>,
    terms: Seq<Term>,
    trail: Seq<char>,
)
    requires
        blank(lead),
        valid_literal(first),
        valid_terms(terms),
        blank(trail),
    ensures
        compile_spec(lead + first + terms_text(terms) + trail) is Ok,
        run(compile_spec(lead + first + terms_text(terms) + trail)->Ok_0) == Some(
            fold_terms(digits_value(first), terms),
        ),
{
    let v = digits_value(first) as i64;
    crate::scanner::lemma_digits_value_nonneg(first);
    let rest_text = terms_text(terms) + trail;
    lemma_scan_terms(terms, trail);
    lemma_scan_literal(first, rest_text);
    lemma_scan_skips_blank(lead, first + rest_text);
    assert(lead + first + terms_text(terms) + trail =~= lead + (first + rest_text));
    let rest = terms_tokens(terms) + seq![Token::EndOfInput];
    let toks = seq![Token::Number(v)] + rest;
    assert(scan(lead + first + terms_text(terms) + trail) == Ok::<Seq<Token>, CompileError>(toks));
    assert(toks.drop_first() =~= rest);
    assert(toks[0] == Token::Number(v));
    lemma_emit_terms(v, terms, v as int);
    let inner = emit_tail(Token::Number(v), rest)->Ok_0;
    let p = seq![Instruction::LoadImmediate(v)] + inner;
    assert(emit_spec(toks) == Ok::<Seq<Instruction>, CompileError>(p));
    assert(p.drop_first() =~= inner);
    assert(run_from(p, 0) == run_from(inner, v as int));
}

/// A single literal compiles to a load of its value and a return.
pub proof fn lemma_single_number(d: Seq<char>)
    requires
        valid_literal(d),
    ensures
        compile_spec(d) == Ok::<Seq<Instruction>, CompileError>(
            seq![
                Instruction::LoadImmediate(digits_value(d) as i64),
                Instruction::Return,
            ],
        ),
{
    let v = digits_value(d) as i64;
    lemma_scan_literal(d, Seq::empty());
    assert(d + Seq::<char>::empty() =~= d);
    let toks = seq![Token::Number(v)] + seq![Token::EndOfInput];
    assert(scan(d) == Ok::<Seq<Token>, CompileError>(toks));
    assert(toks.drop_first() =~= seq![Token::EndOfInput]);
    assert(toks[0] == Token::Number(v));
    assert(emit_tail(Token::Number(v), seq![Token::EndOfInput]) == Ok::<
        Seq<Instruction>,
        CompileError,
    >(seq![Instruction::Return]));
    assert(seq![Instruction::LoadImmediate(v)] + seq![Instruction::Return] =~= seq![
        Instruction::LoadImmediate(v),
        Instruction::Return,
    ]);
}

/// Text that is empty or only whitespace has no leading value.
pub proof fn lemma_blank_has_no_value(s: Seq<char>)
    requires
        blank(s),
    ensures
        compile_spec(s) == Err::<Seq<Instruction>, CompileError>(CompileError::MissingLeadingValue),
{
    lemma_scan_skips_blank(s, Seq::empty());
    assert(s + Seq::<char>::empty() =~= s);
}

/// A character that is not whitespace, a digit or an operator.
pub open spec fn is_foreign(c: char) -> bool {
    !is_space(c) && !is_digit(c) && c != '+' && c != '-'
}

proof fn lemma_scan_stops_at_foreign(p: Seq<char>, c: char, q: Seq<char>)
    requires
        scan(p) is Ok,
        is_foreign(c),
    ensures
        scan(p + seq![c] + q) == Err::<Seq<Token>, CompileError>(
            CompileError::UnrecognizedCharacter(c),
        ),
    decreases p.len(),
{
    let t = p + seq![c] + q;
    if p.len() == 0 {
        assert(t[0] == c);
    } else {
        assert(t[0] == p[0]);
        let p1 = p.drop_first();
        assert(t.drop_first() =~= p1 + seq![c] + q);
        if is_space(p[0]) || p[0] == '+' || p[0] == '-' {
            lemma_scan_stops_at_foreign(p1, c, q);
        } else {
            assert(is_digit(p[0]));
            let n = digit_run(p);
            lemma_digit_run_shape(p);
            crate::scanner::lemma_digit_run_bounded(p);
            assert forall|k: int| 0 <= k < n implies is_digit(#[trigger] t[k]) by {
                assert(t[k] == p[k]);
            }
            if n < p.len() {
                assert(t[n as int] == p[n as int]);
            } else {
                assert(t[n as int] == c);
            }
            lemma_digit_run_exact(t, n as int);
            assert(t.take(n as int) =~= p.take(n as int));
            let pn = p.skip(n as int);
            assert(t.skip(n as int) =~= pn + seq![c] + q);
            lemma_scan_stops_at_foreign(pn, c, q);
        }
    }
}

/// A character outside the accepted set, after text that scans, fails the
/// translation with that very character.
pub proof fn lemma_foreign_character(p: Seq<char>, c: char, q: Seq<char>)
    requires
        scan(p) is Ok,
        is_foreign(c),
    ensures
        compile_spec(p + seq![c] + q) == Err::<Seq<Instruction>, CompileError>(
            CompileError::UnrecognizedCharacter(c),
        ),
{
    lemma_scan_stops_at_foreign(p, c, q);
}

/// A token sequence of the scanner's shape: non-negative numbers, operators,
/// no two numbers in a row, and one end marker, at the end.
#[verifier::opaque]
pub open spec fn well_formed_tokens(toks: Seq<Token>) -> bool {
    &&& toks.len() >= 1
    &&& toks.last() == Token::EndOfInput
    &&& forall|k: int| 0 <= k < toks.len() - 1 ==> #[trigger] toks[k] != Token::EndOfInput
    &&& forall|k: int| 0 <= k < toks.len() && (#[trigger] toks[k] is Number) ==> toks[k]->Number_0 >= 0
    &&& forall|k: int|
        0 <= k < toks.len() - 1 && (#[trigger] toks[k] is Number) ==> !(toks[k + 1] is Number)
}

proof fn lemma_digit_char(d: int)
    requires
        0 <= d < 10,
    ensures
        is_digit(digit_char(d)),
        digit_value(digit_char(d)) == d,
{
}

/// The decimal text of `n` is a literal whose value is `n`.
pub proof fn lemma_decimal_value(n: nat)
    ensures
        decimal(n).len() > 0,
        all_digits(decimal(n)),
        digits_value(decimal(n)) == n,
    decreases n,
{
    if n < 10 {
        lemma_digit_char(n as int);
        assert(decimal(n).drop_last() =~= Seq::<char>::empty());
        assert(decimal(n).last() == digit_char(n as int));
        assert(digits_value(decimal(n)) == 10 * digits_value(Seq::<char>::empty()) + digit_value(
            digit_char(n as int),
        ));
    } else {
        lemma_decimal_value(n / 10);
        lemma_digit_char((n % 10) as int);
        let d = decimal(n);
        assert(d.drop_last() =~= decimal(n / 10));
        assert(d.last() == digit_char((n % 10) as int));
        assert(digits_value(d) == 10 * digits_value(decimal(n / 10)) + digit_value(
            digit_char((n % 10) as int),
        ));
        assert(n == 10 * (n / 10) + n % 10);
        assert forall|k: int| 0 <= k < d.len() implies is_digit(#[trigger] d[k]) by {
            if k < d.len() - 1 {
                assert(d[k] == decimal(n / 10)[k]);
            }
        }
    }
}

proof fn lemma_well_formed_tail(toks: Seq<Token>)
    requires
        well_formed_tokens(toks),
        toks.len() > 1,
    ensures
        well_formed_tokens(toks.drop_first()),
{
    reveal(well_formed_tokens);
    let u = toks.drop_first();
    assert forall|k: int| 0 <= k < u.len() - 1 implies #[trigger] u[k] != Token::EndOfInput by {
        assert(u[k] == toks[k + 1]);
    }
    assert forall|k: int| 0 <= k < u.len() && (#[trigger] u[k] is Number) implies u[k]->Number_0
        >= 0 by {
        assert(u[k] == toks[k + 1]);
    }
    assert forall|k: int| 0 <= k < u.len() - 1 && (#[trigger] u[k] is Number) implies !(u[k
        + 1] is Number) by {
        assert(u[k] == toks[k + 1]);
        assert(u[k + 1] == toks[k + 2]);
    }
}

proof fn lemma_well_formed_head(toks: Seq<Token>)
    requires
        well_formed_tokens(toks),
    ensures
        toks.len() >= 1,
        toks.len() == 1 ==> toks[0] == Token::EndOfInput,
        toks.len() > 1 ==> toks[0] != Token::EndOfInput,
        toks[0] is Number ==> toks[0]->Number_0 >= 0,
        toks.len() > 1 && toks[0] is Number ==> !(toks[1] is Number),
{
    reveal(well_formed_tokens);
}

proof fn lemma_spell_start(toks: Seq<Token>)
    requires
        well_formed_tokens(toks),
        !(toks[0] is Number),
    ensures
        spell(toks).len() == 0 || !is_digit(spell(toks)[0]),
{
    lemma_well_formed_head(toks);
    if toks.len() > 1 {
        assert(toks[0] != Token::EndOfInput);
        if let Token::Operator(op) = toks[0] {
            let tail = spell(toks.drop_first());
            assert(token_text(toks[0]) == seq![op.spec_symbol()]);
            assert(spell(toks) == seq![op.spec_symbol()] + tail);
            assert((seq![op.spec_symbol()] + tail)[0] == op.spec_symbol());
        }
    } else {
        assert(toks.drop_first() =~= Seq::<Token>::empty());
        assert(spell(toks.drop_first()) == Seq::<char>::empty());
        assert(token_text(toks[0]) == Seq::<char>::empty());
        assert(spell(toks) =~= Seq::<char>::empty());
    }
}

/// Scanning the spelled-out text of a token sequence of the scanner's shape
/// gives that token sequence back.
pub proof fn lemma_rescan(toks: Seq<Token>)
    requires
        well_formed_tokens(toks),
    ensures
        scan(spell(toks)) == Ok::<Seq<Token>, CompileError>(toks),
    decreases toks.len(),
{
    lemma_well_formed_head(toks);
    if toks.len() == 1 {
        assert(toks[0] == Token::EndOfInput);
        assert(toks.drop_first() =~= Seq::<Token>::empty());
        assert(spell(toks) =~= Seq::<char>::empty());
        assert(toks =~= seq![Token::EndOfInput]);
    } else {
        let rest = toks.drop_first();
        lemma_well_formed_tail(toks);
        lemma_rescan(rest);
        assert(toks =~= seq![toks[0]] + rest);
        assert(spell(toks) == token_text(toks[0]) + spell(rest));
        match toks[0] {
            Token::Number(v) => {
                lemma_decimal_value(v as nat);
                assert(rest[0] == toks[1]);
                lemma_spell_start(rest);
                assert(token_text(toks[0]) == decimal(v as nat));
                lemma_scan_literal(decimal(v as nat), spell(rest));
            },
            Token::Operator(op) => {
                lemma_scan_operator(op, spell(rest));
            },
            Token::EndOfInput => {},
        }
    }
}

} // verus!
