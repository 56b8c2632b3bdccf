//! The assembly-style text of an instruction sequence.
use vstd::prelude::*;
use crate::emitter::Instruction;
use crate::token::Token;

verus! {

/// The character of a decimal digit `d`.
pub open spec fn digit_char(d: int) -> char {
    if d == 0 {
        '0'
    } else if d == 1 {
        '1'
    } else if d == 2 {
        '2'
    } else if d == 3 {
        '3'
    } else if d == 4 {
        '4'
    } else if d == 5 {
        '5'
    } else if d == 6 {
        '6'
    } else if d == 7 {
        '7'
    } else if d == 8 {
        '8'
    } else {
        '9'
    }
}

/// The decimal digits of `n`, most significant first, without leading zeros.
pub open spec fn decimal(n: nat) -> Seq<char>
    decreases n,
{
    if n < 10 {
        seq![digit_char(n as int)]
    } else {
        decimal(n / 10).push(digit_char((n % 10) as int))
    }
}

/// The decimal text of a signed integer.
pub open spec fn signed_decimal(v: int) -> Seq<char> {
    if v < 0 {
        seq!['-'] + decimal((-v) as nat)
    } else {
        decimal(v as nat)
    }
}

/// The text of one token: its literal, its symbol, or nothing for the end marker.
pub open spec fn token_text(t: Token) -> Seq<char> {
    match t {
        Token::Number(v) => signed_decimal(v as int),
        Token::Operator(op) => seq![op.spec_symbol()],
        Token::EndOfInput => Seq::empty(),
    }
}

/// The texts of all tokens, joined with no separators.
pub open spec fn spell(toks: Seq<Token>) -> Seq<char>
    decreases toks.len(),
{
    if toks.len() == 0 {
        Seq::empty()
    } else {
        token_text(toks[0]) + spell(toks.drop_first())
    }
}

/// The line for one instruction, newline included.
pub open spec fn line_of(ins: Instruction) -> Seq<char> {
    match ins {
        Instruction::LoadImmediate(v) => "  mov rax, "@ + signed_decimal(v as int) + "\n"@,
        Instruction::AddImmediate(v) => "  add rax, "@ + signed_decimal(v as int) + "\n"@,
        Instruction::SubtractImmediate(v) => "  sub rax, "@ + signed_decimal(v as int) + "\n"@,
        Instruction::Return => "  ret\n"@,
    }
}

/// The lines of all instructions, in order.
pub open spec fn lines_of(instrs: Seq<Instruction>) -> Seq<char>
    decreases instrs.len(),
{
    if instrs.len() == 0 {
        Seq::empty()
    } else {
        lines_of(instrs.drop_last()) + line_of(instrs.last())
    }
}

/// The dialect line, the entry declaration and the entry label.
pub open spec fn header() -> Seq<char> {
    ".intel_syntax noprefix\n"@ + ".global main\n"@ + "main:\n"@
}

/// The whole listing of a program.
pub open spec fn listing(instrs: Seq<Instruction>) -> Seq<char> {
    header() + lines_of(instrs)
}

fn digit_text(d: u64) -> (r: &'static str)
    requires
        d < 10,
    ensures
        r@ == seq![digit_char(d as int)],
{
    if d == 0 {
        proof { reveal_strlit("0"); }
        "0"
    } else if d == 1 {
        proof { reveal_strlit("1"); }
        "1"
    } else if d == 2 {
        proof { reveal_strlit("2"); }
        "2"
    } else if d == 3 {
        proof { reveal_strlit("3"); }
        "3"
    } else if d == 4 {
        proof { reveal_strlit("4"); }
        "4"
    } else if d == 5 {
        proof { reveal_strlit("5"); }
        "5"
    } else if d == 6 {
        proof { reveal_strlit("6"); }
        "6"
    } else if d == 7 {
        proof { reveal_strlit("7"); }
        "7"
    } else if d == 8 {
        proof { reveal_strlit("8"); }
        "8"
    } else {
        proof { reveal_strlit("9"); }
        "9"
    }
}

fn append_decimal(out: &mut String, n: u64)
    ensures
        final(out)@ == old(out)@ + decimal(n as nat),
    decreases n,
{
    if n >= 10 {
        append_decimal(out, n / 10);
    }
    out.append(digit_text(n % 10));
    assert(decimal(n as nat) == if n < 10 {
        seq![digit_char(n as int)]
    } else {
        decimal((n / 10) as nat).push(digit_char((n % 10) as int))
    });
    assert(final(out)@ =~= old(out)@ + decimal(n as nat));
}

fn append_signed(out: &mut String, v: i64)
    ensures
        final(out)@ == old(out)@ + signed_decimal(v as int),
{
    if v < 0 {
        out.append("-");
        let m: u64 = (0 - (v as i128)) as u64;
        append_decimal(out, m);
        proof { reveal_strlit("-"); }
        assert(final(out)@ =~= old(out)@ + signed_decimal(v as int));
    } else {
        append_decimal(out, v as u64);
    }
}

/// Appends the line of `ins`.
fn append_line(out: &mut String, ins: Instruction)
    ensures
        final(out)@ == old(out)@ + line_of(ins),
{
    let ghost start = out@;
    match ins {
        Instruction::LoadImmediate(v) => {
            out.append("  mov rax, ");
            append_signed(out, v);
            out.append("\n");
        },
        Instruction::AddImmediate(v) => {
            out.append("  add rax, ");
            append_signed(out, v);
            out.append("\n");
        },
        Instruction::SubtractImmediate(v) => {
            out.append("  sub rax, ");
            append_signed(out, v);
            out.append("\n");
        },
        Instruction::Return => {
            out.append("  ret\n");
        },
    }
    assert(out@ =~= start + line_of(ins));
}

/// Writes the tokens back as text, numbers and operators joined with no
/// separators.
pub fn spell_tokens(tokens: &Vec<Token>) -> (r: String)
    ensures
        r@ == spell(tokens@),
{
    let mut out = String::new();
    let mut i: usize = 0;
    assert(tokens@.skip(0) =~= tokens@);
    assert(out@ + spell(tokens@.skip(0)) =~= spell(tokens@));
    while i < tokens.len()
        invariant
            i <= tokens.len(),
            out@ + spell(tokens@.skip(i as int)) == spell(tokens@),
        decreases tokens.len() - i,
    {
        let ghost before = out@;
        let ghost rest = tokens@.skip(i as int);
        assert(rest[0] == tokens@[i as int]);
        assert(rest.drop_first() =~= tokens@.skip(i + 1));
        match tokens[i] {
            Token::Number(v) => append_signed(&mut out, v),
            Token::Operator(op) => {
                if op == crate::token::Op::Plus {
                    out.append("+");
                    proof { reveal_strlit("+"); }
                } else {
                    out.append("-");
                    proof { reveal_strlit("-"); }
                }
            },
            Token::EndOfInput => {},
        }
        assert(out@ =~= before + token_text(tokens@[i as int]));
        assert(before + spell(rest) =~= out@ + spell(tokens@.skip(i + 1)));
        i = i + 1;
    }
    assert(tokens@.skip(i as int) =~= Seq::<Token>::empty());
    assert(out@ + Seq::<char>::empty() =~= out@);
    out
}

/// The listing of `instrs`: a fixed header, then one line per instruction
/// with the mnemonics `mov`, `add`, `sub` and `ret` on the register `rax`.
pub fn render(instrs: &Vec<Instruction>) -> (r: String)
    ensures
        r@ == listing(instrs@),
{
    let mut out = String::from_str(".intel_syntax noprefix\n");
    out.append(".global main\n");
    out.append("main:\n");
    let mut i: usize = 0;
    assert(instrs@.take(0) =~= Seq::<Instruction>::empty());
    assert(out@ =~= header() + lines_of(instrs@.take(0)));
    while i < instrs.len()
        invariant
            i <= instrs.len(),
            out@ == header() + lines_of(instrs@.take(i as int)),
        decreases instrs.len() - i,
    {
        append_line(&mut out, instrs[i]);
        assert(instrs@.take(i + 1).drop_last() =~= instrs@.take(i as int));
        assert(out@ =~= header() + lines_of(instrs@.take(i + 1)));
        i = i + 1;
    }
    assert(instrs@.take(i as int) =~= instrs@);
    out
}

} // verus!
