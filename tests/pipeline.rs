use ninecc::compile;
use ninecc::emitter::{emit, Instruction};
use ninecc::listing::{render, spell_tokens};
use ninecc::machine::exit_status;
use ninecc::scanner::tokenize;
use ninecc::token::{CompileError, Op, Token};
use ninecc::translate;

fn status(input: &str) -> Option<u8> {
    exit_status(&compile(input).unwrap())
}

#[test]
fn sum_and_difference_evaluates_to_22() {
    assert_eq!(status("5+21-4"), Some(22));
}

#[test]
fn longer_chain_evaluates_to_26() {
    assert_eq!(status("4+9-1+7+7"), Some(26));
}

#[test]
fn single_number_is_load_then_return() {
    let program = compile("42").unwrap();
    assert_eq!(program, vec![Instruction::LoadImmediate(42), Instruction::Return]);
    assert_eq!(exit_status(&program), Some(42));
}

#[test]
fn additions_in_order() {
    let program = compile("1+2+3").unwrap();
    assert_eq!(
        program,
        vec![
            Instruction::LoadImmediate(1),
            Instruction::AddImmediate(2),
            Instruction::AddImmediate(3),
            Instruction::Return,
        ]
    );
    assert_eq!(exit_status(&program), Some(6));
}

#[test]
fn negative_result_wraps_to_status_width() {
    assert_eq!(status("10-20"), Some(246));
}

#[test]
fn large_value_keeps_low_byte() {
    assert_eq!(status("300+1"), Some(45));
}

#[test]
fn star_is_unrecognized() {
    assert_eq!(compile("3*4"), Err(CompileError::UnrecognizedCharacter('*')));
}

#[test]
fn letter_is_unrecognized() {
    assert_eq!(compile("1+a"), Err(CompileError::UnrecognizedCharacter('a')));
    assert_eq!(tokenize("x"), Err(CompileError::UnrecognizedCharacter('x')));
}

#[test]
fn empty_input_has_no_leading_value() {
    assert_eq!(compile(""), Err(CompileError::MissingLeadingValue));
}

#[test]
fn blank_input_has_no_leading_value() {
    assert_eq!(compile(" \t\n "), Err(CompileError::MissingLeadingValue));
}

#[test]
fn leading_operator_has_no_leading_value() {
    assert_eq!(compile("+1"), Err(CompileError::MissingLeadingValue));
}

#[test]
fn two_numbers_in_a_row_miss_an_operator() {
    assert_eq!(compile("1 2"), Err(CompileError::MissingOperator));
}

#[test]
fn dangling_operator_is_not_rejected() {
    assert_eq!(
        compile("1+"),
        Ok(vec![Instruction::LoadImmediate(1), Instruction::Return])
    );
}

#[test]
fn whitespace_around_operators_is_skipped() {
    assert_eq!(
        tokenize(" 12 +\t5 - 3\n"),
        Ok(vec![
            Token::Number(12),
            Token::Operator(Op::Plus),
            Token::Number(5),
            Token::Operator(Op::Minus),
            Token::Number(3),
            Token::EndOfInput,
        ])
    );
    assert_eq!(status(" 12 +\t5 - 3\n"), Some(14));
}

#[test]
fn largest_literal_fits() {
    assert_eq!(
        tokenize("9223372036854775807"),
        Ok(vec![Token::Number(i64::MAX), Token::EndOfInput])
    );
}

#[test]
fn literal_past_i64_overflows() {
    assert_eq!(tokenize("9223372036854775808"), Err(CompileError::NumericOverflow));
    assert_eq!(compile("1+99999999999999999999"), Err(CompileError::NumericOverflow));
}

#[test]
fn leading_zeros_are_read() {
    assert_eq!(tokenize("007"), Ok(vec![Token::Number(7), Token::EndOfInput]));
}

#[test]
fn emit_rejects_tokens_without_a_number_first() {
    assert_eq!(emit(&vec![Token::EndOfInput]), Err(CompileError::MissingLeadingValue));
    assert_eq!(emit(&vec![]), Err(CompileError::MissingLeadingValue));
}

#[test]
fn emit_takes_the_operator_right_before_a_number() {
    let tokens = vec![
        Token::Number(8),
        Token::Operator(Op::Minus),
        Token::Number(3),
        Token::EndOfInput,
    ];
    assert_eq!(
        emit(&tokens),
        Ok(vec![
            Instruction::LoadImmediate(8),
            Instruction::SubtractImmediate(3),
            Instruction::Return,
        ])
    );
}

#[test]
fn program_without_return_has_no_status() {
    assert_eq!(exit_status(&vec![Instruction::LoadImmediate(3)]), None);
}

#[test]
fn render_gives_the_listing() {
    let program = compile("5+21-4").unwrap();
    assert_eq!(
        render(&program),
        ".intel_syntax noprefix\n.global main\nmain:\n  mov rax, 5\n  add rax, 21\n  sub rax, 4\n  ret\n"
    );
}

#[test]
fn render_spells_negative_immediates() {
    let program = vec![Instruction::LoadImmediate(-120), Instruction::Return];
    assert_eq!(
        render(&program),
        ".intel_syntax noprefix\n.global main\nmain:\n  mov rax, -120\n  ret\n"
    );
}

#[test]
fn translate_renders_or_fails() {
    assert_eq!(
        translate("42"),
        Ok(String::from(".intel_syntax noprefix\n.global main\nmain:\n  mov rax, 42\n  ret\n"))
    );
    assert_eq!(translate("3*4"), Err(CompileError::UnrecognizedCharacter('*')));
}

#[test]
fn rescanning_spelled_tokens_gives_them_back() {
    let tokens = tokenize(" 12 + 3 -40 ").unwrap();
    let text = spell_tokens(&tokens);
    assert_eq!(text, "12+3-40");
    assert_eq!(tokenize(&text), Ok(tokens));
}

#[test]
fn operator_symbols() {
    assert_eq!(Op::Plus.symbol(), '+');
    assert_eq!(Op::Minus.symbol(), '-');
}
