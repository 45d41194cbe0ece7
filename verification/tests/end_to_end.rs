use dcc::compile;
use dcc::parse::{Expected, ParseError};
use dcc::token::{LexError, TokenType};
use dcc::CompileError;

fn lines(source: &str) -> Vec<String> {
    compile(source.to_string()).unwrap()
}

fn get(regs: &[(String, i64)], name: &str) -> i64 {
    match name.parse::<i64>() {
        Ok(v) => v,
        Err(_) => regs.iter().find(|(n, _)| n == name).map(|(_, v)| *v).unwrap(),
    }
}

fn set(regs: &mut Vec<(String, i64)>, name: &str, value: i64) {
    regs.retain(|(n, _)| n != name);
    regs.push((name.to_string(), value));
}

/// Runs the lines on a machine of named 64-bit registers and returns what
/// `rax` holds at the `ret`. Only quotients of values that are not negative
/// are run.
fn run(lines: &[String]) -> i64 {
    let mut regs: Vec<(String, i64)> = Vec::new();
    for line in lines {
        let line = line.trim();
        let (mnemonic, rest) = line.split_once(' ').unwrap_or((line, ""));
        let args: Vec<&str> = rest.split(',').map(|a| a.trim()).filter(|a| !a.is_empty()).collect();
        match (mnemonic, args.as_slice()) {
            ("mov", [dst, src]) => {
                let v = get(&regs, src);
                set(&mut regs, dst, v);
            }
            ("add", [dst, src]) => {
                let v = get(&regs, dst).wrapping_add(get(&regs, src));
                set(&mut regs, dst, v);
            }
            ("sub", [dst, src]) => {
                let v = get(&regs, dst).wrapping_sub(get(&regs, src));
                set(&mut regs, dst, v);
            }
            ("mul", [src]) => {
                let v = get(&regs, "rax").wrapping_mul(get(&regs, src));
                set(&mut regs, "rax", v);
            }
            ("cqo", []) => {
                let high = if get(&regs, "rax") < 0 { -1 } else { 0 };
                set(&mut regs, "rdx", high);
            }
            ("div", [src]) => {
                assert_eq!(get(&regs, "rdx"), 0);
                let v = get(&regs, "rax") / get(&regs, src);
                set(&mut regs, "rax", v);
            }
            ("ret", []) => return get(&regs, "rax"),
            _ => panic!("unknown line: {}", line),
        }
    }
    panic!("no ret")
}

#[test]
fn one_plus_two_minus_three_is_zero() {
    assert_eq!(run(&lines("1+2-3")), 0);
}

#[test]
fn two_times_three_plus_four_is_ten() {
    assert_eq!(run(&lines("2*3+4")), 10);
}

#[test]
fn ten_by_two_minus_one_is_four() {
    assert_eq!(run(&lines("10/2-1")), 4);
}

#[test]
fn return_five_plus_five_is_ten_and_ends_in_a_return() {
    let text = lines("return 5+5;");
    assert_eq!(run(&text), 10);
    assert_eq!(text.last().unwrap(), "  ret");
    assert_eq!(text[text.len() - 2], "  mov rax, rdi");
}

#[test]
fn two_plus_three_times_four_is_fourteen() {
    assert_eq!(run(&lines("2+3*4")), 14);
}

#[test]
fn longer_expression() {
    assert_eq!(run(&lines(" 100 - 4*5*2 + 36/6/3 - 7 ")), 100 - 40 + 2 - 7);
}

#[test]
fn assembly_of_one_plus_two_minus_three() {
    assert_eq!(
        lines("1+2-3"),
        vec![
            "  mov rdi, 1",
            "  mov rsi, 2",
            "  add rdi, rsi",
            "  mov rsi, 3",
            "  sub rdi, rsi",
            "  mov rax, rdi",
            "  ret",
        ]
    );
}

#[test]
fn assembly_of_two_plus_three_times_four() {
    assert_eq!(
        lines("2+3*4"),
        vec![
            "  mov rdi, 2",
            "  mov rsi, 3",
            "  mov r10, 4",
            "  mov rax, r10",
            "  mul rsi",
            "  mov rsi, rax",
            "  add rdi, rsi",
            "  mov rax, rdi",
            "  ret",
        ]
    );
}

#[test]
fn assembly_of_a_quotient() {
    assert_eq!(
        lines("10/2"),
        vec![
            "  mov rdi, 10",
            "  mov rsi, 2",
            "  mov rax, rdi",
            "  cqo",
            "  div rsi",
            "  mov rdi, rax",
            "  mov rax, rdi",
            "  ret",
        ]
    );
}

#[test]
fn compiles_a_single_number() {
    assert_eq!(lines("42"), vec!["  mov rdi, 42", "  mov rax, rdi", "  ret"]);
}

#[test]
fn statement_and_bare_expression_compile_alike() {
    assert_eq!(lines("return 1+2*3;"), lines("1+2*3"));
}

#[test]
fn repeated_runs_give_the_same_lines() {
    for source in ["1+2-3", "return 5+5;", "2*3+4", "1+", "x", "1 +  2 * 3 / 4"] {
        let first = compile(source.to_string());
        for _ in 0..3 {
            assert_eq!(compile(source.to_string()), first);
        }
    }
}

#[test]
fn missing_right_operand_is_a_parse_error() {
    assert_eq!(
        compile("1+".to_string()),
        Err(CompileError::Parse(ParseError {
            expected: Expected::Number,
            found: Some(TokenType::EOF),
            position: 2,
        }))
    );
}

#[test]
fn unsupported_identifier_is_a_lex_error() {
    assert_eq!(
        compile("x".to_string()),
        Err(CompileError::Lex(LexError::UnsupportedIdentifier("x".to_string())))
    );
}

#[test]
fn lexing_fails_before_parsing() {
    assert_eq!(compile("+ $".to_string()), Err(CompileError::Lex(LexError::UnexpectedChar('$'))));
}

#[test]
fn number_too_large_is_a_lex_error() {
    assert_eq!(
        compile("99999999999999999999".to_string()),
        Err(CompileError::Lex(LexError::NumberTooLarge("99999999999999999999".to_string())))
    );
}

#[test]
fn long_sums_never_run_out_of_registers() {
    let source: Vec<String> = (1..=500).map(|v| v.to_string()).collect();
    let text = lines(&source.join("+"));
    assert_eq!(run(&text), 500 * 501 / 2);
}

#[test]
fn long_mixed_chains_never_run_out_of_registers() {
    let source = "1*2*3+4*5*6-7*8*9+".repeat(200) + "1";
    assert!(compile(source).is_ok());
}
