//! Emission: instructions over physical registers to lines of x86-64
//! assembly in Intel syntax.

use crate::decimal::{decimal_text, push_decimal};
use crate::ir::IR;
use crate::regalloc::{allocated, NUM_REGS};
use vstd::prelude::*;

verus! {

/// The machine register that stands behind a physical register.
pub open spec fn reg_name(r: usize) -> Seq<char> {
    if r == 0 {
        "rdi"@
    } else if r == 1 {
        "rsi"@
    } else if r == 2 {
        "r10"@
    } else if r == 3 {
        "r11"@
    } else if r == 4 {
        "r12"@
    } else if r == 5 {
        "r13"@
    } else if r == 6 {
        "r14"@
    } else {
        "r15"@
    }
}

/// The lines of assembly for one instruction.
///
/// Multiplication and division go through `rax`: the product of `rax` and
/// the operand of `mul`, and the quotient of `rdx:rax` by the operand of
/// `div`, are left in `rax`.
pub open spec fn emit(ins: IR) -> Seq<Seq<char>> {
    match ins {
        IR::IMM(r, value) => seq!["  mov "@ + reg_name(r) + ", "@ + decimal_text(value as int)],
        IR::MOV(r, s) => seq!["  mov "@ + reg_name(r) + ", "@ + reg_name(s)],
        IR::RETURN(r) => seq!["  mov rax, "@ + reg_name(r), "  ret"@],
        IR::ADD(r, s) => seq!["  add "@ + reg_name(r) + ", "@ + reg_name(s)],
        IR::SUB(r, s) => seq!["  sub "@ + reg_name(r) + ", "@ + reg_name(s)],
        IR::MUL(r, s) => seq![
            "  mov rax, "@ + reg_name(s),
            "  mul "@ + reg_name(r),
            "  mov "@ + reg_name(r) + ", rax"@,
        ],
        IR::DIV(r, s) => seq![
            "  mov rax, "@ + reg_name(r),
            "  cqo"@,
            "  div "@ + reg_name(s),
            "  mov "@ + reg_name(r) + ", rax"@,
        ],
        IR::KILL(_) => seq![],
        IR::NOP => seq![],
    }
}

/// The lines of assembly for a sequence of instructions, in their order.
pub open spec fn emit_all(code: Seq<IR>) -> Seq<Seq<char>>
    decreases code.len(),
{
    if code.len() == 0 {
        seq![]
    } else {
        emit_all(code.drop_last()) + emit(code.last())
    }
}

/// The texts of a sequence of lines.
pub open spec fn line_views(lines: Seq<String>) -> Seq<Seq<char>> {
    lines.map_values(|line: String| line@)
}

/// The name of the machine register behind the physical register `r`.
fn reg(r: usize) -> (name: &'static str)
    requires
        r < NUM_REGS,
    ensures
        name@ == reg_name(r),
{
    match r {
        0 => "rdi",
        1 => "rsi",
        2 => "r10",
        3 => "r11",
        4 => "r12",
        5 => "r13",
        6 => "r14",
        _ => "r15",
    }
}

/// The line `head` `a`.
fn line_one(head: &str, a: &str) -> (line: String)
    ensures
        line@ == head@ + a@,
{
    let mut line: String = String::from_str(head);
    line.append(a);
    line
}

/// The line `head` `a` `sep` `b`.
fn line_two(head: &str, a: &str, sep: &str, b: &str) -> (line: String)
    ensures
        line@ == head@ + a@ + sep@ + b@,
{
    let mut line: String = String::from_str(head);
    line.append(a);
    line.append(sep);
    line.append(b);
    line
}

/// Appends the lines of one instruction to `lines`.
fn gen_one(ins: IR, lines: &mut Vec<String>)
    requires
        allocated(ins),
    ensures
        line_views(final(lines)@) == line_views(old(lines)@) + emit(ins),
{
    match ins {
        IR::IMM(r, value) => {
            let mut line: String = line_one("  mov ", reg(r));
            line.append(", ");
            push_decimal(&mut line, value);
            lines.push(line);
        },
        IR::MOV(r, s) => {
            lines.push(line_two("  mov ", reg(r), ", ", reg(s)));
        },
        IR::RETURN(r) => {
            lines.push(line_one("  mov rax, ", reg(r)));
            lines.push(String::from_str("  ret"));
        },
        IR::ADD(r, s) => {
            lines.push(line_two("  add ", reg(r), ", ", reg(s)));
        },
        IR::SUB(r, s) => {
            lines.push(line_two("  sub ", reg(r), ", ", reg(s)));
        },
        IR::MUL(r, s) => {
            lines.push(line_one("  mov rax, ", reg(s)));
            lines.push(line_one("  mul ", reg(r)));
            let mut line: String = line_one("  mov ", reg(r));
            line.append(", rax");
            lines.push(line);
        },
        IR::DIV(r, s) => {
            lines.push(line_one("  mov rax, ", reg(r)));
            lines.push(String::from_str("  cqo"));
            lines.push(line_one("  div ", reg(s)));
            let mut line: String = line_one("  mov ", reg(r));
            line.append(", rax");
            lines.push(line);
        },
        IR::KILL(_) => {},
        IR::NOP => {},
    }
}

/// The assembly for a sequence of instructions over physical registers,
/// line by line, in the order of the instructions.
pub fn gen_x86(instructions: Vec<IR>) -> (lines: Vec<String>)
    requires
        forall|i: int| 0 <= i < instructions.len() ==> allocated(#[trigger] instructions[i]),
    ensures
        line_views(lines@) == emit_all(instructions@),
{
    let mut lines: Vec<String> = Vec::new();
    let n: usize = instructions.len();
    let mut i: usize = 0;
    while i < n
        invariant
            n == instructions.len(),
            i <= n,
            forall|k: int| 0 <= k < instructions.len() ==> allocated(#[trigger] instructions[k]),
            line_views(lines@) == emit_all(instructions@.take(i as int)),
        decreases n - i,
    {
        gen_one(instructions[i], &mut lines);
        proof {
            assert(instructions@.take(i + 1).drop_last() =~= instructions@.take(i as int));
        }
        i += 1;
    }
    assert(instructions@.take(n as int) =~= instructions@);
    lines
}

} // verus!
