//! Lowering: an abstract syntax tree to a linear sequence of instructions
//! over virtual registers.
//!
//! Every number literal gets a virtual register of its own, numbered in the
//! order of the literals. A binary operation leaves its result in the
//! register of its left operand and ends the life of the register of its
//! right operand with a `KILL`.

use crate::parse::{Op, Tree};
use vstd::prelude::*;

verus! {

/// An instruction. Its operands are virtual registers before allocation and
/// physical registers after it.
#[derive(Clone, Copy, Debug, PartialEq, Eq, Structural)]
pub enum IR {
    /// Load a constant into a register.
    IMM(usize, i64),
    /// Copy the second register into the first.
    MOV(usize, usize),
    /// Return the value of a register.
    RETURN(usize),
    /// Add the second register to the first.
    ADD(usize, usize),
    /// Subtract the second register from the first.
    SUB(usize, usize),
    /// Multiply the first register by the second.
    MUL(usize, usize),
    /// Divide the first register by the second.
    DIV(usize, usize),
    /// The value of a register is no longer needed.
    KILL(usize),
    /// Nothing.
    NOP,
}

/// The instruction that applies `op` to `dst` and `src` and leaves the result in `dst`.
pub open spec fn binary(op: Op, dst: usize, src: usize) -> IR {
    match op {
        Op::Plus => IR::ADD(dst, src),
        Op::Minus => IR::SUB(dst, src),
        Op::Mul => IR::MUL(dst, src),
        Op::Div => IR::DIV(dst, src),
    }
}

/// The instructions that compute `tree`, with its literals in the registers
/// `first`, `first + 1`, ... in their order in the tree. The result is
/// left in register `first`.
pub open spec fn lower(tree: Tree, first: nat) -> Seq<IR>
    decreases tree,
{
    match tree {
        Tree::Number(v) => seq![IR::IMM(first as usize, v)],
        Tree::Node(op, lhs, rhs) => {
            let src = first + lhs.leaves();
            lower(*lhs, first) + lower(*rhs, src) + seq![
                binary(op, first as usize, src as usize),
                IR::KILL(src as usize),
            ]
        },
        Tree::Return(inner) => lower(*inner, first),
    }
}

/// The instructions of a whole program: those of its tree from register 0
/// on, and the return of register 0.
pub open spec fn program_code(tree: Tree) -> Seq<IR> {
    lower(tree, 0) + seq![IR::RETURN(0)]
}

/// Lowers a whole program.
///
/// There are three instructions for each literal but the first, which has
/// one, and the return; and every `KILL` among them is sound.
pub fn gen_ir(tree: Tree) -> (instructions: Vec<IR>)
    requires
        tree.leaves() <= usize::MAX,
    ensures
        instructions@ == program_code(tree),
        instructions@.len() == 3 * tree.leaves() - 1,
        kill_sound(instructions@),
{
    proof {
        lemma_lower_len(tree, 0);
        lemma_kill_sound(tree);
    }
    let mut instructions: Vec<IR> = Vec::new();
    let mut cur: usize = 0;
    let r: usize = gen_ir_sub(tree, &mut instructions, &mut cur);
    instructions.push(IR::RETURN(r));
    instructions
}

/// Appends the instructions of `tree` to `instructions`, taking registers
/// from `*cur` on, and returns the register that holds the result.
pub fn gen_ir_sub(tree: Tree, instructions: &mut Vec<IR>, cur: &mut usize) -> (reg: usize)
    requires
        *old(cur) + tree.leaves() <= usize::MAX,
    ensures
        reg == *old(cur),
        *final(cur) == *old(cur) + tree.leaves(),
        final(instructions)@ == old(instructions)@ + lower(tree, *old(cur) as nat),
    decreases tree,
{
    match tree {
        Tree::Number(v) => {
            let reg: usize = *cur;
            *cur += 1;
            instructions.push(IR::IMM(reg, v));
            reg
        },
        Tree::Node(op, lhs, rhs) => {
            let dst: usize = gen_ir_sub(*lhs, instructions, cur);
            let src: usize = gen_ir_sub(*rhs, instructions, cur);
            match op {
                Op::Plus => {
                    instructions.push(IR::ADD(dst, src));
                },
                Op::Minus => {
                    instructions.push(IR::SUB(dst, src));
                },
                Op::Mul => {
                    instructions.push(IR::MUL(dst, src));
                },
                Op::Div => {
                    instructions.push(IR::DIV(dst, src));
                },
            }
            instructions.push(IR::KILL(src));
            dst
        },
        Tree::Return(inner) => gen_ir_sub(*inner, instructions, cur),
    }
}

/// The instruction loads a constant into `reg`.
pub open spec fn defines(ins: IR, reg: usize) -> bool {
    match ins {
        IR::IMM(r, _) => r == reg,
        _ => false,
    }
}

/// The instruction ends the life of `reg`.
pub open spec fn kills(ins: IR, reg: usize) -> bool {
    ins == IR::KILL(reg)
}

/// The instruction names `reg` as an operand.
pub open spec fn references(ins: IR, reg: usize) -> bool {
    match ins {
        IR::IMM(r, _) => r == reg,
        IR::MOV(r, s) => r == reg || s == reg,
        IR::RETURN(r) => r == reg,
        IR::ADD(r, s) => r == reg || s == reg,
        IR::SUB(r, s) => r == reg || s == reg,
        IR::MUL(r, s) => r == reg || s == reg,
        IR::DIV(r, s) => r == reg || s == reg,
        IR::KILL(r) => r == reg,
        IR::NOP => false,
    }
}

/// The instruction at `j` loads `reg`, and no other instruction of `code` does.
pub open spec fn sole_definition(code: Seq<IR>, reg: usize, j: int) -> bool {
    &&& 0 <= j < code.len()
    &&& defines(code[j], reg)
    &&& forall|m: int| 0 <= m < code.len() && defines(#[trigger] code[m], reg) ==> m == j
}

/// Exactly one instruction of `code` loads `reg`.
pub open spec fn loaded_once(code: Seq<IR>, reg: usize) -> bool {
    exists|j: int| #[trigger] sole_definition(code, reg, j)
}

/// A `KILL` of `reg` at index `k` is sound: exactly one instruction loads
/// `reg`, it stands before `k`, and no instruction behind `k` names `reg`.
pub open spec fn kill_sound_at(code: Seq<IR>, k: int, reg: usize) -> bool {
    &&& exists|j: int| j < k && #[trigger] sole_definition(code, reg, j)
    &&& forall|m: int| k < m < code.len() ==> !references(#[trigger] code[m], reg)
}

/// Every `KILL` in `code` is sound.
pub open spec fn kill_sound(code: Seq<IR>) -> bool {
    forall|k: int, reg: usize|
        0 <= k < code.len() && #[trigger] kills(code[k], reg) ==> kill_sound_at(code, k, reg)
}

/// What lowering keeps up, for instructions that take their registers from
/// `lo` up to `hi`: no other register is named, each of these is loaded by
/// exactly one instruction, and every `KILL` is sound and spares `lo`, the
/// register of the result.
pub open spec fn well_numbered(code: Seq<IR>, lo: int, hi: int) -> bool {
    &&& forall|k: int, reg: usize|
        0 <= k < code.len() && #[trigger] references(code[k], reg) ==> lo <= reg < hi
    &&& forall|reg: usize| lo <= reg < hi ==> #[trigger] loaded_once(code, reg)
    &&& forall|k: int, reg: usize|
        0 <= k < code.len() && #[trigger] kills(code[k], reg) ==> reg != lo && kill_sound_at(
            code,
            k,
            reg,
        )
}

/// A part of a sequence with the only load of `reg` keeps that standing
/// where nothing before or behind the part loads `reg`.
proof fn lemma_sole_definition_embed(pre: Seq<IR>, part: Seq<IR>, post: Seq<IR>, reg: usize, j: int)
    requires
        sole_definition(part, reg, j),
        forall|m: int| 0 <= m < pre.len() ==> !defines(#[trigger] pre[m], reg),
        forall|m: int| 0 <= m < post.len() ==> !defines(#[trigger] post[m], reg),
    ensures
        sole_definition(pre + part + post, reg, pre.len() + j),
{
}

/// Well-numbered instructions neither load nor name a register outside
/// their range.
proof fn lemma_outside_range(code: Seq<IR>, lo: int, hi: int, reg: usize)
    requires
        well_numbered(code, lo, hi),
        !(lo <= reg < hi),
    ensures
        forall|m: int| 0 <= m < code.len() ==> !references(#[trigger] code[m], reg),
        forall|m: int| 0 <= m < code.len() ==> !defines(#[trigger] code[m], reg),
{
    assert forall|m: int| 0 <= m < code.len() implies !defines(#[trigger] code[m], reg) by {
        if defines(code[m], reg) {
            assert(references(code[m], reg));
        }
    }
}

/// A tree has at least one literal.
pub proof fn lemma_leaves_positive(tree: Tree)
    ensures
        tree.leaves() >= 1,
    decreases tree,
{
    match tree {
        Tree::Number(_) => {},
        Tree::Node(_, lhs, _) => {
            lemma_leaves_positive(*lhs);
        },
        Tree::Return(inner) => {
            lemma_leaves_positive(*inner);
        },
    }
}

/// The number of instructions is linear in the size of the tree: one for
/// the first literal and three for every other one.
pub proof fn lemma_lower_len(tree: Tree, first: nat)
    ensures
        lower(tree, first).len() == 3 * tree.leaves() - 2,
    decreases tree,
{
    match tree {
        Tree::Number(_) => {},
        Tree::Node(_, lhs, rhs) => {
            lemma_lower_len(*lhs, first);
            lemma_lower_len(*rhs, first + lhs.leaves());
        },
        Tree::Return(inner) => {
            lemma_lower_len(*inner, first);
        },
    }
}

/// The instructions of a tree are well numbered over the registers of its literals.
pub proof fn lemma_lower_well_numbered(tree: Tree, first: nat)
    requires
        first + tree.leaves() <= usize::MAX,
    ensures
        well_numbered(lower(tree, first), first as int, (first + tree.leaves()) as int),
    decreases tree,
{
    match tree {
        Tree::Number(v) => {
            assert(sole_definition(lower(tree, first), first as usize, 0));
        },
        Tree::Node(op, lhs, rhs) => {
            lemma_leaves_positive(*lhs);
            lemma_leaves_positive(*rhs);
            lemma_lower_well_numbered(*lhs, first);
            lemma_lower_well_numbered(*rhs, first + lhs.leaves());
            let a = lower(*lhs, first);
            let b = lower(*rhs, first + lhs.leaves());
            let src = (first + lhs.leaves()) as usize;
            let tail = seq![binary(op, first as usize, src), IR::KILL(src)];
            let code = lower(tree, first);
            let lo = first as int;
            let mid = (first + lhs.leaves()) as int;
            let hi = (first + tree.leaves()) as int;
            let empty = Seq::<IR>::empty();
            assert(code =~= empty + a + (b + tail));
            assert forall|k: int, reg: usize|
                0 <= k < code.len() && #[trigger] references(code[k], reg) implies lo <= reg
                < hi by {}
            assert forall|reg: usize| lo <= reg < hi implies #[trigger] loaded_once(code, reg) by {
                if reg < mid {
                    assert(loaded_once(a, reg));
                    let j = choose|j: int| sole_definition(a, reg, j);
                    lemma_outside_range(b, mid, hi, reg);
                    lemma_sole_definition_embed(empty, a, b + tail, reg, j);
                } else {
                    assert(loaded_once(b, reg));
                    let j = choose|j: int| sole_definition(b, reg, j);
                    lemma_outside_range(a, lo, mid, reg);
                    lemma_sole_definition_embed(a, b, tail, reg, j);
                }
            }
            assert forall|k: int, reg: usize|
                0 <= k < code.len() && #[trigger] kills(code[k], reg) implies reg != lo
                && kill_sound_at(code, k, reg) by {
                assert(references(code[k], reg));
                if k < a.len() {
                    let j = choose|j: int| j < k && sole_definition(a, reg, j);
                    lemma_outside_range(b, mid, hi, reg);
                    lemma_sole_definition_embed(empty, a, b + tail, reg, j);
                } else if k < a.len() + b.len() {
                    assert(kills(b[k - a.len()], reg));
                    let j = choose|j: int| j < k - a.len() && sole_definition(b, reg, j);
                    lemma_outside_range(a, lo, mid, reg);
                    lemma_sole_definition_embed(a, b, tail, reg, j);
                } else {
                    assert(loaded_once(b, reg));
                    let j = choose|j: int| sole_definition(b, reg, j);
                    lemma_outside_range(a, lo, mid, reg);
                    lemma_sole_definition_embed(a, b, tail, reg, j);
                }
            }
        },
        Tree::Return(inner) => {
            lemma_lower_well_numbered(*inner, first);
        },
    }
}

/// In the instructions of a program, every `KILL` names a register that
/// exactly one earlier instruction has loaded, and no instruction behind
/// the `KILL` names that register again.
pub proof fn lemma_kill_sound(tree: Tree)
    requires
        tree.leaves() <= usize::MAX,
    ensures
        kill_sound(program_code(tree)),
{
    lemma_lower_well_numbered(tree, 0);
    let body = lower(tree, 0);
    let tail = seq![IR::RETURN(0)];
    let code = program_code(tree);
    assert forall|k: int, reg: usize|
        0 <= k < code.len() && #[trigger] kills(code[k], reg) implies kill_sound_at(
        code,
        k,
        reg,
    ) by {
        let j = choose|j: int| j < k && sole_definition(body, reg, j);
        lemma_sole_definition_embed(Seq::empty(), body, tail, reg, j);
    }
}

} // verus!
