//! What a program computes: the value of a syntax tree, the effect of
//! instructions on a register file, and the proof that lowering and
//! register allocation keep the one in the other.
//!
//! The meaning of the four operators is a parameter: a function that gives
//! the result of an operator on two values, or nothing where it has none,
//! as with a division by zero. Everything here holds for every such function.

use crate::ir::{binary, lemma_leaves_positive, lower, program_code, IR};
use crate::parse::{Op, Tree};
use crate::pressure::{lemma_allocated_program, lower_allocated, pressure};
use crate::regalloc::{AllocState, NUM_REGS};
use vstd::prelude::*;

verus! {

/// The value of a tree, or `None` where an operation in it has no result.
pub open spec fn value(tree: Tree, apply: spec_fn(Op, int, int) -> Option<int>) -> Option<int>
    decreases tree,
{
    match tree {
        Tree::Number(v) => Some(v as int),
        Tree::Node(op, lhs, rhs) => match (value(*lhs, apply), value(*rhs, apply)) {
            (Some(a), Some(b)) => apply(op, a, b),
            _ => None,
        },
        Tree::Return(inner) => value(*inner, apply),
    }
}

/// Where a run of instructions stands: still running with a register file,
/// returned with a value, or failed in an operation that has no result.
pub enum Outcome {
    Running(Map<usize, int>),
    Returned(int),
    Failed,
}

/// The register file behind an operation on `dst` and `src` that leaves its
/// result in `dst`.
pub open spec fn operate(
    op: Op,
    dst: usize,
    src: usize,
    regs: Map<usize, int>,
    apply: spec_fn(Op, int, int) -> Option<int>,
) -> Outcome {
    match apply(op, regs[dst], regs[src]) {
        Some(v) => Outcome::Running(regs.insert(dst, v)),
        None => Outcome::Failed,
    }
}

/// The effect of one instruction on a register file.
pub open spec fn exec_ins(
    ins: IR,
    regs: Map<usize, int>,
    apply: spec_fn(Op, int, int) -> Option<int>,
) -> Outcome {
    match ins {
        IR::IMM(dst, v) => Outcome::Running(regs.insert(dst, v as int)),
        IR::MOV(dst, src) => Outcome::Running(regs.insert(dst, regs[src])),
        IR::ADD(dst, src) => operate(Op::Plus, dst, src, regs, apply),
        IR::SUB(dst, src) => operate(Op::Minus, dst, src, regs, apply),
        IR::MUL(dst, src) => operate(Op::Mul, dst, src, regs, apply),
        IR::DIV(dst, src) => operate(Op::Div, dst, src, regs, apply),
        IR::RETURN(reg) => Outcome::Returned(regs[reg]),
        IR::KILL(_) => Outcome::Running(regs),
        IR::NOP => Outcome::Running(regs),
    }
}

/// The effect of a sequence of instructions on a register file: one after
/// the other, up to the first that returns or fails.
pub open spec fn exec(
    code: Seq<IR>,
    regs: Map<usize, int>,
    apply: spec_fn(Op, int, int) -> Option<int>,
) -> Outcome
    decreases code.len(),
{
    if code.len() == 0 {
        Outcome::Running(regs)
    } else {
        match exec_ins(code.first(), regs, apply) {
            Outcome::Running(next) => exec(code.drop_first(), next, apply),
            stopped => stopped,
        }
    }
}

/// Holds where `outcome` is what computing `expected` into the register
/// `result` leaves of `regs`: the value in `result`, and every register
/// below `result` as it was; or a failure where there is no value.
pub open spec fn computes(
    outcome: Outcome,
    expected: Option<int>,
    result: usize,
    regs: Map<usize, int>,
) -> bool {
    match expected {
        Some(v) => outcome matches Outcome::Running(after) && after[result] == v && forall|
            j: usize,
        |
            j < result ==> after[j] == regs[j],
        None => outcome is Failed,
    }
}

/// Two sequences in a row: the second starts where the first stops running.
pub proof fn lemma_exec_concat(
    a: Seq<IR>,
    b: Seq<IR>,
    regs: Map<usize, int>,
    apply: spec_fn(Op, int, int) -> Option<int>,
)
    ensures
        exec(a + b, regs, apply) == (match exec(a, regs, apply) {
            Outcome::Running(mid) => exec(b, mid, apply),
            stopped => stopped,
        }),
    decreases a.len(),
{
    if a.len() > 0 {
        assert((a + b).drop_first() =~= a.drop_first() + b);
        if let Outcome::Running(next) = exec_ins(a.first(), regs, apply) {
            lemma_exec_concat(a.drop_first(), b, next, apply);
        }
    }
}

/// An operation on the values of its operands, and an instruction behind
/// it that changes nothing.
proof fn lemma_exec_operation(
    op: Op,
    dst: usize,
    src: usize,
    idle: IR,
    regs: Map<usize, int>,
    apply: spec_fn(Op, int, int) -> Option<int>,
)
    requires
        idle == IR::NOP || idle == IR::KILL(src),
    ensures
        exec(seq![binary(op, dst, src), idle], regs, apply) == operate(op, dst, src, regs, apply),
{
    reveal_with_fuel(exec, 3);
}

/// A binary operation from its operands: where the instructions of the left
/// operand compute its value into `dst`, and those of the right operand
/// compute its value into `src` above `dst`, the whole computes the value of
/// the operation into `dst`.
proof fn lemma_exec_node(
    a: Seq<IR>,
    b: Seq<IR>,
    op: Op,
    dst: usize,
    src: usize,
    idle: IR,
    left: Option<int>,
    right: Option<int>,
    regs: Map<usize, int>,
    apply: spec_fn(Op, int, int) -> Option<int>,
)
    requires
        dst < src,
        idle == IR::NOP || idle == IR::KILL(src),
        computes(exec(a, regs, apply), left, dst, regs),
        exec(a, regs, apply) matches Outcome::Running(mid) ==> computes(
            exec(b, mid, apply),
            right,
            src,
            mid,
        ),
    ensures
        computes(
            exec((a + b) + seq![binary(op, dst, src), idle], regs, apply),
            match (left, right) {
                (Some(x), Some(y)) => apply(op, x, y),
                _ => None,
            },
            dst,
            regs,
        ),
{
    let tail = seq![binary(op, dst, src), idle];
    lemma_exec_concat(a, b, regs, apply);
    lemma_exec_concat(a + b, tail, regs, apply);
    if let Outcome::Running(mid) = exec(a, regs, apply) {
        if let Outcome::Running(after) = exec(b, mid, apply) {
            lemma_exec_operation(op, dst, src, idle, after, apply);
        }
    }
}

/// The instructions of a tree over virtual registers compute its value into
/// the first of its registers and leave the registers below that as they were.
pub proof fn lemma_exec_lower(
    tree: Tree,
    first: nat,
    regs: Map<usize, int>,
    apply: spec_fn(Op, int, int) -> Option<int>,
)
    requires
        first + tree.leaves() <= usize::MAX,
    ensures
        computes(exec(lower(tree, first), regs, apply), value(tree, apply), first as usize, regs),
    decreases tree,
{
    match tree {
        Tree::Number(_) => {
            reveal_with_fuel(exec, 2);
        },
        Tree::Node(op, lhs, rhs) => {
            lemma_leaves_positive(*lhs);
            let a = lower(*lhs, first);
            let b = lower(*rhs, first + lhs.leaves());
            let dst = first as usize;
            let src = (first + lhs.leaves()) as usize;
            lemma_exec_lower(*lhs, first, regs, apply);
            if let Outcome::Running(mid) = exec(a, regs, apply) {
                lemma_exec_lower(*rhs, first + lhs.leaves(), mid, apply);
            }
            lemma_exec_node(
                a,
                b,
                op,
                dst,
                src,
                IR::KILL(src),
                value(*lhs, apply),
                value(*rhs, apply),
                regs,
                apply,
            );
        },
        Tree::Return(inner) => {
            lemma_exec_lower(*inner, first, regs, apply);
        },
    }
}

/// The instructions of a tree over physical registers compute its value
/// into the register `depth` and leave the registers below that as they were.
pub proof fn lemma_exec_lower_allocated(
    tree: Tree,
    depth: nat,
    regs: Map<usize, int>,
    apply: spec_fn(Op, int, int) -> Option<int>,
)
    requires
        depth + pressure(tree) <= usize::MAX,
    ensures
        computes(
            exec(lower_allocated(tree, depth), regs, apply),
            value(tree, apply),
            depth as usize,
            regs,
        ),
    decreases tree,
{
    match tree {
        Tree::Number(_) => {
            reveal_with_fuel(exec, 2);
        },
        Tree::Node(op, lhs, rhs) => {
            let a = lower_allocated(*lhs, depth);
            let b = lower_allocated(*rhs, depth + 1);
            let dst = depth as usize;
            let src = (depth + 1) as usize;
            lemma_exec_lower_allocated(*lhs, depth, regs, apply);
            if let Outcome::Running(mid) = exec(a, regs, apply) {
                lemma_exec_lower_allocated(*rhs, depth + 1, mid, apply);
            }
            lemma_exec_node(
                a,
                b,
                op,
                dst,
                src,
                IR::NOP,
                value(*lhs, apply),
                value(*rhs, apply),
                regs,
                apply,
            );
        },
        Tree::Return(inner) => {
            lemma_exec_lower_allocated(*inner, depth, regs, apply);
        },
    }
}

/// What a whole program comes to: it returns its value, or fails where it has none.
pub open spec fn program_outcome(tree: Tree, apply: spec_fn(Op, int, int) -> Option<int>) -> Outcome {
    match value(tree, apply) {
        Some(v) => Outcome::Returned(v),
        None => Outcome::Failed,
    }
}

/// The instructions of a program return the value of its tree, from any
/// register file and for any meaning of the operators.
pub proof fn lemma_program_returns_value(
    tree: Tree,
    regs: Map<usize, int>,
    apply: spec_fn(Op, int, int) -> Option<int>,
)
    requires
        tree.leaves() <= usize::MAX,
    ensures
        exec(program_code(tree), regs, apply) == program_outcome(tree, apply),
{
    let tail = seq![IR::RETURN(0)];
    lemma_exec_lower(tree, 0, regs, apply);
    lemma_exec_concat(lower(tree, 0), tail, regs, apply);
}

/// Register allocation keeps the meaning of a program: where the program
/// fits into the physical registers, the instructions that allocation
/// leaves return the value of the tree too.
pub proof fn lemma_allocation_keeps_value(
    tree: Tree,
    regs: Map<usize, int>,
    apply: spec_fn(Op, int, int) -> Option<int>,
)
    requires
        tree.leaves() <= usize::MAX,
        pressure(tree) <= NUM_REGS,
    ensures
        exec(AllocState::fresh().run(program_code(tree)).code, regs, apply) == program_outcome(
            tree,
            apply,
        ),
{
    let tail = seq![IR::RETURN(0)];
    lemma_allocated_program(tree);
    lemma_exec_lower_allocated(tree, 0, regs, apply);
    lemma_exec_concat(lower_allocated(tree, 0), tail, regs, apply);
}

} // verus!
