//! Register pressure: how many physical registers a program needs, and the
//! proof that allocation succeeds exactly where there are that many.

use crate::ir::{binary, lemma_leaves_positive, lower, program_code, IR};
use crate::parse::{Op, Tree};
use crate::regalloc::{
    lemma_first_free, lemma_run_allocated, lemma_run_concat, with_operands, AllocState,
    RegAllocError, NUM_REGS,
};
use vstd::math::max;
use vstd::prelude::*;

verus! {

/// The number of registers that computing `tree` needs at once.
///
/// A literal needs one. A binary operation computes its left operand first
/// and holds that in one register while it computes the right operand.
pub open spec fn pressure(tree: Tree) -> nat
    decreases tree,
{
    match tree {
        Tree::Number(_) => 1,
        Tree::Node(_, lhs, rhs) => if pressure(*lhs) > pressure(*rhs) {
            pressure(*lhs)
        } else {
            1 + pressure(*rhs)
        },
        Tree::Return(inner) => pressure(*inner),
    }
}

/// What an instruction does to the number of live registers: a load starts
/// the life of one, a `KILL` or a `RETURN` ends the life of one.
pub open spec fn live_delta(ins: IR) -> int {
    match ins {
        IR::IMM(_, _) => 1,
        IR::KILL(_) => -1,
        IR::RETURN(_) => -1,
        _ => 0,
    }
}

/// The number of live registers behind `code`.
pub open spec fn live_after(code: Seq<IR>) -> int
    decreases code.len(),
{
    if code.len() == 0 {
        0
    } else {
        live_after(code.drop_last()) + live_delta(code.last())
    }
}

/// The largest number of registers that are live at once in the course of `code`.
pub open spec fn peak_live(code: Seq<IR>) -> int
    decreases code.len(),
{
    if code.len() == 0 {
        0
    } else {
        max(peak_live(code.drop_last()), live_after(code))
    }
}

/// The number of free physical registers.
spec fn free_count(in_use: Seq<bool>) -> nat
    decreases in_use.len(),
{
    if in_use.len() == 0 {
        0
    } else {
        free_count(in_use.drop_last()) + if in_use.last() {
            0nat
        } else {
            1nat
        }
    }
}

/// The instructions of `tree` over physical registers, with its result in
/// the physical register `depth`: the left operand of a binary operation is
/// computed into the register of the result, the right operand into the
/// next one.
pub open spec fn lower_allocated(tree: Tree, depth: nat) -> Seq<IR>
    decreases tree,
{
    match tree {
        Tree::Number(v) => seq![IR::IMM(depth as usize, v)],
        Tree::Node(op, lhs, rhs) => lower_allocated(*lhs, depth) + lower_allocated(
            *rhs,
            depth + 1,
        ) + seq![binary(op, depth as usize, (depth + 1) as usize), IR::NOP],
        Tree::Return(inner) => lower_allocated(*inner, depth),
    }
}

/// The instructions of a whole program over physical registers.
pub open spec fn program_allocated(tree: Tree) -> Seq<IR> {
    lower_allocated(tree, 0) + seq![IR::RETURN(0)]
}

/// The physical registers below `depth` are in use, the others are free.
spec fn stacked(in_use: Seq<bool>, depth: nat) -> bool {
    forall|j: int| 0 <= j < in_use.len() ==> in_use[j] == (j < depth)
}

/// No virtual register from `lo` up to `hi` has a physical register.
spec fn unmapped(state: AllocState, lo: int, hi: int) -> bool {
    forall|r: usize| lo <= r < hi ==> !#[trigger] state.slot_of.contains_key(r)
}

/// The two states map every virtual register outside `lo` up to `hi` alike.
spec fn same_outside(before: AllocState, after: AllocState, lo: int, hi: int) -> bool {
    forall|r: usize|
        #![trigger after.slot_of.contains_key(r)]
        #![trigger after.slot_of[r]]
        !(lo <= r < hi) ==> (after.slot_of.contains_key(r) == before.slot_of.contains_key(r))
            && (before.slot_of.contains_key(r) ==> after.slot_of[r] == before.slot_of[r])
}

/// The outcome of the instructions of a tree that takes its registers from
/// `lo` up to `hi`, in a state with enough free physical registers: the run
/// goes through, and all it leaves behind is the lowest free physical
/// register in use, for the register of the result.
spec fn holds_result(before: AllocState, after: AllocState, lo: int, hi: int) -> bool {
    &&& after.wf()
    &&& before.first_free() is Some
    &&& after.in_use == before.in_use.update(before.first_free().unwrap() as int, true)
    &&& after.slot_of.contains_key(lo as usize)
    &&& after.slot_of[lo as usize] == before.first_free().unwrap()
    &&& same_outside(before, after, lo, hi)
}

/// Every tree needs a register.
proof fn lemma_pressure_positive(tree: Tree)
    ensures
        pressure(tree) >= 1,
    decreases tree,
{
    match tree {
        Tree::Return(inner) => {
            lemma_pressure_positive(*inner);
        },
        _ => {},
    }
}

/// No physical register is free exactly where all are in use.
proof fn lemma_free_count_zero(in_use: Seq<bool>)
    ensures
        free_count(in_use) == 0 <==> forall|j: int| 0 <= j < in_use.len() ==> in_use[j],
    decreases in_use.len(),
{
    if in_use.len() > 0 {
        lemma_free_count_zero(in_use.drop_last());
        if free_count(in_use) == 0 {
            assert forall|j: int| 0 <= j < in_use.len() implies in_use[j] by {
                if j < in_use.len() - 1 {
                    assert(in_use.drop_last()[j]);
                }
            }
        } else if in_use.last() {
            let j = choose|j: int| 0 <= j < in_use.len() - 1 && !in_use.drop_last()[j];
            assert(!in_use[j]);
        }
    }
}

/// Where every physical register is free, as many are free as there are.
proof fn lemma_free_count_all(in_use: Seq<bool>)
    requires
        forall|j: int| 0 <= j < in_use.len() ==> !in_use[j],
    ensures
        free_count(in_use) == in_use.len(),
    decreases in_use.len(),
{
    if in_use.len() > 0 {
        lemma_free_count_all(in_use.drop_last());
    }
}

/// Taking a free physical register leaves one fewer free.
proof fn lemma_free_count_take(in_use: Seq<bool>, slot: int)
    requires
        0 <= slot < in_use.len(),
        !in_use[slot],
    ensures
        free_count(in_use.update(slot, true)) == free_count(in_use) - 1,
    decreases in_use.len(),
{
    let taken = in_use.update(slot, true);
    if slot == in_use.len() - 1 {
        assert(taken.drop_last() =~= in_use.drop_last());
    } else {
        assert(taken.drop_last() =~= in_use.drop_last().update(slot, true));
        lemma_free_count_take(in_use.drop_last(), slot);
    }
}

/// A physical register is free exactly where there is a lowest free one.
proof fn lemma_free_count_first_free(state: AllocState)
    requires
        state.wf(),
    ensures
        free_count(state.in_use) > 0 <==> state.first_free() is Some,
{
    lemma_first_free(state, 0);
    lemma_free_count_zero(state.in_use);
}

/// A sequence of one instruction runs as that instruction.
proof fn lemma_run_single(state: AllocState, ins: IR)
    ensures
        state.run(seq![ins]).error == state.step(ins).error,
        state.run(seq![ins]).state == state.step(ins).state,
        state.step(ins).error is None ==> state.run(seq![ins]).code == seq![state.step(ins).ins],
{
    let code = seq![ins];
    assert(code.drop_first() =~= Seq::<IR>::empty());
    reveal_with_fuel(AllocState::run, 2);
    assert(seq![state.step(ins).ins] + Seq::<IR>::empty() =~= seq![state.step(ins).ins]);
}

/// A binary operation on two registers that have their physical registers,
/// and the `KILL` of the second, go through and leave the physical register
/// of the second free.
proof fn lemma_run_operation(state: AllocState, ins: IR, dst: usize, src: usize)
    requires
        state.wf(),
        state.slot_of.contains_key(dst),
        state.slot_of.contains_key(src),
        ins == IR::ADD(dst, src) || ins == IR::SUB(dst, src) || ins == IR::MUL(dst, src) || ins
            == IR::DIV(dst, src),
    ensures
        state.run(seq![ins, IR::KILL(src)]).error is None,
        state.run(seq![ins, IR::KILL(src)]).state == (AllocState {
            slot_of: state.slot_of,
            in_use: state.in_use.update(state.slot_of[src] as int, false),
        }),
        state.run(seq![ins, IR::KILL(src)]).code == seq![
            with_operands(ins, state.slot_of[dst], state.slot_of[src]),
            IR::NOP,
        ],
{
    let one = seq![ins];
    let two = seq![IR::KILL(src)];
    assert(seq![ins, IR::KILL(src)] =~= one + two);
    lemma_run_concat(state, one, two);
    lemma_run_single(state, ins);
    assert(state.step(ins).state == state);
    lemma_run_single(state, IR::KILL(src));
    assert(seq![state.step(ins).ins] + seq![IR::NOP] =~= seq![state.step(ins).ins, IR::NOP]);
}

/// The instructions of a literal.
proof fn lemma_number_run(v: i64, first: nat, state: AllocState)
    requires
        state.wf(),
        first + 1 <= usize::MAX,
        !state.slot_of.contains_key(first as usize),
    ensures
        ({
            let run = state.run(seq![IR::IMM(first as usize, v)]);
            if 1 <= free_count(state.in_use) {
                run.error is None && holds_result(state, run.state, first as int, first as int + 1)
            } else {
                run.error matches Some(RegAllocError::Alloc(_))
            }
        }),
{
    lemma_free_count_first_free(state);
    lemma_first_free(state, 0);
    lemma_run_single(state, IR::IMM(first as usize, v));
    lemma_run_allocated(state, seq![IR::IMM(first as usize, v)]);
}

/// The instructions of a binary operation, from the outcomes of those of
/// its operands.
proof fn lemma_node_run(
    state: AllocState,
    a: Seq<IR>,
    b: Seq<IR>,
    ins: IR,
    lo: int,
    mid: int,
    hi: int,
)
    requires
        state.wf(),
        0 <= lo < mid < hi <= usize::MAX,
        ins == IR::ADD(lo as usize, mid as usize) || ins == IR::SUB(lo as usize, mid as usize)
            || ins == IR::MUL(lo as usize, mid as usize) || ins == IR::DIV(
            lo as usize,
            mid as usize,
        ),
        state.run(a).error is None,
        holds_result(state, state.run(a).state, lo, mid),
        state.run(a).state.run(b).error is None,
        holds_result(state.run(a).state, state.run(a).state.run(b).state, mid, hi),
    ensures
        state.run((a + b) + seq![ins, IR::KILL(mid as usize)]).error is None,
        holds_result(
            state,
            state.run((a + b) + seq![ins, IR::KILL(mid as usize)]).state,
            lo,
            hi,
        ),
{
    let dst = lo as usize;
    let src = mid as usize;
    let tail = seq![ins, IR::KILL(src)];
    let s1 = state.run(a).state;
    let s2 = s1.run(b).state;
    lemma_run_concat(state, a, b);
    lemma_run_concat(state, a + b, tail);
    assert(state.run(a + b).state == s2);
    assert(s2.slot_of.contains_key(src));
    assert(s2.slot_of.contains_key(dst) && s2.slot_of[dst] == s1.slot_of[dst]);
    lemma_run_operation(s2, ins, dst, src);
    let s3 = s2.run(tail).state;
    lemma_run_allocated(s2, tail);
    lemma_first_free(s1, 0);
    assert(s3.in_use =~= s1.in_use);
    assert(state.run((a + b) + tail).state == s3);
}

/// What the instructions of a tree do to an allocation state that has not
/// seen the registers of the tree yet.
///
/// Where the state has as many free physical registers as the tree needs,
/// the run goes through, and all it leaves behind is the lowest free
/// physical register in use, for the register of the result. Where it has
/// fewer, the run fails for want of a free physical register.
proof fn lemma_lower_run(tree: Tree, first: nat, state: AllocState)
    requires
        state.wf(),
        first + tree.leaves() <= usize::MAX,
        unmapped(state, first as int, (first + tree.leaves()) as int),
    ensures
        ({
            let run = state.run(lower(tree, first));
            if pressure(tree) <= free_count(state.in_use) {
                run.error is None && holds_result(
                    state,
                    run.state,
                    first as int,
                    (first + tree.leaves()) as int,
                )
            } else {
                run.error matches Some(RegAllocError::Alloc(_))
            }
        }),
    decreases tree,
{
    match tree {
        Tree::Number(v) => {
            lemma_number_run(v, first, state);
        },
        Tree::Node(op, lhs, rhs) => {
            lemma_leaves_positive(*lhs);
            lemma_leaves_positive(*rhs);
            lemma_pressure_positive(*lhs);
            lemma_pressure_positive(*rhs);
            let a = lower(*lhs, first);
            let b = lower(*rhs, first + lhs.leaves());
            let lo = first as int;
            let mid = (first + lhs.leaves()) as int;
            let hi = (first + tree.leaves()) as int;
            let ins = binary(op, lo as usize, mid as usize);
            let tail = seq![ins, IR::KILL(mid as usize)];
            assert(lower(tree, first) == (a + b) + tail);
            lemma_run_concat(state, a + b, tail);
            lemma_run_concat(state, a, b);
            lemma_lower_run(*lhs, first, state);
            if pressure(*lhs) <= free_count(state.in_use) {
                let s1 = state.run(a).state;
                lemma_first_free(state, 0);
                lemma_free_count_take(state.in_use, state.first_free().unwrap() as int);
                assert(unmapped(s1, mid, hi));
                lemma_lower_run(*rhs, (first + lhs.leaves()) as nat, s1);
                if pressure(*rhs) <= free_count(s1.in_use) {
                    lemma_node_run(state, a, b, ins, lo, mid, hi);
                }
            }
        },
        Tree::Return(inner) => {
            lemma_lower_run(*inner, first, state);
        },
    }
}

/// A stack of `depth` physical registers leaves the others free.
proof fn lemma_stacked_free_count(in_use: Seq<bool>, depth: nat)
    requires
        stacked(in_use, depth),
        depth <= in_use.len(),
    ensures
        free_count(in_use) == in_use.len() - depth,
    decreases in_use.len(),
{
    if in_use.len() > 0 {
        let rest = in_use.drop_last();
        if depth == in_use.len() {
            lemma_stacked_free_count(rest, (depth - 1) as nat);
            lemma_free_count_zero(in_use);
            lemma_free_count_zero(rest);
        } else {
            assert(stacked(rest, depth));
            lemma_stacked_free_count(rest, depth);
        }
    }
}

/// The lowest free physical register above a stack of `depth` is `depth`.
proof fn lemma_stacked_first_free(state: AllocState, depth: nat)
    requires
        state.wf(),
        stacked(state.in_use, depth),
        depth < NUM_REGS,
    ensures
        state.first_free() == Some(depth as usize),
        stacked(state.in_use.update(depth as int, true), depth + 1),
{
    lemma_first_free(state, 0);
    assert(!state.in_use[depth as int]);
}

/// The rewritten instructions of a binary operation, from those of its operands.
proof fn lemma_node_code(
    state: AllocState,
    a: Seq<IR>,
    b: Seq<IR>,
    op: Op,
    lo: usize,
    mid: usize,
    depth: nat,
)
    requires
        state.run(a).error is None,
        state.run(a).state.run(b).error is None,
        state.run(a).state.run(b).state.wf(),
        depth + 1 < NUM_REGS,
        ({
            let s2 = state.run(a).state.run(b).state;
            &&& s2.slot_of.contains_key(lo) && s2.slot_of[lo] == depth
            &&& s2.slot_of.contains_key(mid) && s2.slot_of[mid] == depth + 1
        }),
    ensures
        state.run((a + b) + seq![binary(op, lo, mid), IR::KILL(mid)]).code == (state.run(a).code
            + state.run(a).state.run(b).code) + seq![
            binary(op, depth as usize, (depth + 1) as usize),
            IR::NOP,
        ],
{
    let ins = binary(op, lo, mid);
    let tail = seq![ins, IR::KILL(mid)];
    let s2 = state.run(a).state.run(b).state;
    lemma_run_concat(state, a, b);
    lemma_run_concat(state, a + b, tail);
    lemma_run_operation(s2, ins, lo, mid);
}

/// From a state with a stack of `depth` physical registers in use, the
/// instructions of a tree that fits into the others are rewritten to
/// [`lower_allocated`] at that depth.
proof fn lemma_lower_code(tree: Tree, first: nat, state: AllocState, depth: nat)
    requires
        state.wf(),
        first + tree.leaves() <= usize::MAX,
        unmapped(state, first as int, (first + tree.leaves()) as int),
        stacked(state.in_use, depth),
        depth + pressure(tree) <= NUM_REGS,
    ensures
        state.run(lower(tree, first)).code == lower_allocated(tree, depth),
    decreases tree,
{
    lemma_pressure_positive(tree);
    lemma_stacked_free_count(state.in_use, depth);
    lemma_stacked_first_free(state, depth);
    match tree {
        Tree::Number(v) => {
            lemma_run_single(state, IR::IMM(first as usize, v));
        },
        Tree::Node(op, lhs, rhs) => {
            lemma_leaves_positive(*lhs);
            lemma_leaves_positive(*rhs);
            lemma_pressure_positive(*lhs);
            lemma_pressure_positive(*rhs);
            let a = lower(*lhs, first);
            let b = lower(*rhs, first + lhs.leaves());
            let lo = first as usize;
            let mid = (first + lhs.leaves()) as usize;
            assert(lower(tree, first) == (a + b) + seq![binary(op, lo, mid), IR::KILL(mid)]);
            lemma_lower_run(*lhs, first, state);
            lemma_lower_code(*lhs, first, state, depth);
            let s1 = state.run(a).state;
            assert(unmapped(s1, mid as int, (first + tree.leaves()) as int));
            lemma_stacked_free_count(s1.in_use, depth + 1);
            lemma_stacked_first_free(s1, depth + 1);
            lemma_lower_run(*rhs, first + lhs.leaves(), s1);
            lemma_lower_code(*rhs, first + lhs.leaves(), s1, depth + 1);
            let s2 = s1.run(b).state;
            assert(holds_result(state, s1, first as int, mid as int));
            assert(holds_result(s1, s2, mid as int, (first + tree.leaves()) as int));
            assert(lo < mid);
            assert(s1.slot_of.contains_key(lo) && s1.slot_of[lo] == depth);
            assert(s2.slot_of.contains_key(lo) && s2.slot_of[lo] == depth);
            assert(s2.slot_of.contains_key(mid) && s2.slot_of[mid] == depth + 1);
            lemma_node_code(state, a, b, op, lo, mid, depth);
        },
        Tree::Return(inner) => {
            lemma_lower_code(*inner, first, state, depth);
        },
    }
}

/// Register allocation of a program that fits into the physical registers
/// gives [`program_allocated`]: a value lives in the physical register whose
/// number is the count of right operands that it stands below.
pub proof fn lemma_allocated_program(tree: Tree)
    requires
        tree.leaves() <= usize::MAX,
        pressure(tree) <= NUM_REGS,
    ensures
        AllocState::fresh().run(program_code(tree)).error is None,
        AllocState::fresh().run(program_code(tree)).code == program_allocated(tree),
{
    let fresh = AllocState::fresh();
    let body = lower(tree, 0);
    let tail = seq![IR::RETURN(0)];
    lemma_program_peak_live(tree);
    lemma_allocation_succeeds_iff_pressure_fits(tree);
    lemma_lower_run(tree, 0, fresh);
    lemma_lower_code(tree, 0, fresh, 0);
    lemma_run_concat(fresh, body, tail);
    lemma_run_single(fresh.run(body).state, IR::RETURN(0));
}

/// A term needs two registers at most, an expression and a program three.
pub proof fn lemma_shape_pressure(tree: Tree)
    ensures
        tree.is_term() ==> pressure(tree) <= 2,
        tree.is_expr() ==> pressure(tree) <= 3,
        tree.is_program() ==> pressure(tree) <= 3,
    decreases tree,
{
    match tree {
        Tree::Number(_) => {},
        Tree::Node(_, lhs, rhs) => {
            lemma_shape_pressure(*lhs);
            lemma_shape_pressure(*rhs);
        },
        Tree::Return(inner) => {
            lemma_shape_pressure(*inner);
        },
    }
}

/// The number of live registers behind two sequences in a row.
proof fn lemma_live_after_concat(a: Seq<IR>, b: Seq<IR>)
    ensures
        live_after(a + b) == live_after(a) + live_after(b),
    decreases b.len(),
{
    if b.len() > 0 {
        assert((a + b).drop_last() =~= a + b.drop_last());
        lemma_live_after_concat(a, b.drop_last());
    }
}

/// The peak of two sequences in a row: that of the first, or that of the
/// second on top of what the first leaves live.
proof fn lemma_peak_live_concat(a: Seq<IR>, b: Seq<IR>)
    ensures
        peak_live(a + b) == max(peak_live(a), live_after(a) + peak_live(b)),
    decreases b.len(),
{
    if b.len() > 0 {
        assert((a + b).drop_last() =~= a + b.drop_last());
        lemma_peak_live_concat(a, b.drop_last());
        lemma_live_after_concat(a, b);
    }
}

/// The instructions of a tree leave one register live, that of the result,
/// and have as many live at once as the tree needs.
proof fn lemma_lower_live(tree: Tree, first: nat)
    ensures
        live_after(lower(tree, first)) == 1,
        peak_live(lower(tree, first)) == pressure(tree),
    decreases tree,
{
    match tree {
        Tree::Number(_) => {
            reveal_with_fuel(live_after, 2);
            reveal_with_fuel(peak_live, 2);
        },
        Tree::Node(op, lhs, rhs) => {
            let a = lower(*lhs, first);
            let b = lower(*rhs, first + lhs.leaves());
            let dst = first as usize;
            let src = (first + lhs.leaves()) as usize;
            let tail = seq![binary(op, dst, src), IR::KILL(src)];
            assert(lower(tree, first) == (a + b) + tail);
            lemma_lower_live(*lhs, first);
            lemma_lower_live(*rhs, first + lhs.leaves());
            lemma_live_after_concat(a, b);
            lemma_peak_live_concat(a, b);
            lemma_live_after_concat(a + b, tail);
            lemma_peak_live_concat(a + b, tail);
            reveal_with_fuel(live_after, 3);
            reveal_with_fuel(peak_live, 3);
        },
        Tree::Return(inner) => {
            lemma_lower_live(*inner, first);
        },
    }
}

/// The instructions of a program have as many registers live at once as its
/// tree needs.
pub proof fn lemma_program_peak_live(tree: Tree)
    ensures
        peak_live(program_code(tree)) == pressure(tree),
{
    let body = lower(tree, 0);
    let tail = seq![IR::RETURN(0)];
    lemma_lower_live(tree, 0);
    lemma_peak_live_concat(body, tail);
    reveal_with_fuel(live_after, 2);
    reveal_with_fuel(peak_live, 2);
}

/// Register allocation of a program from the fresh state goes through where
/// the program never has more registers live at once than there are
/// physical registers, and fails for want of a free physical register where
/// it has.
pub proof fn lemma_allocation_succeeds_iff_pressure_fits(tree: Tree)
    requires
        tree.leaves() <= usize::MAX,
    ensures
        peak_live(program_code(tree)) <= NUM_REGS ==> AllocState::fresh().run(
            program_code(tree),
        ).error is None,
        peak_live(program_code(tree)) > NUM_REGS ==> AllocState::fresh().run(
            program_code(tree),
        ).error matches Some(RegAllocError::Alloc(_)),
{
    let fresh = AllocState::fresh();
    let body = lower(tree, 0);
    let tail = seq![IR::RETURN(0)];
    lemma_program_peak_live(tree);
    lemma_free_count_all(fresh.in_use);
    lemma_lower_run(tree, 0, fresh);
    lemma_run_concat(fresh, body, tail);
    lemma_run_single(fresh.run(body).state, IR::RETURN(0));
}

} // verus!
