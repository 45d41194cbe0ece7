//! Register allocation: virtual registers to the eight physical registers.
//!
//! One forward pass over the instructions. A virtual register gets the
//! lowest free physical register when it is first referenced and keeps it;
//! `KILL` and `RETURN` free the physical register of their operand. Nothing
//! is spilled: where no physical register is free, allocation fails.

use crate::ir::IR;
use std::collections::HashMap;
use vstd::prelude::*;

verus! {

broadcast use vstd::std_specs::hash::group_hash_axioms;

/// The number of physical registers.
pub const NUM_REGS: usize = 8;

/// No physical register was free for the virtual register `reg`.
#[derive(Clone, Copy, Debug, PartialEq, Eq, Structural)]
pub struct AllocError {
    pub reg: usize,
}

/// A `KILL` or `RETURN` named the virtual register `reg`, which no earlier
/// instruction had referenced.
#[derive(Clone, Copy, Debug, PartialEq, Eq, Structural)]
pub struct InternalError {
    pub reg: usize,
}

/// Why register allocation stopped.
#[derive(Clone, Copy, Debug, PartialEq, Eq, Structural)]
pub enum RegAllocError {
    Alloc(AllocError),
    Internal(InternalError),
}

/// The mathematical value of an allocation state: the physical register of
/// each virtual register referenced so far, and which physical registers
/// are in use.
pub struct AllocState {
    pub slot_of: Map<usize, usize>,
    pub in_use: Seq<bool>,
}

/// What one instruction does to the allocation state: the state behind it,
/// the instruction over physical registers, and the error if it failed (the
/// instruction is then unchanged).
pub struct Step {
    pub state: AllocState,
    pub ins: IR,
    pub error: Option<RegAllocError>,
}

/// What a sequence of instructions does to the allocation state: the state
/// behind it, the instructions over physical registers, and the error of the
/// first instruction that failed (that one and those behind it are then
/// unchanged).
pub struct Run {
    pub state: AllocState,
    pub code: Seq<IR>,
    pub error: Option<RegAllocError>,
}

impl AllocState {
    /// Some virtual register has the physical register `slot`.
    pub open spec fn owned(self, slot: int) -> bool {
        exists|v: usize| #[trigger] self.slot_of.contains_key(v) && self.slot_of[v] == slot
    }

    /// Every virtual register is mapped to one of the physical registers,
    /// and a physical register is in use only where some virtual register
    /// has it.
    pub open spec fn wf(self) -> bool {
        &&& self.in_use.len() == NUM_REGS
        &&& forall|v: usize|
            #![trigger self.slot_of.contains_key(v)]
            #![trigger self.slot_of[v]]
            self.slot_of.contains_key(v) ==> self.slot_of[v] < NUM_REGS
        &&& forall|slot: int|
            0 <= slot < self.in_use.len() && #[trigger] self.in_use[slot] ==> self.owned(slot)
    }

    /// The state before any instruction: nothing mapped, nothing in use.
    pub open spec fn fresh() -> AllocState {
        AllocState { slot_of: Map::empty(), in_use: Seq::new(NUM_REGS as nat, |i: int| false) }
    }

    /// The lowest free physical register at or above `i`.
    pub open spec fn first_free_from(self, i: int) -> Option<usize>
        decreases self.in_use.len() - i,
    {
        if !(0 <= i < self.in_use.len()) {
            None
        } else if !self.in_use[i] {
            Some(i as usize)
        } else {
            self.first_free_from(i + 1)
        }
    }

    /// The lowest free physical register.
    pub open spec fn first_free(self) -> Option<usize> {
        self.first_free_from(0)
    }

    /// The physical register of the virtual register `v`: the one it has,
    /// or else the lowest free one, which it then takes.
    pub open spec fn resolve(self, v: usize) -> (AllocState, Result<usize, AllocError>) {
        if self.slot_of.contains_key(v) {
            (self, Ok(self.slot_of[v]))
        } else {
            match self.first_free() {
                Some(slot) => (
                    AllocState {
                        slot_of: self.slot_of.insert(v, slot),
                        in_use: self.in_use.update(slot as int, true),
                    },
                    Ok(slot),
                ),
                None => (self, Err(AllocError { reg: v })),
            }
        }
    }

    /// Frees the physical register of the virtual register `v`, which keeps
    /// its mapping.
    pub open spec fn release(self, v: usize) -> (AllocState, Result<usize, InternalError>) {
        if self.slot_of.contains_key(v) {
            let slot = self.slot_of[v];
            (AllocState { slot_of: self.slot_of, in_use: self.in_use.update(slot as int, false) }, Ok(slot))
        } else {
            (self, Err(InternalError { reg: v }))
        }
    }

    /// The physical registers of both operands of a two-operand
    /// instruction, the first one resolved first.
    pub open spec fn resolve_pair(self, dst: usize, src: usize) -> (
        AllocState,
        Result<(usize, usize), AllocError>,
    ) {
        let (s1, r1) = self.resolve(dst);
        match r1 {
            Err(e) => (s1, Err(e)),
            Ok(d) => {
                let (s2, r2) = s1.resolve(src);
                match r2 {
                    Err(e) => (s2, Err(e)),
                    Ok(s) => (s2, Ok((d, s))),
                }
            },
        }
    }

    /// A two-operand instruction.
    pub open spec fn step_binary(self, ins: IR, dst: usize, src: usize) -> Step {
        let (state, r) = self.resolve_pair(dst, src);
        match r {
            Err(e) => Step { state, ins, error: Some(RegAllocError::Alloc(e)) },
            Ok((d, s)) => Step { state, ins: with_operands(ins, d, s), error: None },
        }
    }

    /// One instruction.
    pub open spec fn step(self, ins: IR) -> Step {
        match ins {
            IR::IMM(dst, value) => {
                let (s1, r1) = self.resolve(dst);
                match r1 {
                    Err(e) => Step { state: s1, ins, error: Some(RegAllocError::Alloc(e)) },
                    Ok(d) => Step { state: s1, ins: IR::IMM(d, value), error: None },
                }
            },
            IR::MOV(dst, src) => self.step_binary(ins, dst, src),
            IR::ADD(dst, src) => self.step_binary(ins, dst, src),
            IR::SUB(dst, src) => self.step_binary(ins, dst, src),
            IR::MUL(dst, src) => self.step_binary(ins, dst, src),
            IR::DIV(dst, src) => self.step_binary(ins, dst, src),
            IR::RETURN(reg) => {
                let (s1, r1) = self.release(reg);
                match r1 {
                    Err(e) => Step { state: s1, ins, error: Some(RegAllocError::Internal(e)) },
                    Ok(slot) => Step { state: s1, ins: IR::RETURN(slot), error: None },
                }
            },
            IR::KILL(reg) => {
                let (s1, r1) = self.release(reg);
                match r1 {
                    Err(e) => Step { state: s1, ins, error: Some(RegAllocError::Internal(e)) },
                    Ok(_) => Step { state: s1, ins: IR::NOP, error: None },
                }
            },
            IR::NOP => Step { state: self, ins, error: None },
        }
    }

    /// The instructions of `code` one after the other, up to the first that fails.
    pub open spec fn run(self, code: Seq<IR>) -> Run
        decreases code.len(),
    {
        if code.len() == 0 {
            Run { state: self, code, error: None }
        } else {
            let first = self.step(code.first());
            if first.error is Some {
                Run { state: first.state, code, error: first.error }
            } else {
                let rest = first.state.run(code.drop_first());
                Run { state: rest.state, code: seq![first.ins] + rest.code, error: rest.error }
            }
        }
    }
}

/// Every register that the assembly of the instruction names is a physical
/// register. A `KILL` has no assembly.
pub open spec fn allocated(ins: IR) -> bool {
    match ins {
        IR::IMM(r, _) => r < NUM_REGS,
        IR::MOV(r, s) => r < NUM_REGS && s < NUM_REGS,
        IR::RETURN(r) => r < NUM_REGS,
        IR::ADD(r, s) => r < NUM_REGS && s < NUM_REGS,
        IR::SUB(r, s) => r < NUM_REGS && s < NUM_REGS,
        IR::MUL(r, s) => r < NUM_REGS && s < NUM_REGS,
        IR::DIV(r, s) => r < NUM_REGS && s < NUM_REGS,
        IR::KILL(_) => true,
        IR::NOP => true,
    }
}

/// The two-operand instruction `ins` with its operands replaced.
pub open spec fn with_operands(ins: IR, dst: usize, src: usize) -> IR {
    match ins {
        IR::MOV(_, _) => IR::MOV(dst, src),
        IR::ADD(_, _) => IR::ADD(dst, src),
        IR::SUB(_, _) => IR::SUB(dst, src),
        IR::MUL(_, _) => IR::MUL(dst, src),
        IR::DIV(_, _) => IR::DIV(dst, src),
        _ => ins,
    }
}

/// Resolving a virtual register keeps a state well-formed and gives a
/// physical register.
pub proof fn lemma_resolve_wf(state: AllocState, v: usize)
    requires
        state.wf(),
    ensures
        state.resolve(v).0.wf(),
        state.resolve(v).1 matches Ok(slot) ==> slot < NUM_REGS,
{
    lemma_first_free(state, 0);
    let after = state.resolve(v).0;
    assert forall|slot: int| 0 <= slot < after.in_use.len() && #[trigger] after.in_use[slot]
        implies after.owned(slot) by {
        if state.in_use[slot] {
            let w = choose|w: usize| #[trigger]
                state.slot_of.contains_key(w) && state.slot_of[w] == slot;
            assert(after.slot_of.contains_key(w) && after.slot_of[w] == slot);
        } else {
            assert(after.slot_of.contains_key(v) && after.slot_of[v] == slot);
        }
    }
}

/// Releasing a virtual register keeps a state well-formed.
pub proof fn lemma_release_wf(state: AllocState, v: usize)
    requires
        state.wf(),
    ensures
        state.release(v).0.wf(),
        state.release(v).1 matches Ok(slot) ==> slot < NUM_REGS,
{
    let after = state.release(v).0;
    assert forall|slot: int| 0 <= slot < after.in_use.len() && #[trigger] after.in_use[slot]
        implies after.owned(slot) by {
        assert(state.in_use[slot]);
        let w = choose|w: usize| #[trigger]
            state.slot_of.contains_key(w) && state.slot_of[w] == slot;
        assert(after.slot_of.contains_key(w) && after.slot_of[w] == slot);
    }
}

/// A well-formed state stays well-formed over one instruction, and an
/// instruction that went through names physical registers only.
pub proof fn lemma_step_allocated(state: AllocState, ins: IR)
    requires
        state.wf(),
    ensures
        state.step(ins).state.wf(),
        state.step(ins).error is None ==> allocated(state.step(ins).ins),
{
    match ins {
        IR::IMM(dst, _) => {
            lemma_resolve_wf(state, dst);
        },
        IR::MOV(dst, src) | IR::ADD(dst, src) | IR::SUB(dst, src) | IR::MUL(dst, src) | IR::DIV(
            dst,
            src,
        ) => {
            lemma_resolve_wf(state, dst);
            lemma_resolve_wf(state.resolve(dst).0, src);
        },
        IR::RETURN(reg) | IR::KILL(reg) => {
            lemma_release_wf(state, reg);
        },
        IR::NOP => {},
    }
}

/// A well-formed state stays well-formed over a sequence of instructions, and
/// where all of them went through, all of them name physical registers only.
pub proof fn lemma_run_allocated(state: AllocState, code: Seq<IR>)
    requires
        state.wf(),
    ensures
        state.run(code).state.wf(),
        state.run(code).code.len() == code.len(),
        state.run(code).error is None ==> forall|i: int|
            0 <= i < code.len() ==> allocated(#[trigger] state.run(code).code[i]),
    decreases code.len(),
{
    if code.len() > 0 {
        lemma_step_allocated(state, code.first());
        let first = state.step(code.first());
        if first.error is None {
            lemma_run_allocated(first.state, code.drop_first());
        }
    }
}

/// The lowest free physical register at or above `i`, where there is one,
/// is a free physical register, and every one between `i` and it is in use.
pub proof fn lemma_first_free(state: AllocState, i: int)
    requires
        0 <= i <= state.in_use.len() <= usize::MAX,
    ensures
        match state.first_free_from(i) {
            Some(slot) => i <= slot < state.in_use.len() && !state.in_use[slot as int] && forall|
                j: int,
            |
                i <= j < slot ==> state.in_use[j],
            None => forall|j: int| i <= j < state.in_use.len() ==> state.in_use[j],
        },
    decreases state.in_use.len() - i,
{
    if i < state.in_use.len() && state.in_use[i] {
        lemma_first_free(state, i + 1);
    }
}

/// A sequence in two parts runs as the first part and then, from the state
/// that it leaves, the second; where the first part fails, the second is
/// left as it is.
pub proof fn lemma_run_concat(state: AllocState, a: Seq<IR>, b: Seq<IR>)
    ensures
        state.run(a + b) == (if state.run(a).error is Some {
            Run {
                state: state.run(a).state,
                code: state.run(a).code + b,
                error: state.run(a).error,
            }
        } else {
            after_done(state.run(a).code, state.run(a).state.run(b))
        }),
    decreases a.len(),
{
    if a.len() == 0 {
    } else {
        let first = state.step(a.first());
        assert((a + b).drop_first() =~= a.drop_first() + b);
        if first.error is None {
            lemma_run_concat(first.state, a.drop_first(), b);
            let rest = first.state.run(a.drop_first());
            if rest.error is Some {
                assert(seq![first.ins] + (rest.code + b) =~= (seq![first.ins] + rest.code) + b);
            } else {
                let tail = rest.state.run(b);
                assert(seq![first.ins] + (rest.code + tail.code) =~= (seq![first.ins] + rest.code)
                    + tail.code);
            }
        }
    }
}

/// The allocation state of one compilation.
pub struct RegAlloc {
    reg_map: HashMap<usize, usize>,
    used: [bool; NUM_REGS],
}

impl View for RegAlloc {
    type V = AllocState;

    closed spec fn view(&self) -> AllocState {
        AllocState { slot_of: self.reg_map@, in_use: self.used@ }
    }
}

impl RegAlloc {
    /// A state with nothing mapped and every physical register free.
    pub fn new() -> (state: RegAlloc)
        ensures
            state@ == AllocState::fresh(),
            state@.wf(),
    {
        let state = RegAlloc { reg_map: HashMap::new(), used: [false; NUM_REGS] };
        assert(state@.in_use =~= AllocState::fresh().in_use);
        state
    }

    /// The physical register of the virtual register `ir_reg`, if it has one.
    pub fn slot(&self, ir_reg: usize) -> (found: Option<usize>)
        requires
            self@.wf(),
        ensures
            found == (if self@.slot_of.contains_key(ir_reg) {
                Some(self@.slot_of[ir_reg])
            } else {
                None
            }),
            found matches Some(r) ==> r < NUM_REGS,
    {
        match self.reg_map.get(&ir_reg) {
            Some(r) => {
                assert(self@.slot_of.contains_key(ir_reg));
                Some(*r)
            },
            None => None,
        }
    }
}

/// Gives the virtual register `ir_reg` its physical register: the one it
/// has, or else the lowest free one. Fails, and leaves the state as it was,
/// where it has none and none is free.
pub fn alloc_reg(state: &mut RegAlloc, ir_reg: usize) -> (r: Result<usize, AllocError>)
    requires
        old(state)@.wf(),
    ensures
        final(state)@.wf(),
        (final(state)@, r) == old(state)@.resolve(ir_reg),
        r matches Ok(slot) ==> slot < NUM_REGS,
{
    match state.slot(ir_reg) {
        Some(r) => {
            return Ok(r);
        },
        None => {},
    }
    let mut i: usize = 0;
    while i < NUM_REGS
        invariant
            i <= NUM_REGS,
            *state == *old(state),
            state@.wf(),
            !state@.slot_of.contains_key(ir_reg),
            state@.first_free() == state@.first_free_from(i as int),
        decreases NUM_REGS - i,
    {
        if !state.used[i] {
            proof {
                lemma_resolve_wf(state@, ir_reg);
            }
            state.used[i] = true;
            state.reg_map.insert(ir_reg, i);
            return Ok(i);
        }
        i += 1;
    }
    Err(AllocError { reg: ir_reg })
}

/// Marks the physical register `r` as free.
pub fn kill(state: &mut RegAlloc, r: usize)
    requires
        old(state)@.wf(),
        r < NUM_REGS,
    ensures
        final(state)@.wf(),
        final(state)@ == (AllocState {
            slot_of: old(state)@.slot_of,
            in_use: old(state)@.in_use.update(r as int, false),
        }),
{
    let ghost before = state@;
    state.used[r] = false;
    proof {
        assert forall|slot: int| 0 <= slot < state@.in_use.len() && #[trigger] state@.in_use[slot]
            implies state@.owned(slot) by {
            assert(before.in_use[slot]);
            let w = choose|w: usize| #[trigger]
                before.slot_of.contains_key(w) && before.slot_of[w] == slot;
            assert(state@.slot_of.contains_key(w) && state@.slot_of[w] == slot);
        }
    }
}

/// Frees the physical register of the virtual register `ir_reg` and returns
/// it. Fails, and leaves the state as it was, where `ir_reg` has none.
fn release(state: &mut RegAlloc, ir_reg: usize) -> (r: Result<usize, InternalError>)
    requires
        old(state)@.wf(),
    ensures
        final(state)@.wf(),
        (final(state)@, r) == old(state)@.release(ir_reg),
        r matches Ok(slot) ==> slot < NUM_REGS,
{
    match state.slot(ir_reg) {
        Some(r) => {
            kill(state, r);
            Ok(r)
        },
        None => Err(InternalError { reg: ir_reg }),
    }
}

/// Gives both operands of a two-operand instruction their physical
/// registers, the first one first.
fn alloc_pair(state: &mut RegAlloc, dst: usize, src: usize) -> (r: Result<
    (usize, usize),
    AllocError,
>)
    requires
        old(state)@.wf(),
    ensures
        final(state)@.wf(),
        (final(state)@, r) == old(state)@.resolve_pair(dst, src),
        r matches Ok((d, s)) ==> d < NUM_REGS && s < NUM_REGS,
{
    let d: usize = match alloc_reg(state, dst) {
        Ok(slot) => slot,
        Err(e) => {
            return Err(e);
        },
    };
    match alloc_reg(state, src) {
        Ok(s) => Ok((d, s)),
        Err(e) => Err(e),
    }
}

/// Rewrites one instruction over physical registers.
fn alloc_step(state: &mut RegAlloc, ins: IR) -> (r: Result<IR, RegAllocError>)
    requires
        old(state)@.wf(),
    ensures
        final(state)@.wf(),
        final(state)@ == old(state)@.step(ins).state,
        r == (match old(state)@.step(ins).error {
            None => Ok::<IR, RegAllocError>(old(state)@.step(ins).ins),
            Some(e) => Err::<IR, RegAllocError>(e),
        }),
{
    match ins {
        IR::IMM(dst, value) => match alloc_reg(state, dst) {
            Ok(d) => Ok(IR::IMM(d, value)),
            Err(e) => Err(RegAllocError::Alloc(e)),
        },
        IR::MOV(dst, src) => match alloc_pair(state, dst, src) {
            Ok((d, s)) => Ok(IR::MOV(d, s)),
            Err(e) => Err(RegAllocError::Alloc(e)),
        },
        IR::ADD(dst, src) => match alloc_pair(state, dst, src) {
            Ok((d, s)) => Ok(IR::ADD(d, s)),
            Err(e) => Err(RegAllocError::Alloc(e)),
        },
        IR::SUB(dst, src) => match alloc_pair(state, dst, src) {
            Ok((d, s)) => Ok(IR::SUB(d, s)),
            Err(e) => Err(RegAllocError::Alloc(e)),
        },
        IR::MUL(dst, src) => match alloc_pair(state, dst, src) {
            Ok((d, s)) => Ok(IR::MUL(d, s)),
            Err(e) => Err(RegAllocError::Alloc(e)),
        },
        IR::DIV(dst, src) => match alloc_pair(state, dst, src) {
            Ok((d, s)) => Ok(IR::DIV(d, s)),
            Err(e) => Err(RegAllocError::Alloc(e)),
        },
        IR::RETURN(reg) => match release(state, reg) {
            Ok(slot) => Ok(IR::RETURN(slot)),
            Err(e) => Err(RegAllocError::Internal(e)),
        },
        IR::KILL(reg) => match release(state, reg) {
            Ok(_) => Ok(IR::NOP),
            Err(e) => Err(RegAllocError::Internal(e)),
        },
        IR::NOP => Ok(IR::NOP),
    }
}

/// The outcome of a sequence of instructions of which the first ones, now
/// `done`, went through.
pub open spec fn after_done(done: Seq<IR>, rest: Run) -> Run {
    Run { state: rest.state, code: done + rest.code, error: rest.error }
}

/// Rewrites the instructions in place, from virtual to physical registers.
///
/// The instructions are taken one after the other. The pass stops at the
/// first one that fails: that one and those behind it stay as they were.
/// Where none fails, every operand is a physical register afterwards.
pub fn alloc_regs(instructions: &mut Vec<IR>, state: &mut RegAlloc) -> (r: Result<
    (),
    RegAllocError,
>)
    requires
        old(state)@.wf(),
    ensures
        final(state)@.wf(),
        final(state)@ == old(state)@.run(old(instructions)@).state,
        final(instructions)@ == old(state)@.run(old(instructions)@).code,
        r == (match old(state)@.run(old(instructions)@).error {
            None => Ok::<(), RegAllocError>(()),
            Some(e) => Err::<(), RegAllocError>(e),
        }),
        final(instructions)@.len() == old(instructions)@.len(),
        r is Ok ==> forall|i: int|
            0 <= i < final(instructions)@.len() ==> allocated(#[trigger] final(instructions)@[i]),
{
    let n: usize = instructions.len();
    let mut i: usize = 0;
    let ghost code = instructions@;
    let ghost start = state@;
    proof {
        assert(code.skip(0) =~= code);
    }
    while i < n
        invariant
            start == old(state)@,
            start.wf(),
            code == old(instructions)@,
            n == instructions.len(),
            n == code.len(),
            i <= n,
            state@.wf(),
            instructions@.skip(i as int) == code.skip(i as int),
            start.run(code) == after_done(instructions@.take(i as int), state@.run(code.skip(i as int))),
        decreases n - i,
    {
        let ins: IR = instructions[i];
        let ghost done = instructions@.take(i as int);
        let ghost ahead = code.skip(i as int);
        proof {
            assert(ahead.drop_first() =~= code.skip(i + 1));
        }
        let new_ins: IR = match alloc_step(state, ins) {
            Ok(new_ins) => new_ins,
            Err(e) => {
                return Err(e);
            },
        };
        instructions.set(i, new_ins);
        proof {
            assert(instructions@.take(i + 1) =~= done.push(new_ins));
            let rest = state@.run(code.skip(i + 1));
            assert(done + (seq![new_ins] + rest.code) =~= done.push(new_ins) + rest.code);
        }
        i += 1;
    }
    proof {
        lemma_run_allocated(start, code);
    }
    Ok(())
}

} // verus!
