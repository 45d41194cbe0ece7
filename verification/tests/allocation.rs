use dcc::ir::{gen_ir, IR};
use dcc::parse::{parse, Op, Tree};
use dcc::regalloc::{
    alloc_reg, alloc_regs, kill, AllocError, InternalError, RegAlloc, RegAllocError, NUM_REGS,
};
use dcc::token::tokenize;

fn tree_of(source: &str) -> Tree {
    parse(tokenize(source.to_string()).unwrap()).unwrap()
}

fn num(value: i64) -> Tree {
    Tree::Number(value)
}

fn node(op: Op, lhs: Tree, rhs: Tree) -> Tree {
    Tree::Node(op, Box::new(lhs), Box::new(rhs))
}

/// A chain of additions that leans to the right: it has `depth` values live at once.
fn right_chain(depth: i64) -> Tree {
    let mut tree = num(depth);
    for value in (1..depth).rev() {
        tree = node(Op::Plus, num(value), tree);
    }
    tree
}

/// A chain of additions that leans to the left: it has two values live at once.
fn left_chain(depth: i64) -> Tree {
    let mut tree = num(1);
    for value in 2..=depth {
        tree = node(Op::Plus, tree, num(value));
    }
    tree
}

fn allocate(mut code: Vec<IR>) -> (Vec<IR>, Result<(), RegAllocError>) {
    let mut state = RegAlloc::new();
    let r = alloc_regs(&mut code, &mut state);
    (code, r)
}

#[test]
fn there_are_eight_physical_registers() {
    assert_eq!(NUM_REGS, 8);
}

#[test]
fn fresh_state_maps_nothing() {
    let state = RegAlloc::new();
    assert_eq!(state.slot(0), None);
    assert_eq!(state.slot(usize::MAX), None);
}

#[test]
fn first_reference_takes_the_lowest_free_register() {
    let mut state = RegAlloc::new();
    assert_eq!(alloc_reg(&mut state, 10), Ok(0));
    assert_eq!(alloc_reg(&mut state, 20), Ok(1));
    assert_eq!(alloc_reg(&mut state, 5), Ok(2));
    assert_eq!(state.slot(20), Some(1));
}

#[test]
fn second_reference_keeps_the_register() {
    let mut state = RegAlloc::new();
    assert_eq!(alloc_reg(&mut state, 10), Ok(0));
    assert_eq!(alloc_reg(&mut state, 20), Ok(1));
    assert_eq!(alloc_reg(&mut state, 10), Ok(0));
}

#[test]
fn freed_register_is_taken_again() {
    let mut state = RegAlloc::new();
    for reg in 0..4 {
        assert_eq!(alloc_reg(&mut state, reg), Ok(reg));
    }
    kill(&mut state, 1);
    kill(&mut state, 3);
    assert_eq!(alloc_reg(&mut state, 100), Ok(1));
    assert_eq!(alloc_reg(&mut state, 101), Ok(3));
    assert_eq!(alloc_reg(&mut state, 102), Ok(4));
}

#[test]
fn killed_register_keeps_its_mapping() {
    let mut state = RegAlloc::new();
    assert_eq!(alloc_reg(&mut state, 9), Ok(0));
    kill(&mut state, 0);
    assert_eq!(state.slot(9), Some(0));
    assert_eq!(alloc_reg(&mut state, 9), Ok(0));
}

#[test]
fn ninth_register_at_once_fails() {
    let mut state = RegAlloc::new();
    for reg in 0..8 {
        assert_eq!(alloc_reg(&mut state, reg), Ok(reg));
    }
    assert_eq!(alloc_reg(&mut state, 8), Err(AllocError { reg: 8 }));
    assert_eq!(state.slot(8), None);
    assert_eq!(alloc_reg(&mut state, 3), Ok(3));
}

#[test]
fn sum_and_difference_use_two_registers() {
    let (code, r) = allocate(gen_ir(tree_of("1+2-3")));
    assert_eq!(r, Ok(()));
    assert_eq!(
        code,
        vec![
            IR::IMM(0, 1),
            IR::IMM(1, 2),
            IR::ADD(0, 1),
            IR::NOP,
            IR::IMM(1, 3),
            IR::SUB(0, 1),
            IR::NOP,
            IR::RETURN(0),
        ]
    );
}

#[test]
fn product_inside_a_sum_uses_three_registers() {
    let (code, r) = allocate(gen_ir(tree_of("2+3*4")));
    assert_eq!(r, Ok(()));
    assert_eq!(
        code,
        vec![
            IR::IMM(0, 2),
            IR::IMM(1, 3),
            IR::IMM(2, 4),
            IR::MUL(1, 2),
            IR::NOP,
            IR::ADD(0, 1),
            IR::NOP,
            IR::RETURN(0),
        ]
    );
}

#[test]
fn return_is_rewritten_and_frees_its_register() {
    let mut state = RegAlloc::new();
    let mut code = vec![IR::IMM(40, 1), IR::IMM(41, 2), IR::RETURN(41), IR::IMM(42, 3)];
    assert_eq!(alloc_regs(&mut code, &mut state), Ok(()));
    assert_eq!(code, vec![IR::IMM(0, 1), IR::IMM(1, 2), IR::RETURN(1), IR::IMM(1, 3)]);
}

#[test]
fn every_opcode_is_kept() {
    let (code, r) = allocate(vec![
        IR::IMM(5, -1),
        IR::MOV(6, 5),
        IR::ADD(5, 6),
        IR::SUB(6, 5),
        IR::MUL(5, 6),
        IR::DIV(6, 5),
        IR::NOP,
        IR::KILL(6),
        IR::RETURN(5),
    ]);
    assert_eq!(r, Ok(()));
    assert_eq!(
        code,
        vec![
            IR::IMM(0, -1),
            IR::MOV(1, 0),
            IR::ADD(0, 1),
            IR::SUB(1, 0),
            IR::MUL(0, 1),
            IR::DIV(1, 0),
            IR::NOP,
            IR::NOP,
            IR::RETURN(0),
        ]
    );
}

#[test]
fn first_operand_is_resolved_first() {
    let (code, r) = allocate(vec![IR::ADD(30, 20)]);
    assert_eq!(r, Ok(()));
    assert_eq!(code, vec![IR::ADD(0, 1)]);
}

#[test]
fn eight_values_live_at_once_fit() {
    let (code, r) = allocate(gen_ir(right_chain(8)));
    assert_eq!(r, Ok(()));
    assert_eq!(code[7], IR::IMM(7, 8));
    assert_eq!(code.last(), Some(&IR::RETURN(0)));
}

#[test]
fn nine_values_live_at_once_do_not_fit() {
    let original = gen_ir(right_chain(9));
    let (code, r) = allocate(original.clone());
    assert_eq!(r, Err(RegAllocError::Alloc(AllocError { reg: 8 })));
    for reg in 0..8 {
        assert_eq!(code[reg], IR::IMM(reg, reg as i64 + 1));
    }
    assert_eq!(code[8..], original[8..]);
}

#[test]
fn left_leaning_chain_of_any_length_fits() {
    let (code, r) = allocate(gen_ir(left_chain(200)));
    assert_eq!(r, Ok(()));
    assert!(code.iter().all(|ins| match *ins {
        IR::IMM(r, _) => r < 2,
        IR::ADD(r, s) => r == 0 && s == 1,
        IR::RETURN(r) => r == 0,
        IR::NOP => true,
        _ => false,
    }));
}

#[test]
fn parsed_programs_use_three_registers_at_most() {
    let (code, r) = allocate(gen_ir(tree_of("1+2*3-4/5*6+7*8*9")));
    assert_eq!(r, Ok(()));
    assert!(code.iter().all(|ins| match *ins {
        IR::IMM(r, _) | IR::RETURN(r) => r < 3,
        IR::ADD(r, s) | IR::SUB(r, s) | IR::MUL(r, s) | IR::DIV(r, s) => r < 3 && s < 3,
        IR::NOP => true,
        _ => false,
    }));
}

#[test]
fn kill_of_a_register_never_seen_is_an_internal_error() {
    let (code, r) = allocate(vec![IR::IMM(0, 1), IR::KILL(3), IR::RETURN(0)]);
    assert_eq!(r, Err(RegAllocError::Internal(InternalError { reg: 3 })));
    assert_eq!(code, vec![IR::IMM(0, 1), IR::KILL(3), IR::RETURN(0)]);
}

#[test]
fn return_of_a_register_never_seen_is_an_internal_error() {
    let (code, r) = allocate(vec![IR::RETURN(0)]);
    assert_eq!(r, Err(RegAllocError::Internal(InternalError { reg: 0 })));
    assert_eq!(code, vec![IR::RETURN(0)]);
}

#[test]
fn failure_on_the_second_operand_keeps_the_first() {
    let mut state = RegAlloc::new();
    for reg in 0..7 {
        assert_eq!(alloc_reg(&mut state, reg), Ok(reg));
    }
    let mut code = vec![IR::NOP, IR::MOV(50, 51), IR::NOP];
    assert_eq!(
        alloc_regs(&mut code, &mut state),
        Err(RegAllocError::Alloc(AllocError { reg: 51 }))
    );
    assert_eq!(code, vec![IR::NOP, IR::MOV(50, 51), IR::NOP]);
    assert_eq!(state.slot(50), Some(7));
    assert_eq!(state.slot(51), None);
}

#[test]
fn empty_sequence_leaves_everything() {
    let (code, r) = allocate(Vec::new());
    assert_eq!(r, Ok(()));
    assert!(code.is_empty());
}

#[test]
fn very_large_register_number() {
    let (code, r) = allocate(vec![IR::IMM(usize::MAX, 7), IR::RETURN(usize::MAX)]);
    assert_eq!(r, Ok(()));
    assert_eq!(code, vec![IR::IMM(0, 7), IR::RETURN(0)]);
}

#[test]
fn state_carries_over_to_the_next_sequence() {
    let mut state = RegAlloc::new();
    let mut first = vec![IR::IMM(0, 1), IR::IMM(1, 2)];
    assert_eq!(alloc_regs(&mut first, &mut state), Ok(()));
    let mut second = vec![IR::IMM(2, 3), IR::ADD(2, 0), IR::KILL(1), IR::IMM(3, 4)];
    assert_eq!(alloc_regs(&mut second, &mut state), Ok(()));
    assert_eq!(second, vec![IR::IMM(2, 3), IR::ADD(2, 0), IR::NOP, IR::IMM(1, 4)]);
}

/// The number of registers that computing the tree needs at once.
fn pressure(tree: &Tree) -> usize {
    match tree {
        Tree::Number(_) => 1,
        Tree::Node(_, lhs, rhs) => pressure(lhs).max(1 + pressure(rhs)),
        Tree::Return(inner) => pressure(inner),
    }
}

/// The instructions of the tree with its result in the physical register `depth`.
fn lower_allocated(tree: &Tree, depth: usize, code: &mut Vec<IR>) {
    match tree {
        Tree::Number(v) => code.push(IR::IMM(depth, *v)),
        Tree::Node(op, lhs, rhs) => {
            lower_allocated(lhs, depth, code);
            lower_allocated(rhs, depth + 1, code);
            code.push(match op {
                Op::Plus => IR::ADD(depth, depth + 1),
                Op::Minus => IR::SUB(depth, depth + 1),
                Op::Mul => IR::MUL(depth, depth + 1),
                Op::Div => IR::DIV(depth, depth + 1),
            });
            code.push(IR::NOP);
        }
        Tree::Return(inner) => lower_allocated(inner, depth, code),
    }
}

/// A tree whose shape follows the bits of `shape`: a set bit nests to the right.
fn shaped(shape: u32, nodes: u32) -> Tree {
    let mut tree = num(1);
    for bit in 0..nodes {
        let op = [Op::Plus, Op::Minus, Op::Mul, Op::Div][(bit % 4) as usize];
        tree = if (shape >> bit) & 1 == 1 {
            node(op, num(bit as i64 + 2), tree)
        } else {
            node(op, tree, node(Op::Plus, num(3), num(bit as i64 + 2)))
        };
    }
    tree
}

fn copy_of(tree: &Tree) -> Tree {
    match tree {
        Tree::Number(v) => Tree::Number(*v),
        Tree::Node(op, lhs, rhs) => node(*op, copy_of(lhs), copy_of(rhs)),
        Tree::Return(inner) => Tree::Return(Box::new(copy_of(inner))),
    }
}

/// Runs instructions on a register file with wrapping arithmetic; a
/// division by zero has no result.
fn run(code: &[IR]) -> Option<i64> {
    let mut regs: std::collections::HashMap<usize, i64> = std::collections::HashMap::new();
    for ins in code {
        match *ins {
            IR::IMM(r, v) => {
                regs.insert(r, v);
            }
            IR::MOV(r, s) => {
                regs.insert(r, regs[&s]);
            }
            IR::ADD(r, s) => {
                regs.insert(r, regs[&r].wrapping_add(regs[&s]));
            }
            IR::SUB(r, s) => {
                regs.insert(r, regs[&r].wrapping_sub(regs[&s]));
            }
            IR::MUL(r, s) => {
                regs.insert(r, regs[&r].wrapping_mul(regs[&s]));
            }
            IR::DIV(r, s) => {
                regs.insert(r, regs[&r].checked_div(regs[&s])?);
            }
            IR::RETURN(r) => return Some(regs[&r]),
            IR::KILL(_) | IR::NOP => {}
        }
    }
    None
}

fn value(tree: &Tree) -> Option<i64> {
    match tree {
        Tree::Number(v) => Some(*v),
        Tree::Node(op, lhs, rhs) => {
            let (a, b) = (value(lhs)?, value(rhs)?);
            match op {
                Op::Plus => Some(a.wrapping_add(b)),
                Op::Minus => Some(a.wrapping_sub(b)),
                Op::Mul => Some(a.wrapping_mul(b)),
                Op::Div => a.checked_div(b),
            }
        }
        Tree::Return(inner) => value(inner),
    }
}

#[test]
fn allocation_succeeds_exactly_where_the_pressure_fits() {
    for nodes in 0..12 {
        for shape in 0..(1u32 << nodes) {
            let tree = shaped(shape, nodes);
            let fits = pressure(&tree) <= NUM_REGS;
            let (_, r) = allocate(gen_ir(tree));
            assert_eq!(r.is_ok(), fits);
            if !fits {
                assert!(matches!(r, Err(RegAllocError::Alloc(_))));
            }
        }
    }
}

#[test]
fn pressure_of_the_chains() {
    assert_eq!(pressure(&right_chain(9)), 9);
    assert_eq!(pressure(&right_chain(8)), 8);
    assert_eq!(pressure(&left_chain(50)), 2);
    assert_eq!(pressure(&tree_of("1+2*3")), 3);
    assert_eq!(pressure(&tree_of("7")), 1);
}

#[test]
fn allocated_code_puts_a_value_at_its_depth_to_the_right() {
    for nodes in 0..8 {
        for shape in 0..(1u32 << nodes) {
            let tree = shaped(shape, nodes);
            if pressure(&tree) <= NUM_REGS {
                let mut expected = Vec::new();
                lower_allocated(&tree, 0, &mut expected);
                expected.push(IR::RETURN(0));
                let (code, r) = allocate(gen_ir(tree));
                assert_eq!(r, Ok(()));
                assert_eq!(code, expected);
            }
        }
    }
}

#[test]
fn instructions_return_the_value_before_and_after_allocation() {
    for nodes in 0..8 {
        for shape in 0..(1u32 << nodes) {
            let tree = shaped(shape, nodes);
            let expected = value(&tree);
            let code = gen_ir(copy_of(&tree));
            assert_eq!(run(&code), expected);
            let (allocated, r) = allocate(code);
            if r.is_ok() {
                assert_eq!(run(&allocated), expected);
            }
        }
    }
}

#[test]
fn value_of_a_parsed_program_survives_allocation() {
    for (source, expected) in [("1+2-3", 0), ("2*3+4", 10), ("10/2-1", 4), ("return 5+5;", 10)] {
        let (code, r) = allocate(gen_ir(tree_of(source)));
        assert_eq!(r, Ok(()));
        assert_eq!(run(&code), Some(expected));
    }
}

#[test]
fn division_by_zero_has_no_value_either_way() {
    let code = gen_ir(tree_of("1+2/0"));
    assert_eq!(run(&code), None);
    let (allocated, r) = allocate(code);
    assert_eq!(r, Ok(()));
    assert_eq!(run(&allocated), None);
}
