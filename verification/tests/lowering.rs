use dcc::ir::{gen_ir, gen_ir_sub, IR};
use dcc::parse::{parse, Op, Tree};
use dcc::token::tokenize;

fn tree_of(source: &str) -> Tree {
    parse(tokenize(source.to_string()).unwrap()).unwrap()
}

fn num(value: i64) -> Tree {
    Tree::Number(value)
}

fn node(op: Op, lhs: Tree, rhs: Tree) -> Tree {
    Tree::Node(op, Box::new(lhs), Box::new(rhs))
}

/// A chain of additions that leans to the right: `1 + (2 + (3 + ...))`.
fn right_chain(depth: i64) -> Tree {
    let mut tree = num(depth);
    for value in (1..depth).rev() {
        tree = node(Op::Plus, num(value), tree);
    }
    tree
}

fn operands(ins: &IR) -> Vec<usize> {
    match *ins {
        IR::IMM(r, _) | IR::RETURN(r) | IR::KILL(r) => vec![r],
        IR::MOV(r, s) | IR::ADD(r, s) | IR::SUB(r, s) | IR::MUL(r, s) | IR::DIV(r, s) => {
            vec![r, s]
        }
        IR::NOP => vec![],
    }
}

/// Every `KILL` names a register that exactly one earlier instruction has
/// loaded, and no later instruction names it.
fn kills_are_sound(code: &[IR]) -> bool {
    code.iter().enumerate().all(|(k, ins)| match *ins {
        IR::KILL(reg) => {
            let loads: Vec<usize> = code
                .iter()
                .enumerate()
                .filter(|(_, i)| matches!(**i, IR::IMM(r, _) if r == reg))
                .map(|(j, _)| j)
                .collect();
            loads.len() == 1
                && loads[0] < k
                && code[k + 1..].iter().all(|later| !operands(later).contains(&reg))
        }
        _ => true,
    })
}

#[test]
fn literal_is_one_load_and_the_return() {
    assert_eq!(gen_ir(num(42)), vec![IR::IMM(0, 42), IR::RETURN(0)]);
}

#[test]
fn lowers_sum_and_difference() {
    assert_eq!(
        gen_ir(tree_of("1+2-3")),
        vec![
            IR::IMM(0, 1),
            IR::IMM(1, 2),
            IR::ADD(0, 1),
            IR::KILL(1),
            IR::IMM(2, 3),
            IR::SUB(0, 2),
            IR::KILL(2),
            IR::RETURN(0),
        ]
    );
}

#[test]
fn product_inside_a_sum() {
    assert_eq!(
        gen_ir(tree_of("2+3*4")),
        vec![
            IR::IMM(0, 2),
            IR::IMM(1, 3),
            IR::IMM(2, 4),
            IR::MUL(1, 2),
            IR::KILL(2),
            IR::ADD(0, 1),
            IR::KILL(1),
            IR::RETURN(0),
        ]
    );
}

#[test]
fn quotient() {
    assert_eq!(
        gen_ir(tree_of("10/2")),
        vec![IR::IMM(0, 10), IR::IMM(1, 2), IR::DIV(0, 1), IR::KILL(1), IR::RETURN(0)]
    );
}

#[test]
fn return_statement_lowers_like_its_expression() {
    assert_eq!(gen_ir(tree_of("return 5+5;")), gen_ir(tree_of("5+5")));
    assert_eq!(
        gen_ir(tree_of("return 5+5;")),
        vec![IR::IMM(0, 5), IR::IMM(1, 5), IR::ADD(0, 1), IR::KILL(1), IR::RETURN(0)]
    );
}

#[test]
fn return_below_the_root_emits_nothing() {
    let tree = node(Op::Plus, Tree::Return(Box::new(num(1))), num(2));
    assert_eq!(
        gen_ir(tree),
        vec![IR::IMM(0, 1), IR::IMM(1, 2), IR::ADD(0, 1), IR::KILL(1), IR::RETURN(0)]
    );
}

#[test]
fn sub_appends_and_counts_on() {
    let mut instructions = vec![IR::NOP];
    let mut cur = 7;
    let reg = gen_ir_sub(tree_of("1*2"), &mut instructions, &mut cur);
    assert_eq!(reg, 7);
    assert_eq!(cur, 9);
    assert_eq!(
        instructions,
        vec![IR::NOP, IR::IMM(7, 1), IR::IMM(8, 2), IR::MUL(7, 8), IR::KILL(8)]
    );
}

#[test]
fn sub_returns_the_register_of_the_leftmost_literal() {
    let mut instructions = Vec::new();
    let mut cur = 3;
    assert_eq!(gen_ir_sub(right_chain(4), &mut instructions, &mut cur), 3);
    assert_eq!(cur, 7);
}

#[test]
fn right_leaning_tree() {
    assert_eq!(
        gen_ir(right_chain(3)),
        vec![
            IR::IMM(0, 1),
            IR::IMM(1, 2),
            IR::IMM(2, 3),
            IR::ADD(1, 2),
            IR::KILL(2),
            IR::ADD(0, 1),
            IR::KILL(1),
            IR::RETURN(0),
        ]
    );
}

#[test]
fn three_instructions_for_each_literal_but_the_first() {
    for source in ["1", "1+2", "1+2*3", "1*2*3*4-5/6"] {
        let tree = tree_of(source);
        let literals = source.chars().filter(|c| c.is_ascii_digit()).count();
        assert_eq!(gen_ir(tree).len(), 3 * literals - 2 + 1);
    }
}

#[test]
fn kills_of_parsed_programs_are_sound() {
    for source in ["1", "1+2-3", "2*3+4", "10/2-1", "return 5+5;", "1+2*3-4/5*6+7"] {
        assert!(kills_are_sound(&gen_ir(tree_of(source))));
    }
}

#[test]
fn kills_of_right_leaning_trees_are_sound() {
    for depth in 1..12 {
        assert!(kills_are_sound(&gen_ir(right_chain(depth))));
    }
}

#[test]
fn result_register_is_never_killed() {
    let code = gen_ir(tree_of("1+2*3-4/5*6+7"));
    assert!(!code.contains(&IR::KILL(0)));
    assert_eq!(code.last(), Some(&IR::RETURN(0)));
}
