use dcc::parse::{expr, mul, number, parse, statement, Expected, Op, ParseError, Tree};
use dcc::token::{tokenize, Token, TokenType};

fn tokens(source: &str) -> Vec<Token> {
    tokenize(source.to_string()).unwrap()
}

fn num(value: i64) -> Tree {
    Tree::Number(value)
}

fn node(op: Op, lhs: Tree, rhs: Tree) -> Tree {
    Tree::Node(op, Box::new(lhs), Box::new(rhs))
}

fn of_kinds(kinds: &[TokenType]) -> Vec<Token> {
    kinds.iter().map(|t| Token { t: *t, input: String::new() }).collect()
}

fn error(expected: Expected, found: Option<TokenType>, position: usize) -> ParseError {
    ParseError { expected, found, position }
}

#[test]
fn new_builds_a_binary_node() {
    assert_eq!(Tree::new(Op::Div, num(8), num(2)), node(Op::Div, num(8), num(2)));
}

#[test]
fn new_num_node_builds_a_literal() {
    assert_eq!(Tree::new_num_node(-3), Tree::Number(-3));
}

#[test]
fn multiplication_binds_tighter_than_addition() {
    assert_eq!(
        parse(tokens("2+3*4")),
        Ok(node(Op::Plus, num(2), node(Op::Mul, num(3), num(4))))
    );
}

#[test]
fn multiplication_on_the_left_of_addition() {
    assert_eq!(
        parse(tokens("2*3+4")),
        Ok(node(Op::Plus, node(Op::Mul, num(2), num(3)), num(4)))
    );
}

#[test]
fn subtraction_folds_to_the_left() {
    assert_eq!(
        parse(tokens("1-2-3")),
        Ok(node(Op::Minus, node(Op::Minus, num(1), num(2)), num(3)))
    );
}

#[test]
fn division_folds_to_the_left() {
    assert_eq!(
        parse(tokens("8/4/2")),
        Ok(node(Op::Div, node(Op::Div, num(8), num(4)), num(2)))
    );
}

#[test]
fn mixed_levels() {
    assert_eq!(
        parse(tokens("1+2*3-4/5")),
        Ok(node(
            Op::Minus,
            node(Op::Plus, num(1), node(Op::Mul, num(2), num(3))),
            node(Op::Div, num(4), num(5)),
        ))
    );
}

#[test]
fn single_number_program() {
    assert_eq!(parse(tokens("42")), Ok(num(42)));
}

#[test]
fn return_statement_wraps_the_expression() {
    assert_eq!(
        parse(tokens("return 5+5;")),
        Ok(Tree::Return(Box::new(node(Op::Plus, num(5), num(5)))))
    );
}

#[test]
fn missing_right_operand() {
    assert_eq!(
        parse(tokens("1+")),
        Err(error(Expected::Number, Some(TokenType::EOF), 2))
    );
}

#[test]
fn missing_right_operand_of_a_product() {
    assert_eq!(
        parse(tokens("1*+2")),
        Err(error(Expected::Number, Some(TokenType::Plus), 2))
    );
}

#[test]
fn operator_where_a_number_is_required() {
    assert_eq!(parse(tokens("+1")), Err(error(Expected::Number, Some(TokenType::Plus), 0)));
}

#[test]
fn empty_text_has_no_number() {
    assert_eq!(parse(tokens("")), Err(error(Expected::Number, Some(TokenType::EOF), 0)));
}

#[test]
fn no_tokens_at_all() {
    assert_eq!(parse(Vec::new()), Err(error(Expected::Number, None, 0)));
}

#[test]
fn tokens_that_end_behind_an_operand() {
    assert_eq!(
        parse(of_kinds(&[TokenType::Number(1)])),
        Err(error(Expected::Token, None, 1))
    );
}

#[test]
fn tokens_that_end_behind_a_term() {
    assert_eq!(
        parse(of_kinds(&[TokenType::Number(1), TokenType::Plus, TokenType::Number(2)])),
        Err(error(Expected::Token, None, 3))
    );
}

#[test]
fn tokens_that_end_behind_an_operator() {
    assert_eq!(
        parse(of_kinds(&[TokenType::Number(1), TokenType::Mul])),
        Err(error(Expected::Number, None, 2))
    );
}

#[test]
fn return_without_semicolon() {
    assert_eq!(
        parse(tokens("return 5")),
        Err(error(Expected::Semicolon, Some(TokenType::EOF), 2))
    );
}

#[test]
fn return_with_a_second_number_in_place_of_the_semicolon() {
    assert_eq!(
        parse(tokens("return 5 6;")),
        Err(error(Expected::Semicolon, Some(TokenType::Number(6)), 2))
    );
}

#[test]
fn return_without_expression() {
    assert_eq!(
        parse(tokens("return;")),
        Err(error(Expected::Number, Some(TokenType::Semicolon), 1))
    );
}

#[test]
fn tokens_behind_the_program_are_not_read() {
    assert_eq!(parse(tokens("1 2")), Ok(num(1)));
    assert_eq!(parse(tokens("1;")), Ok(num(1)));
    assert_eq!(parse(tokens("return 1; 2 +")), Ok(Tree::Return(Box::new(num(1)))));
}

#[test]
fn return_inside_an_expression_ends_it() {
    assert_eq!(parse(tokens("1 return")), Ok(num(1)));
    assert_eq!(
        parse(tokens("1 + return")),
        Err(error(Expected::Number, Some(TokenType::Return), 2))
    );
}

#[test]
fn number_moves_behind_the_literal() {
    let ts = tokens("7*8");
    let mut pos = 0;
    assert_eq!(number(&ts, &mut pos), Ok(num(7)));
    assert_eq!(pos, 1);
}

#[test]
fn number_stays_at_the_offending_token() {
    let ts = tokens("7*8");
    let mut pos = 1;
    assert_eq!(number(&ts, &mut pos), Err(error(Expected::Number, Some(TokenType::Mul), 1)));
    assert_eq!(pos, 1);
}

#[test]
fn number_behind_the_tokens() {
    let ts = tokens("7");
    let mut pos = 5;
    assert_eq!(number(&ts, &mut pos), Err(error(Expected::Number, None, 5)));
    assert_eq!(pos, 5);
}

#[test]
fn mul_stops_at_the_first_other_token() {
    let ts = tokens("2*3/4+5");
    let mut pos = 0;
    assert_eq!(
        mul(&ts, &mut pos),
        Ok(node(Op::Div, node(Op::Mul, num(2), num(3)), num(4)))
    );
    assert_eq!(pos, 5);
}

#[test]
fn mul_error_names_the_place() {
    let ts = tokens("2*;");
    let mut pos = 0;
    assert_eq!(mul(&ts, &mut pos), Err(error(Expected::Number, Some(TokenType::Semicolon), 2)));
    assert_eq!(pos, 2);
}

#[test]
fn expr_from_the_middle_of_the_tokens() {
    let ts = tokens("9 ; 1+2*3 ;");
    let mut pos = 2;
    assert_eq!(
        expr(&ts, &mut pos),
        Ok(node(Op::Plus, num(1), node(Op::Mul, num(2), num(3))))
    );
    assert_eq!(pos, 7);
}

#[test]
fn statement_moves_behind_the_semicolon() {
    let ts = tokens("return 1-2; 3");
    let mut pos = 0;
    assert_eq!(
        statement(&ts, &mut pos),
        Ok(Tree::Return(Box::new(node(Op::Minus, num(1), num(2)))))
    );
    assert_eq!(pos, 5);
}

#[test]
fn statement_needs_its_keyword() {
    let ts = tokens("1;");
    let mut pos = 0;
    assert_eq!(
        statement(&ts, &mut pos),
        Err(error(Expected::Return, Some(TokenType::Number(1)), 0))
    );
    assert_eq!(pos, 0);
}

#[test]
fn statement_on_no_tokens() {
    let ts: Vec<Token> = Vec::new();
    let mut pos = 0;
    assert_eq!(statement(&ts, &mut pos), Err(error(Expected::Return, None, 0)));
}

fn op_token(op: Op) -> TokenType {
    match op {
        Op::Plus => TokenType::Plus,
        Op::Minus => TokenType::Minus,
        Op::Mul => TokenType::Mul,
        Op::Div => TokenType::Div,
    }
}

/// The token kinds of a tree, written out in order.
fn tokens_of(tree: &Tree, out: &mut Vec<TokenType>) {
    match tree {
        Tree::Number(v) => out.push(TokenType::Number(*v)),
        Tree::Node(op, lhs, rhs) => {
            tokens_of(lhs, out);
            out.push(op_token(*op));
            tokens_of(rhs, out);
        }
        Tree::Return(inner) => {
            out.push(TokenType::Return);
            tokens_of(inner, out);
            out.push(TokenType::Semicolon);
        }
    }
}

fn is_term(tree: &Tree) -> bool {
    match tree {
        Tree::Number(_) => true,
        Tree::Node(op, lhs, rhs) => {
            matches!(op, Op::Mul | Op::Div) && is_term(lhs) && matches!(**rhs, Tree::Number(_))
        }
        Tree::Return(_) => false,
    }
}

fn is_expr(tree: &Tree) -> bool {
    is_term(tree)
        || match tree {
            Tree::Node(op, lhs, rhs) => {
                matches!(op, Op::Plus | Op::Minus) && is_expr(lhs) && is_term(rhs)
            }
            _ => false,
        }
}

/// An expression of the grammar: `picks` chooses the operators.
fn grown(picks: u32, operators: u32) -> Tree {
    let mut terms = vec![num(1)];
    for k in 0..operators {
        let literal = num(k as i64 + 2);
        match (picks >> (2 * k)) & 3 {
            0 => terms.push(literal),
            1 => terms.push(Tree::Number(-(k as i64) - 2)),
            2 => {
                let last = terms.pop().unwrap();
                terms.push(node(Op::Mul, last, literal));
            }
            _ => {
                let last = terms.pop().unwrap();
                terms.push(node(Op::Div, last, literal));
            }
        }
    }
    let mut terms = terms.into_iter();
    let mut tree = terms.next().unwrap();
    for (k, term) in terms.enumerate() {
        tree = node(if k % 2 == 0 { Op::Plus } else { Op::Minus }, tree, term);
    }
    tree
}

#[test]
fn parsing_inverts_writing_out() {
    for operators in 0..6 {
        for picks in 0..(1u32 << (2 * operators)) {
            let tree = grown(picks, operators);
            assert!(is_expr(&tree));
            let mut kinds = Vec::new();
            tokens_of(&tree, &mut kinds);
            kinds.push(TokenType::EOF);
            assert_eq!(parse(of_kinds(&kinds)), Ok(tree));
        }
    }
}

#[test]
fn parsing_inverts_writing_out_a_statement() {
    for picks in [0u32, 0b10, 0b1110, 0b100111, 0b11100100] {
        let tree = Tree::Return(Box::new(grown(picks, 4)));
        let mut kinds = Vec::new();
        tokens_of(&tree, &mut kinds);
        assert_eq!(parse(of_kinds(&kinds)), Ok(tree));
    }
}

#[test]
fn parsed_trees_spell_the_tokens_they_took() {
    for source in ["1", "1+2", "1*2+3", "1+2*3-4/5*6", "return 1-2-3;", "8/4/2 9"] {
        let ts = tokens(source);
        let tree = parse(tokens(source)).unwrap();
        let mut kinds = Vec::new();
        tokens_of(&tree, &mut kinds);
        let taken: Vec<TokenType> = ts.iter().take(kinds.len()).map(|t| t.t).collect();
        assert_eq!(kinds, taken);
        assert!(is_expr(&tree) || matches!(&tree, Tree::Return(inner) if is_expr(inner)));
    }
}

#[test]
fn tree_of_the_wrong_shape_is_not_read_back() {
    let tree = node(Op::Mul, node(Op::Plus, num(1), num(2)), num(3));
    assert!(!is_expr(&tree));
    let mut kinds = Vec::new();
    tokens_of(&tree, &mut kinds);
    kinds.push(TokenType::EOF);
    assert_eq!(
        parse(of_kinds(&kinds)),
        Ok(node(Op::Plus, num(1), node(Op::Mul, num(2), num(3))))
    );
}
