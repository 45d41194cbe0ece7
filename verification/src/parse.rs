//! Syntax analysis: a token sequence to an abstract syntax tree.
//!
//! The grammar has two levels of left-associative binary operators over
//! number literals, and an optional return statement around the expression:
//!
//! ```text
//! program   := statement | expr
//! statement := "return" expr ";"
//! expr      := term (("+" | "-") term)*
//! term      := number (("*" | "/") number)*
//! number    := NUMBER
//! ```
//!
//! Each parsing function is specified by a function from the kinds of the
//! tokens and a start position to the tree and the position behind it, or to
//! the syntax error.

use crate::token::{token_kinds, Token, TokenType};
use vstd::prelude::*;

verus! {

/// A binary operator.
#[derive(Clone, Copy, Debug, PartialEq, Eq, Structural)]
pub enum Op {
    Plus,
    Minus,
    Mul,
    Div,
}

/// An abstract syntax tree. Every node owns its children.
#[derive(Debug, PartialEq, Eq)]
pub enum Tree {
    /// A number literal.
    Number(i64),
    /// A binary operation on a left and a right operand.
    Node(Op, Box<Tree>, Box<Tree>),
    /// A return statement around an expression.
    Return(Box<Tree>),
}

/// What the parser needed at the place where it stopped.
#[derive(Clone, Copy, Debug, PartialEq, Eq, Structural)]
pub enum Expected {
    /// A number literal.
    Number,
    /// The keyword `return`.
    Return,
    /// The semicolon that ends a statement.
    Semicolon,
    /// Any token: the tokens ended behind an operand.
    Token,
}

/// A syntax error: what was expected, what stood there instead (`None`
/// where the tokens had ended), and the index of that place.
#[derive(Clone, Copy, Debug, PartialEq, Eq, Structural)]
pub struct ParseError {
    pub expected: Expected,
    pub found: Option<TokenType>,
    pub position: usize,
}

impl Tree {
    pub fn new(op: Op, lhs: Tree, rhs: Tree) -> (tree: Tree)
        ensures
            tree == Tree::Node(op, Box::new(lhs), Box::new(rhs)),
    {
        Tree::Node(op, Box::new(lhs), Box::new(rhs))
    }

    pub fn new_num_node(value: i64) -> (tree: Tree)
        ensures
            tree == Tree::Number(value),
    {
        Tree::Number(value)
    }

    /// The number of number literals in the tree.
    pub open spec fn leaves(self) -> nat
        decreases self,
    {
        match self {
            Tree::Number(_) => 1,
            Tree::Node(_, lhs, rhs) => lhs.leaves() + rhs.leaves(),
            Tree::Return(inner) => inner.leaves(),
        }
    }

    /// A term: a literal, or a product or quotient of a term and a literal.
    pub open spec fn is_term(self) -> bool
        decreases self,
    {
        match self {
            Tree::Number(_) => true,
            Tree::Node(op, lhs, rhs) => (op == Op::Mul || op == Op::Div) && lhs.is_term()
                && *rhs is Number,
            Tree::Return(_) => false,
        }
    }

    /// An expression: a term, or a sum or difference of an expression and a term.
    pub open spec fn is_expr(self) -> bool
        decreases self,
    {
        self.is_term() || match self {
            Tree::Node(op, lhs, rhs) => (op == Op::Plus || op == Op::Minus) && lhs.is_expr()
                && rhs.is_term(),
            _ => false,
        }
    }

    /// A program: an expression, or a return statement around one.
    pub open spec fn is_program(self) -> bool {
        self.is_expr() || match self {
            Tree::Return(inner) => inner.is_expr(),
            _ => false,
        }
    }
}

/// The token kind at `pos`, if there is one.
pub open spec fn found_at(ts: Seq<TokenType>, pos: int) -> Option<TokenType> {
    if 0 <= pos < ts.len() {
        Some(ts[pos])
    } else {
        None
    }
}

/// The error for a place that does not hold what the grammar asks for.
pub open spec fn unexpected(ts: Seq<TokenType>, pos: int, expected: Expected) -> ParseError {
    ParseError { expected, found: found_at(ts, pos), position: pos as usize }
}

/// The operator of a term that a token kind stands for.
pub open spec fn term_op(t: TokenType) -> Option<Op> {
    match t {
        TokenType::Mul => Some(Op::Mul),
        TokenType::Div => Some(Op::Div),
        _ => None,
    }
}

/// The operator of an expression that a token kind stands for.
pub open spec fn expr_op(t: TokenType) -> Option<Op> {
    match t {
        TokenType::Plus => Some(Op::Plus),
        TokenType::Minus => Some(Op::Minus),
        _ => None,
    }
}

/// `number := NUMBER`
pub open spec fn parse_number(ts: Seq<TokenType>, pos: int) -> Result<(Tree, int), ParseError> {
    match found_at(ts, pos) {
        Some(TokenType::Number(v)) => Ok((Tree::Number(v), pos + 1)),
        _ => Err(unexpected(ts, pos, Expected::Number)),
    }
}

/// The rest of a term, `(("*" | "/") number)*`, folded onto the operand `lhs`
/// read so far. A term ends at the first token that is neither `*` nor `/`;
/// that token has to be there.
pub open spec fn parse_term_from(ts: Seq<TokenType>, pos: int, lhs: Tree) -> Result<
    (Tree, int),
    ParseError,
>
    decreases ts.len() - pos,
{
    match found_at(ts, pos) {
        None => Err(unexpected(ts, pos, Expected::Token)),
        Some(t) => match term_op(t) {
            None => Ok((lhs, pos)),
            Some(op) => match parse_number(ts, pos + 1) {
                Ok((rhs, next)) => parse_term_from(
                    ts,
                    next,
                    Tree::Node(op, Box::new(lhs), Box::new(rhs)),
                ),
                Err(e) => Err(e),
            },
        },
    }
}

/// `term := number (("*" | "/") number)*`
pub open spec fn parse_term(ts: Seq<TokenType>, pos: int) -> Result<(Tree, int), ParseError> {
    match parse_number(ts, pos) {
        Ok((lhs, next)) => parse_term_from(ts, next, lhs),
        Err(e) => Err(e),
    }
}

/// The rest of an expression, `(("+" | "-") term)*`, folded onto the operand
/// `lhs` read so far.
pub open spec fn parse_expr_from(ts: Seq<TokenType>, pos: int, lhs: Tree) -> Result<
    (Tree, int),
    ParseError,
>
    decreases ts.len() - pos,
    via parse_expr_from_decreases
{
    match found_at(ts, pos) {
        None => Err(unexpected(ts, pos, Expected::Token)),
        Some(t) => match expr_op(t) {
            None => Ok((lhs, pos)),
            Some(op) => match parse_term(ts, pos + 1) {
                Ok((rhs, next)) => parse_expr_from(
                    ts,
                    next,
                    Tree::Node(op, Box::new(lhs), Box::new(rhs)),
                ),
                Err(e) => Err(e),
            },
        },
    }
}

#[via_fn]
proof fn parse_expr_from_decreases(ts: Seq<TokenType>, pos: int, lhs: Tree) {
    if 0 <= pos < ts.len() {
        lemma_term(ts, pos + 1);
    }
}

/// `expr := term (("+" | "-") term)*`
pub open spec fn parse_expr(ts: Seq<TokenType>, pos: int) -> Result<(Tree, int), ParseError> {
    match parse_term(ts, pos) {
        Ok((lhs, next)) => parse_expr_from(ts, next, lhs),
        Err(e) => Err(e),
    }
}

/// `statement := "return" expr ";"`
pub open spec fn parse_statement(ts: Seq<TokenType>, pos: int) -> Result<(Tree, int), ParseError> {
    match found_at(ts, pos) {
        Some(TokenType::Return) => match parse_expr(ts, pos + 1) {
            Ok((inner, next)) => match found_at(ts, next) {
                Some(TokenType::Semicolon) => Ok((Tree::Return(Box::new(inner)), next + 1)),
                _ => Err(unexpected(ts, next, Expected::Semicolon)),
            },
            Err(e) => Err(e),
        },
        _ => Err(unexpected(ts, pos, Expected::Return)),
    }
}

/// `program := statement | expr`: a statement where the first token is
/// `return`, an expression otherwise. Tokens behind the program are not read.
pub open spec fn parse_program(ts: Seq<TokenType>) -> Result<Tree, ParseError> {
    let parsed = if found_at(ts, 0) == Some(TokenType::Return) {
        parse_statement(ts, 0)
    } else {
        parse_expr(ts, 0)
    };
    match parsed {
        Ok((tree, _)) => Ok(tree),
        Err(e) => Err(e),
    }
}

/// The rest of a term ends at or behind the place where it starts, inside
/// the tokens; it adds at most one literal for each token it takes; and
/// folded onto a term it gives a term.
pub proof fn lemma_term_from(ts: Seq<TokenType>, pos: int, lhs: Tree)
    ensures
        parse_term_from(ts, pos, lhs) matches Ok((tree, next)) ==> {
            &&& pos <= next < ts.len()
            &&& tree.leaves() <= lhs.leaves() + (next - pos)
            &&& lhs.is_term() ==> tree.is_term()
        },
    decreases ts.len() - pos,
{
    if let Some(t) = found_at(ts, pos) {
        if let Some(op) = term_op(t) {
            if let Ok((rhs, next)) = parse_number(ts, pos + 1) {
                assert(rhs.leaves() == 1);
                lemma_term_from(ts, next, Tree::Node(op, Box::new(lhs), Box::new(rhs)));
            }
        }
    }
}

/// A term takes at least one token and ends inside the tokens; it has at
/// most one literal for each token it takes; and its tree is a term.
pub proof fn lemma_term(ts: Seq<TokenType>, pos: int)
    ensures
        parse_term(ts, pos) matches Ok((tree, next)) ==> {
            &&& 0 <= pos < next < ts.len()
            &&& tree.leaves() <= next - pos
            &&& tree.is_term()
        },
{
    if let Ok((lhs, next)) = parse_number(ts, pos) {
        lemma_term_from(ts, next, lhs);
    }
}

/// The rest of an expression ends at or behind the place where it starts,
/// inside the tokens; it adds at most one literal for each token it takes;
/// and folded onto an expression it gives an expression.
pub proof fn lemma_expr_from(ts: Seq<TokenType>, pos: int, lhs: Tree)
    ensures
        parse_expr_from(ts, pos, lhs) matches Ok((tree, next)) ==> {
            &&& pos <= next < ts.len()
            &&& tree.leaves() <= lhs.leaves() + (next - pos)
            &&& lhs.is_expr() ==> tree.is_expr()
        },
    decreases ts.len() - pos,
{
    if let Some(t) = found_at(ts, pos) {
        if let Some(op) = expr_op(t) {
            lemma_term(ts, pos + 1);
            if let Ok((rhs, next)) = parse_term(ts, pos + 1) {
                lemma_expr_from(ts, next, Tree::Node(op, Box::new(lhs), Box::new(rhs)));
            }
        }
    }
}

/// An expression takes at least one token and ends inside the tokens; it has
/// at most one literal for each token it takes; and its tree is an expression.
pub proof fn lemma_expr(ts: Seq<TokenType>, pos: int)
    ensures
        parse_expr(ts, pos) matches Ok((tree, next)) ==> {
            &&& 0 <= pos < next < ts.len()
            &&& tree.leaves() <= next - pos
            &&& tree.is_expr()
        },
{
    lemma_term(ts, pos);
    if let Ok((lhs, next)) = parse_term(ts, pos) {
        lemma_expr_from(ts, next, lhs);
    }
}

/// The tree of a parsed program has the shape that the grammar gives it:
/// a product never has a sum below it, every right operand is as small as
/// its level allows, and a return statement stands at the root only. It has
/// fewer literals than there are tokens.
pub proof fn lemma_program(ts: Seq<TokenType>)
    ensures
        parse_program(ts) matches Ok(tree) ==> tree.is_program() && tree.leaves() < ts.len(),
{
    if found_at(ts, 0) == Some(TokenType::Return) {
        lemma_expr(ts, 1);
    } else {
        lemma_expr(ts, 0);
    }
}

/// Holds where the outcome `r` of a parsing function, and the position `end`
/// that it left, are those that the grammar gives: on success the tree and
/// the position behind it, on failure the error and the place it names.
pub open spec fn parsed(
    r: Result<Tree, ParseError>,
    end: usize,
    expected: Result<(Tree, int), ParseError>,
) -> bool {
    match expected {
        Ok((tree, next)) => r == Ok::<Tree, ParseError>(tree) && end == next,
        Err(e) => r == Err::<Tree, ParseError>(e) && end == e.position,
    }
}

/// The kind of the token at `pos`, if there is one.
fn peek(tokens: &Vec<Token>, pos: usize) -> (found: Option<TokenType>)
    ensures
        found == found_at(token_kinds(tokens@), pos as int),
        found is Some <==> pos < tokens.len(),
{
    if pos < tokens.len() {
        Some(tokens[pos].t)
    } else {
        None
    }
}

/// Reads a number literal at `*pos` and moves behind it.
pub fn number(tokens: &Vec<Token>, pos: &mut usize) -> (r: Result<Tree, ParseError>)
    ensures
        parsed(r, *final(pos), parse_number(token_kinds(tokens@), *old(pos) as int)),
{
    let found: Option<TokenType> = peek(tokens, *pos);
    match found {
        Some(TokenType::Number(v)) => {
            *pos += 1;
            Ok(Tree::new_num_node(v))
        },
        _ => Err(ParseError { expected: Expected::Number, found, position: *pos }),
    }
}

/// Reads a term at `*pos`: numbers joined by `*` and `/`, folded to the left.
pub fn mul(tokens: &Vec<Token>, pos: &mut usize) -> (r: Result<Tree, ParseError>)
    ensures
        parsed(r, *final(pos), parse_term(token_kinds(tokens@), *old(pos) as int)),
{
    let ghost ts = token_kinds(tokens@);
    let mut lhs: Tree = match number(tokens, pos) {
        Ok(tree) => tree,
        Err(e) => {
            return Err(e);
        },
    };
    loop
        invariant
            ts == token_kinds(tokens@),
            parse_term(ts, *old(pos) as int) == parse_term_from(ts, *pos as int, lhs),
        decreases tokens.len() - *pos,
    {
        let found: Option<TokenType> = peek(tokens, *pos);
        let op: Op = match found {
            Some(TokenType::Mul) => Op::Mul,
            Some(TokenType::Div) => Op::Div,
            Some(_) => {
                return Ok(lhs);
            },
            None => {
                return Err(ParseError { expected: Expected::Token, found, position: *pos });
            },
        };
        *pos += 1;
        let rhs: Tree = match number(tokens, pos) {
            Ok(tree) => tree,
            Err(e) => {
                return Err(e);
            },
        };
        lhs = Tree::new(op, lhs, rhs);
    }
}

/// Reads an expression at `*pos`: terms joined by `+` and `-`, folded to the left.
pub fn expr(tokens: &Vec<Token>, pos: &mut usize) -> (r: Result<Tree, ParseError>)
    ensures
        parsed(r, *final(pos), parse_expr(token_kinds(tokens@), *old(pos) as int)),
{
    let ghost ts = token_kinds(tokens@);
    let mut lhs: Tree = match self::mul(tokens, pos) {
        Ok(tree) => tree,
        Err(e) => {
            return Err(e);
        },
    };
    loop
        invariant
            ts == token_kinds(tokens@),
            parse_expr(ts, *old(pos) as int) == parse_expr_from(ts, *pos as int, lhs),
        decreases tokens.len() - *pos,
    {
        let found: Option<TokenType> = peek(tokens, *pos);
        let op: Op = match found {
            Some(TokenType::Plus) => Op::Plus,
            Some(TokenType::Minus) => Op::Minus,
            Some(_) => {
                return Ok(lhs);
            },
            None => {
                return Err(ParseError { expected: Expected::Token, found, position: *pos });
            },
        };
        *pos += 1;
        proof {
            lemma_term(ts, *pos as int);
        }
        let rhs: Tree = match self::mul(tokens, pos) {
            Ok(tree) => tree,
            Err(e) => {
                return Err(e);
            },
        };
        lhs = Tree::new(op, lhs, rhs);
    }
}

/// Reads a return statement at `*pos`: the keyword, an expression, a semicolon.
pub fn statement(tokens: &Vec<Token>, pos: &mut usize) -> (r: Result<Tree, ParseError>)
    ensures
        parsed(r, *final(pos), parse_statement(token_kinds(tokens@), *old(pos) as int)),
{
    let found: Option<TokenType> = peek(tokens, *pos);
    match found {
        Some(TokenType::Return) => {},
        _ => {
            return Err(ParseError { expected: Expected::Return, found, position: *pos });
        },
    }
    *pos += 1;
    let inner: Tree = match expr(tokens, pos) {
        Ok(tree) => tree,
        Err(e) => {
            return Err(e);
        },
    };
    let found: Option<TokenType> = peek(tokens, *pos);
    match found {
        Some(TokenType::Semicolon) => {
            *pos += 1;
            Ok(Tree::Return(Box::new(inner)))
        },
        _ => Err(ParseError { expected: Expected::Semicolon, found, position: *pos }),
    }
}

/// Parses a program: a return statement where the tokens start with
/// `return`, a bare expression otherwise.
pub fn parse(tokens: Vec<Token>) -> (r: Result<Tree, ParseError>)
    ensures
        r == parse_program(token_kinds(tokens@)),
        r matches Ok(tree) ==> tree.is_program() && tree.leaves() < tokens.len(),
{
    proof {
        lemma_program(token_kinds(tokens@));
    }
    let mut pos: usize = 0;
    match peek(&tokens, 0) {
        Some(TokenType::Return) => statement(&tokens, &mut pos),
        _ => expr(&tokens, &mut pos),
    }
}

} // verus!
