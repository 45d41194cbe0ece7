//! The tokens of a tree, and the proof that parsing is their inverse.
//!
//! Writing a tree out in order gives a token sequence. The parser reads an
//! expression exactly where the tokens are those of a tree of the shape
//! that the grammar gives, followed by a token that is no operator, and the
//! tree it returns is that tree.

use crate::parse::{
    expr_op, found_at, lemma_expr, lemma_term, parse_expr, parse_expr_from, parse_number,
    parse_program, parse_term, parse_term_from, term_op, Op, ParseError, Tree,
};
use crate::token::TokenType;
use vstd::prelude::*;

verus! {

/// The token kind that stands for an operator.
pub open spec fn op_token(op: Op) -> TokenType {
    match op {
        Op::Plus => TokenType::Plus,
        Op::Minus => TokenType::Minus,
        Op::Mul => TokenType::Mul,
        Op::Div => TokenType::Div,
    }
}

/// The token kinds of a tree, written out in order.
pub open spec fn tokens_of(tree: Tree) -> Seq<TokenType>
    decreases tree,
{
    match tree {
        Tree::Number(v) => seq![TokenType::Number(v)],
        Tree::Node(op, lhs, rhs) => tokens_of(*lhs) + seq![op_token(op)] + tokens_of(*rhs),
        Tree::Return(inner) => seq![TokenType::Return] + tokens_of(*inner) + seq![
            TokenType::Semicolon,
        ],
    }
}

/// The tokens of `ts` from `start` up to `end` are those of `tree`.
pub open spec fn spells(ts: Seq<TokenType>, start: int, end: int, tree: Tree) -> bool {
    0 <= start <= end <= ts.len() && ts.subrange(start, end) == tokens_of(tree)
}

/// The token at `pos` is there and is no operator of a term.
pub open spec fn ends_term(ts: Seq<TokenType>, pos: int) -> bool {
    found_at(ts, pos) matches Some(t) && term_op(t) is None
}

/// The token at `pos` is there and is no operator at all.
pub open spec fn ends_expr(ts: Seq<TokenType>, pos: int) -> bool {
    found_at(ts, pos) matches Some(t) && term_op(t) is None && expr_op(t) is None
}

/// The tokens of a tree with one more operand folded onto it.
proof fn lemma_spells_fold(
    ts: Seq<TokenType>,
    start: int,
    pos: int,
    next: int,
    op: Op,
    lhs: Tree,
    rhs: Tree,
)
    requires
        spells(ts, start, pos, lhs),
        pos < next,
        found_at(ts, pos) == Some(op_token(op)),
        spells(ts, pos + 1, next, rhs),
    ensures
        spells(ts, start, next, Tree::Node(op, Box::new(lhs), Box::new(rhs))),
{
    assert(ts.subrange(start, next) =~= ts.subrange(start, pos) + seq![ts[pos]] + ts.subrange(
        pos + 1,
        next,
    ));
}

/// What the rest of a term reads, together with what its left operand
/// spells, is what its tree spells.
proof fn lemma_term_from_spells(ts: Seq<TokenType>, start: int, pos: int, lhs: Tree)
    requires
        spells(ts, start, pos, lhs),
    ensures
        parse_term_from(ts, pos, lhs) matches Ok((tree, next)) ==> spells(ts, start, next, tree),
    decreases ts.len() - pos,
{
    if let Some(t) = found_at(ts, pos) {
        if let Some(op) = term_op(t) {
            if let Ok((rhs, next)) = parse_number(ts, pos + 1) {
                assert(ts.subrange(pos + 1, next) =~= tokens_of(rhs));
                lemma_spells_fold(ts, start, pos, next, op, lhs, rhs);
                lemma_term_from_spells(
                    ts,
                    start,
                    next,
                    Tree::Node(op, Box::new(lhs), Box::new(rhs)),
                );
            }
        }
    }
}

/// The tokens that a term takes are those of its tree.
pub proof fn lemma_term_spells(ts: Seq<TokenType>, pos: int)
    ensures
        parse_term(ts, pos) matches Ok((tree, next)) ==> spells(ts, pos, next, tree),
{
    if let Ok((lhs, next)) = parse_number(ts, pos) {
        assert(ts.subrange(pos, next) =~= tokens_of(lhs));
        lemma_term_from_spells(ts, pos, next, lhs);
    }
}

/// What the rest of an expression reads, together with what its left
/// operand spells, is what its tree spells.
proof fn lemma_expr_from_spells(ts: Seq<TokenType>, start: int, pos: int, lhs: Tree)
    requires
        spells(ts, start, pos, lhs),
    ensures
        parse_expr_from(ts, pos, lhs) matches Ok((tree, next)) ==> spells(ts, start, next, tree),
    decreases ts.len() - pos,
{
    if let Some(t) = found_at(ts, pos) {
        if let Some(op) = expr_op(t) {
            lemma_term_spells(ts, pos + 1);
            if let Ok((rhs, next)) = parse_term(ts, pos + 1) {
                lemma_spells_fold(ts, start, pos, next, op, lhs, rhs);
                lemma_expr_from_spells(
                    ts,
                    start,
                    next,
                    Tree::Node(op, Box::new(lhs), Box::new(rhs)),
                );
            }
        }
    }
}

/// The tokens that an expression takes are those of its tree, and the
/// token behind them is no operator.
pub proof fn lemma_expr_spells(ts: Seq<TokenType>, pos: int)
    ensures
        parse_expr(ts, pos) matches Ok((tree, next)) ==> spells(ts, pos, next, tree)
            && tree.is_expr() && ends_expr(ts, next),
{
    lemma_term_spells(ts, pos);
    lemma_expr(ts, pos);
    if let Ok((lhs, next)) = parse_term(ts, pos) {
        lemma_term_ends(ts, pos);
        lemma_expr_from_spells(ts, pos, next, lhs);
        lemma_expr_from_ends(ts, next, lhs);
    }
}

/// The rest of a term ends before a token that is no operator of a term.
proof fn lemma_term_from_ends(ts: Seq<TokenType>, pos: int, lhs: Tree)
    ensures
        parse_term_from(ts, pos, lhs) matches Ok((_, next)) ==> ends_term(ts, next),
    decreases ts.len() - pos,
{
    if let Some(t) = found_at(ts, pos) {
        if let Some(op) = term_op(t) {
            if let Ok((rhs, next)) = parse_number(ts, pos + 1) {
                lemma_term_from_ends(ts, next, Tree::Node(op, Box::new(lhs), Box::new(rhs)));
            }
        }
    }
}

/// A term ends before a token that is no operator of a term.
proof fn lemma_term_ends(ts: Seq<TokenType>, pos: int)
    ensures
        parse_term(ts, pos) matches Ok((_, next)) ==> ends_term(ts, next),
{
    if let Ok((lhs, next)) = parse_number(ts, pos) {
        lemma_term_from_ends(ts, next, lhs);
    }
}

/// The rest of an expression, behind a term, ends before a token that is no operator.
proof fn lemma_expr_from_ends(ts: Seq<TokenType>, pos: int, lhs: Tree)
    requires
        ends_term(ts, pos),
    ensures
        parse_expr_from(ts, pos, lhs) matches Ok((_, next)) ==> ends_expr(ts, next),
    decreases ts.len() - pos,
{
    if let Some(t) = found_at(ts, pos) {
        if let Some(op) = expr_op(t) {
            lemma_term(ts, pos + 1);
            lemma_term_ends(ts, pos + 1);
            if let Ok((rhs, next)) = parse_term(ts, pos + 1) {
                lemma_expr_from_ends(ts, next, Tree::Node(op, Box::new(lhs), Box::new(rhs)));
            }
        }
    }
}

/// A stretch of tokens that is a part, a token and a part in a row holds
/// each of the three in its place.
proof fn lemma_stretch_parts(
    ts: Seq<TokenType>,
    pos: int,
    end: int,
    left: Seq<TokenType>,
    t: TokenType,
    right: Seq<TokenType>,
)
    requires
        0 <= pos <= end <= ts.len(),
        ts.subrange(pos, end) == left + seq![t] + right,
    ensures
        end == pos + left.len() + 1 + right.len(),
        ts.subrange(pos, pos + left.len()) == left,
        ts[pos + left.len()] == t,
        ts.subrange(pos + left.len() + 1, end) == right,
{
    let all = left + seq![t] + right;
    let n = left.len() as int;
    assert(ts.subrange(pos, end).len() == all.len());
    assert(ts.subrange(pos, pos + n) =~= left) by {
        assert forall|k: int| 0 <= k < n implies ts.subrange(pos, pos + n)[k] == left[k] by {
            assert(ts.subrange(pos, end)[k] == all[k]);
        }
    }
    assert(ts.subrange(pos, end)[n] == all[n]);
    assert(ts.subrange(pos + n + 1, end) =~= right) by {
        assert forall|k: int| 0 <= k < right.len() implies ts.subrange(pos + n + 1, end)[k]
            == right[k] by {
            assert(ts.subrange(pos, end)[n + 1 + k] == all[n + 1 + k]);
        }
    }
}

/// Reading a term whose tokens stand at `pos` brings the parser to the
/// place behind them, with the term as the operand read so far.
proof fn lemma_term_reads(ts: Seq<TokenType>, pos: int, end: int, tree: Tree)
    requires
        tree.is_term(),
        spells(ts, pos, end, tree),
    ensures
        parse_term(ts, pos) == parse_term_from(ts, end, tree),
    decreases tree,
{
    match tree {
        Tree::Number(v) => {
            assert(ts.subrange(pos, end).len() == 1);
            assert(ts.subrange(pos, end)[0] == TokenType::Number(v));
        },
        Tree::Node(op, lhs, rhs) => {
            let mid = pos + tokens_of(*lhs).len();
            lemma_stretch_parts(ts, pos, end, tokens_of(*lhs), op_token(op), tokens_of(*rhs));
            lemma_term_reads(ts, pos, mid, *lhs);
            assert(ts.subrange(mid + 1, end)[0] == tokens_of(*rhs)[0]);
            assert(parse_number(ts, mid + 1) == Ok::<(Tree, int), ParseError>((*rhs, end)));
        },
        Tree::Return(_) => {},
    }
}

/// Reading an expression whose tokens stand at `pos`, with no operator of a
/// term behind them, brings the parser to the place behind them, with the
/// expression as the operand read so far.
proof fn lemma_expr_reads(ts: Seq<TokenType>, pos: int, end: int, tree: Tree)
    requires
        tree.is_expr(),
        spells(ts, pos, end, tree),
        ends_term(ts, end),
    ensures
        parse_expr(ts, pos) == parse_expr_from(ts, end, tree),
    decreases tree,
{
    if tree.is_term() {
        lemma_term_reads(ts, pos, end, tree);
    } else if let Tree::Node(op, lhs, rhs) = tree {
        let mid = pos + tokens_of(*lhs).len();
        lemma_stretch_parts(ts, pos, end, tokens_of(*lhs), op_token(op), tokens_of(*rhs));
        lemma_expr_reads(ts, pos, mid, *lhs);
        lemma_term_reads(ts, mid + 1, end, *rhs);
    }
}

/// Parsing inverts writing out: where the tokens at `pos` are those of an
/// expression, and the token behind them is no operator, the parser reads
/// that expression and stops behind it.
pub proof fn lemma_expr_parses(ts: Seq<TokenType>, pos: int, end: int, tree: Tree)
    requires
        tree.is_expr(),
        spells(ts, pos, end, tree),
        ends_expr(ts, end),
    ensures
        parse_expr(ts, pos) == Ok::<(Tree, int), ParseError>((tree, end)),
{
    lemma_expr_reads(ts, pos, end, tree);
}

/// A program is read exactly where the tokens start with those of a tree
/// that has the shape of a program, with no operator behind a bare
/// expression: the parser returns that tree.
pub proof fn lemma_program_parses(ts: Seq<TokenType>, tree: Tree)
    ensures
        parse_program(ts) == Ok::<Tree, ParseError>(tree) <==> tree.is_program() && spells(
            ts,
            0,
            tokens_of(tree).len() as int,
            tree,
        ) && (tree.is_expr() ==> ends_expr(ts, tokens_of(tree).len() as int)),
{
    let end = tokens_of(tree).len() as int;
    if parse_program(ts) == Ok::<Tree, ParseError>(tree) {
        if found_at(ts, 0) == Some(TokenType::Return) {
            lemma_expr_spells(ts, 1);
            let (_, next) = parse_expr(ts, 1)->Ok_0;
            assert(ts.subrange(0, next + 1) =~= seq![ts[0]] + ts.subrange(1, next) + seq![
                ts[next],
            ]);
        } else {
            lemma_expr_spells(ts, 0);
        }
    }
    if tree.is_program() && spells(ts, 0, end, tree) && (tree.is_expr() ==> ends_expr(ts, end)) {
        if tree.is_expr() {
            lemma_first_token(tree);
            assert(ts.subrange(0, end)[0] == tokens_of(tree)[0]);
            lemma_expr_parses(ts, 0, end, tree);
        } else if let Tree::Return(inner) = tree {
            let body = tokens_of(*inner);
            assert(tokens_of(tree) =~= Seq::empty() + seq![TokenType::Return] + (body + seq![
                TokenType::Semicolon,
            ]));
            lemma_stretch_parts(
                ts,
                0,
                end,
                Seq::empty(),
                TokenType::Return,
                body + seq![TokenType::Semicolon],
            );
            lemma_stretch_parts(ts, 1, end, body, TokenType::Semicolon, Seq::empty());
            lemma_expr_parses(ts, 1, end - 1, *inner);
        }
    }
}

/// The first token of an expression is a number.
proof fn lemma_first_token(tree: Tree)
    requires
        tree.is_expr(),
    ensures
        tokens_of(tree).len() > 0,
        tokens_of(tree)[0] is Number,
    decreases tree,
{
    match tree {
        Tree::Number(_) => {},
        Tree::Node(_, lhs, _) => {
            if tree.is_term() {
            }
            lemma_first_token(*lhs);
        },
        Tree::Return(_) => {},
    }
}

} // verus!
