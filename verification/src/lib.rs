//! A compiler from an arithmetic expression, or a return statement around
//! one, to x86-64 assembly.
//!
//! Five stages in a row: [`token`] splits the text into tokens, [`parse`]
//! builds the syntax tree, [`ir`] lowers it to instructions over virtual
//! registers, [`regalloc`] maps those to the eight physical registers, and
//! [`codegen`] writes the assembly. [`compile`] runs them all.

use vstd::prelude::*;

pub mod codegen;
pub mod decimal;
pub mod ir;
pub mod parse;
pub mod pressure;
pub mod regalloc;
pub mod semantics;
pub mod syntax;
pub mod token;

use crate::codegen::{emit_all, gen_x86, line_views};
use crate::ir::{gen_ir, program_code};
use crate::parse::{lemma_program, parse, parse_program, ParseError};
use crate::pressure::{lemma_allocated_program, lemma_shape_pressure, program_allocated};
use crate::regalloc::{
    alloc_regs, AllocError, AllocState, InternalError, RegAlloc, RegAllocError,
};
use crate::token::{
    lemma_lex_from_len, lex, token_kinds, token_views, tokenize, LexError, LexErrorView, Token,
    TokenType, TokenView,
};

verus! {

/// Why a source text has no assembly: the error of the stage that failed.
#[derive(Debug, PartialEq, Eq)]
pub enum CompileError {
    Lex(LexError),
    Parse(ParseError),
    Alloc(AllocError),
    Internal(InternalError),
}

/// The mathematical value of a [`CompileError`].
pub enum CompileErrorView {
    Lex(LexErrorView),
    Parse(ParseError),
    Alloc(AllocError),
    Internal(InternalError),
}

impl View for CompileError {
    type V = CompileErrorView;

    open spec fn view(&self) -> CompileErrorView {
        match self {
            CompileError::Lex(e) => CompileErrorView::Lex(e@),
            CompileError::Parse(e) => CompileErrorView::Parse(*e),
            CompileError::Alloc(e) => CompileErrorView::Alloc(*e),
            CompileError::Internal(e) => CompileErrorView::Internal(*e),
        }
    }
}

/// The kinds of a sequence of token values, in order.
pub open spec fn kinds_of(tokens: Seq<TokenView>) -> Seq<TokenType> {
    tokens.map_values(|t: TokenView| t.t)
}

/// The assembly of a source text, line by line, or the error of the first
/// stage that fails on it: lexing, parsing, then register allocation from
/// the fresh state.
pub open spec fn compiled(source: Seq<char>) -> Result<Seq<Seq<char>>, CompileErrorView> {
    match lex(source) {
        Err(e) => Err(CompileErrorView::Lex(e)),
        Ok(tokens) => match parse_program(kinds_of(tokens)) {
            Err(e) => Err(CompileErrorView::Parse(e)),
            Ok(tree) => {
                let run = AllocState::fresh().run(program_code(tree));
                match run.error {
                    Some(RegAllocError::Alloc(e)) => Err(CompileErrorView::Alloc(e)),
                    Some(RegAllocError::Internal(e)) => Err(CompileErrorView::Internal(e)),
                    None => Ok(emit_all(run.code)),
                }
            },
        },
    }
}

/// The assembly of a source text read off its syntax tree, with no
/// allocation state in between: a value lives in the physical register
/// whose number is the count of right operands that it stands below.
pub open spec fn assembled(source: Seq<char>) -> Result<Seq<Seq<char>>, CompileErrorView> {
    match lex(source) {
        Err(e) => Err(CompileErrorView::Lex(e)),
        Ok(tokens) => match parse_program(kinds_of(tokens)) {
            Err(e) => Err(CompileErrorView::Parse(e)),
            Ok(tree) => Ok(emit_all(program_allocated(tree))),
        },
    }
}

/// A program that the parser has read never has more than three registers
/// live at once, so register allocation cannot fail on it: a source text
/// has its assembly unless lexing or parsing fails, and the assembly can be
/// read off its syntax tree.
pub proof fn lemma_compiled_is_assembled(source: Seq<char>)
    requires
        source.len() <= usize::MAX,
    ensures
        compiled(source) == assembled(source),
        compiled(source) matches Err(e) ==> e is Lex || e is Parse,
{
    if let Ok(tokens) = lex(source) {
        lemma_lex_from_len(source, 0);
        let ts = kinds_of(tokens);
        lemma_program(ts);
        if let Ok(tree) = parse_program(ts) {
            lemma_shape_pressure(tree);
            lemma_allocated_program(tree);
        }
    }
}

/// Compiles a source text to the lines of its assembly.
///
/// The outcome is a function of the text alone: the same text always gives
/// the same lines, or the same error. It fails only where lexing or parsing
/// fails, and the lines can be read off the syntax tree.
pub fn compile(program: String) -> (r: Result<Vec<String>, CompileError>)
    ensures
        match r {
            Ok(lines) => compiled(program@) == Ok::<Seq<Seq<char>>, CompileErrorView>(
                line_views(lines@),
            ),
            Err(e) => compiled(program@) == Err::<Seq<Seq<char>>, CompileErrorView>(e@),
        },
        compiled(program@) == assembled(program@),
        r matches Err(e) ==> e is Lex || e is Parse,
{
    let tokens: Vec<Token> = match tokenize(program) {
        Ok(tokens) => tokens,
        Err(e) => {
            return Err(CompileError::Lex(e));
        },
    };
    proof {
        assert(token_kinds(tokens@) =~= kinds_of(token_views(tokens@)));
    }
    let tree = match parse(tokens) {
        Ok(tree) => tree,
        Err(e) => {
            return Err(CompileError::Parse(e));
        },
    };
    proof {
        lemma_shape_pressure(tree);
        lemma_allocated_program(tree);
    }
    let mut instructions = gen_ir(tree);
    let mut state = RegAlloc::new();
    match alloc_regs(&mut instructions, &mut state) {
        Ok(()) => {},
        Err(RegAllocError::Alloc(e)) => {
            return Err(CompileError::Alloc(e));
        },
        Err(RegAllocError::Internal(e)) => {
            return Err(CompileError::Internal(e));
        },
    }
    Ok(gen_x86(instructions))
}

} // verus!
