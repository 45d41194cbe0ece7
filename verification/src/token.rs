//! Lexical analysis: source text to an ordered sequence of tokens.
//!
//! The lexer is specified by [`lex`], a function from the characters of the
//! source to either the token sequence or the first lexical error, and
//! [`tokenize`] is proved to compute exactly that function.

use crate::decimal::{
    decimal_digits, decimal_value, digit_of, digit_text, is_digit, lemma_decimal_digits_value,
};
use vstd::prelude::*;

verus! {

/// The kind of a lexical token; a number carries its value.
#[derive(Clone, Copy, Debug, PartialEq, Eq, Structural)]
pub enum TokenType {
    Number(i64),
    Plus,
    Minus,
    Mul,
    Div,
    Return,
    Semicolon,
    EOF,
}

/// A token together with the source text it was read from.
#[derive(Debug, PartialEq, Eq)]
pub struct Token {
    pub t: TokenType,
    pub input: String,
}

/// The mathematical value of a [`Token`]: its kind and its lexeme as characters.
pub struct TokenView {
    pub t: TokenType,
    pub input: Seq<char>,
}

impl View for Token {
    type V = TokenView;

    open spec fn view(&self) -> TokenView {
        TokenView { t: self.t, input: self.input@ }
    }
}

/// Why a source text has no token sequence. Each variant names the offending input.
#[derive(Debug, PartialEq, Eq)]
pub enum LexError {
    /// A character that starts no token.
    UnexpectedChar(char),
    /// A word other than `return`.
    UnsupportedIdentifier(String),
    /// A run of digits whose value does not fit a 64-bit signed integer.
    NumberTooLarge(String),
}

/// The mathematical value of a [`LexError`].
pub enum LexErrorView {
    UnexpectedChar(char),
    UnsupportedIdentifier(Seq<char>),
    NumberTooLarge(Seq<char>),
}

impl View for LexError {
    type V = LexErrorView;

    open spec fn view(&self) -> LexErrorView {
        match self {
            LexError::UnexpectedChar(c) => LexErrorView::UnexpectedChar(*c),
            LexError::UnsupportedIdentifier(s) => LexErrorView::UnsupportedIdentifier(s@),
            LexError::NumberTooLarge(s) => LexErrorView::NumberTooLarge(s@),
        }
    }
}

/// The views of a sequence of tokens, in order.
pub open spec fn token_views(tokens: Seq<Token>) -> Seq<TokenView> {
    tokens.map_values(|t: Token| t@)
}

/// The kinds of a sequence of tokens, in order.
pub open spec fn token_kinds(tokens: Seq<Token>) -> Seq<TokenType> {
    tokens.map_values(|t: Token| t.t)
}

/// A word starts with an ASCII letter or an underscore.
pub open spec fn is_ident_start(c: char) -> bool {
    'a' <= c <= 'z' || 'A' <= c <= 'Z' || c == '_'
}

/// A word extends up to the next space or semicolon.
pub open spec fn ends_word(c: char) -> bool {
    c == ' ' || c == ';'
}

/// The length of the longest run of decimal digits of `s` that starts at `i`.
pub open spec fn digits_len(s: Seq<char>, i: int) -> nat
    decreases s.len() - i,
{
    if 0 <= i < s.len() && is_digit(s[i]) {
        1 + digits_len(s, i + 1)
    } else {
        0
    }
}

/// The length of the longest run of `s` that starts at `i` and holds neither
/// a space nor a semicolon.
pub open spec fn word_len(s: Seq<char>, i: int) -> nat
    decreases s.len() - i,
{
    if 0 <= i < s.len() && !ends_word(s[i]) {
        1 + word_len(s, i + 1)
    } else {
        0
    }
}

/// The keyword that opens a return statement.
pub open spec fn return_word() -> Seq<char> {
    seq!['r', 'e', 't', 'u', 'r', 'n']
}

/// The token that ends every token sequence.
pub open spec fn eof_token() -> TokenView {
    TokenView { t: TokenType::EOF, input: Seq::empty() }
}

/// The token that starts at position `i` of `s`, with the position just
/// behind it, where `s[i]` is not a space.
pub open spec fn token_at(s: Seq<char>, i: int) -> Result<(TokenView, int), LexErrorView>
    recommends
        0 <= i < s.len(),
{
    let c = s[i];
    if c == '+' {
        Ok((TokenView { t: TokenType::Plus, input: seq![c] }, i + 1))
    } else if c == '-' {
        Ok((TokenView { t: TokenType::Minus, input: seq![c] }, i + 1))
    } else if c == '*' {
        Ok((TokenView { t: TokenType::Mul, input: seq![c] }, i + 1))
    } else if c == '/' {
        Ok((TokenView { t: TokenType::Div, input: seq![c] }, i + 1))
    } else if c == ';' {
        Ok((TokenView { t: TokenType::Semicolon, input: seq![c] }, i + 1))
    } else if is_digit(c) {
        let end = i + digits_len(s, i);
        let text = s.subrange(i, end);
        if decimal_value(text) <= i64::MAX {
            Ok((TokenView { t: TokenType::Number(decimal_value(text) as i64), input: text }, end))
        } else {
            Err(LexErrorView::NumberTooLarge(text))
        }
    } else if is_ident_start(c) {
        let end = i + word_len(s, i);
        let text = s.subrange(i, end);
        if text == return_word() {
            Ok((TokenView { t: TokenType::Return, input: text }, end))
        } else {
            Err(LexErrorView::UnsupportedIdentifier(text))
        }
    } else {
        Err(LexErrorView::UnexpectedChar(c))
    }
}

/// The tokens of `s` from position `i` on, closed by the end token, or the
/// first lexical error at or behind `i`.
pub open spec fn lex_from(s: Seq<char>, i: int) -> Result<Seq<TokenView>, LexErrorView>
    decreases s.len() - i,
    via lex_from_decreases
{
    if !(0 <= i < s.len()) {
        Ok(seq![eof_token()])
    } else if s[i] == ' ' {
        lex_from(s, i + 1)
    } else {
        match token_at(s, i) {
            Ok((token, next)) => match lex_from(s, next) {
                Ok(rest) => Ok(seq![token] + rest),
                Err(e) => Err(e),
            },
            Err(e) => Err(e),
        }
    }
}

#[via_fn]
proof fn lex_from_decreases(s: Seq<char>, i: int) {
    if 0 <= i < s.len() && s[i] != ' ' {
        lemma_digits_len_bound(s, i);
        lemma_word_len_bound(s, i);
    }
}

/// The token sequence of a source text, or its first lexical error.
pub open spec fn lex(s: Seq<char>) -> Result<Seq<TokenView>, LexErrorView> {
    lex_from(s, 0)
}

/// A run of digits ends inside the text, and every character of it is a digit.
pub proof fn lemma_digits_len_bound(s: Seq<char>, i: int)
    requires
        0 <= i <= s.len(),
    ensures
        i + digits_len(s, i) <= s.len(),
        forall|k: int| i <= k < i + digits_len(s, i) ==> is_digit(#[trigger] s[k]),
        i + digits_len(s, i) < s.len() ==> !is_digit(s[i + digits_len(s, i)]),
    decreases s.len() - i,
{
    if i < s.len() && is_digit(s[i]) {
        lemma_digits_len_bound(s, i + 1);
    }
}

/// A word ends inside the text, at the first space or semicolon.
pub proof fn lemma_word_len_bound(s: Seq<char>, i: int)
    requires
        0 <= i <= s.len(),
    ensures
        i + word_len(s, i) <= s.len(),
        forall|k: int| i <= k < i + word_len(s, i) ==> !ends_word(#[trigger] s[k]),
        i + word_len(s, i) < s.len() ==> ends_word(s[i + word_len(s, i)]),
    decreases s.len() - i,
{
    if i < s.len() && !ends_word(s[i]) {
        lemma_word_len_bound(s, i + 1);
    }
}

/// A text has at most one token for each character, and the end token.
pub proof fn lemma_lex_from_len(s: Seq<char>, i: int)
    requires
        0 <= i <= s.len(),
    ensures
        lex_from(s, i) matches Ok(tokens) ==> 1 <= tokens.len() <= s.len() - i + 1,
    decreases s.len() - i,
{
    if i < s.len() {
        if s[i] == ' ' {
            lemma_lex_from_len(s, i + 1);
        } else if let Ok((_, next)) = token_at(s, i) {
            lemma_digits_len_bound(s, i);
            lemma_word_len_bound(s, i);
            lemma_lex_from_len(s, next);
        }
    }
}

/// Where every character from `i` on is a digit, the run at `i` reaches the end.
proof fn lemma_digits_to_end(s: Seq<char>, i: int)
    requires
        0 <= i <= s.len(),
        forall|k: int| i <= k < s.len() ==> is_digit(#[trigger] s[k]),
    ensures
        digits_len(s, i) == s.len() - i,
    decreases s.len() - i,
{
    if i < s.len() {
        lemma_digits_to_end(s, i + 1);
    }
}

/// A text that is one run of digits, with a value that a 64-bit signed integer
/// holds, lexes to exactly one number token, which has the decimal value of
/// the run and the run as its text, followed by the end token.
pub proof fn lemma_lex_digit_run(s: Seq<char>)
    requires
        s.len() > 0,
        forall|k: int| 0 <= k < s.len() ==> is_digit(#[trigger] s[k]),
        decimal_value(s) <= i64::MAX,
    ensures
        lex(s) == Ok::<Seq<TokenView>, LexErrorView>(
            seq![
                TokenView { t: TokenType::Number(decimal_value(s) as i64), input: s },
                eof_token(),
            ],
        ),
{
    lemma_digits_to_end(s, 0);
    assert(s.subrange(0, s.len() as int) =~= s);
    let number = TokenView { t: TokenType::Number(decimal_value(s) as i64), input: s };
    assert(lex_from(s, s.len() as int) == Ok::<Seq<TokenView>, LexErrorView>(seq![eof_token()]));
    assert(seq![number] + seq![eof_token()] =~= seq![number, eof_token()]);
}

/// The decimal digits of a number that a 64-bit signed integer holds lex
/// back to that number.
pub proof fn lemma_lex_decimal_digits(n: nat)
    requires
        n <= i64::MAX,
    ensures
        lex(decimal_digits(n)) == Ok::<Seq<TokenView>, LexErrorView>(
            seq![
                TokenView { t: TokenType::Number(n as i64), input: decimal_digits(n) },
                eof_token(),
            ],
        ),
{
    lemma_decimal_digits_value(n);
    lemma_lex_digit_run(decimal_digits(n));
}

/// The characters of `s` from `i` on that are no spaces.
pub open spec fn unspaced(s: Seq<char>, i: int) -> Seq<char>
    decreases s.len() - i,
{
    if !(0 <= i < s.len()) {
        Seq::empty()
    } else if s[i] == ' ' {
        unspaced(s, i + 1)
    } else {
        seq![s[i]] + unspaced(s, i + 1)
    }
}

/// The texts of a sequence of tokens, one behind the other.
pub open spec fn texts(tokens: Seq<TokenView>) -> Seq<char>
    decreases tokens.len(),
{
    if tokens.len() == 0 {
        Seq::empty()
    } else {
        tokens.first().input + texts(tokens.drop_first())
    }
}

/// The kind of a token is the one that its text stands for: a symbol or the
/// keyword for itself, a run of digits for its decimal value, the empty
/// text for the end.
pub open spec fn reads_as(text: Seq<char>, t: TokenType) -> bool {
    match t {
        TokenType::Plus => text == seq!['+'],
        TokenType::Minus => text == seq!['-'],
        TokenType::Mul => text == seq!['*'],
        TokenType::Div => text == seq!['/'],
        TokenType::Semicolon => text == seq![';'],
        TokenType::Return => text == return_word(),
        TokenType::EOF => text.len() == 0,
        TokenType::Number(v) => text.len() > 0 && decimal_value(text) == v && forall|k: int|
            0 <= k < text.len() ==> is_digit(#[trigger] text[k]),
    }
}

/// A stretch without spaces stands whole at the head of the text without spaces.
proof fn lemma_unspaced_stretch(s: Seq<char>, i: int, end: int)
    requires
        0 <= i <= end <= s.len(),
        forall|k: int| i <= k < end ==> #[trigger] s[k] != ' ',
    ensures
        unspaced(s, i) == s.subrange(i, end) + unspaced(s, end),
    decreases end - i,
{
    if i < end {
        lemma_unspaced_stretch(s, i + 1, end);
        assert(s.subrange(i, end) =~= seq![s[i]] + s.subrange(i + 1, end));
    } else {
        assert(s.subrange(i, end) =~= Seq::<char>::empty());
    }
    assert(unspaced(s, i) =~= s.subrange(i, end) + unspaced(s, end));
}

/// The token at a place takes a stretch of the text that has no space in
/// it, keeps that stretch as its text, and has the kind that the text
/// stands for; it is never the end token.
pub proof fn lemma_token_at(s: Seq<char>, i: int)
    requires
        0 <= i < s.len(),
        s[i] != ' ',
    ensures
        token_at(s, i) matches Ok((token, next)) ==> {
            &&& i < next <= s.len()
            &&& token.input == s.subrange(i, next)
            &&& forall|k: int| i <= k < next ==> #[trigger] s[k] != ' '
            &&& reads_as(token.input, token.t)
            &&& token.t != TokenType::EOF
        },
{
    lemma_digits_len_bound(s, i);
    lemma_word_len_bound(s, i);
    if let Ok((token, next)) = token_at(s, i) {
        assert(token.input =~= s.subrange(i, next));
    }
}

/// Lexing keeps the text: the texts of the tokens, one behind the other,
/// are the source without its spaces; every token has the kind that its
/// text stands for; and the end token is the last token and no other.
pub proof fn lemma_lex_keeps_text(s: Seq<char>, i: int)
    requires
        0 <= i <= s.len(),
    ensures
        lex_from(s, i) matches Ok(tokens) ==> {
            &&& texts(tokens) == unspaced(s, i)
            &&& forall|k: int|
                0 <= k < tokens.len() ==> reads_as((#[trigger] tokens[k]).input, tokens[k].t)
            &&& forall|k: int|
                0 <= k < tokens.len() ==> ((#[trigger] tokens[k]).t == TokenType::EOF <==> k
                    == tokens.len() - 1)
        },
    decreases s.len() - i,
{
    if i == s.len() {
        let tokens = seq![eof_token()];
        assert(texts(tokens.drop_first()) =~= Seq::<char>::empty());
        assert(texts(tokens) =~= Seq::<char>::empty());
    } else if s[i] == ' ' {
        lemma_lex_keeps_text(s, i + 1);
    } else if let Ok((token, next)) = token_at(s, i) {
        lemma_token_at(s, i);
        lemma_lex_keeps_text(s, next);
        if let Ok(rest) = lex_from(s, next) {
            let tokens = seq![token] + rest;
            assert(tokens.first() == token);
            assert(tokens.drop_first() =~= rest);
            lemma_unspaced_stretch(s, i, next);
            lemma_lex_from_len(s, next);
            assert forall|k: int| 0 <= k < tokens.len() implies reads_as(
                (#[trigger] tokens[k]).input,
                tokens[k].t,
            ) && (tokens[k].t == TokenType::EOF <==> k == tokens.len() - 1) by {
                if k > 0 {
                    assert(tokens[k] == rest[k - 1]);
                }
            }
        }
    }
}

/// The source text as a vector of its characters.
fn collect_chars(s: &str) -> (chars: Vec<char>)
    ensures
        chars@ == s@,
{
    let mut chars: Vec<char> = Vec::new();
    for c in it: s.chars()
        invariant
            it.seq() == s@,
            chars@ == it.seq().take(it.index() as int),
    {
        chars.push(c);
    }
    chars
}

/// Attaches a result for the rest of a text to the tokens read so far.
pub open spec fn after_tokens(
    read: Seq<TokenView>,
    rest: Result<Seq<TokenView>, LexErrorView>,
) -> Result<Seq<TokenView>, LexErrorView> {
    match rest {
        Ok(tokens) => Ok(read + tokens),
        Err(e) => Err(e),
    }
}

/// Reads the run of digits that starts at `start`: the position behind it,
/// its value where that fits, and its text.
fn scan_number(chars: &Vec<char>, start: usize) -> (r: (usize, Option<i64>, String))
    requires
        start < chars.len(),
        is_digit(chars[start as int]),
    ensures
        r.0 == start + digits_len(chars@, start as int),
        r.0 <= chars.len(),
        r.2@ == chars@.subrange(start as int, r.0 as int),
        decimal_value(r.2@) <= i64::MAX ==> r.1 == Some(decimal_value(r.2@) as i64),
        decimal_value(r.2@) > i64::MAX ==> r.1 is None,
{
    let n: usize = chars.len();
    let mut i: usize = start;
    let mut value: Option<i64> = Some(0);
    let mut text: String = String::new();
    while i < n && chars[i] >= '0' && chars[i] <= '9'
        invariant
            n == chars.len(),
            start <= i <= n,
            digits_len(chars@, start as int) == (i - start) + digits_len(chars@, i as int),
            text@ == chars@.subrange(start as int, i as int),
            decimal_value(text@) <= i64::MAX ==> value == Some(decimal_value(text@) as i64),
            decimal_value(text@) > i64::MAX ==> value is None,
        decreases n - i,
    {
        let c: char = chars[i];
        let d: u8 = digit_of(c);
        let ghost before = text@;
        text.append(digit_text(d));
        proof {
            assert(text@.drop_last() =~= before);
        }
        value = match value {
            Some(v) => if v > (i64::MAX - d as i64) / 10 {
                None
            } else {
                Some(v * 10 + d as i64)
            },
            None => None,
        };
        i += 1;
    }
    (i, value, text)
}

/// The position behind the word that starts at `start`.
fn scan_word(chars: &Vec<char>, start: usize) -> (end: usize)
    requires
        start <= chars.len(),
    ensures
        end == start + word_len(chars@, start as int),
        end <= chars.len(),
{
    let n: usize = chars.len();
    let mut i: usize = start;
    while i < n && chars[i] != ' ' && chars[i] != ';'
        invariant
            n == chars.len(),
            start <= i <= n,
            word_len(chars@, start as int) == (i - start) + word_len(chars@, i as int),
        decreases n - i,
    {
        i += 1;
    }
    i
}

/// Whether the characters from `start` up to `end` spell `return`.
fn is_return_word(chars: &Vec<char>, start: usize, end: usize) -> (b: bool)
    requires
        start <= end <= chars.len(),
    ensures
        b == (chars@.subrange(start as int, end as int) == return_word()),
{
    let ghost text = chars@.subrange(start as int, end as int);
    if end - start != 6 {
        assert(text.len() != return_word().len());
        return false;
    }
    let b: bool = chars[start] == 'r' && chars[start + 1] == 'e' && chars[start + 2] == 't'
        && chars[start + 3] == 'u' && chars[start + 4] == 'r' && chars[start + 5] == 'n';
    proof {
        if b {
            assert(text =~= return_word());
        }
    }
    b
}

/// A token of one character.
fn symbol(t: TokenType, text: &str) -> (token: Token)
    ensures
        token@ == (TokenView { t, input: text@ }),
{
    Token { t, input: String::from_str(text) }
}

/// Splits a source text into its tokens and closes them with the end token.
///
/// Spaces separate tokens and are dropped. The result is the whole token
/// sequence of the text, or the first lexical error in it.
pub fn tokenize(program: String) -> (r: Result<Vec<Token>, LexError>)
    ensures
        match r {
            Ok(tokens) => lex(program@) == Ok::<Seq<TokenView>, LexErrorView>(
                token_views(tokens@),
            ),
            Err(e) => lex(program@) == Err::<Seq<TokenView>, LexErrorView>(e@),
        },
{
    let chars: Vec<char> = collect_chars(program.as_str());
    let n: usize = chars.len();
    let mut tokens: Vec<Token> = Vec::new();
    let mut i: usize = 0;
    while i < n
        invariant
            chars@ == program@,
            n == chars.len(),
            i <= n,
            lex(chars@) == after_tokens(token_views(tokens@), lex_from(chars@, i as int)),
        decreases n - i,
    {
        let c: char = chars[i];
        let ghost read = token_views(tokens@);
        proof {
            reveal_strlit("+");
            reveal_strlit("-");
            reveal_strlit("*");
            reveal_strlit("/");
            reveal_strlit(";");
            reveal_strlit("return");
        }
        if c == ' ' {
            i += 1;
        } else {
            let token: Token;
            let next: usize;
            if c == '+' {
                token = symbol(TokenType::Plus, "+");
                next = i + 1;
            } else if c == '-' {
                token = symbol(TokenType::Minus, "-");
                next = i + 1;
            } else if c == '*' {
                token = symbol(TokenType::Mul, "*");
                next = i + 1;
            } else if c == '/' {
                token = symbol(TokenType::Div, "/");
                next = i + 1;
            } else if c == ';' {
                token = symbol(TokenType::Semicolon, ";");
                next = i + 1;
            } else if c >= '0' && c <= '9' {
                let (end, value, text) = scan_number(&chars, i);
                match value {
                    Some(v) => {
                        token = Token { t: TokenType::Number(v), input: text };
                        next = end;
                    },
                    None => {
                        return Err(LexError::NumberTooLarge(text));
                    },
                }
            } else if (c >= 'a' && c <= 'z') || (c >= 'A' && c <= 'Z') || c == '_' {
                let end: usize = scan_word(&chars, i);
                if is_return_word(&chars, i, end) {
                    token = symbol(TokenType::Return, "return");
                    next = end;
                } else {
                    let text: &str = program.as_str().substring_char(i, end);
                    return Err(LexError::UnsupportedIdentifier(String::from_str(text)));
                }
            } else {
                return Err(LexError::UnexpectedChar(c));
            }
            proof {
                assert(token_at(chars@, i as int) == Ok::<(TokenView, int), LexErrorView>(
                    (token@, next as int),
                )) by {
                    assert(token@.input =~= chars@.subrange(i as int, next as int));
                    assert(chars@.subrange(i as int, i + 1) =~= seq![c]);
                }
            }
            tokens.push(token);
            proof {
                assert(token_views(tokens@) =~= read.push(token@));
                match lex_from(chars@, next as int) {
                    Ok(rest) => {
                        assert(read + (seq![token@] + rest) =~= read.push(token@) + rest);
                    },
                    Err(_) => {},
                }
            }
            i = next;
        }
    }
    let ghost read = token_views(tokens@);
    tokens.push(Token { t: TokenType::EOF, input: String::new() });
    proof {
        assert(token_views(tokens@) =~= read + seq![eof_token()]);
    }
    Ok(tokens)
}

} // verus!
