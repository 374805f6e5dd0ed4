//! The source language: a program is a list of statements, each either an
//! assignment `name = expr;` or an expression `expr;`. Lambdas are written
//! `\x y. body` (or with `λ`), application is juxtaposition and groups to the
//! left, integer literals (with optional `_` separators) stand for Church
//! numerals, and `#` starts a comment that runs to the end of the line.
//!
//! The parser hands every name, binder, application and numeral to the
//! binder (`SymbolTable`) as it meets them, and stops at the first syntax
//! error, which it records with its offset.
use vstd::prelude::*;
use vstd::string::StringExecFns;
use crate::expr::{Allocator, ExprRef};
use crate::messages::{Offset, has_error, lemma_one_more_errors};
use crate::symbol_table::{SymbolTable, apply_all, church, global_term, scope_index, wrap_lambdas};
use crate::term::Term;

verus! {

/// Relies on `String`'s `FromIterator<char>` to collect exactly the given characters.
#[verifier::external_body]
pub(crate) fn string_from_chars(chars: &[char]) -> (r: String)
    ensures
        r@ == chars@,
{
    chars.iter().collect()
}

/// Relies on `num_traits::Num::from_str_radix` for `u64` in base 10: the
/// value of a string of decimal digits, or an error when it exceeds `u64::MAX`.
#[verifier::external_body]
fn u64_from_decimal(digits: &str) -> (r: Option<u64>)
    requires
        digits@.len() >= 1,
        forall|i: int| 0 <= i < digits@.len() ==> is_digit(#[trigger] digits@[i]),
    ensures
        r is Some <==> digits_value(digits@) <= u64::MAX,
        r matches Some(v) ==> v == digits_value(digits@),
{
    <u64 as num_traits::Num>::from_str_radix(digits, 10).ok()
}

pub open spec fn is_digit(c: char) -> bool {
    '0' <= c <= '9'
}

pub open spec fn digit_value(c: char) -> nat {
    (c as u32 - '0' as u32) as nat
}

/// The number that a string of decimal digits writes.
pub open spec fn digits_value(s: Seq<char>) -> nat
    decreases s.len(),
{
    if s.len() == 0 {
        0
    } else {
        digits_value(s.drop_last()) * 10 + digit_value(s.last())
    }
}

/// `s` without its underscores.
pub open spec fn without_underscores(s: Seq<char>) -> Seq<char>
    decreases s.len(),
{
    if s.len() == 0 {
        s
    } else if s.last() == '_' {
        without_underscores(s.drop_last())
    } else {
        without_underscores(s.drop_last()).push(s.last())
    }
}

/// Read an integer literal: decimal digits, with underscores allowed between
/// them. `None` when no digit is left or the value exceeds `u64::MAX`.
pub fn parse_integer_literal(input: &Vec<char>) -> (r: Option<u64>)
    requires
        forall|i: int| 0 <= i < input@.len() ==> is_digit(#[trigger] input@[i]) || input@[i] == '_',
    ensures
        r is Some <==> without_underscores(input@).len() >= 1 && digits_value(
            without_underscores(input@),
        ) <= u64::MAX,
        r matches Some(v) ==> v == digits_value(without_underscores(input@)),
{
    let mut digits: Vec<char> = Vec::new();
    let mut i: usize = 0;
    while i < input.len()
        invariant
            i <= input@.len(),
            digits@ == without_underscores(input@.subrange(0, i as int)),
            forall|j: int| 0 <= j < digits@.len() ==> is_digit(#[trigger] digits@[j]),
            forall|j: int| 0 <= j < input@.len() ==> is_digit(#[trigger] input@[j]) || input@[j] == '_',
        decreases input.len() - i,
    {
        proof {
            assert(input@.subrange(0, i + 1).drop_last() =~= input@.subrange(0, i as int));
        }
        if input[i] != '_' {
            digits.push(input[i]);
        }
        i = i + 1;
    }
    proof {
        assert(input@.subrange(0, input@.len() as int) =~= input@);
    }
    if digits.len() == 0 {
        return None;
    }
    let text = string_from_chars(digits.as_slice());
    u64_from_decimal(text.as_str())
}

/// The kinds of token.
#[derive(Debug, Clone, PartialEq, Eq)]
pub enum TokenKind {
    Name(String),
    Number(u64),
    Lambda,
    Dot,
    LParen,
    RParen,
    Equals,
    Semicolon,
}

/// A token and the offset of its first character.
#[derive(Debug, Clone, PartialEq, Eq)]
pub struct Token {
    pub kind: TokenKind,
    pub offset: usize,
}

pub open spec fn is_name_start(c: char) -> bool {
    ('a' <= c <= 'z') || ('A' <= c <= 'Z') || c == '_'
}

pub open spec fn is_name_char(c: char) -> bool {
    is_name_start(c) || is_digit(c) || c == '\''
}


fn name_start(c: char) -> (r: bool)
    ensures
        r == is_name_start(c),
{
    ('a' <= c && c <= 'z') || ('A' <= c && c <= 'Z') || c == '_'
}

fn digit(c: char) -> (r: bool)
    ensures
        r == is_digit(c),
{
    '0' <= c && c <= '9'
}

fn name_char(c: char) -> (r: bool)
    ensures
        r == is_name_char(c),
{
    name_start(c) || digit(c) || c == '\''
}


/// A token kind with its name as characters.
pub enum KindView {
    Name(Seq<char>),
    Number(u64),
    Lambda,
    Dot,
    LParen,
    RParen,
    Equals,
    Semicolon,
}

pub open spec fn kind_view(k: TokenKind) -> KindView {
    match k {
        TokenKind::Name(n) => KindView::Name(n@),
        TokenKind::Number(m) => KindView::Number(m),
        TokenKind::Lambda => KindView::Lambda,
        TokenKind::Dot => KindView::Dot,
        TokenKind::LParen => KindView::LParen,
        TokenKind::RParen => KindView::RParen,
        TokenKind::Equals => KindView::Equals,
        TokenKind::Semicolon => KindView::Semicolon,
    }
}

pub open spec fn token_view(t: Token) -> (KindView, int) {
    (kind_view(t.kind), t.offset as int)
}

pub open spec fn is_blank(c: char) -> bool {
    c == ' ' || c == '\t' || c == '\n' || c == '\r'
}

/// The end of the run of name characters from `i`.
pub open spec fn name_end(src: Seq<char>, i: int) -> int
    decreases src.len() - i,
{
    if 0 <= i < src.len() && is_name_char(src[i]) {
        name_end(src, i + 1)
    } else {
        i
    }
}

/// The end of the run of digits and underscores from `i`.
pub open spec fn literal_end(src: Seq<char>, i: int) -> int
    decreases src.len() - i,
{
    if 0 <= i < src.len() && (is_digit(src[i]) || src[i] == '_') {
        literal_end(src, i + 1)
    } else {
        i
    }
}

/// The position of the next line break from `i`, or the end.
pub open spec fn line_end(src: Seq<char>, i: int) -> int
    decreases src.len() - i,
{
    if 0 <= i < src.len() && src[i] != '\n' {
        line_end(src, i + 1)
    } else {
        i
    }
}

/// The one-character tokens.
pub open spec fn symbol_kind(c: char) -> Option<KindView> {
    if c == '\\' || c == 'λ' {
        Some(KindView::Lambda)
    } else if c == '.' {
        Some(KindView::Dot)
    } else if c == '(' {
        Some(KindView::LParen)
    } else if c == ')' {
        Some(KindView::RParen)
    } else if c == '=' {
        Some(KindView::Equals)
    } else if c == ';' {
        Some(KindView::Semicolon)
    } else {
        None
    }
}

pub open spec fn prepend_tokens(p: Seq<(KindView, int)>, r: Result<Seq<(KindView, int)>, int>) -> Result<Seq<(KindView, int)>, int> {
    match r {
        Ok(rest) => Ok(p + rest),
        Err(e) => Err(e),
    }
}

/// The tokens of `src` from `i` on, each with its offset, or the offset of
/// a character that starts no token (or of a literal too large for `u64`).
pub open spec fn lex_at(src: Seq<char>, i: int) -> Result<Seq<(KindView, int)>, int>
    decreases src.len() - i,
{
    if i < 0 || i >= src.len() {
        Ok(Seq::empty())
    } else {
        let c = src[i];
        if is_blank(c) {
            lex_at(src, i + 1)
        } else if c == '#' {
            let j = line_end(src, i + 1);
            if i < j <= src.len() { lex_at(src, j) } else { Err(i) }
        } else if is_name_start(c) {
            let j = name_end(src, i + 1);
            if i < j <= src.len() {
                prepend_tokens(seq![(KindView::Name(src.subrange(i, j)), i)], lex_at(src, j))
            } else {
                Err(i)
            }
        } else if is_digit(c) {
            let j = literal_end(src, i + 1);
            let lit = without_underscores(src.subrange(i, j));
            if i < j <= src.len() && lit.len() >= 1 && digits_value(lit) <= u64::MAX {
                prepend_tokens(seq![(KindView::Number(digits_value(lit) as u64), i)], lex_at(src, j))
            } else {
                Err(i)
            }
        } else {
            match symbol_kind(c) {
                Some(k) => prepend_tokens(seq![(k, i)], lex_at(src, i + 1)),
                None => Err(i),
            }
        }
    }
}

/// Every name token is nonempty and every token starts inside the text.
pub open spec fn tokens_ok(tokens: Seq<Token>, len: nat) -> bool {
    forall|i: int|
        0 <= i < tokens.len() ==> {
            &&& (#[trigger] tokens[i]).offset < len
            &&& (tokens[i].kind matches TokenKind::Name(n) ==> n@.len() >= 1)
        }
}

/// Split `src` into tokens, or give the offset of a character that starts
/// none, or of an integer literal too large for `u64`.
pub fn tokenize(src: &Vec<char>) -> (r: Result<Vec<Token>, usize>)
    ensures
        r matches Ok(tokens) ==> tokens_ok(tokens@, src@.len()) && tokens@.len() <= src@.len(),
        r matches Err(offset) ==> offset < src@.len(),
        match lex_at(src@, 0) {
            Ok(v) => r matches Ok(tokens) && tokens@.map_values(|t: Token| token_view(t)) == v,
            Err(o) => r == Err::<Vec<Token>, usize>(o as usize),
        },
{
    let mut tokens: Vec<Token> = Vec::new();
    let mut i: usize = 0;
    proof {
        assert(tokens@.map_values(|t: Token| token_view(t)) + Seq::<(KindView, int)>::empty() =~= Seq::<(KindView, int)>::empty());
        match lex_at(src@, 0) {
            Ok(v) => { assert(Seq::<(KindView, int)>::empty() + v =~= v); },
            Err(_) => {},
        }
    }
    while i < src.len()
        invariant
            i <= src@.len(),
            tokens_ok(tokens@, src@.len()),
            tokens@.len() <= i,
            lex_at(src@, 0) == prepend_tokens(tokens@.map_values(|t: Token| token_view(t)), lex_at(src@, i as int)),
        decreases src.len() - i,
    {
        let ghost seen = tokens@.map_values(|t: Token| token_view(t));
        let ghost i0 = i as int;
        let c = src[i];
        if c == ' ' || c == '\t' || c == '\n' || c == '\r' {
            i = i + 1;
        } else if c == '#' {
            let start = i;
            i = i + 1;
            while i < src.len() && src[i] != '\n'
                invariant
                    start < i <= src@.len(),
                    tokens@.len() <= i,
                    line_end(src@, start + 1) == line_end(src@, i as int),
                decreases src.len() - i,
            {
                i = i + 1;
            }
        } else if name_start(c) {
            let start = i;
            let mut name: Vec<char> = Vec::new();
            name.push(c);
            i = i + 1;
            while i < src.len() && name_char(src[i])
                invariant
                    start < i <= src@.len(),
                    name@.len() == i - start,
                    name@ == src@.subrange(start as int, i as int),
                    name_end(src@, start + 1) == name_end(src@, i as int),
                decreases src.len() - i,
            {
                name.push(src[i]);
                i = i + 1;
                proof {
                    assert(name@ =~= src@.subrange(start as int, i as int));
                }
            }
            let text = string_from_chars(name.as_slice());
            tokens.push(Token { kind: TokenKind::Name(text), offset: start });
            proof {
                let tv = tokens@.map_values(|t: Token| token_view(t));
                assert(tv =~= seen + seq![(KindView::Name(src@.subrange(start as int, i as int)), start as int)]);
                match lex_at(src@, i as int) {
                    Ok(rest) => { assert(seen + (seq![(KindView::Name(src@.subrange(start as int, i as int)), start as int)] + rest) =~= tv + rest); },
                    Err(_) => {},
                }
            }
        } else if digit(c) {
            let start = i;
            let mut literal: Vec<char> = Vec::new();
            literal.push(c);
            i = i + 1;
            while i < src.len() && (digit(src[i]) || src[i] == '_')
                invariant
                    start < i <= src@.len(),
                    literal@.len() == i - start,
                    literal@ == src@.subrange(start as int, i as int),
                    literal_end(src@, start + 1) == literal_end(src@, i as int),
                    forall|j: int| 0 <= j < literal@.len() ==> is_digit(#[trigger] literal@[j]) || literal@[j] == '_',
                decreases src.len() - i,
            {
                literal.push(src[i]);
                i = i + 1;
                proof {
                    assert(literal@ =~= src@.subrange(start as int, i as int));
                }
            }
            match parse_integer_literal(&literal) {
                Some(n) => {
                    tokens.push(Token { kind: TokenKind::Number(n), offset: start });
                    proof {
                        let tv = tokens@.map_values(|t: Token| token_view(t));
                        assert(tv =~= seen + seq![(KindView::Number(n), start as int)]);
                        match lex_at(src@, i as int) {
                            Ok(rest) => { assert(seen + (seq![(KindView::Number(n), start as int)] + rest) =~= tv + rest); },
                            Err(_) => {},
                        }
                    }
                },
                None => return Err(start),
            }
        } else {
            let kind = if c == '\\' || c == 'λ' {
                TokenKind::Lambda
            } else if c == '.' {
                TokenKind::Dot
            } else if c == '(' {
                TokenKind::LParen
            } else if c == ')' {
                TokenKind::RParen
            } else if c == '=' {
                TokenKind::Equals
            } else if c == ';' {
                TokenKind::Semicolon
            } else {
                return Err(i);
            };
            tokens.push(Token { kind, offset: i });
            proof {
                let tv = tokens@.map_values(|t: Token| token_view(t));
                let k = kind_view(kind);
                assert(symbol_kind(c) == Some(k));
                assert(tv =~= seen + seq![(k, i as int)]);
                match lex_at(src@, i + 1) {
                    Ok(rest) => { assert(seen + (seq![(k, i as int)] + rest) =~= tv + rest); },
                    Err(_) => {},
                }
            }
            i = i + 1;
        }
    }
    proof {
        assert(tokens@.map_values(|t: Token| token_view(t)) + Seq::<(KindView, int)>::empty() =~= tokens@.map_values(|t: Token| token_view(t)));
    }
    Ok(tokens)
}


/// The term a name stands for under `scopes` (innermost last) and the
/// globals, and whether it is known at all (an unknown name stands for
/// variable 1, with an error).
pub open spec fn name_term(scopes: Seq<Seq<char>>, globals: Seq<(Seq<char>, Term)>, name: Seq<char>) -> (Term, bool) {
    match scope_index(scopes, name) {
        Some(k) => (Term::Variable(k as u64), true),
        None => match global_term(globals, name) {
            Some(t) => (t, true),
            None => (Term::Variable(1), false),
        },
    }
}

/// How many name tokens follow each other from `pos` on.
pub open spec fn names_run(toks: Seq<Token>, pos: int) -> nat
    decreases toks.len() - pos,
{
    if 0 <= pos < toks.len() && toks[pos].kind is Name {
        1 + names_run(toks, pos + 1)
    } else {
        0
    }
}

/// The `n` names from `pos` on.
pub open spec fn names_at(toks: Seq<Token>, pos: int, n: nat) -> Seq<Seq<char>> {
    Seq::new(n, |i: int| match toks[pos + i].kind {
        TokenKind::Name(s) => s@,
        _ => Seq::empty(),
    })
}

/// Two kinds without payload are the same.
pub open spec fn same_kind(a: TokenKind, b: TokenKind) -> bool {
    match (a, b) {
        (TokenKind::Lambda, TokenKind::Lambda) => true,
        (TokenKind::Dot, TokenKind::Dot) => true,
        (TokenKind::LParen, TokenKind::LParen) => true,
        (TokenKind::RParen, TokenKind::RParen) => true,
        (TokenKind::Equals, TokenKind::Equals) => true,
        (TokenKind::Semicolon, TokenKind::Semicolon) => true,
        _ => false,
    }
}

pub open spec fn is_atom_start(k: TokenKind) -> bool {
    k is Name || k is Number || k is LParen
}

/// An expression from `pos`: its term, the position after it, and whether
/// every name in it is known. `None` when the tokens do not form one.
pub open spec fn expr_at(toks: Seq<Token>, pos: int, scopes: Seq<Seq<char>>, globals: Seq<(Seq<char>, Term)>) -> Option<(Term, int, bool)>
    decreases toks.len() - pos, 2int,
{
    if 0 <= pos < toks.len() && toks[pos].kind is Lambda {
        let n = names_run(toks, pos + 1);
        if n == 0 || !(pos + 1 + n < toks.len() && toks[pos + 1 + n].kind is Dot) {
            None
        } else {
            match expr_at(toks, pos + 2 + n, scopes + names_at(toks, pos + 1, n), globals) {
                None => None,
                Some((b, end, k)) => Some((wrap_lambdas(n, b), end, k)),
            }
        }
    } else {
        match atom_at(toks, pos, scopes, globals) {
            None => None,
            Some((f, head_end, k1)) => if pos < head_end <= toks.len() {
                match args_at(toks, head_end, scopes, globals) {
                    None => None,
                    Some((args, end, k2)) => Some((apply_all(f, args), end, k1 && k2)),
                }
            } else {
                None
            },
        }
    }
}

/// The arguments that follow the head of an application: atoms, the last
/// of which may instead be a lambda.
pub open spec fn args_at(toks: Seq<Token>, pos: int, scopes: Seq<Seq<char>>, globals: Seq<(Seq<char>, Term)>) -> Option<(Seq<Term>, int, bool)>
    decreases toks.len() - pos, 3int,
{
    if 0 <= pos < toks.len() && toks[pos].kind is Lambda {
        match expr_at(toks, pos, scopes, globals) {
            None => None,
            Some((e, end, k)) => Some((seq![e], end, k)),
        }
    } else if 0 <= pos < toks.len() && is_atom_start(toks[pos].kind) {
        match atom_at(toks, pos, scopes, globals) {
            None => None,
            Some((a, head_end, k1)) => if pos < head_end <= toks.len() {
                match args_at(toks, head_end, scopes, globals) {
                    None => None,
                    Some((rest, end, k2)) => Some((seq![a] + rest, end, k1 && k2)),
                }
            } else {
                None
            },
        }
    } else {
        Some((Seq::empty(), pos, true))
    }
}

/// A name, a numeral or a parenthesized expression.
pub open spec fn atom_at(toks: Seq<Token>, pos: int, scopes: Seq<Seq<char>>, globals: Seq<(Seq<char>, Term)>) -> Option<(Term, int, bool)>
    decreases toks.len() - pos, 0int,
{
    if pos < 0 || pos >= toks.len() {
        None
    } else {
        match toks[pos].kind {
            TokenKind::Name(n) => if scopes.len() >= 0x7fff_ffff_ffff_ffff {
                None
            } else {
                let (t, k) = name_term(scopes, globals, n@);
                Some((t, pos + 1, k))
            },
            TokenKind::Number(m) => Some((church(m as nat), pos + 1, true)),
            TokenKind::LParen => match expr_at(toks, pos + 1, scopes, globals) {
                None => None,
                Some((e, end, k)) => if 0 <= end < toks.len() && toks[end].kind is RParen {
                    Some((e, end + 1, k))
                } else {
                    None
                },
            },
            _ => None,
        }
    }
}

/// Prepend parsed arguments to what the rest parses to.
pub open spec fn join_args(prefix: Seq<Term>, known: bool, rest: Option<(Seq<Term>, int, bool)>) -> Option<(Seq<Term>, int, bool)> {
    match rest {
        None => None,
        Some((r, end, k)) => Some((prefix + r, end, known && k)),
    }
}


/// A statement from `pos`: the name it assigns (if it is an assignment), its
/// expression's term, the position after it and whether its names are all
/// known. Each statement ends with `;`, which `last` allows to be left out
/// at the end of the input.
pub open spec fn stmt_at(toks: Seq<Token>, pos: int, globals: Seq<(Seq<char>, Term)>, last: bool) -> Option<(Option<Seq<char>>, Term, int, bool)> {
    let assign = 0 <= pos && pos + 1 < toks.len() && toks[pos].kind is Name && toks[pos + 1].kind is Equals;
    let start = if assign { pos + 2 } else { pos };
    let name = if assign {
        match toks[pos].kind {
            TokenKind::Name(n) => Some(n@),
            _ => None,
        }
    } else {
        None
    };
    match expr_at(toks, start, Seq::empty(), globals) {
        None => None,
        Some((t, end, k)) => if 0 <= end < toks.len() && toks[end].kind is Semicolon {
            Some((name, t, end + 1, k))
        } else if last && end >= toks.len() {
            Some((name, t, end, k))
        } else {
            None
        },
    }
}

/// A program from `pos`: the terms of its expression statements in order,
/// the globals after its assignments, and whether it binds without error
/// (every name known, no global defined twice).
pub open spec fn program_at(toks: Seq<Token>, pos: int, globals: Seq<(Seq<char>, Term)>) -> Option<(Seq<Term>, Seq<(Seq<char>, Term)>, bool)>
    decreases toks.len() - pos,
{
    if pos < 0 || pos >= toks.len() {
        Some((Seq::empty(), globals, true))
    } else {
        match stmt_at(toks, pos, globals, false) {
            None => None,
            Some((name, t, end, k)) => if pos < end <= toks.len() {
                match name {
                    Some(n) => {
                        let dup = global_term(globals, n) is Some;
                        let next = if dup { globals } else { globals.push((n, t)) };
                        match program_at(toks, end, next) {
                            None => None,
                            Some((es, g, ok)) => Some((es, g, ok && k && !dup)),
                        }
                    },
                    None => match program_at(toks, end, globals) {
                        None => None,
                        Some((es, g, ok)) => Some((seq![t] + es, g, ok && k)),
                    },
                }
            } else {
                None
            },
        }
    }
}

pub open spec fn join_program(prefix: Seq<Term>, ok: bool, rest: Option<(Seq<Term>, Seq<(Seq<char>, Term)>, bool)>) -> Option<(Seq<Term>, Seq<(Seq<char>, Term)>, bool)> {
    match rest {
        None => None,
        Some((es, g, o)) => Some((prefix + es, g, ok && o)),
    }
}

/// A whole input holding one statement.
pub open spec fn statement_of(toks: Seq<Token>, globals: Seq<(Seq<char>, Term)>) -> Option<(Option<Seq<char>>, Term, bool)> {
    if toks.len() == 0 {
        None
    } else {
        match stmt_at(toks, 0, globals, true) {
            Some((name, t, end, k)) => if end >= toks.len() {
                Some((name, t, k))
            } else {
                None
            },
            None => None,
        }
    }
}

/// A whole input holding one expression.
pub open spec fn expression_of(toks: Seq<Token>, globals: Seq<(Seq<char>, Term)>) -> Option<(Term, bool)> {
    match expr_at(toks, 0, Seq::empty(), globals) {
        Some((t, end, k)) => if end >= toks.len() {
            Some((t, k))
        } else {
            None
        },
        None => None,
    }
}

/// Walks a token list, handing what it recognizes to the binder.
pub struct Parser {
    pub tokens: Vec<Token>,
    pub pos: usize,
    /// The length of the text, the offset reported for its end.
    pub end: usize,
}

/// The arena and binder are ready for parsing.
pub open spec fn ready(st: &SymbolTable, arena: &Allocator) -> bool {
    arena.wf() && st.inv(arena)
}

impl Parser {
    pub open spec fn inv(&self) -> bool {
        &&& tokens_ok(self.tokens@, self.end as nat)
        &&& self.pos <= self.tokens@.len()
    }

    pub fn new(tokens: Vec<Token>, end: usize) -> (r: Parser)
        requires
            tokens_ok(tokens@, end as nat),
        ensures
            r.inv(),
            r.tokens == tokens,
            r.pos == 0,
            r.end == end,
    {
        Parser { tokens, pos: 0, end }
    }

    fn at_end(&self) -> (r: bool)
        ensures
            r == (self.pos >= self.tokens@.len()),
            self.tokens@.len() <= usize::MAX,
    {
        self.pos >= self.tokens.len()
    }

    fn here(&self) -> (r: usize)
        requires
            self.inv(),
    {
        if self.pos < self.tokens.len() {
            self.tokens[self.pos].offset
        } else {
            self.end
        }
    }

    fn fail(&self, st: &mut SymbolTable, msg: &str) -> (r: Result<ExprRef, ()>)
        requires
            self.inv(),
        ensures
            r is Err,
            has_error(final(st).messages.messages@),
            final(st).globals == old(st).globals,
            final(st).numbers == old(st).numbers,
            final(st).scopes == old(st).scopes,
    {
        let offset = self.here();
        let ghost before = st.messages.messages@;
        let ghost line = st.messages.line_for_spec(Some(Offset(offset)));
        let text = String::from_str(msg);
        let ghost words = text@;
        st.messages.error(text, Some(Offset(offset)));
        proof {
            lemma_one_more_errors(before, st.messages.messages@, true, words, line);
        }
        Err(())
    }

    /// The next token is of the same kind as `kind`, a kind without payload.
    fn next_is(&self, kind: &TokenKind) -> (r: bool)
        ensures
            r ==> self.pos < self.tokens@.len(),
            r == (self.pos < self.tokens@.len() && same_kind(self.tokens@[self.pos as int].kind, *kind)),
            self.tokens@.len() <= usize::MAX,
    {
        if self.pos < self.tokens.len() {
            match (&self.tokens[self.pos].kind, kind) {
                (TokenKind::Lambda, TokenKind::Lambda) => true,
                (TokenKind::Dot, TokenKind::Dot) => true,
                (TokenKind::LParen, TokenKind::LParen) => true,
                (TokenKind::RParen, TokenKind::RParen) => true,
                (TokenKind::Equals, TokenKind::Equals) => true,
                (TokenKind::Semicolon, TokenKind::Semicolon) => true,
                _ => false,
            }
        } else {
            false
        }
    }

    fn starts_atom(&self) -> (r: bool)
        ensures
            r ==> self.pos < self.tokens@.len(),
            r == (self.pos < self.tokens@.len() && is_atom_start(self.tokens@[self.pos as int].kind)),
    {
        if self.pos < self.tokens.len() {
            match &self.tokens[self.pos].kind {
                TokenKind::Name(_) => true,
                TokenKind::Number(_) => true,
                TokenKind::LParen => true,
                _ => false,
            }
        } else {
            false
        }
    }

    /// A name, a numeral or a parenthesized expression.
    fn parse_atom(&mut self, st: &mut SymbolTable, arena: &mut Allocator) -> (r: Result<ExprRef, ()>)
        requires
            old(self).inv(),
            ready(old(st), old(arena)),
        ensures
            r is Ok <==> atom_at(old(self).tokens@, old(self).pos as int, old(st).scopes_view(), old(st).global_terms(old(arena))) is Some,
            r matches Ok(h) ==> atom_at(old(self).tokens@, old(self).pos as int, old(st).scopes_view(), old(st).global_terms(old(arena)))
                matches Some((t, end, k)) && t == final(arena).term_of(h) && end == final(self).pos
                && has_error(final(st).messages.messages@) == (has_error(old(st).messages.messages@) || !k),
            has_error(old(st).messages.messages@) ==> has_error(final(st).messages.messages@),
            r is Err ==> has_error(final(st).messages.messages@),
            final(self).inv(),
            final(self).tokens == old(self).tokens,
            final(self).end == old(self).end,
            ready(final(st), final(arena)),
            final(arena).extends(old(arena)),
            final(st).globals == old(st).globals,
            r matches Ok(h) ==> {
                &&& final(arena).valid(h)
                &&& final(st).scopes@ == old(st).scopes@
                &&& final(self).pos > old(self).pos
            },
        decreases old(self).tokens@.len() - old(self).pos, 0int,
    {
        let ghost gl = st.global_terms(arena);
        if self.pos >= self.tokens.len() {
            return self.fail(st, "unexpected end of input");
        }
        let offset = self.tokens[self.pos].offset;
        match &self.tokens[self.pos].kind {
            TokenKind::Name(name) => {
                if st.scopes.len() as u64 >= 0x7fff_ffff_ffff_ffff {
                    return self.fail(st, "binders nested too deeply");
                }
                let name = name.clone();
                self.pos = self.pos + 1;
                proof {
                    st.lemma_global_term(arena, name@);
                    st.lemma_global_valid(arena, name@);
                }
                Ok(st.build_term(arena, &name, Offset(offset)))
            },
            TokenKind::Number(n) => {
                let n = *n;
                self.pos = self.pos + 1;
                Ok(st.build_number(arena, n))
            },
            TokenKind::LParen => {
                self.pos = self.pos + 1;
                let inner = self.parse_expr(st, arena)?;
                if !self.next_is(&TokenKind::RParen) {
                    return self.fail(st, "expected `)`");
                }
                self.pos = self.pos + 1;
                Ok(inner)
            },
            _ => self.fail(st, "unexpected token"),
        }
    }

    /// A lambda, or an application of atoms that may end in a lambda.
    pub fn parse_expr(&mut self, st: &mut SymbolTable, arena: &mut Allocator) -> (r: Result<ExprRef, ()>)
        requires
            old(self).inv(),
            ready(old(st), old(arena)),
        ensures
            r is Ok <==> expr_at(old(self).tokens@, old(self).pos as int, old(st).scopes_view(), old(st).global_terms(old(arena))) is Some,
            r matches Ok(h) ==> expr_at(old(self).tokens@, old(self).pos as int, old(st).scopes_view(), old(st).global_terms(old(arena)))
                matches Some((t, end, k)) && t == final(arena).term_of(h) && end == final(self).pos
                && has_error(final(st).messages.messages@) == (has_error(old(st).messages.messages@) || !k),
            has_error(old(st).messages.messages@) ==> has_error(final(st).messages.messages@),
            r is Err ==> has_error(final(st).messages.messages@),
            final(self).inv(),
            final(self).tokens == old(self).tokens,
            final(self).end == old(self).end,
            ready(final(st), final(arena)),
            final(arena).extends(old(arena)),
            final(st).globals == old(st).globals,
            r matches Ok(h) ==> {
                &&& final(arena).valid(h)
                &&& final(st).scopes@ == old(st).scopes@
                &&& final(self).pos > old(self).pos
            },
        decreases old(self).tokens@.len() - old(self).pos, 1int,
    {
        let ghost toks = self.tokens@;
        let ghost start_pos = self.pos as int;
        let ghost sc0 = st.scopes_view();
        let ghost gl = st.global_terms(arena);
        if self.next_is(&TokenKind::Lambda) {
            self.pos = self.pos + 1;
            let mut names: Vec<String> = Vec::new();
            while self.pos < self.tokens.len()
                invariant
                    self.inv(),
                    self.tokens == old(self).tokens,
                    toks == self.tokens@,
                    self.end == old(self).end,
                    self.pos == start_pos + 1 + names@.len(),
                    0 <= start_pos < toks.len(),
                    ready(st, arena),
                    *arena == *old(arena),
                    st.globals == old(st).globals,
                    has_error(st.messages.messages@) == has_error(old(st).messages.messages@),
                    st.scopes@ == old(st).scopes@ + names@,
                    forall|i: int| 0 <= i < names@.len() ==> (#[trigger] names@[i])@.len() >= 1,
                    names_run(toks, start_pos + 1) == names@.len() + names_run(toks, self.pos as int),
                    names@.map_values(|n: String| n@) == names_at(toks, start_pos + 1, names@.len()),
                ensures
                    names_run(toks, self.pos as int) == 0,
                decreases self.tokens@.len() - self.pos,
            {
                let offset = self.tokens[self.pos].offset;
                match &self.tokens[self.pos].kind {
                    TokenKind::Name(name) => {
                        proof {
                            assert(tokens_ok(self.tokens@, self.end as nat));
                            assert(self.tokens@[self.pos as int].kind matches TokenKind::Name(n) ==> n@.len() >= 1);
                        }
                        let name = name.clone();
                        st.start_lambda(name.clone(), Offset(offset));
                        let ghost old_names = names@;
                        let ghost payload = name@;
                        proof {
                            assert(self.tokens@[self.pos as int].kind matches TokenKind::Name(n) && n@ == payload);
                        }
                        names.push(name);
                        proof {
                            assert(st.scopes@ =~= old(st).scopes@ + names@);
                            let v = names@.map_values(|n: String| n@);
                            let w = names_at(toks, start_pos + 1, names@.len());
                            assert forall|i: int| 0 <= i < names@.len() implies v[i] == w[i] by {
                                if i < old_names.len() {
                                    assert(old_names.map_values(|n: String| n@)[i] == names_at(toks, start_pos + 1, old_names.len())[i]);
                                }
                            }
                            assert(v =~= w);
                        }
                        self.pos = self.pos + 1;
                    },
                    _ => break,
                }
            }
            if names.len() == 0 {
                return self.fail(st, "expected a parameter name");
            }
            if !self.next_is(&TokenKind::Dot) {
                return self.fail(st, "expected `.`");
            }
            self.pos = self.pos + 1;
            proof {
                assert(st.scopes_view() =~= sc0 + names_at(toks, start_pos + 1, names@.len()));
            }
            let body = self.parse_expr(st, arena)?;
            let ghost n = names@.len();
            let r = st.build_lambda(arena, names, body);
            proof {
                assert(st.scopes@ =~= old(st).scopes@);
            }
            return Ok(r);
        }
        let first = self.parse_atom(st, arena)?;
        let ghost head_end = self.pos as int;
        let ghost f = arena.term_of(first);
        let ghost k1 = atom_at(toks, start_pos, sc0, gl)->Some_0.2;
        let ghost mut terms: Seq<Term> = Seq::empty();
        let ghost mut kacc: bool = true;
        proof {
            assert forall|i: int| 0 <= i < st.globals@.len() implies old(arena).valid(#[trigger] st.globals@[i].1) by {
                assert(old(st).globals@[i] == st.globals@[i]);
            }
            st.lemma_global_terms_extends(arena, old(arena));
            assert(join_args(terms, kacc, args_at(toks, head_end, sc0, gl)) =~~= args_at(toks, head_end, sc0, gl)) by {
                match args_at(toks, head_end, sc0, gl) {
                    None => {},
                    Some((rr, e, k)) => { assert(terms + rr =~= rr); },
                }
            }
        }
        let mut args: Vec<ExprRef> = Vec::new();
        loop
            invariant_except_break
                args_at(toks, head_end, sc0, gl) == join_args(terms, kacc, args_at(toks, self.pos as int, sc0, gl)),
            invariant
                self.inv(),
                self.tokens == old(self).tokens,
                toks == self.tokens@,
                self.end == old(self).end,
                self.pos >= head_end,
                head_end > start_pos,
                start_pos == old(self).pos,
                forall|i: int| 0 <= i < st.globals@.len() ==> old(arena).valid(#[trigger] st.globals@[i].1),
                !(0 <= start_pos < toks.len() && toks[start_pos].kind is Lambda),
                atom_at(toks, start_pos, sc0, gl) == Some((f, head_end, k1)),
                head_end <= toks.len(),
                sc0 == old(st).scopes_view(),
                gl == old(st).global_terms(old(arena)),
                ready(st, arena),
                arena.extends(old(arena)),
                st.globals == old(st).globals,
                st.scopes_view() == sc0,
                st.global_terms(arena) == gl,
                st.scopes@ == old(st).scopes@,
                arena.valid(first),
                arena.term_of(first) == f,
                forall|i: int| 0 <= i < args@.len() ==> arena.valid(#[trigger] args@[i]),
                terms.len() == args@.len(),
                forall|i: int| 0 <= i < args@.len() ==> arena.term_of(#[trigger] args@[i]) == terms[i],
                has_error(st.messages.messages@) == (has_error(old(st).messages.messages@) || !(k1 && kacc)),
            ensures
                args_at(toks, head_end, sc0, gl) == Some((terms, self.pos as int, kacc)),
            decreases self.tokens@.len() - self.pos,
        {
            if self.next_is(&TokenKind::Lambda) {
                let ghost before = *arena;
                let ghost q = self.pos as int;
                let arg = match self.parse_expr(st, arena) {
                    Err(()) => {
                        proof {
                            assert(args_at(toks, q, sc0, gl) is None);
                        }
                        return Err(());
                    },
                    Ok(h) => h,
                };
                args.push(arg);
                proof {
                    st.lemma_global_terms_extends(arena, &before);
                    let e = arena.term_of(arg);
                    assert forall|i: int| 0 <= i < args@.len() implies arena.valid(#[trigger] args@[i]) && arena.term_of(args@[i]) == terms.push(e)[i] by {
                        if i < args@.len() - 1 {
                            assert(before.valid(args@[i]));
                        }
                    }
                    assert(terms + seq![e] =~= terms.push(e));
                    terms = terms.push(e);
                    kacc = kacc && expr_at(toks, q, sc0, gl)->Some_0.2;
                }
                break;
            } else if self.starts_atom() {
                let ghost before = *arena;
                let ghost q = self.pos as int;
                let arg = match self.parse_atom(st, arena) {
                    Err(()) => {
                        proof {
                            assert(args_at(toks, q, sc0, gl) is None);
                        }
                        return Err(());
                    },
                    Ok(h) => h,
                };
                args.push(arg);
                proof {
                    st.lemma_global_terms_extends(arena, &before);
                    let a = arena.term_of(arg);
                    assert forall|i: int| 0 <= i < args@.len() implies arena.valid(#[trigger] args@[i]) && arena.term_of(args@[i]) == terms.push(a)[i] by {
                        if i < args@.len() - 1 {
                            assert(before.valid(args@[i]));
                        }
                    }
                    let ka = atom_at(toks, q, sc0, gl)->Some_0.2;
                    match args_at(toks, self.pos as int, sc0, gl) {
                        None => {},
                        Some((rr, e, k)) => {
                            assert(terms + (seq![a] + rr) =~= terms.push(a) + rr);
                        },
                    }
                    terms = terms.push(a);
                    kacc = kacc && ka;
                }
            } else {
                proof {
                    assert(terms + Seq::<Term>::empty() =~= terms);
                }
                break;
            }
        }
        let ghost before = *arena;
        let r = st.build_eval(arena, first, args);
        proof {
            assert(args@.map_values(|p: ExprRef| before.term_of(p)) =~= terms);
        }
        Ok(r)
    }

    /// One statement: `name = expr` or `expr`, each ended by `;` unless
    /// `last` allows the end of the input instead. An assignment binds the
    /// global and gives `None`.
    fn parse_one(&mut self, st: &mut SymbolTable, arena: &mut Allocator, last: bool) -> (r: Result<
        Option<ExprRef>,
        (),
    >)
        requires
            old(self).inv(),
            ready(old(st), old(arena)),
            old(self).pos < old(self).tokens@.len(),
        ensures
            has_error(old(st).messages.messages@) ==> has_error(final(st).messages.messages@),
            r is Err ==> has_error(final(st).messages.messages@),
            final(self).inv(),
            final(self).tokens == old(self).tokens,
            final(self).end == old(self).end,
            ready(final(st), final(arena)),
            final(arena).extends(old(arena)),
            r is Ok ==> final(self).pos > old(self).pos,
            r matches Ok(Some(h)) ==> final(arena).valid(h),
            r is Ok <==> stmt_at(old(self).tokens@, old(self).pos as int, old(st).global_terms(old(arena)), last) is Some,
            r matches Ok(x) ==> stmt_at(old(self).tokens@, old(self).pos as int, old(st).global_terms(old(arena)), last)
                matches Some((name, t, end, k)) && end == final(self).pos && match name {
                    Some(n) => {
                        let dup = global_term(old(st).global_terms(old(arena)), n) is Some;
                        &&& x is None
                        &&& final(st).global_terms(final(arena)) == if dup {
                            old(st).global_terms(old(arena))
                        } else {
                            old(st).global_terms(old(arena)).push((n, t))
                        }
                        &&& has_error(final(st).messages.messages@) == (has_error(old(st).messages.messages@) || !k || dup)
                    },
                    None => {
                        &&& x matches Some(h) && final(arena).term_of(h) == t
                        &&& final(st).global_terms(final(arena)) == old(st).global_terms(old(arena))
                        &&& has_error(final(st).messages.messages@) == (has_error(old(st).messages.messages@) || !k)
                    },
                },
    {
        let ghost toks = self.tokens@;
        let ghost gl = st.global_terms(arena);
        st.scopes.clear();
        proof {
            assert(st.scopes_view() =~= Seq::<Seq<char>>::empty());
            assert(st.global_terms(arena) == gl);
        }
        let count = self.tokens.len();
        let assignment = self.pos + 1 < count && match &self.tokens[self.pos].kind {
            TokenKind::Name(_) => match &self.tokens[self.pos + 1].kind {
                TokenKind::Equals => true,
                _ => false,
            },
            _ => false,
        };
        if assignment {
            let offset = self.tokens[self.pos].offset;
            let name = match &self.tokens[self.pos].kind {
                TokenKind::Name(name) => name.clone(),
                _ => String::new(),
            };
            self.pos = self.pos + 2;
            let ghost before = *arena;
            let expr = match self.parse_expr(st, arena) {
                Ok(h) => h,
                Err(()) => return Err(()),
            };
            if self.next_is(&TokenKind::Semicolon) {
                self.pos = self.pos + 1;
            } else if !(last && self.at_end()) {
                let _ = self.fail(st, "expected `;`");
                return Err(());
            }
            let ghost mid = *arena;
            proof {
                assert forall|i: int| 0 <= i < st.globals@.len() implies before.valid(#[trigger] st.globals@[i].1) by {
                    assert(old(st).globals@[i] == st.globals@[i]);
                }
                st.lemma_global_terms_extends(arena, &before);
                st.lemma_global_term(arena, name@);
            }
            st.declare_global(name, expr, Offset(offset), arena);
            proof {
                let g0 = old(st).global_terms(old(arena));
                if global_term(g0, name@) is None {
                    assert(st.global_terms(arena) =~= g0.push((name@, arena.term_of(expr))));
                }
            }
            Ok(None)
        } else {
            let expr = match self.parse_expr(st, arena) {
                Ok(h) => h,
                Err(()) => return Err(()),
            };
            if self.next_is(&TokenKind::Semicolon) {
                self.pos = self.pos + 1;
            } else if !(last && self.at_end()) {
                let _ = self.fail(st, "expected `;`");
                return Err(());
            }
            proof {
                assert forall|i: int| 0 <= i < st.globals@.len() implies old(arena).valid(#[trigger] st.globals@[i].1) by {
                    assert(old(st).globals@[i] == st.globals@[i]);
                }
                st.lemma_global_terms_extends(arena, old(arena));
            }
            Ok(Some(expr))
        }
    }

    /// A whole program: binds its assignments and returns its other
    /// statements, in order (see `program_at`).
    pub fn parse_program(&mut self, st: &mut SymbolTable, arena: &mut Allocator) -> (r: Result<
        Vec<ExprRef>,
        (),
    >)
        requires
            old(self).inv(),
            ready(old(st), old(arena)),
        ensures
            has_error(old(st).messages.messages@) ==> has_error(final(st).messages.messages@),
            r is Err ==> has_error(final(st).messages.messages@),
            ready(final(st), final(arena)),
            final(arena).extends(old(arena)),
            r matches Ok(v) ==> forall|i: int| 0 <= i < v@.len() ==> final(arena).valid(#[trigger] v@[i]),
            r is Ok <==> program_at(old(self).tokens@, old(self).pos as int, old(st).global_terms(old(arena))) is Some,
            r matches Ok(v) ==> program_at(old(self).tokens@, old(self).pos as int, old(st).global_terms(old(arena)))
                matches Some((es, g, ok)) && es == v@.map_values(|h: ExprRef| final(arena).term_of(h))
                && g == final(st).global_terms(final(arena))
                && has_error(final(st).messages.messages@) == (has_error(old(st).messages.messages@) || !ok),
    {
        let ghost toks = self.tokens@;
        let ghost start_pos = self.pos as int;
        let ghost g0 = st.global_terms(arena);
        let ghost mut terms: Seq<Term> = Seq::empty();
        let ghost mut okacc: bool = true;
        proof {
            assert(join_program(terms, okacc, program_at(toks, start_pos, g0)) =~~= program_at(toks, start_pos, g0)) by {
                match program_at(toks, start_pos, g0) {
                    None => {},
                    Some((es, g, o)) => { assert(terms + es =~= es); },
                }
            }
        }
        let mut results: Vec<ExprRef> = Vec::new();
        while self.pos < self.tokens.len()
            invariant
                self.inv(),
                toks == self.tokens@,
                ready(st, arena),
                arena.extends(old(arena)),
                has_error(old(st).messages.messages@) ==> has_error(st.messages.messages@),
                forall|i: int| 0 <= i < results@.len() ==> arena.valid(#[trigger] results@[i]),
                terms.len() == results@.len(),
                forall|i: int| 0 <= i < results@.len() ==> arena.term_of(#[trigger] results@[i]) == terms[i],
                program_at(toks, start_pos, g0) == join_program(terms, okacc, program_at(toks, self.pos as int, st.global_terms(arena))),
                has_error(st.messages.messages@) == (has_error(old(st).messages.messages@) || !okacc),
                start_pos == old(self).pos,
                g0 == old(st).global_terms(old(arena)),
                toks == old(self).tokens@,
            decreases self.tokens@.len() - self.pos,
        {
            let ghost before = *arena;
            let ghost q = self.pos as int;
            let ghost gq = st.global_terms(arena);
            let one = match self.parse_one(st, arena, false) {
                Err(()) => {
                    proof {
                        assert(program_at(toks, q, gq) is None);
                    }
                    return Err(());
                },
                Ok(x) => x,
            };
            proof {
                assert forall|i: int| 0 <= i < results@.len() implies arena.valid(#[trigger] results@[i]) && arena.term_of(results@[i]) == terms[i] by {
                    assert(before.valid(results@[i]));
                }
            }
            match one {
                Some(h) => {
                    results.push(h);
                    proof {
                        let t = arena.term_of(h);
                        match program_at(toks, self.pos as int, gq) {
                            None => {},
                            Some((es, g, o)) => { assert(terms + (seq![t] + es) =~= terms.push(t) + es); },
                        }
                        okacc = okacc && stmt_at(toks, q, gq, false)->Some_0.3;
                        terms = terms.push(t);
                        assert forall|i: int| 0 <= i < results@.len() implies arena.term_of(#[trigger] results@[i]) == terms[i] by {}
                    }
                },
                None => {
                    proof {
                        let k = stmt_at(toks, q, gq, false)->Some_0.3;
                        let n = stmt_at(toks, q, gq, false)->Some_0.0->Some_0;
                        let dup = global_term(gq, n) is Some;
                        okacc = okacc && k && !dup;
                    }
                },
            }
        }
        proof {
            assert(program_at(toks, self.pos as int, st.global_terms(arena)) == Some((Seq::<Term>::empty(), st.global_terms(arena), true)));
            assert(terms + Seq::<Term>::empty() =~= terms);
            assert(results@.map_values(|h: ExprRef| arena.term_of(h)) =~= terms);
        }
        Ok(results)
    }

    /// A single statement that must take the whole input; its `;` may be
    /// left out (see `statement_of`). An assignment gives `None`.
    pub fn parse_statement(&mut self, st: &mut SymbolTable, arena: &mut Allocator) -> (r: Result<
        Option<ExprRef>,
        (),
    >)
        requires
            old(self).inv(),
            old(self).pos == 0,
            ready(old(st), old(arena)),
        ensures
            ready(final(st), final(arena)),
            final(arena).extends(old(arena)),
            has_error(old(st).messages.messages@) ==> has_error(final(st).messages.messages@),
            r is Err ==> has_error(final(st).messages.messages@),
            r is Ok <==> statement_of(old(self).tokens@, old(st).global_terms(old(arena))) is Some,
            r matches Ok(x) ==> statement_of(old(self).tokens@, old(st).global_terms(old(arena)))
                matches Some((name, t, k)) && match name {
                    Some(n) => {
                        let dup = global_term(old(st).global_terms(old(arena)), n) is Some;
                        &&& x is None
                        &&& final(st).global_terms(final(arena)) == if dup {
                            old(st).global_terms(old(arena))
                        } else {
                            old(st).global_terms(old(arena)).push((n, t))
                        }
                        &&& has_error(final(st).messages.messages@) == (has_error(old(st).messages.messages@) || !k || dup)
                    },
                    None => {
                        &&& x matches Some(h) && final(arena).valid(h) && final(arena).term_of(h) == t
                        &&& final(st).global_terms(final(arena)) == old(st).global_terms(old(arena))
                        &&& has_error(final(st).messages.messages@) == (has_error(old(st).messages.messages@) || !k)
                    },
                },
    {
        if self.at_end() {
            let _ = self.fail(st, "unexpected end of input");
            return Err(());
        }
        let r = self.parse_one(st, arena, true)?;
        if !self.at_end() {
            proof {
                assert(statement_of(old(self).tokens@, old(st).global_terms(old(arena))) is None);
            }
            let _ = self.fail(st, "unexpected token");
            return Err(());
        }
        Ok(r)
    }

    /// A single expression that must take the whole input (see `expression_of`).
    pub fn parse_expression(&mut self, st: &mut SymbolTable, arena: &mut Allocator) -> (r: Result<
        ExprRef,
        (),
    >)
        requires
            old(self).inv(),
            old(self).pos == 0,
            ready(old(st), old(arena)),
        ensures
            ready(final(st), final(arena)),
            final(arena).extends(old(arena)),
            final(st).globals == old(st).globals,
            has_error(old(st).messages.messages@) ==> has_error(final(st).messages.messages@),
            r is Err ==> has_error(final(st).messages.messages@),
            r is Ok <==> expression_of(old(self).tokens@, old(st).global_terms(old(arena))) is Some,
            r matches Ok(h) ==> expression_of(old(self).tokens@, old(st).global_terms(old(arena)))
                matches Some((t, k)) && final(arena).valid(h) && final(arena).term_of(h) == t
                && has_error(final(st).messages.messages@) == (has_error(old(st).messages.messages@) || !k),
    {
        st.scopes.clear();
        proof {
            assert(st.scopes_view() =~= Seq::<Seq<char>>::empty());
        }
        let r = self.parse_expr(st, arena)?;
        if !self.at_end() {
            let _ = self.fail(st, "unexpected token");
            return Err(());
        }
        Ok(r)
    }
}

} // verus!
