//! Tokens: the units that the lexer produces and the parser consumes.
//! A token has a kind and a payload value; reserved words of the language
//! map to their own kinds.

use vstd::prelude::*;

verus! {

use crate::rational::{RatView, Rational};
use vstd::string::StrSliceExecFns;

/// The closed set of token kinds.  `Integer` and `Real` double as the
/// keyword kinds (`INTEGER`, `REAL`) and the literal kinds; the payload
/// value tells them apart.
#[derive(Debug, Clone, Copy, PartialEq, Eq, Structural)]
pub enum TokenKind {
    Program,
    Begin,
    End,
    Plus,
    Minus,
    Multiply,
    IntegerDivide,
    EOF,
    LParen,
    RParen,
    Dot,
    Identifier,
    Assign,
    Semi,
    Var,
    Colon,
    Comma,
    Real,
    FloatDivide,
    Integer,
}

/// The payload of a token: an integer literal, a real literal, or the
/// spelling of an identifier, keyword or symbol.
#[derive(Debug)]
pub enum TokenValue {
    Int(i32),
    Real(Rational),
    Str(String),
}

/// Mathematical view of a token value.
pub enum TokenValueView {
    Int(int),
    Real(RatView),
    Str(Seq<char>),
}

impl View for TokenValue {
    type V = TokenValueView;

    open spec fn view(&self) -> TokenValueView {
        match self {
            TokenValue::Int(i) => TokenValueView::Int(*i as int),
            TokenValue::Real(r) => TokenValueView::Real(r@),
            TokenValue::Str(s) => TokenValueView::Str(s@),
        }
    }
}

/// A lexical token: a kind and its payload value.
#[derive(Debug)]
pub struct Token {
    pub kind: TokenKind,
    pub value: TokenValue,
}

/// Mathematical view of a token.
pub struct TokenView {
    pub kind: TokenKind,
    pub value: TokenValueView,
}

impl View for Token {
    type V = TokenView;

    open spec fn view(&self) -> TokenView {
        TokenView { kind: self.kind, value: self.value@ }
    }
}

/// A real payload must be a well-formed rational.
pub open spec fn token_value_wf(v: TokenValue) -> bool {
    match v {
        TokenValue::Real(r) => r.wf(),
        _ => true,
    }
}

pub open spec fn token_wf(t: Token) -> bool {
    token_value_wf(t.value)
}

impl Clone for TokenValue {
    fn clone(&self) -> (r: Self)
        ensures
            r@ == self@,
            token_value_wf(r) == token_value_wf(*self),
    {
        match self {
            TokenValue::Int(i) => TokenValue::Int(*i),
            TokenValue::Real(r) => TokenValue::Real(*r),
            TokenValue::Str(s) => TokenValue::Str(s.clone()),
        }
    }
}

impl Clone for Token {
    fn clone(&self) -> (r: Self)
        ensures
            r@ == self@,
            token_wf(r) == token_wf(*self),
    {
        Token { kind: self.kind, value: self.value.clone() }
    }
}

impl Token {
    pub fn new(kind: TokenKind, value: TokenValue) -> (t: Token)
        ensures
            t.kind == kind,
            t.value == value,
    {
        Token { kind, value }
    }
}

/// The kind of a scanned word: one of the seven reserved keywords, or an
/// identifier.
pub open spec fn keyword_kind(w: Seq<char>) -> TokenKind {
    if w == "BEGIN"@ {
        TokenKind::Begin
    } else if w == "END"@ {
        TokenKind::End
    } else if w == "PROGRAM"@ {
        TokenKind::Program
    } else if w == "VAR"@ {
        TokenKind::Var
    } else if w == "REAL"@ {
        TokenKind::Real
    } else if w == "INTEGER"@ {
        TokenKind::Integer
    } else if w == "DIV"@ {
        TokenKind::IntegerDivide
    } else {
        TokenKind::Identifier
    }
}

/// Character-wise string comparison, usable on any two slices.
pub fn str_eq(a: &str, b: &str) -> (r: bool)
    ensures
        r == (a@ == b@),
{
    let la = a.unicode_len();
    let lb = b.unicode_len();
    if la != lb {
        return false;
    }
    let mut i: usize = 0;
    while i < la
        invariant
            0 <= i <= la,
            la == a@.len(),
            la == b@.len(),
            forall|j: int| 0 <= j < i ==> a@[j] == b@[j],
        decreases la - i,
    {
        if a.get_char(i) != b.get_char(i) {
            return false;
        }
        i += 1;
    }
    proof {
        assert(a@ =~= b@);
    }
    true
}

/// Exec lookup matching `keyword_kind`.
pub fn lookup_keyword(w: &str) -> (k: TokenKind)
    ensures
        k == keyword_kind(w@),
{
    if str_eq(w, "BEGIN") {
        TokenKind::Begin
    } else if str_eq(w, "END") {
        TokenKind::End
    } else if str_eq(w, "PROGRAM") {
        TokenKind::Program
    } else if str_eq(w, "VAR") {
        TokenKind::Var
    } else if str_eq(w, "REAL") {
        TokenKind::Real
    } else if str_eq(w, "INTEGER") {
        TokenKind::Integer
    } else if str_eq(w, "DIV") {
        TokenKind::IntegerDivide
    } else {
        TokenKind::Identifier
    }
}

} // verus!
