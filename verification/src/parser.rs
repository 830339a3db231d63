//! The recursive-descent parser: consumes tokens from the lexer one at a
//! time (one token of look-ahead) and builds the abstract syntax tree.
//! Each grammar production has a pure specification function over the text,
//! and each method is proved to return exactly what its production says.

use vstd::prelude::*;

verus! {

use crate::ast::{AstNode, AstType, AstTypeView, AstView, ast_view_wf, view_nodes,
    lemma_view_nodes};
use crate::lexer::{Lexer, LexicalError, ScanResult, at_end, lemma_digits_end, lemma_ident_end,
    lemma_trivia_end, scan_token, trivia_end, TriviaResult};
use crate::token::{Token, TokenKind, TokenValue, TokenValueView, TokenView, token_wf};
use vstd::string::StringExecFns;

/// A failed parse; the message is a coarse diagnostic.
#[derive(Debug, Clone)]
pub struct ParserError {
    pub message: String,
}

/// The outcome of one grammar production: the tree it built and the
/// position where the next token's scan begins, or a failure.
pub enum PNode {
    Parsed(AstView, int),
    NoParse,
}

/// The outcome of a production that yields a list of nodes.
pub enum PList {
    ParsedL(Seq<AstView>, int),
    NoParseL,
}

// ---------------------------------------------------------------------
// Bounds of one scanning step, used throughout the parser's termination
// and correspondence proofs.
// ---------------------------------------------------------------------

pub proof fn lemma_scan_bounds(s: Seq<char>, i: int)
    requires
        0 <= i <= s.len(),
    ensures
        match scan_token(s, i) {
            ScanResult::Tok(t, j) => i <= j <= s.len() && (t.kind != TokenKind::EOF ==> i < j) && (
            t.kind == TokenKind::EOF ==> at_end(s, j)),
            ScanResult::Fail(_) => true,
        },
{
    lemma_trivia_end(s, i);
    match trivia_end(s, i) {
        TriviaResult::At(p) => {
            if at_end(s, p) {
            } else if crate::lexer::is_alpha_char(s[p]) {
                lemma_ident_end(s, p);
                lemma_ident_end(s, p + 1);
            } else if crate::lexer::is_digit_char(s[p]) {
                lemma_digits_end(s, p);
                lemma_digits_end(s, p + 1);
                let k = crate::lexer::digits_end(s, p);
                if k < s.len() && s[k] == '.' {
                    lemma_digits_end(s, k + 1);
                }
            } else {
            }
        },
        TriviaResult::Unterminated(_) => {},
    }
}

/// The measure that every parsing step reduces: remaining characters,
/// weighted, plus one while the next token is not EOF.
pub open spec fn rem(s: Seq<char>, i: int) -> int {
    2 * (s.len() - i) + (match scan_token(s, i) {
        ScanResult::Tok(t, _) => if t.kind == TokenKind::EOF {
            0int
        } else {
            1int
        },
        ScanResult::Fail(_) => 0int,
    })
}

// ---------------------------------------------------------------------
// The grammar, as specification functions.  Each takes the position where
// the next token's scan begins and returns the position after the parsed
// construct.  Ranks order the productions that start at the same position.
// ---------------------------------------------------------------------

/// variable := ID
pub open spec fn p_variable(s: Seq<char>, i: int) -> PNode {
    match scan_token(s, i) {
        ScanResult::Tok(t, j) => if t.kind == TokenKind::Identifier {
            PNode::Parsed(AstView::Var(t), j)
        } else {
            PNode::NoParse
        },
        ScanResult::Fail(_) => PNode::NoParse,
    }
}

/// factor := ("+"|"-") factor | INT | REAL | "(" expr ")" | variable
pub open spec fn p_factor(s: Seq<char>, i: int) -> PNode
    decreases s.len() - i, 1int,
{
    match scan_token(s, i) {
        ScanResult::Fail(_) => PNode::NoParse,
        ScanResult::Tok(t, j) => {
            if t.kind == TokenKind::Plus || t.kind == TokenKind::Minus {
                if i < j <= s.len() {
                    match p_factor(s, j) {
                        PNode::Parsed(f, j2) => PNode::Parsed(
                            AstView::UnaryOp(Box::new(f), t),
                            j2,
                        ),
                        PNode::NoParse => PNode::NoParse,
                    }
                } else {
                    PNode::NoParse
                }
            } else if t.kind == TokenKind::Integer {
                match t.value {
                    TokenValueView::Int(v) => PNode::Parsed(
                        AstView::Num(AstTypeView::Integer(v)),
                        j,
                    ),
                    _ => PNode::NoParse,
                }
            } else if t.kind == TokenKind::Real {
                match t.value {
                    TokenValueView::Real(v) => PNode::Parsed(AstView::Num(AstTypeView::Real(v)), j),
                    _ => PNode::NoParse,
                }
            } else if t.kind == TokenKind::LParen {
                if i < j <= s.len() {
                    match p_expr(s, j) {
                        PNode::Parsed(e, j2) => match scan_token(s, j2) {
                            ScanResult::Tok(t3, j3) => if t3.kind == TokenKind::RParen {
                                PNode::Parsed(e, j3)
                            } else {
                                PNode::NoParse
                            },
                            ScanResult::Fail(_) => PNode::NoParse,
                        },
                        PNode::NoParse => PNode::NoParse,
                    }
                } else {
                    PNode::NoParse
                }
            } else {
                p_variable(s, i)
            }
        },
    }
}

/// The left-folding tail of term := factor (("*"|"/"|"DIV") factor)*
pub open spec fn p_term_rest(s: Seq<char>, i: int, acc: AstView) -> PNode
    decreases s.len() - i, 0int,
{
    match scan_token(s, i) {
        ScanResult::Fail(_) => PNode::Parsed(acc, i),
        ScanResult::Tok(t, j) => {
            if t.kind == TokenKind::Multiply || t.kind == TokenKind::FloatDivide || t.kind
                == TokenKind::IntegerDivide {
                if i < j <= s.len() {
                    match p_factor(s, j) {
                        PNode::Parsed(f, i2) => if i < i2 <= s.len() {
                            p_term_rest(s, i2, AstView::BinaryOp(Box::new(acc), Box::new(f), t))
                        } else {
                            PNode::NoParse
                        },
                        PNode::NoParse => PNode::NoParse,
                    }
                } else {
                    PNode::NoParse
                }
            } else {
                PNode::Parsed(acc, i)
            }
        },
    }
}

/// term := factor (("*"|"/"|"DIV") factor)*
pub open spec fn p_term(s: Seq<char>, i: int) -> PNode
    decreases s.len() - i, 2int,
{
    match p_factor(s, i) {
        PNode::Parsed(f, i1) => if i < i1 <= s.len() {
            p_term_rest(s, i1, f)
        } else {
            PNode::NoParse
        },
        PNode::NoParse => PNode::NoParse,
    }
}

/// The left-folding tail of expr := term (("+"|"-") term)*
pub open spec fn p_expr_rest(s: Seq<char>, i: int, acc: AstView) -> PNode
    decreases s.len() - i, 0int,
{
    match scan_token(s, i) {
        ScanResult::Fail(_) => PNode::Parsed(acc, i),
        ScanResult::Tok(t, j) => {
            if t.kind == TokenKind::Plus || t.kind == TokenKind::Minus {
                if i < j <= s.len() {
                    match p_term(s, j) {
                        PNode::Parsed(t2, i2) => if i < i2 <= s.len() {
                            p_expr_rest(s, i2, AstView::BinaryOp(Box::new(acc), Box::new(t2), t))
                        } else {
                            PNode::NoParse
                        },
                        PNode::NoParse => PNode::NoParse,
                    }
                } else {
                    PNode::NoParse
                }
            } else {
                PNode::Parsed(acc, i)
            }
        },
    }
}

/// expr := term (("+"|"-") term)*
pub open spec fn p_expr(s: Seq<char>, i: int) -> PNode
    decreases s.len() - i, 3int,
{
    match p_term(s, i) {
        PNode::Parsed(t, i1) => if i < i1 <= s.len() {
            p_expr_rest(s, i1, t)
        } else {
            PNode::NoParse
        },
        PNode::NoParse => PNode::NoParse,
    }
}

/// assignment_statement := variable ":=" expr
pub open spec fn p_assignment(s: Seq<char>, i: int) -> PNode
    decreases s.len() - i, 1int,
{
    match p_variable(s, i) {
        PNode::NoParse => PNode::NoParse,
        PNode::Parsed(v, i1) => match scan_token(s, i1) {
            ScanResult::Tok(t, j) => if t.kind == TokenKind::Assign && i < j <= s.len() {
                match p_expr(s, j) {
                    PNode::Parsed(e, i2) => PNode::Parsed(
                        AstView::Assign(Box::new(v), Box::new(e), t),
                        i2,
                    ),
                    PNode::NoParse => PNode::NoParse,
                }
            } else {
                PNode::NoParse
            },
            ScanResult::Fail(_) => PNode::NoParse,
        },
    }
}

/// statement := compound_statement | assignment_statement | empty
pub open spec fn p_statement(s: Seq<char>, i: int) -> PNode
    decreases s.len() - i, 4int,
{
    match scan_token(s, i) {
        ScanResult::Fail(_) => PNode::NoParse,
        ScanResult::Tok(t, _) => {
            if t.kind == TokenKind::Begin {
                p_compound(s, i)
            } else if t.kind == TokenKind::Identifier {
                p_assignment(s, i)
            } else {
                PNode::Parsed(AstView::NoOp, i)
            }
        },
    }
}

/// The tail of statement_list := statement (";" statement)*
pub open spec fn p_stl_rest(s: Seq<char>, i: int, acc: Seq<AstView>) -> PList
    decreases s.len() - i, 0int,
{
    match scan_token(s, i) {
        ScanResult::Fail(_) => PList::ParsedL(acc, i),
        ScanResult::Tok(t, j) => {
            if t.kind == TokenKind::Semi {
                if i < j <= s.len() {
                    match p_statement(s, j) {
                        PNode::Parsed(st, i1) => if i < i1 <= s.len() {
                            p_stl_rest(s, i1, acc.push(st))
                        } else {
                            PList::NoParseL
                        },
                        PNode::NoParse => PList::NoParseL,
                    }
                } else {
                    PList::NoParseL
                }
            } else {
                PList::ParsedL(acc, i)
            }
        },
    }
}

/// statement_list := statement (";" statement)*
pub open spec fn p_statement_list(s: Seq<char>, i: int) -> PList
    decreases s.len() - i, 5int,
{
    match p_statement(s, i) {
        PNode::Parsed(st, i1) => if i <= i1 <= s.len() {
            p_stl_rest(s, i1, seq![st])
        } else {
            PList::NoParseL
        },
        PNode::NoParse => PList::NoParseL,
    }
}

/// compound_statement := "BEGIN" statement_list "END"
pub open spec fn p_compound(s: Seq<char>, i: int) -> PNode
    decreases s.len() - i, 3int,
{
    match scan_token(s, i) {
        ScanResult::Fail(_) => PNode::NoParse,
        ScanResult::Tok(t, j) => if t.kind == TokenKind::Begin && i < j <= s.len() {
            match p_statement_list(s, j) {
                PList::ParsedL(stmts, i1) => match scan_token(s, i1) {
                    ScanResult::Tok(t2, j2) => if t2.kind == TokenKind::End {
                        PNode::Parsed(AstView::Compound(stmts), j2)
                    } else {
                        PNode::NoParse
                    },
                    ScanResult::Fail(_) => PNode::NoParse,
                },
                PList::NoParseL => PNode::NoParse,
            }
        } else {
            PNode::NoParse
        },
    }
}

/// type_spec := "INTEGER" | "REAL"
pub open spec fn p_type_spec(s: Seq<char>, i: int) -> PNode {
    match scan_token(s, i) {
        ScanResult::Tok(t, j) => if t.kind == TokenKind::Integer || t.kind == TokenKind::Real {
            PNode::Parsed(AstView::Type(t), j)
        } else {
            PNode::NoParse
        },
        ScanResult::Fail(_) => PNode::NoParse,
    }
}

/// The list of declared names after the first: ("," ID)* ":" type_spec,
/// folded into one VarDecl node per name.
pub open spec fn p_vd_names(s: Seq<char>, i: int, names: Seq<TokenView>) -> PList
    decreases s.len() - i, 0int,
{
    match scan_token(s, i) {
        ScanResult::Fail(_) => PList::NoParseL,
        ScanResult::Tok(t, j) => {
            if t.kind == TokenKind::Comma {
                if i < j <= s.len() {
                    match scan_token(s, j) {
                        ScanResult::Tok(t2, j2) => if t2.kind == TokenKind::Identifier && j < j2
                            <= s.len() {
                            p_vd_names(s, j2, names.push(t2))
                        } else {
                            PList::NoParseL
                        },
                        ScanResult::Fail(_) => PList::NoParseL,
                    }
                } else {
                    PList::NoParseL
                }
            } else if t.kind == TokenKind::Colon {
                match p_type_spec(s, j) {
                    PNode::Parsed(ty, i2) => PList::ParsedL(
                        Seq::new(names.len(), |q: int| AstView::VarDecl(
                            Box::new(AstView::Var(names[q])),
                            Box::new(ty),
                        )),
                        i2,
                    ),
                    PNode::NoParse => PList::NoParseL,
                }
            } else {
                PList::NoParseL
            }
        },
    }
}

/// variable_declaration := ID ("," ID)* ":" type_spec
pub open spec fn p_var_decl(s: Seq<char>, i: int) -> PList
    decreases s.len() - i, 1int,
{
    match scan_token(s, i) {
        ScanResult::Fail(_) => PList::NoParseL,
        ScanResult::Tok(t, j) => if t.kind == TokenKind::Identifier && i < j <= s.len() {
            p_vd_names(s, j, seq![t])
        } else {
            PList::NoParseL
        },
    }
}

/// The repetition (variable_declaration ";")* while an identifier follows.
pub open spec fn p_decls_loop(s: Seq<char>, i: int, acc: Seq<AstView>) -> PList
    decreases s.len() - i, 2int,
{
    match scan_token(s, i) {
        ScanResult::Fail(_) => PList::ParsedL(acc, i),
        ScanResult::Tok(t, _) => {
            if t.kind == TokenKind::Identifier {
                match p_var_decl(s, i) {
                    PList::ParsedL(vds, i1) => match scan_token(s, i1) {
                        ScanResult::Tok(t2, j2) => if t2.kind == TokenKind::Semi && i < j2
                            <= s.len() {
                            p_decls_loop(s, j2, acc + vds)
                        } else {
                            PList::NoParseL
                        },
                        ScanResult::Fail(_) => PList::NoParseL,
                    },
                    PList::NoParseL => PList::NoParseL,
                }
            } else {
                PList::ParsedL(acc, i)
            }
        },
    }
}

/// declarations := ("VAR" (variable_declaration ";")+)?
pub open spec fn p_declarations(s: Seq<char>, i: int) -> PList
    decreases s.len() - i, 4int,
{
    match scan_token(s, i) {
        ScanResult::Fail(_) => PList::ParsedL(Seq::empty(), i),
        ScanResult::Tok(t, j) => {
            if t.kind == TokenKind::Var {
                if i < j <= s.len() {
                    p_decls_loop(s, j, Seq::empty())
                } else {
                    PList::NoParseL
                }
            } else {
                PList::ParsedL(Seq::empty(), i)
            }
        },
    }
}

/// block := declarations compound_statement
pub open spec fn p_block(s: Seq<char>, i: int) -> PNode
    decreases s.len() - i, 5int,
{
    match p_declarations(s, i) {
        PList::NoParseL => PNode::NoParse,
        PList::ParsedL(decls, i1) => if i <= i1 <= s.len() {
            match p_compound(s, i1) {
                PNode::Parsed(c, i2) => PNode::Parsed(AstView::Block(decls, Box::new(c)), i2),
                PNode::NoParse => PNode::NoParse,
            }
        } else {
            PNode::NoParse
        },
    }
}

/// After the main construct, the EOF token itself is consumed.
pub open spec fn p_eat_eof(s: Seq<char>, i: int, node: AstView) -> PNode {
    match scan_token(s, i) {
        ScanResult::Tok(t, j) => if t.kind == TokenKind::EOF {
            PNode::Parsed(node, j)
        } else {
            PNode::NoParse
        },
        ScanResult::Fail(_) => PNode::NoParse,
    }
}

/// program := "PROGRAM" variable ";" block "." | compound_statement "." | expr,
/// followed by EOF.
pub open spec fn p_program(s: Seq<char>, i: int) -> PNode
    decreases s.len() - i, 6int,
{
    match scan_token(s, i) {
        ScanResult::Fail(_) => PNode::NoParse,
        ScanResult::Tok(t, j) => {
            if t.kind == TokenKind::Program {
                if i < j <= s.len() {
                    match p_variable(s, j) {
                        PNode::Parsed(v, i1) => {
                            let name = match v {
                                AstView::Var(tv) => match tv.value {
                                    TokenValueView::Str(nm) => Some(nm),
                                    _ => None,
                                },
                                _ => None,
                            };
                            match name {
                                None => PNode::NoParse,
                                Some(nm) => match scan_token(s, i1) {
                                    ScanResult::Tok(t2, j2) => if t2.kind == TokenKind::Semi && i
                                        < j2 <= s.len() {
                                        match p_block(s, j2) {
                                            PNode::Parsed(b, i2) => match scan_token(s, i2) {
                                                ScanResult::Tok(t3, j3) => if t3.kind
                                                    == TokenKind::Dot {
                                                    p_eat_eof(
                                                        s,
                                                        j3,
                                                        AstView::Program(nm, Box::new(b)),
                                                    )
                                                } else {
                                                    PNode::NoParse
                                                },
                                                ScanResult::Fail(_) => PNode::NoParse,
                                            },
                                            PNode::NoParse => PNode::NoParse,
                                        }
                                    } else {
                                        PNode::NoParse
                                    },
                                    ScanResult::Fail(_) => PNode::NoParse,
                                },
                            }
                        },
                        PNode::NoParse => PNode::NoParse,
                    }
                } else {
                    PNode::NoParse
                }
            } else if t.kind == TokenKind::Begin {
                match p_compound(s, i) {
                    PNode::Parsed(c, i1) => match scan_token(s, i1) {
                        ScanResult::Tok(t2, j2) => if t2.kind == TokenKind::Dot {
                            p_eat_eof(s, j2, c)
                        } else {
                            PNode::NoParse
                        },
                        ScanResult::Fail(_) => PNode::NoParse,
                    },
                    PNode::NoParse => PNode::NoParse,
                }
            } else {
                match p_expr(s, i) {
                    PNode::Parsed(e, i1) => p_eat_eof(s, i1, e),
                    PNode::NoParse => PNode::NoParse,
                }
            }
        },
    }
}

/// The whole parse: the program production, with no trailing tokens but
/// EOF allowed after it.
pub open spec fn spec_parse(s: Seq<char>, i: int) -> PNode {
    match p_program(s, i) {
        PNode::Parsed(node, i1) => match scan_token(s, i1) {
            ScanResult::Tok(t, _) => if t.kind == TokenKind::EOF {
                PNode::Parsed(node, i1)
            } else {
                PNode::NoParse
            },
            ScanResult::Fail(_) => PNode::NoParse,
        },
        PNode::NoParse => PNode::NoParse,
    }
}

/// All trees in a list are well-formed.
pub open spec fn views_wf(ss: Seq<AstView>) -> bool {
    forall|q: int| 0 <= q < ss.len() ==> ast_view_wf(#[trigger] ss[q])
}

/// The views of a list of tokens.
pub open spec fn view_tokens(s: Seq<Token>) -> Seq<TokenView>
    decreases s.len(),
{
    if s.len() == 0 {
        Seq::empty()
    } else {
        view_tokens(s.drop_last()).push(s.last()@)
    }
}

pub proof fn lemma_view_tokens(s: Seq<Token>)
    ensures
        view_tokens(s).len() == s.len(),
        forall|i: int| 0 <= i < s.len() ==> #[trigger] view_tokens(s)[i] == s[i]@,
    decreases s.len(),
{
    if s.len() > 0 {
        lemma_view_tokens(s.drop_last());
        assert(view_tokens(s) == view_tokens(s.drop_last()).push(s.last()@));
        assert forall|i: int| 0 <= i < s.len() implies #[trigger] view_tokens(s)[i] == s[i]@ by {
            if i < s.len() - 1 {
                assert(view_tokens(s)[i] == view_tokens(s.drop_last())[i]);
                assert(s.drop_last()[i] == s[i]);
            } else {
                assert(s.last() == s[i]);
            }
        }
    }
}

/// Moving forward strictly shrinks the measure.
pub proof fn lemma_rem_mono(s: Seq<char>, i: int, j: int)
    requires
        0 <= i < j <= s.len(),
    ensures
        rem(s, j) < rem(s, i),
{
}

// ---------------------------------------------------------------------
// The executable parser.
// ---------------------------------------------------------------------

/// The parser: owns the lexer and one token of look-ahead (or the lexical
/// failure that producing it met).
pub struct Parser {
    lexer: Lexer,
    current_token: Result<Token, LexicalError>,
    start: Ghost<int>,
}

impl Parser {
    /// The text being parsed.
    pub closed spec fn text_view(&self) -> Seq<char> {
        self.lexer.text_view()
    }

    /// The position where the current look-ahead token's scan began.
    pub closed spec fn start_view(&self) -> int {
        self.start@
    }

    pub closed spec fn wf(&self) -> bool {
        &&& self.lexer.wf()
        &&& 0 <= self.start@ <= self.lexer.text_view().len()
        &&& match self.current_token {
            Ok(t) => token_wf(t) && scan_token(self.lexer.text_view(), self.start@)
                == ScanResult::Tok(t@, self.lexer.pos_view()),
            Err(e) => scan_token(self.lexer.text_view(), self.start@) == ScanResult::Fail(e@),
        }
    }

    pub fn new(lexer: Lexer) -> (r: Parser)
        requires
            lexer.wf(),
        ensures
            r.wf(),
            r.text_view() == lexer.text_view(),
            r.start_view() == lexer.pos_view(),
    {
        proof {
            lexer.lemma_bounds();
        }
        let ghost ns: int = lexer.pos_view();
        let mut l = lexer;
        let token = l.get_next_token();
        Parser { lexer: l, current_token: token, start: Ghost(ns) }
    }

    /// The diagnostic for the current look-ahead, when a production cannot
    /// use it.
    fn fail_current(&self) -> (r: ParserError)
        requires
            self.wf(),
    {
        match &self.current_token {
            Ok(_) => ParserError { message: String::from_str("Invalid syntax") },
            Err(e) => ParserError { message: e.message() },
        }
    }

    /// Checks that the look-ahead has the expected kind, and advances past
    /// it, pulling the next token from the lexer.
    fn eat(&mut self, kind: TokenKind) -> (r: Result<(), ParserError>)
        requires
            old(self).wf(),
        ensures
            final(self).wf(),
            final(self).text_view() == old(self).text_view(),
            match r {
                Ok(_) => {
                    &&& match scan_token(old(self).text_view(), old(self).start_view()) {
                        ScanResult::Tok(t, j) => t.kind == kind && final(self).start_view() == j,
                        ScanResult::Fail(_) => false,
                    }
                    &&& old(self).start_view() <= final(self).start_view()
                    &&& final(self).start_view() <= final(self).text_view().len()
                    &&& (kind != TokenKind::EOF ==> old(self).start_view()
                        < final(self).start_view() && rem(final(self).text_view(), final(self).start_view())
                        < rem(old(self).text_view(), old(self).start_view()))
                },
                Err(_) => *final(self) == *old(self) && !(match scan_token(
                    old(self).text_view(),
                    old(self).start_view(),
                ) {
                    ScanResult::Tok(t, _) => t.kind == kind,
                    ScanResult::Fail(_) => false,
                }),
            },
    {
        let ok = match &self.current_token {
            Ok(t) => t.kind == kind,
            Err(_) => false,
        };
        if ok {
            proof {
                lemma_scan_bounds(self.lexer.text_view(), self.start@);
            }
            let ghost ns: int = self.lexer.pos_view();
            let nxt = self.lexer.get_next_token();
            self.current_token = nxt;
            self.start = Ghost(ns);
            proof {
                if kind != TokenKind::EOF {
                    lemma_scan_bounds(self.lexer.text_view(), self.start@);
                }
            }
            Ok(())
        } else {
            Err(self.fail_current())
        }
    }

    /// variable := ID
    fn variable(&mut self) -> (r: Result<AstNode, ParserError>)
        requires
            old(self).wf(),
        ensures
            final(self).wf(),
            final(self).text_view() == old(self).text_view(),
            old(self).start_view() <= final(self).start_view(),
            match r {
                Ok(node) => ast_view_wf(node@) && old(self).start_view() < final(self).start_view()
                    && p_variable(old(self).text_view(), old(self).start_view()) == PNode::Parsed(
                    node@,
                    final(self).start_view(),
                ),
                Err(_) => p_variable(old(self).text_view(), old(self).start_view())
                    == PNode::NoParse,
            },
    {
        let tok = match &self.current_token {
            Ok(t) => t.clone(),
            Err(_) => {
                return Err(self.fail_current());
            },
        };
        if tok.kind == TokenKind::Identifier {
            match self.eat(TokenKind::Identifier) {
                Ok(_) => Ok(AstNode::Var(tok)),
                Err(e) => Err(e),
            }
        } else {
            Err(self.fail_current())
        }
    }

    /// factor := ("+"|"-") factor | INT | REAL | "(" expr ")" | variable
    fn factor(&mut self) -> (r: Result<AstNode, ParserError>)
        requires
            old(self).wf(),
        ensures
            final(self).wf(),
            final(self).text_view() == old(self).text_view(),
            old(self).start_view() <= final(self).start_view(),
            match r {
                Ok(node) => ast_view_wf(node@) && old(self).start_view() < final(self).start_view()
                    && p_factor(old(self).text_view(), old(self).start_view()) == PNode::Parsed(
                    node@,
                    final(self).start_view(),
                ),
                Err(_) => p_factor(old(self).text_view(), old(self).start_view())
                    == PNode::NoParse,
            },
        decreases rem(self.text_view(), self.start_view()), 1int,
    {
        proof {
            lemma_scan_bounds(self.text_view(), self.start@);
        }
        let tok = match &self.current_token {
            Ok(t) => t.clone(),
            Err(_) => {
                return Err(self.fail_current());
            },
        };
        match tok.kind {
            TokenKind::Plus => {
                match self.eat(TokenKind::Plus) {
                    Ok(_) => {},
                    Err(e) => {
                        return Err(e);
                    },
                }
                match self.factor() {
                    Ok(f) => Ok(AstNode::UnaryOp(Box::new(f), tok)),
                    Err(e) => Err(e),
                }
            },
            TokenKind::Minus => {
                match self.eat(TokenKind::Minus) {
                    Ok(_) => {},
                    Err(e) => {
                        return Err(e);
                    },
                }
                match self.factor() {
                    Ok(f) => Ok(AstNode::UnaryOp(Box::new(f), tok)),
                    Err(e) => Err(e),
                }
            },
            TokenKind::Integer => {
                match tok.value {
                    TokenValue::Int(v) => {
                        match self.eat(TokenKind::Integer) {
                            Ok(_) => Ok(AstNode::Num(AstType::Integer(v))),
                            Err(e) => Err(e),
                        }
                    },
                    _ => Err(self.fail_current()),
                }
            },
            TokenKind::Real => {
                match tok.value {
                    TokenValue::Real(v) => {
                        match self.eat(TokenKind::Real) {
                            Ok(_) => Ok(AstNode::Num(AstType::Real(v))),
                            Err(e) => Err(e),
                        }
                    },
                    _ => Err(self.fail_current()),
                }
            },
            TokenKind::LParen => {
                match self.eat(TokenKind::LParen) {
                    Ok(_) => {},
                    Err(e) => {
                        return Err(e);
                    },
                }
                let e = match self.expr() {
                    Ok(e) => e,
                    Err(e) => {
                        return Err(e);
                    },
                };
                match self.eat(TokenKind::RParen) {
                    Ok(_) => Ok(e),
                    Err(e) => Err(e),
                }
            },
            _ => self.variable(),
        }
    }

    /// term := factor (("*"|"/"|"DIV") factor)*
    #[verifier::loop_isolation(false)]
    fn term(&mut self) -> (r: Result<AstNode, ParserError>)
        requires
            old(self).wf(),
        ensures
            final(self).wf(),
            final(self).text_view() == old(self).text_view(),
            old(self).start_view() <= final(self).start_view(),
            match r {
                Ok(node) => ast_view_wf(node@) && old(self).start_view() < final(self).start_view()
                    && p_term(old(self).text_view(), old(self).start_view()) == PNode::Parsed(
                    node@,
                    final(self).start_view(),
                ),
                Err(_) => p_term(old(self).text_view(), old(self).start_view()) == PNode::NoParse,
            },
        decreases rem(self.text_view(), self.start_view()), 2int,
    {
        let ghost s = self.text_view();
        let ghost i0 = self.start_view();
        let mut node = match self.factor() {
            Ok(f) => f,
            Err(e) => {
                return Err(e);
            },
        };
        loop
            invariant
                self.wf(),
                self.text_view() == s,
                i0 < self.start_view() <= s.len(),
                ast_view_wf(node@),
                p_term(s, i0) == p_term_rest(s, self.start_view(), node@),
            decreases rem(s, self.start_view()),
        {
            let tok = match &self.current_token {
                Ok(t) => {
                    if t.kind == TokenKind::Multiply || t.kind == TokenKind::FloatDivide || t.kind
                        == TokenKind::IntegerDivide {
                        t.clone()
                    } else {
                        break ;
                    }
                },
                Err(_) => {
                    break ;
                },
            };
            match self.eat(tok.kind) {
                Ok(_) => {},
                Err(e) => {
                    return Err(e);
                },
            }
            match self.factor() {
                Ok(f) => {
                    node = AstNode::BinaryOp(Box::new(node), Box::new(f), tok);
                },
                Err(e) => {
                    return Err(e);
                },
            }
        }
        Ok(node)
    }

    /// expr := term (("+"|"-") term)*
    #[verifier::loop_isolation(false)]
    fn expr(&mut self) -> (r: Result<AstNode, ParserError>)
        requires
            old(self).wf(),
        ensures
            final(self).wf(),
            final(self).text_view() == old(self).text_view(),
            old(self).start_view() <= final(self).start_view(),
            match r {
                Ok(node) => ast_view_wf(node@) && old(self).start_view() < final(self).start_view()
                    && p_expr(old(self).text_view(), old(self).start_view()) == PNode::Parsed(
                    node@,
                    final(self).start_view(),
                ),
                Err(_) => p_expr(old(self).text_view(), old(self).start_view()) == PNode::NoParse,
            },
        decreases rem(self.text_view(), self.start_view()), 3int,
    {
        let ghost s = self.text_view();
        let ghost i0 = self.start_view();
        let mut node = match self.term() {
            Ok(t) => t,
            Err(e) => {
                return Err(e);
            },
        };
        loop
            invariant
                self.wf(),
                self.text_view() == s,
                i0 < self.start_view() <= s.len(),
                ast_view_wf(node@),
                p_expr(s, i0) == p_expr_rest(s, self.start_view(), node@),
            decreases rem(s, self.start_view()),
        {
            let tok = match &self.current_token {
                Ok(t) => {
                    if t.kind == TokenKind::Plus || t.kind == TokenKind::Minus {
                        t.clone()
                    } else {
                        break ;
                    }
                },
                Err(_) => {
                    break ;
                },
            };
            match self.eat(tok.kind) {
                Ok(_) => {},
                Err(e) => {
                    return Err(e);
                },
            }
            match self.term() {
                Ok(t2) => {
                    node = AstNode::BinaryOp(Box::new(node), Box::new(t2), tok);
                },
                Err(e) => {
                    return Err(e);
                },
            }
        }
        Ok(node)
    }

    /// empty := (the empty production, consuming nothing)
    fn empty(&mut self) -> (r: Result<AstNode, ParserError>)
        requires
            old(self).wf(),
        ensures
            *final(self) == *old(self),
            match r {
                Ok(node) => node@ == AstView::NoOp,
                Err(_) => false,
            },
    {
        Ok(AstNode::NoOp)
    }

    /// assignment_statement := variable ":=" expr
    fn assignment_statement(&mut self) -> (r: Result<AstNode, ParserError>)
        requires
            old(self).wf(),
        ensures
            final(self).wf(),
            final(self).text_view() == old(self).text_view(),
            old(self).start_view() <= final(self).start_view(),
            match r {
                Ok(node) => ast_view_wf(node@) && old(self).start_view() < final(self).start_view()
                    && p_assignment(old(self).text_view(), old(self).start_view()) == PNode::Parsed(
                    node@,
                    final(self).start_view(),
                ),
                Err(_) => p_assignment(old(self).text_view(), old(self).start_view())
                    == PNode::NoParse,
            },
    {
        let left = match self.variable() {
            Ok(v) => v,
            Err(e) => {
                return Err(e);
            },
        };
        let tok = match &self.current_token {
            Ok(t) => t.clone(),
            Err(_) => {
                return Err(self.fail_current());
            },
        };
        match self.eat(TokenKind::Assign) {
            Ok(_) => {},
            Err(e) => {
                return Err(e);
            },
        }
        let right = match self.expr() {
            Ok(e) => e,
            Err(e) => {
                return Err(e);
            },
        };
        Ok(AstNode::Assign(Box::new(left), Box::new(right), tok))
    }

    /// type_spec := "INTEGER" | "REAL"
    fn type_spec(&mut self) -> (r: Result<AstNode, ParserError>)
        requires
            old(self).wf(),
        ensures
            final(self).wf(),
            final(self).text_view() == old(self).text_view(),
            old(self).start_view() <= final(self).start_view(),
            match r {
                Ok(node) => ast_view_wf(node@) && old(self).start_view() < final(self).start_view()
                    && p_type_spec(old(self).text_view(), old(self).start_view()) == PNode::Parsed(
                    node@,
                    final(self).start_view(),
                ),
                Err(_) => p_type_spec(old(self).text_view(), old(self).start_view())
                    == PNode::NoParse,
            },
    {
        let tok = match &self.current_token {
            Ok(t) => t.clone(),
            Err(_) => {
                return Err(self.fail_current());
            },
        };
        match tok.kind {
            TokenKind::Integer => {
                match self.eat(TokenKind::Integer) {
                    Ok(_) => Ok(AstNode::Type(tok)),
                    Err(e) => Err(e),
                }
            },
            TokenKind::Real => {
                match self.eat(TokenKind::Real) {
                    Ok(_) => Ok(AstNode::Type(tok)),
                    Err(e) => Err(e),
                }
            },
            _ => Err(self.fail_current()),
        }
    }

    /// variable_declaration := ID ("," ID)* ":" type_spec, yielding one
    /// VarDecl node per declared name.
    #[verifier::loop_isolation(false)]
    fn variable_declaration(&mut self) -> (r: Result<Vec<AstNode>, ParserError>)
        requires
            old(self).wf(),
        ensures
            final(self).wf(),
            final(self).text_view() == old(self).text_view(),
            old(self).start_view() <= final(self).start_view(),
            match r {
                Ok(nodes) => views_wf(view_nodes(nodes@)) && old(self).start_view()
                    < final(self).start_view() && p_var_decl(
                    old(self).text_view(),
                    old(self).start_view(),
                ) == PList::ParsedL(view_nodes(nodes@), final(self).start_view()),
                Err(_) => p_var_decl(old(self).text_view(), old(self).start_view())
                    == PList::NoParseL,
            },
    {
        let ghost s = self.text_view();
        let ghost i0 = self.start_view();
        let tok = match &self.current_token {
            Ok(t) => t.clone(),
            Err(_) => {
                return Err(self.fail_current());
            },
        };
        let mut names: Vec<Token> = Vec::new();
        names.push(tok);
        match self.eat(TokenKind::Identifier) {
            Ok(_) => {},
            Err(e) => {
                return Err(e);
            },
        }
        proof {
            lemma_view_tokens(names@);
            assert(view_tokens(names@) =~= seq![names@[0]@]);
        }
        loop
            invariant
                self.wf(),
                self.text_view() == s,
                i0 < self.start_view() <= s.len(),
                p_var_decl(s, i0) == p_vd_names(s, self.start_view(), view_tokens(names@)),
            decreases rem(s, self.start_view()),
        {
            let comma = match &self.current_token {
                Ok(t) => t.kind == TokenKind::Comma,
                Err(_) => false,
            };
            if !comma {
                break ;
            }
            match self.eat(TokenKind::Comma) {
                Ok(_) => {},
                Err(e) => {
                    return Err(e);
                },
            }
            let tok2 = match &self.current_token {
                Ok(t) => t.clone(),
                Err(_) => {
                    return Err(self.fail_current());
                },
            };
            let ghost names_old = names@;
            names.push(tok2);
            match self.eat(TokenKind::Identifier) {
                Ok(_) => {},
                Err(e) => {
                    return Err(e);
                },
            }
            proof {
                lemma_view_tokens(names_old);
                lemma_view_tokens(names@);
                assert(view_tokens(names@) =~= view_tokens(names_old).push(tok2@));
            }
        }
        match self.eat(TokenKind::Colon) {
            Ok(_) => {},
            Err(e) => {
                return Err(e);
            },
        }
        let ty_node = match self.type_spec() {
            Ok(t) => t,
            Err(e) => {
                return Err(e);
            },
        };
        let ty_tok = match ty_node {
            AstNode::Type(t) => t,
            _ => {
                proof {
                    assert(false);
                }
                return Err(self.fail_current());
            },
        };
        let ghost tyv = AstView::Type(ty_tok@);
        let ghost names_v = view_tokens(names@);
        let mut decls: Vec<AstNode> = Vec::new();
        let mut q: usize = 0;
        proof {
            lemma_view_tokens(names@);
        }
        while q < names.len()
            invariant
                0 <= q <= names.len(),
                decls@.len() == q as int,
                view_nodes(decls@).len() == q as int,
                forall|x: int|
                    0 <= x < q ==> #[trigger] view_nodes(decls@)[x] == AstView::VarDecl(
                        Box::new(AstView::Var(names_v[x])),
                        Box::new(tyv),
                    ),
            decreases names.len() - q,
        {
            let ghost decls_old = decls@;
            let var_node = AstNode::Var(names[q].clone());
            let type_node = AstNode::Type(ty_tok.clone());
            proof {
                assert(var_node@ == AstView::Var(names@[q as int]@));
                assert(type_node@ == tyv);
            }
            let vd = AstNode::VarDecl(Box::new(var_node), Box::new(type_node));
            let ghost vdv = vd@;
            proof {
                assert(vdv == AstView::VarDecl(Box::new(AstView::Var(names_v[q as int])), Box::new(tyv)));
            }
            decls.push(vd);
            q = q + 1;
            proof {
                lemma_view_nodes(decls_old);
                lemma_view_nodes(decls@);
                assert forall|x: int|
                    0 <= x < q implies #[trigger] view_nodes(decls@)[x] == AstView::VarDecl(
                    Box::new(AstView::Var(names_v[x])),
                    Box::new(tyv),
                ) by {
                    assert(view_nodes(decls@)[x] == decls@[x]@);
                    if x < q - 1 {
                        assert(decls@[x] == decls_old[x]);
                        assert(view_nodes(decls_old)[x] == decls_old[x]@);
                    } else {
                        assert(decls@[x] == vd);
                    }
                }
            }
        }
        proof {
            let target = match p_var_decl(s, i0) {
                PList::ParsedL(ss, _) => ss,
                PList::NoParseL => Seq::<AstView>::empty(),
            };
            lemma_view_nodes(decls@);
            assert(view_nodes(decls@) =~= target);
            assert forall|x: int|
                0 <= x < view_nodes(decls@).len() implies ast_view_wf(
                #[trigger] view_nodes(decls@)[x],
            ) by {
                assert(view_nodes(decls@)[x] == AstView::VarDecl(
                    Box::new(AstView::Var(names_v[x])),
                    Box::new(tyv),
                ));
                assert(ast_view_wf(AstView::Var(names_v[x])));
                assert(ast_view_wf(tyv));
            }
        }
        Ok(decls)
    }

    /// declarations := ("VAR" (variable_declaration ";")+)?
    #[verifier::loop_isolation(false)]
    fn declarations(&mut self) -> (r: Result<Vec<AstNode>, ParserError>)
        requires
            old(self).wf(),
        ensures
            final(self).wf(),
            final(self).text_view() == old(self).text_view(),
            old(self).start_view() <= final(self).start_view(),
            match r {
                Ok(nodes) => views_wf(view_nodes(nodes@)) && p_declarations(
                    old(self).text_view(),
                    old(self).start_view(),
                ) == PList::ParsedL(view_nodes(nodes@), final(self).start_view()),
                Err(_) => p_declarations(old(self).text_view(), old(self).start_view())
                    == PList::NoParseL,
            },
    {
        let ghost s = self.text_view();
        let ghost i0 = self.start_view();
        let mut declarations: Vec<AstNode> = Vec::new();
        let isvar = match &self.current_token {
            Ok(t) => t.kind == TokenKind::Var,
            Err(_) => false,
        };
        if !isvar {
            proof {
                assert(view_nodes(declarations@) =~= Seq::<AstView>::empty());
            }
            return Ok(declarations);
        }
        match self.eat(TokenKind::Var) {
            Ok(_) => {},
            Err(e) => {
                return Err(e);
            },
        }
        proof {
            assert(view_nodes(declarations@) =~= Seq::<AstView>::empty());
        }
        loop
            invariant
                self.wf(),
                self.text_view() == s,
                i0 < self.start_view() <= s.len(),
                views_wf(view_nodes(declarations@)),
                p_declarations(s, i0) == p_decls_loop(
                    s,
                    self.start_view(),
                    view_nodes(declarations@),
                ),
            decreases rem(s, self.start_view()),
        {
            let isid = match &self.current_token {
                Ok(t) => t.kind == TokenKind::Identifier,
                Err(_) => false,
            };
            if !isid {
                break ;
            }
            let ghost entry = self.start_view();
            let mut vds = match self.variable_declaration() {
                Ok(v) => v,
                Err(e) => {
                    return Err(e);
                },
            };
            let ghost decls_old = declarations@;
            let ghost vds_seq = vds@;
            let ghost vds_v = view_nodes(vds@);
            declarations.append(&mut vds);
            proof {
                lemma_view_nodes(decls_old);
                lemma_view_nodes(vds_seq);
                lemma_view_nodes(declarations@);
                assert(view_nodes(declarations@) =~= view_nodes(decls_old) + vds_v);
            }
            let ghost mid = self.start_view();
            match self.eat(TokenKind::Semi) {
                Ok(_) => {},
                Err(e) => {
                    return Err(e);
                },
            }
            proof {
                if mid < self.start_view() {
                }
                lemma_rem_mono(s, entry, self.start_view());
            }
        }
        Ok(declarations)
    }

    /// statement := compound_statement | assignment_statement | empty
    fn statement(&mut self) -> (r: Result<AstNode, ParserError>)
        requires
            old(self).wf(),
        ensures
            final(self).wf(),
            final(self).text_view() == old(self).text_view(),
            old(self).start_view() <= final(self).start_view(),
            match r {
                Ok(node) => ast_view_wf(node@) && p_statement(
                    old(self).text_view(),
                    old(self).start_view(),
                ) == PNode::Parsed(node@, final(self).start_view()),
                Err(_) => p_statement(old(self).text_view(), old(self).start_view())
                    == PNode::NoParse,
            },
        decreases rem(self.text_view(), self.start_view()), 4int,
    {
        let kind = match &self.current_token {
            Ok(t) => t.kind,
            Err(_) => {
                return Err(self.fail_current());
            },
        };
        if kind == TokenKind::Begin {
            self.compound_statement()
        } else if kind == TokenKind::Identifier {
            self.assignment_statement()
        } else {
            self.empty()
        }
    }

    /// statement_list := statement (";" statement)*
    #[verifier::loop_isolation(false)]
    fn statement_list(&mut self) -> (r: Result<Vec<AstNode>, ParserError>)
        requires
            old(self).wf(),
        ensures
            final(self).wf(),
            final(self).text_view() == old(self).text_view(),
            old(self).start_view() <= final(self).start_view(),
            match r {
                Ok(nodes) => views_wf(view_nodes(nodes@)) && p_statement_list(
                    old(self).text_view(),
                    old(self).start_view(),
                ) == PList::ParsedL(view_nodes(nodes@), final(self).start_view()),
                Err(_) => p_statement_list(old(self).text_view(), old(self).start_view())
                    == PList::NoParseL,
            },
        decreases rem(self.text_view(), self.start_view()), 5int,
    {
        let ghost s = self.text_view();
        let ghost i0 = self.start_view();
        let node = match self.statement() {
            Ok(n) => n,
            Err(e) => {
                return Err(e);
            },
        };
        let mut results: Vec<AstNode> = Vec::new();
        results.push(node);
        proof {
            lemma_view_nodes(results@);
            assert(view_nodes(results@) =~= seq![results@[0]@]);
        }
        loop
            invariant
                self.wf(),
                self.text_view() == s,
                i0 <= self.start_view() <= s.len(),
                views_wf(view_nodes(results@)),
                p_statement_list(s, i0) == p_stl_rest(s, self.start_view(), view_nodes(results@)),
            decreases rem(s, self.start_view()),
        {
            let semi = match &self.current_token {
                Ok(t) => t.kind == TokenKind::Semi,
                Err(_) => false,
            };
            if !semi {
                break ;
            }
            let ghost entry = self.start_view();
            match self.eat(TokenKind::Semi) {
                Ok(_) => {},
                Err(e) => {
                    return Err(e);
                },
            }
            let other_node = match self.statement() {
                Ok(n) => n,
                Err(e) => {
                    return Err(e);
                },
            };
            let ghost results_old = results@;
            results.push(other_node);
            proof {
                lemma_view_nodes(results_old);
                lemma_view_nodes(results@);
                assert(view_nodes(results@) =~= view_nodes(results_old).push(results@.last()@));
                lemma_rem_mono(s, entry, self.start_view());
            }
        }
        Ok(results)
    }

    /// compound_statement := "BEGIN" statement_list "END"
    fn compound_statement(&mut self) -> (r: Result<AstNode, ParserError>)
        requires
            old(self).wf(),
        ensures
            final(self).wf(),
            final(self).text_view() == old(self).text_view(),
            old(self).start_view() <= final(self).start_view(),
            match r {
                Ok(node) => ast_view_wf(node@) && old(self).start_view() < final(self).start_view()
                    && p_compound(old(self).text_view(), old(self).start_view()) == PNode::Parsed(
                    node@,
                    final(self).start_view(),
                ),
                Err(_) => p_compound(old(self).text_view(), old(self).start_view())
                    == PNode::NoParse,
            },
        decreases rem(self.text_view(), self.start_view()), 3int,
    {
        match self.eat(TokenKind::Begin) {
            Ok(_) => {},
            Err(e) => {
                return Err(e);
            },
        }
        let nodes = match self.statement_list() {
            Ok(n) => n,
            Err(e) => {
                return Err(e);
            },
        };
        match self.eat(TokenKind::End) {
            Ok(_) => {},
            Err(e) => {
                return Err(e);
            },
        }
        Ok(AstNode::Compound(nodes))
    }

    /// block := declarations compound_statement
    fn block(&mut self) -> (r: Result<AstNode, ParserError>)
        requires
            old(self).wf(),
        ensures
            final(self).wf(),
            final(self).text_view() == old(self).text_view(),
            old(self).start_view() <= final(self).start_view(),
            match r {
                Ok(node) => ast_view_wf(node@) && p_block(
                    old(self).text_view(),
                    old(self).start_view(),
                ) == PNode::Parsed(node@, final(self).start_view()),
                Err(_) => p_block(old(self).text_view(), old(self).start_view()) == PNode::NoParse,
            },
    {
        let declarations = match self.declarations() {
            Ok(d) => d,
            Err(e) => {
                return Err(e);
            },
        };
        let compound_statement = match self.compound_statement() {
            Ok(c) => c,
            Err(e) => {
                return Err(e);
            },
        };
        Ok(AstNode::Block(declarations, Box::new(compound_statement)))
    }

    /// program := "PROGRAM" variable ";" block "." | compound_statement "."
    /// | expr — and the EOF token after it is consumed.
    fn program(&mut self) -> (r: Result<AstNode, ParserError>)
        requires
            old(self).wf(),
        ensures
            final(self).wf(),
            final(self).text_view() == old(self).text_view(),
            old(self).start_view() <= final(self).start_view(),
            match r {
                Ok(node) => ast_view_wf(node@) && p_program(
                    old(self).text_view(),
                    old(self).start_view(),
                ) == PNode::Parsed(node@, final(self).start_view()),
                Err(_) => p_program(old(self).text_view(), old(self).start_view())
                    == PNode::NoParse,
            },
    {
        let kind = match &self.current_token {
            Ok(t) => t.kind,
            Err(_) => {
                return Err(self.fail_current());
            },
        };
        if kind == TokenKind::Program {
            match self.eat(TokenKind::Program) {
                Ok(_) => {},
                Err(e) => {
                    return Err(e);
                },
            }
            let var_node = match self.variable() {
                Ok(v) => v,
                Err(e) => {
                    return Err(e);
                },
            };
            let nm = match var_node {
                AstNode::Var(tok) => match tok.value {
                    TokenValue::Str(nm) => nm,
                    _ => {
                        return Err(ParserError { message: String::from_str("Invalid syntax") });
                    },
                },
                _ => {
                    proof {
                        assert(false);
                    }
                    return Err(ParserError { message: String::from_str("Invalid syntax") });
                },
            };
            match self.eat(TokenKind::Semi) {
                Ok(_) => {},
                Err(e) => {
                    return Err(e);
                },
            }
            let block_node = match self.block() {
                Ok(b) => b,
                Err(e) => {
                    return Err(e);
                },
            };
            let node = AstNode::Program(nm, Box::new(block_node));
            match self.eat(TokenKind::Dot) {
                Ok(_) => {},
                Err(e) => {
                    return Err(e);
                },
            }
            match self.eat(TokenKind::EOF) {
                Ok(_) => {},
                Err(e) => {
                    return Err(e);
                },
            }
            Ok(node)
        } else if kind == TokenKind::Begin {
            let node = match self.compound_statement() {
                Ok(c) => c,
                Err(e) => {
                    return Err(e);
                },
            };
            match self.eat(TokenKind::Dot) {
                Ok(_) => {},
                Err(e) => {
                    return Err(e);
                },
            }
            match self.eat(TokenKind::EOF) {
                Ok(_) => {},
                Err(e) => {
                    return Err(e);
                },
            }
            Ok(node)
        } else {
            let node = match self.expr() {
                Ok(e) => e,
                Err(e) => {
                    return Err(e);
                },
            };
            match self.eat(TokenKind::EOF) {
                Ok(_) => {},
                Err(e) => {
                    return Err(e);
                },
            }
            Ok(node)
        }
    }

    /// The single entry point: parses one whole program or expression and
    /// demands that nothing but EOF follows it.
    pub fn parse(&mut self) -> (r: Result<AstNode, ParserError>)
        requires
            old(self).wf(),
        ensures
            final(self).wf(),
            final(self).text_view() == old(self).text_view(),
            match r {
                Ok(node) => ast_view_wf(node@) && spec_parse(
                    old(self).text_view(),
                    old(self).start_view(),
                ) == PNode::Parsed(node@, final(self).start_view()),
                Err(_) => spec_parse(old(self).text_view(), old(self).start_view())
                    == PNode::NoParse,
            },
    {
        let node = match self.program() {
            Ok(n) => n,
            Err(e) => {
                return Err(e);
            },
        };
        let trailing_ok = match &self.current_token {
            Ok(t) => t.kind == TokenKind::EOF,
            Err(_) => false,
        };
        if trailing_ok {
            Ok(node)
        } else {
            Err(self.fail_current())
        }
    }
}

} // verus!
