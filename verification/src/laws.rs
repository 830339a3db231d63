//! Laws of the whole pipeline, stated over the specification functions
//! that the lexer, parser and evaluator are proved to follow: arithmetic
//! on integer literals is exact, an undeclared variable faults, and
//! scanning at the end of input yields EOF forever.

use vstd::prelude::*;

verus! {

use crate::ast::{AstTypeView, AstView};
use crate::interpreter::{EvalOutcome, eval_node};
use crate::interpreter::kind::{EvalFault, ValueView};
use crate::lexer::{ScanResult, at_end, digit_val, digits_end, digits_val,
    eof_token_view, is_alpha_char, is_digit_char, is_space_char, lemma_norm_fits, lemma_scan_eof,
    scan_token, trivia_end, TriviaResult};
use crate::parser::{PNode, spec_parse};
use crate::rational::{RatView, norm_rat, tdiv};
use crate::token::{TokenKind, TokenValueView, TokenView};
use vstd::arithmetic::div_mod::lemma_fundamental_div_mod;

/// The decimal digit character of `d`.
pub open spec fn digit_char(d: int) -> char {
    ((48 + d) as u8) as char
}

/// The decimal rendering of a nonnegative integer.
pub open spec fn dec_str(n: int) -> Seq<char>
    decreases n,
{
    if n < 10 {
        seq![digit_char(n)]
    } else {
        dec_str(n / 10).push(digit_char(n % 10))
    }
}

proof fn lemma_digit_char(d: int)
    requires
        0 <= d <= 9,
    ensures
        is_digit_char(digit_char(d)),
        digit_val(digit_char(d)) == d,
        !is_alpha_char(digit_char(d)),
        !is_space_char(digit_char(d)),
        digit_char(d) != '.',
        digit_char(d) != '{',
        digit_char(d) != '\0',
{
    assert(digit_char(d) as int == 48 + d);
}

proof fn lemma_dec_str_digits(n: int)
    requires
        0 <= n,
    ensures
        dec_str(n).len() >= 1,
        forall|j: int|
            0 <= j < dec_str(n).len() ==> is_digit_char(#[trigger] dec_str(n)[j]) && !is_alpha_char(
                dec_str(n)[j],
            ) && !is_space_char(dec_str(n)[j]) && dec_str(n)[j] != '.' && dec_str(n)[j] != '{'
                && dec_str(n)[j] != '\0',
    decreases n,
{
    if n < 10 {
        lemma_digit_char(n);
    } else {
        lemma_fundamental_div_mod(n, 10);
        lemma_dec_str_digits(n / 10);
        lemma_digit_char(n % 10);
        assert forall|j: int| 0 <= j < dec_str(n).len() implies is_digit_char(
            #[trigger] dec_str(n)[j],
        ) && !is_alpha_char(dec_str(n)[j]) && !is_space_char(dec_str(n)[j]) && dec_str(n)[j] != '.'
            && dec_str(n)[j] != '{' && dec_str(n)[j] != '\0' by {
            if j < dec_str(n).len() - 1 {
                assert(dec_str(n)[j] == dec_str(n / 10)[j]);
            } else {
                assert(dec_str(n)[j] == digit_char(n % 10));
            }
        }
    }
}

/// A maximal digit run ends exactly where the digits stop.
proof fn lemma_digits_end_run(s: Seq<char>, i: int, k: int)
    requires
        0 <= i <= k <= s.len(),
        forall|j: int| i <= j < k ==> is_digit_char(#[trigger] s[j]),
        k == s.len() || !is_digit_char(s[k]),
    ensures
        digits_end(s, i) == k,
    decreases k - i,
{
    if i < k {
        lemma_digits_end_run(s, i + 1, k);
    }
}

/// Scanning the decimal rendering of `n` back recovers `n`.
proof fn lemma_dec_digits(n: int, s: Seq<char>, i: int)
    requires
        0 <= n,
        0 <= i,
        i + dec_str(n).len() <= s.len(),
        s.subrange(i, i + dec_str(n).len()) == dec_str(n),
    ensures
        digits_val(s, i, i + dec_str(n).len()) == n,
    decreases n,
{
    let w = dec_str(n);
    let k = i + w.len();
    if n < 10 {
        lemma_digit_char(n);
        assert(s[i] == w[0]);
        assert(digits_val(s, i, i + 1) == digits_val(s, i, i) * 10 + digit_val(s[i]));
    } else {
        lemma_fundamental_div_mod(n, 10);
        lemma_digit_char(n % 10);
        let w2 = dec_str(n / 10);
        assert(w == w2.push(digit_char(n % 10)));
        assert(s.subrange(i, i + w2.len() as int) =~= w2) by {
            assert forall|j: int| 0 <= j < w2.len() implies s.subrange(i, i + w2.len() as int)[j]
                == w2[j] by {
                assert(s[i + j] == w[j]);
            }
        }
        lemma_dec_digits(n / 10, s, i);
        assert(s[k - 1] == w[w.len() - 1]);
        assert(digits_val(s, i, k) == digits_val(s, i, k - 1) * 10 + digit_val(s[k - 1]));
    }
}

/// The integer-literal token that a digit rendering scans to, when a
/// non-digit, non-dot character (or the end) follows.
proof fn lemma_scan_literal(s: Seq<char>, i: int, n: int)
    requires
        0 <= n <= i32::MAX as int,
        0 <= i,
        i + dec_str(n).len() <= s.len(),
        s.subrange(i, i + dec_str(n).len()) == dec_str(n),
        ({
            let k = i + dec_str(n).len();
            k == s.len() || (!is_digit_char(s[k]) && s[k] != '.')
        }),
    ensures
        scan_token(s, i) == ScanResult::Tok(
            TokenView { kind: TokenKind::Integer, value: TokenValueView::Int(n) },
            i + dec_str(n).len(),
        ),
{
    let w = dec_str(n);
    let k = i + w.len();
    lemma_dec_str_digits(n);
    assert(s[i] == w[0]);
    assert(is_digit_char(s[i]));
    assert(trivia_end(s, i) == TriviaResult::At(i));
    assert forall|j: int| i <= j < k implies is_digit_char(#[trigger] s[j]) by {
        assert(s[j] == w[j - i]);
    }
    lemma_digits_end_run(s, i, k);
    lemma_dec_digits(n, s, i);
}

/// What the pieces of the text `"a <op> b"` scan to, for a one-character
/// operator.
proof fn lemma_two_literal_tokens(a: int, b: int, c: char, s: Seq<char>)
    requires
        0 <= a <= i32::MAX as int,
        0 <= b <= i32::MAX as int,
        s == dec_str(a) + seq![' ', c, ' '] + dec_str(b),
        !is_digit_char(c),
        !is_space_char(c),
        !is_alpha_char(c),
        c != '.',
        c != '{',
        c != ':',
        c != '\0',
    ensures
        ({
            let la = dec_str(a).len() as int;
            let m = la + 3;
            &&& scan_token(s, 0) == ScanResult::Tok(
                TokenView { kind: TokenKind::Integer, value: TokenValueView::Int(a) },
                la,
            )
            &&& trivia_end(s, la) == TriviaResult::At(la + 1)
            &&& s[la + 1] == c
            &&& scan_token(s, la) == crate::lexer::scan_symbol(s, la + 1)
            &&& scan_token(s, la + 2) == ScanResult::Tok(
                TokenView { kind: TokenKind::Integer, value: TokenValueView::Int(b) },
                s.len() as int,
            )
            &&& scan_token(s, s.len() as int) == ScanResult::Tok(
                eof_token_view(),
                s.len() as int,
            )
            &&& 0 < la < m < s.len()
        }),
{
    let da = dec_str(a);
    let db = dec_str(b);
    let la = da.len() as int;
    let m = la + 3;
    lemma_dec_str_digits(a);
    lemma_dec_str_digits(b);
    assert(s.len() == la + 3 + db.len());
    assert forall|j: int| 0 <= j < la implies s[j] == da[j] by {}
    assert(s[la] == ' ');
    assert(s[la + 1] == c);
    assert(s[la + 2] == ' ');
    assert forall|j: int| 0 <= j < db.len() implies s[m + j] == db[j] by {}
    // the first literal
    assert(s.subrange(0, la) =~= da);
    lemma_scan_literal(s, 0, a);
    // trivia after it stops on the operator
    assert(trivia_end(s, la) == trivia_end(s, la + 1));
    assert(trivia_end(s, la + 1) == TriviaResult::At(la + 1));
    // the second literal
    assert(s.subrange(m, m + db.len() as int) =~= db);
    lemma_scan_literal(s, m, b);
    // scanning from the space before it lands on the same literal
    assert(trivia_end(s, la + 2) == trivia_end(s, m));
    // the end
    lemma_scan_eof(s, s.len() as int);
}

/// The parse of `LIT op LIT` for a binary operator token: one binary node
/// over the two literals.
#[verifier::rlimit(100)]
proof fn lemma_parse_binop(s: Seq<char>, la: int, m: int, optv: TokenView, a: int, b: int)
    requires
        0 < la < m <= s.len(),
        scan_token(s, 0) == ScanResult::Tok(
            TokenView { kind: TokenKind::Integer, value: TokenValueView::Int(a) },
            la,
        ),
        scan_token(s, la) == ScanResult::Tok(optv, m),
        optv.kind == TokenKind::Plus || optv.kind == TokenKind::Minus || optv.kind
            == TokenKind::Multiply || optv.kind == TokenKind::FloatDivide || optv.kind
            == TokenKind::IntegerDivide,
        scan_token(s, m) == ScanResult::Tok(
            TokenView { kind: TokenKind::Integer, value: TokenValueView::Int(b) },
            s.len() as int,
        ),
        scan_token(s, s.len() as int) == ScanResult::Tok(eof_token_view(), s.len() as int),
        m < s.len(),
    ensures
        spec_parse(s, 0) == PNode::Parsed(
            AstView::BinaryOp(
                Box::new(AstView::Num(AstTypeView::Integer(a))),
                Box::new(AstView::Num(AstTypeView::Integer(b))),
                optv,
            ),
            s.len() as int,
        ),
{
    let len = s.len() as int;
    let na = AstView::Num(AstTypeView::Integer(a));
    let nb = AstView::Num(AstTypeView::Integer(b));
    let node = AstView::BinaryOp(Box::new(na), Box::new(nb), optv);
    assert(crate::parser::p_factor(s, 0) == PNode::Parsed(na, la));
    assert(crate::parser::p_factor(s, m) == PNode::Parsed(nb, len));
    if optv.kind == TokenKind::Multiply || optv.kind == TokenKind::FloatDivide || optv.kind
        == TokenKind::IntegerDivide {
        assert(crate::parser::p_term_rest(s, len, node) == PNode::Parsed(node, len));
        assert(crate::parser::p_term_rest(s, la, na) == PNode::Parsed(node, len));
        assert(crate::parser::p_term(s, 0) == PNode::Parsed(node, len));
        assert(crate::parser::p_expr_rest(s, len, node) == PNode::Parsed(node, len));
        assert(crate::parser::p_expr(s, 0) == PNode::Parsed(node, len));
    } else {
        assert(crate::parser::p_term_rest(s, la, na) == PNode::Parsed(na, la));
        assert(crate::parser::p_term(s, 0) == PNode::Parsed(na, la));
        assert(crate::parser::p_term_rest(s, len, nb) == PNode::Parsed(nb, len));
        assert(crate::parser::p_term(s, m) == PNode::Parsed(nb, len));
        assert(crate::parser::p_expr_rest(s, len, node) == PNode::Parsed(node, len));
        assert(crate::parser::p_expr_rest(s, la, na) == PNode::Parsed(node, len));
        assert(crate::parser::p_expr(s, 0) == PNode::Parsed(node, len));
    }
    assert(crate::parser::p_eat_eof(s, len, node) == PNode::Parsed(node, len));
    assert(crate::parser::p_program(s, 0) == PNode::Parsed(node, len));
}

/// The combined statement: the text `"a c b"` parses to one binary node
/// whose evaluation in the empty environment applies the operator to the
/// literal values.
#[verifier::rlimit(100)]
proof fn lemma_literal_binop(a: int, b: int, c: char, kind: TokenKind) -> (o: EvalOutcome)
    requires
        0 <= a <= i32::MAX as int,
        0 <= b <= i32::MAX as int,
        (c == '+' && kind == TokenKind::Plus) || (c == '-' && kind == TokenKind::Minus) || (c == '*'
            && kind == TokenKind::Multiply) || (c == '/' && kind == TokenKind::FloatDivide),
    ensures
        ({
            let s = dec_str(a) + seq![' ', c, ' '] + dec_str(b);
            match spec_parse(s, 0) {
                PNode::Parsed(ast, _) => o == eval_node(ast, Map::empty()) && (match ast {
                    AstView::BinaryOp(l, r, t) => t.kind == kind && *l == AstView::Num(
                        AstTypeView::Integer(a),
                    ) && *r == AstView::Num(AstTypeView::Integer(b)),
                    _ => false,
                }),
                PNode::NoParse => false,
            }
        }),
{
    let s = dec_str(a) + seq![' ', c, ' '] + dec_str(b);
    let la = dec_str(a).len() as int;
    lemma_two_literal_tokens(a, b, c, s);
    let optv = match scan_token(s, la) {
        ScanResult::Tok(t, _) => t,
        ScanResult::Fail(_) => eof_token_view(),
    };
    assert(scan_token(s, la) == ScanResult::Tok(optv, la + 2));
    assert(optv.kind == kind);
    lemma_parse_binop(s, la, la + 2, optv, a, b);
    let ast = match spec_parse(s, 0) {
        PNode::Parsed(n, _) => n,
        PNode::NoParse => AstView::NoOp,
    };
    eval_node(ast, Map::empty())
}

/// Evaluating a binary node over two integer literals applies the
/// operator of its token to their values, leaving the environment alone.
proof fn lemma_eval_binop_ints(t: TokenView, a: int, b: int, env: Map<Seq<char>, ValueView>)
    ensures
        eval_node(
            AstView::BinaryOp(
                Box::new(AstView::Num(AstTypeView::Integer(a))),
                Box::new(AstView::Num(AstTypeView::Integer(b))),
                t,
            ),
            env,
        ) == (EvalOutcome {
            r: (if t.kind == TokenKind::Plus {
                crate::interpreter::kind::val_add(ValueView::Int(a), ValueView::Int(b))
            } else if t.kind == TokenKind::Minus {
                crate::interpreter::kind::val_sub(ValueView::Int(a), ValueView::Int(b))
            } else if t.kind == TokenKind::Multiply {
                crate::interpreter::kind::val_mul(ValueView::Int(a), ValueView::Int(b))
            } else if t.kind == TokenKind::FloatDivide {
                crate::interpreter::kind::val_div(ValueView::Int(a), ValueView::Int(b))
            } else if t.kind == TokenKind::IntegerDivide {
                crate::interpreter::kind::val_integer_div(ValueView::Int(a), ValueView::Int(b))
            } else {
                Err(EvalFault::BadToken)
            }),
            env,
        }),
{
    let na = AstView::Num(AstTypeView::Integer(a));
    let nb = AstView::Num(AstTypeView::Integer(b));
    assert(eval_node(na, env) == (EvalOutcome { r: Ok(ValueView::Int(a)), env }));
    assert(eval_node(nb, env) == (EvalOutcome { r: Ok(ValueView::Int(b)), env }));
}

// ---------------------------------------------------------------------
// The laws themselves.
// ---------------------------------------------------------------------

/// Adding two integer literals is exact: for any literals `a` and `b`
/// whose sum is representable, the text `a + b` parses and evaluates to
/// exactly their sum.
#[verifier::rlimit(100)]
pub proof fn law_literal_addition(a: int, b: int)
    requires
        0 <= a <= i32::MAX as int,
        0 <= b <= i32::MAX as int,
        a + b <= i32::MAX as int,
    ensures
        ({
            let s = dec_str(a) + seq![' ', '+', ' '] + dec_str(b);
            match spec_parse(s, 0) {
                PNode::Parsed(ast, _) => eval_node(ast, Map::empty()).r == Ok::<
                    ValueView,
                    EvalFault,
                >(ValueView::Int(a + b)),
                PNode::NoParse => false,
            }
        }),
{
    let o = lemma_literal_binop(a, b, '+', TokenKind::Plus);
    let s2 = dec_str(a) + seq![' ', '+', ' '] + dec_str(b);
    match spec_parse(s2, 0) {
        PNode::Parsed(ast, _) => {
            match ast {
                AstView::BinaryOp(l, r, t) => {
                    lemma_eval_binop_ints(t, a, b, Map::empty());
                },
                _ => {},
            }
        },
        PNode::NoParse => {},
    }
}

/// Subtracting two integer literals is exact.
#[verifier::rlimit(100)]
pub proof fn law_literal_subtraction(a: int, b: int)
    requires
        0 <= a <= i32::MAX as int,
        0 <= b <= i32::MAX as int,
    ensures
        ({
            let s = dec_str(a) + seq![' ', '-', ' '] + dec_str(b);
            match spec_parse(s, 0) {
                PNode::Parsed(ast, _) => eval_node(ast, Map::empty()).r == Ok::<
                    ValueView,
                    EvalFault,
                >(ValueView::Int(a - b)),
                PNode::NoParse => false,
            }
        }),
{
    let o = lemma_literal_binop(a, b, '-', TokenKind::Minus);
    let s2 = dec_str(a) + seq![' ', '-', ' '] + dec_str(b);
    match spec_parse(s2, 0) {
        PNode::Parsed(ast, _) => {
            match ast {
                AstView::BinaryOp(l, r, t) => {
                    lemma_eval_binop_ints(t, a, b, Map::empty());
                },
                _ => {},
            }
        },
        PNode::NoParse => {},
    }
}

/// Multiplying two integer literals is exact when the product is
/// representable.
#[verifier::rlimit(100)]
pub proof fn law_literal_multiplication(a: int, b: int)
    requires
        0 <= a <= i32::MAX as int,
        0 <= b <= i32::MAX as int,
        a * b <= i32::MAX as int,
    ensures
        ({
            let s = dec_str(a) + seq![' ', '*', ' '] + dec_str(b);
            match spec_parse(s, 0) {
                PNode::Parsed(ast, _) => eval_node(ast, Map::empty()).r == Ok::<
                    ValueView,
                    EvalFault,
                >(ValueView::Int(a * b)),
                PNode::NoParse => false,
            }
        }),
{
    let o = lemma_literal_binop(a, b, '*', TokenKind::Multiply);
    let s2 = dec_str(a) + seq![' ', '*', ' '] + dec_str(b);
    match spec_parse(s2, 0) {
        PNode::Parsed(ast, _) => {
            match ast {
                AstView::BinaryOp(l, r, t) => {
                    lemma_eval_binop_ints(t, a, b, Map::empty());
                },
                _ => {},
            }
        },
        PNode::NoParse => {},
    }
    assert(a * b >= 0) by (nonlinear_arith)
        requires
            a >= 0,
            b >= 0,
    ;
}

/// Dividing two integer literals with `/` yields exactly the rational
/// `a / b`, in canonical form, whenever `b` is not zero.
#[verifier::rlimit(100)]
pub proof fn law_literal_division(a: int, b: int)
    requires
        0 <= a <= i32::MAX as int,
        0 < b <= i32::MAX as int,
    ensures
        ({
            let s = dec_str(a) + seq![' ', '/', ' '] + dec_str(b);
            match spec_parse(s, 0) {
                PNode::Parsed(ast, _) => eval_node(ast, Map::empty()).r == Ok::<
                    ValueView,
                    EvalFault,
                >(ValueView::Real(norm_rat(a, b))),
                PNode::NoParse => false,
            }
        }),
{
    let o = lemma_literal_binop(a, b, '/', TokenKind::FloatDivide);
    let s2 = dec_str(a) + seq![' ', '/', ' '] + dec_str(b);
    match spec_parse(s2, 0) {
        PNode::Parsed(ast, _) => {
            match ast {
                AstView::BinaryOp(l, r, t) => {
                    lemma_eval_binop_ints(t, a, b, Map::empty());
                },
                _ => {},
            }
        },
        PNode::NoParse => {},
    }
    lemma_norm_fits(a, b);
    assert(a * 1 == a && 1 * b == b) by (nonlinear_arith);
    assert(crate::rational::rat_div_raw(RatView { n: a, d: 1 }, RatView { n: b, d: 1 })
        == norm_rat(a, b));
}

/// What the pieces of the text `"a DIV b"` scan to.
#[verifier::rlimit(100)]
proof fn lemma_div_literal_tokens(a: int, b: int, s: Seq<char>)
    requires
        0 <= a <= i32::MAX as int,
        0 <= b <= i32::MAX as int,
        s == dec_str(a) + seq![' ', 'D', 'I', 'V', ' '] + dec_str(b),
    ensures
        ({
            let la = dec_str(a).len() as int;
            let w = s.subrange(la + 1, la + 4);
            &&& scan_token(s, 0) == ScanResult::Tok(
                TokenView { kind: TokenKind::Integer, value: TokenValueView::Int(a) },
                la,
            )
            &&& scan_token(s, la) == ScanResult::Tok(
                TokenView { kind: TokenKind::IntegerDivide, value: TokenValueView::Str(w) },
                la + 4,
            )
            &&& scan_token(s, la + 4) == ScanResult::Tok(
                TokenView { kind: TokenKind::Integer, value: TokenValueView::Int(b) },
                s.len() as int,
            )
            &&& scan_token(s, s.len() as int) == ScanResult::Tok(
                eof_token_view(),
                s.len() as int,
            )
            &&& 0 < la
            &&& la + 4 < s.len()
        }),
{
    let da = dec_str(a);
    let db = dec_str(b);
    let la = da.len() as int;
    let m = la + 5;
    let len = s.len() as int;
    lemma_dec_str_digits(a);
    lemma_dec_str_digits(b);
    assert forall|j: int| 0 <= j < la implies s[j] == da[j] by {}
    assert forall|j: int| 0 <= j < db.len() implies s[m + j] == db[j] by {}
    assert(s.subrange(0, la) =~= da);
    lemma_scan_literal(s, 0, a);
    // the keyword DIV after one space
    assert(s[la] == ' ');
    assert(s[la + 1] == 'D');
    assert(s[la + 2] == 'I');
    assert(s[la + 3] == 'V');
    assert(s[la + 4] == ' ');
    assert(trivia_end(s, la) == trivia_end(s, la + 1));
    assert(trivia_end(s, la + 1) == TriviaResult::At(la + 1));
    assert(is_alpha_char(s[la + 1]));
    assert(crate::lexer::ident_end(s, la + 4) == la + 4);
    assert(crate::lexer::ident_end(s, la + 3) == la + 4);
    assert(crate::lexer::ident_end(s, la + 2) == la + 4);
    assert(crate::lexer::ident_end(s, la + 1) == la + 4);
    let w = s.subrange(la + 1, la + 4);
    reveal_strlit("DIV");
    assert("DIV"@.len() == 3);
    assert("DIV"@[0] == 'D' && "DIV"@[1] == 'I' && "DIV"@[2] == 'V');
    assert(w.len() == 3);
    assert(w[0] == 'D' && w[1] == 'I' && w[2] == 'V');
    assert(w =~= "DIV"@);
    reveal_strlit("BEGIN");
    reveal_strlit("END");
    reveal_strlit("PROGRAM");
    reveal_strlit("VAR");
    reveal_strlit("REAL");
    reveal_strlit("INTEGER");
    assert(w != "BEGIN"@ && w != "PROGRAM"@ && w != "REAL"@ && w != "INTEGER"@) by {
        assert("BEGIN"@.len() == 5 && "PROGRAM"@.len() == 7 && "REAL"@.len() == 4 && "INTEGER"@.len() == 7);
    }
    assert(w != "END"@ && w != "VAR"@) by {
        assert("END"@[0] == 'E' && "VAR"@[0] == 'V');
    }
    assert(crate::token::keyword_kind(w) == TokenKind::IntegerDivide);
    // the second literal, reached from the space after the keyword
    assert(s.subrange(m, m + db.len() as int) =~= db) by {
        assert forall|j: int| 0 <= j < db.len() implies s.subrange(m, m + db.len() as int)[j]
            == db[j] by {}
    }
    lemma_scan_literal(s, m, b);
    assert(trivia_end(s, la + 4) == trivia_end(s, m));
    lemma_scan_eof(s, len);
}

/// `DIV` on two integer literals yields their quotient truncated toward
/// zero, whenever `b` is not zero.
#[verifier::rlimit(100)]
pub proof fn law_literal_integer_division(a: int, b: int)
    requires
        0 <= a <= i32::MAX as int,
        0 < b <= i32::MAX as int,
    ensures
        ({
            let s = dec_str(a) + seq![' ', 'D', 'I', 'V', ' '] + dec_str(b);
            match spec_parse(s, 0) {
                PNode::Parsed(ast, _) => eval_node(ast, Map::empty()).r == Ok::<
                    ValueView,
                    EvalFault,
                >(ValueView::Int(tdiv(a, b))),
                PNode::NoParse => false,
            }
        }),
{
    let s = dec_str(a) + seq![' ', 'D', 'I', 'V', ' '] + dec_str(b);
    let la = dec_str(a).len() as int;
    let len = s.len() as int;
    lemma_div_literal_tokens(a, b, s);
    let w = s.subrange(la + 1, la + 4);
    let optv = TokenView { kind: TokenKind::IntegerDivide, value: TokenValueView::Str(w) };
    lemma_parse_binop_div(s, la, optv, a, b);
    lemma_eval_binop_ints(optv, a, b, Map::empty());
    // evaluation: truncating division of nonnegative operands is in range
    lemma_fundamental_div_mod(a, b);
    assert(tdiv(a, b) == a / b);
    assert(0 <= a / b <= a) by (nonlinear_arith)
        requires
            a == b * (a / b) + a % b,
            0 <= a % b < b,
            b >= 1,
            a >= 0,
    ;
}

/// As `lemma_parse_binop`, for the two-token spelling where the operator
/// scan starts at the space before the keyword.
#[verifier::rlimit(100)]
proof fn lemma_parse_binop_div(s: Seq<char>, la: int, optv: TokenView, a: int, b: int)
    requires
        0 < la,
        la + 4 < s.len(),
        scan_token(s, 0) == ScanResult::Tok(
            TokenView { kind: TokenKind::Integer, value: TokenValueView::Int(a) },
            la,
        ),
        scan_token(s, la) == ScanResult::Tok(optv, la + 4),
        optv.kind == TokenKind::IntegerDivide,
        scan_token(s, la + 4) == ScanResult::Tok(
            TokenView { kind: TokenKind::Integer, value: TokenValueView::Int(b) },
            s.len() as int,
        ),
        scan_token(s, s.len() as int) == ScanResult::Tok(eof_token_view(), s.len() as int),
    ensures
        spec_parse(s, 0) == PNode::Parsed(
            AstView::BinaryOp(
                Box::new(AstView::Num(AstTypeView::Integer(a))),
                Box::new(AstView::Num(AstTypeView::Integer(b))),
                optv,
            ),
            s.len() as int,
        ),
{
    lemma_parse_binop(s, la, la + 4, optv, a, b);
}

/// Assigning to a variable binds exactly the value of the right-hand
/// side, which is also the result of the assignment; when the right-hand
/// side faults, the environment is left as that evaluation left it.
pub proof fn law_assignment_binds(
    nm: Seq<char>,
    tv: TokenView,
    rhs: AstView,
    t: TokenView,
    env: Map<Seq<char>, ValueView>,
)
    requires
        tv.value == TokenValueView::Str(nm),
    ensures
        ({
            let o = eval_node(AstView::Assign(Box::new(AstView::Var(tv)), Box::new(rhs), t), env);
            let inner = eval_node(rhs, env);
            match inner.r {
                Ok(v) => o.r == Ok::<ValueView, EvalFault>(v) && o.env == inner.env.insert(nm, v)
                    && o.env.contains_key(nm) && o.env[nm] == v,
                Err(_) => o == inner,
            }
        }),
{
}

/// Referencing a variable that the environment does not hold faults with
/// a name error and leaves the environment unchanged.
pub proof fn law_undeclared_variable(name: Seq<char>, t: TokenView, env: Map<Seq<char>, ValueView>)
    requires
        t.value == TokenValueView::Str(name),
        !env.contains_key(name),
    ensures
        eval_node(AstView::Var(t), env) == (EvalOutcome {
            r: Err::<ValueView, EvalFault>(EvalFault::NotFound),
            env,
        }),
{
}

/// Once the end of the input is reached, every further scan yields the
/// EOF token at the same position: the lexer is idempotent at the end of
/// its stream.
pub proof fn law_eof_idempotent(s: Seq<char>, i: int)
    requires
        0 <= i <= s.len(),
        at_end(s, i),
    ensures
        scan_token(s, i) == ScanResult::Tok(eof_token_view(), i),
{
    lemma_scan_eof(s, i);
}

} // verus!
