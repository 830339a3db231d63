//! The evaluator: walks the abstract syntax tree once, maintains the
//! variable environment, and computes a numeric result.  Evaluation is
//! specified by a pure function over tree views and an environment map,
//! and every method is proved to follow it.

pub mod kind;

use vstd::prelude::*;

verus! {

use crate::ast::{AstNode, AstType, AstTypeView, AstView, ast_view_wf, lemma_view_nodes,
    view_nodes};
use crate::interpreter::kind::{EvalFault, InterpreterType, ValueView, fault_message, val_add,
    val_div, val_integer_div, val_mul, val_neg, val_sub, value_wf};
use crate::parser::{PNode, Parser, spec_parse};
use crate::rational::{RatView, Rational};
use crate::token::{Token, TokenKind, TokenValue, TokenValueView, str_eq};
use vstd::string::StringExecFns;

/// A failed evaluation, with its one-line diagnostic.
#[derive(Debug)]
pub struct InterpreterError {
    pub message: String,
}

/// What evaluating a node yields: a value or a fault, and the environment
/// as it stands afterwards (assignments made before a fault remain).
pub struct EvalOutcome {
    pub r: Result<ValueView, EvalFault>,
    pub env: Map<Seq<char>, ValueView>,
}

/// The result of a statement: a fixed sentinel, not user-visible.
pub open spec fn sentinel() -> ValueView {
    ValueView::Real(RatView { n: 0, d: 1 })
}

/// The number of nodes of a tree; the measure of the evaluator's
/// recursion.
pub open spec fn size(n: AstView) -> int
    decreases n,
{
    match n {
        AstView::BinaryOp(l, r, _) => 1 + size(*l) + size(*r),
        AstView::Num(_) => 1,
        AstView::UnaryOp(o, _) => 1 + size(*o),
        AstView::Var(_) => 1,
        AstView::Assign(l, r, _) => 1 + size(*l) + size(*r),
        AstView::Compound(ss) => 1 + size_seq(ss),
        AstView::NoOp => 1,
        AstView::Program(_, b) => 1 + size(*b),
        AstView::Block(ds, b) => 1 + size_seq(ds) + size(*b),
        AstView::VarDecl(a, b) => 1 + size(*a) + size(*b),
        AstView::Type(_) => 1,
    }
}

pub open spec fn size_seq(ss: Seq<AstView>) -> int
    decreases ss, ss.len(),
{
    if ss.len() == 0 {
        0
    } else {
        size(ss[0]) + size_seq(ss.drop_first())
    }
}

pub proof fn lemma_size_pos(n: AstView)
    ensures
        size(n) >= 1,
    decreases n, 1int,
{
    match n {
        AstView::BinaryOp(l, r, _) => {
            lemma_size_pos(*l);
            lemma_size_pos(*r);
        },
        AstView::UnaryOp(o, _) => {
            lemma_size_pos(*o);
        },
        AstView::Assign(l, r, _) => {
            lemma_size_pos(*l);
            lemma_size_pos(*r);
        },
        AstView::Compound(ss) => {
            lemma_size_seq_nonneg(ss);
        },
        AstView::Program(_, b) => {
            lemma_size_pos(*b);
        },
        AstView::Block(ds, b) => {
            lemma_size_seq_nonneg(ds);
            lemma_size_pos(*b);
        },
        AstView::VarDecl(a, b) => {
            lemma_size_pos(*a);
            lemma_size_pos(*b);
        },
        _ => {},
    }
}

pub proof fn lemma_size_seq_nonneg(ss: Seq<AstView>)
    ensures
        size_seq(ss) >= 0,
    decreases ss, 0int,
{
    if ss.len() > 0 {
        lemma_size_pos(ss[0]);
        lemma_size_seq_nonneg(ss.drop_first());
    }
}

pub proof fn lemma_size_seq_elem(ss: Seq<AstView>, i: int)
    requires
        0 <= i < ss.len(),
    ensures
        size(ss[i]) <= size_seq(ss),
    decreases ss.len(),
{
    if i == 0 {
        lemma_size_seq_nonneg(ss.drop_first());
    } else {
        lemma_size_seq_elem(ss.drop_first(), i - 1);
        lemma_size_pos(ss[0]);
        assert(ss.drop_first()[i - 1] == ss[i]);
    }
}

/// Splitting off a prefix of a statement list splits its size.
pub proof fn lemma_size_seq_drop(ss: Seq<AstView>, k: int)
    requires
        0 <= k < ss.len(),
    ensures
        size_seq(ss.subrange(k, ss.len() as int)) == size(ss[k]) + size_seq(
            ss.subrange(k + 1, ss.len() as int),
        ),
{
    let tail = ss.subrange(k, ss.len() as int);
    assert(tail[0] == ss[k]);
    assert(tail.drop_first() =~= ss.subrange(k + 1, ss.len() as int));
}

// ---------------------------------------------------------------------
// The evaluation function.
// ---------------------------------------------------------------------

/// Evaluates one node: depth-first, children before parents, threading the
/// environment left to right.
pub open spec fn eval_node(n: AstView, env: Map<Seq<char>, ValueView>) -> EvalOutcome
    decreases n, 0int,
{
    match n {
        AstView::Program(_, b) => eval_node(*b, env),
        AstView::Block(ds, b) => {
            let o = eval_seq(ds, env);
            match o.r {
                Ok(_) => eval_node(*b, o.env),
                Err(_) => o,
            }
        },
        AstView::Compound(ss) => {
            let o = eval_seq(ss, env);
            match o.r {
                Ok(_) => EvalOutcome { r: Ok(sentinel()), env: o.env },
                Err(_) => o,
            }
        },
        AstView::Assign(l, r, _) => match *l {
            AstView::Var(tv) => match tv.value {
                TokenValueView::Str(nm) => {
                    let o = eval_node(*r, env);
                    match o.r {
                        Ok(v) => EvalOutcome { r: Ok(v), env: o.env.insert(nm, v) },
                        Err(_) => o,
                    }
                },
                _ => EvalOutcome { r: Err(EvalFault::BadToken), env },
            },
            _ => EvalOutcome { r: Err(EvalFault::BadToken), env },
        },
        AstView::BinaryOp(l, r, t) => {
            let lo = eval_node(*l, env);
            match lo.r {
                Err(_) => lo,
                Ok(lv) => {
                    let ro = eval_node(*r, lo.env);
                    match ro.r {
                        Err(_) => ro,
                        Ok(rv) => {
                            let res = if t.kind == TokenKind::Plus {
                                val_add(lv, rv)
                            } else if t.kind == TokenKind::Minus {
                                val_sub(lv, rv)
                            } else if t.kind == TokenKind::Multiply {
                                val_mul(lv, rv)
                            } else if t.kind == TokenKind::FloatDivide {
                                val_div(lv, rv)
                            } else if t.kind == TokenKind::IntegerDivide {
                                val_integer_div(lv, rv)
                            } else {
                                Err(EvalFault::BadToken)
                            };
                            EvalOutcome { r: res, env: ro.env }
                        },
                    }
                },
            }
        },
        AstView::UnaryOp(o, t) => {
            let oo = eval_node(*o, env);
            match oo.r {
                Err(_) => oo,
                Ok(v) => {
                    if t.kind == TokenKind::Plus {
                        oo
                    } else if t.kind == TokenKind::Minus {
                        EvalOutcome { r: val_neg(v), env: oo.env }
                    } else {
                        EvalOutcome { r: Err(EvalFault::BadToken), env: oo.env }
                    }
                },
            }
        },
        AstView::Num(nv) => EvalOutcome {
            r: Ok(
                match nv {
                    AstTypeView::Integer(i) => ValueView::Int(i),
                    AstTypeView::Real(rr) => ValueView::Real(rr),
                },
            ),
            env,
        },
        AstView::Var(tv) => match tv.value {
            TokenValueView::Str(nm) => if env.contains_key(nm) {
                EvalOutcome { r: Ok(env[nm]), env }
            } else {
                EvalOutcome { r: Err(EvalFault::NotFound), env }
            },
            _ => EvalOutcome { r: Err(EvalFault::BadToken), env },
        },
        _ => EvalOutcome { r: Ok(sentinel()), env },
    }
}

/// Evaluates a list of statements in order, for their effects; the result
/// is the sentinel unless one of them faults.
pub open spec fn eval_seq(ss: Seq<AstView>, env: Map<Seq<char>, ValueView>) -> EvalOutcome
    decreases ss, ss.len(), 1int,
{
    if ss.len() == 0 {
        EvalOutcome { r: Ok(sentinel()), env }
    } else {
        let o = eval_node(ss[0], env);
        match o.r {
            Err(_) => o,
            Ok(_) => eval_seq(ss.drop_first(), o.env),
        }
    }
}

// ---------------------------------------------------------------------
// The environment: an association list whose later entries shadow
// earlier ones; its view is the map they fold to.
// ---------------------------------------------------------------------

pub open spec fn scope_map(s: Seq<(String, InterpreterType)>) -> Map<Seq<char>, ValueView>
    decreases s.len(),
{
    if s.len() == 0 {
        Map::empty()
    } else {
        scope_map(s.drop_last()).insert(s.last().0@, s.last().1@)
    }
}

/// Every stored value is well-formed.
pub open spec fn scope_vals_wf(s: Seq<(String, InterpreterType)>) -> bool {
    forall|i: int| 0 <= i < s.len() ==> (#[trigger] s[i]).1.wf()
}

/// Entries at or beyond `i` that do not bind `k` leave its lookup to the
/// prefix before `i`.
proof fn lemma_scope_skip(s: Seq<(String, InterpreterType)>, i: int, k: Seq<char>)
    requires
        0 <= i <= s.len(),
        forall|j: int| i <= j < s.len() ==> (#[trigger] s[j]).0@ != k,
    ensures
        scope_map(s).contains_key(k) == scope_map(s.subrange(0, i)).contains_key(k),
        scope_map(s).contains_key(k) ==> scope_map(s)[k] == scope_map(s.subrange(0, i))[k],
    decreases s.len() - i,
{
    if i == s.len() {
        assert(s.subrange(0, i) =~= s);
    } else {
        let s2 = s.drop_last();
        assert(s.last() == s[s.len() - 1]);
        lemma_scope_skip(s2, i, k);
        assert(s2.subrange(0, i) =~= s.subrange(0, i));
    }
}

fn scope_insert(
    scope: &mut Vec<(String, InterpreterType)>,
    name: String,
    value: InterpreterType,
)
    requires
        scope_vals_wf(old(scope)@),
        value.wf(),
    ensures
        scope_vals_wf(final(scope)@),
        scope_map(final(scope)@) == scope_map(old(scope)@).insert(name@, value@),
{
    let ghost old_s = scope@;
    let ghost namev = name@;
    let ghost valv = value@;
    scope.push((name, value));
    proof {
        assert(scope@.drop_last() =~= old_s);
        assert(scope@.last() == (scope@[old_s.len() as int]));
        assert(scope_map(scope@) == scope_map(old_s).insert(namev, valv));
        assert forall|i: int| 0 <= i < scope@.len() implies (#[trigger] scope@[i]).1.wf() by {
            if i < old_s.len() {
                assert(scope@[i] == old_s[i]);
            }
        }
    }
}

#[verifier::loop_isolation(false)]
fn scope_get(scope: &Vec<(String, InterpreterType)>, name: &str) -> (r: Option<InterpreterType>)
    requires
        scope_vals_wf(scope@),
    ensures
        match r {
            Some(v) => v.wf() && scope_map(scope@).contains_key(name@) && scope_map(scope@)[name@]
                == v@,
            None => !scope_map(scope@).contains_key(name@),
        },
{
    let ghost s = scope@;
    let ghost k = name@;
    let mut i: usize = scope.len();
    while i > 0
        invariant
            0 <= i <= s.len(),
            s == scope@,
            k == name@,
            forall|j: int| i <= j < s.len() ==> (#[trigger] s[j]).0@ != k,
        decreases i,
    {
        i = i - 1;
        let hit = str_eq(scope[i].0.as_str(), name);
        if hit {
            proof {
                lemma_scope_skip(s, i as int + 1, k);
                let pre = s.subrange(0, i as int + 1);
                assert(pre.last() == s[i as int]);
                assert(pre.drop_last() =~= s.subrange(0, i as int));
                assert(scope_map(pre) == scope_map(s.subrange(0, i as int)).insert(
                    s[i as int].0@,
                    s[i as int].1@,
                ));
            }
            return Some(scope[i].1);
        }
    }
    proof {
        lemma_scope_skip(s, 0, k);
        assert(s.subrange(0, 0) =~= Seq::<(String, InterpreterType)>::empty());
    }
    None
}

/// The diagnostic carried by each evaluation fault.
fn fault_to_error(k: EvalFault) -> (r: InterpreterError)
    ensures
        r.message@ == fault_message(k),
{
    match k {
        EvalFault::BadToken => InterpreterError { message: String::from_str("Invalid token") },
        EvalFault::NotFound => InterpreterError {
            message: String::from_str("Variable not found"),
        },
        EvalFault::DivZero => InterpreterError { message: String::from_str("Division by zero") },
        EvalFault::Overflow => InterpreterError {
            message: String::from_str("Arithmetic overflow"),
        },
    }
}

// ---------------------------------------------------------------------
// The interpreter.
// ---------------------------------------------------------------------

/// The evaluator: owns the parser and the variable environment, which
/// persists across calls within one session.
pub struct Interpreter {
    parser: Parser,
    global_scope: Vec<(String, InterpreterType)>,
}

impl Interpreter {
    /// The environment, as a map from names to values.
    pub closed spec fn env_view(&self) -> Map<Seq<char>, ValueView> {
        scope_map(self.global_scope@)
    }

    pub closed spec fn text_view(&self) -> Seq<char> {
        self.parser.text_view()
    }

    pub closed spec fn start_view(&self) -> int {
        self.parser.start_view()
    }

    pub closed spec fn wf(&self) -> bool {
        self.parser.wf() && scope_vals_wf(self.global_scope@)
    }

    pub fn new(parser: Parser) -> (r: Interpreter)
        requires
            parser.wf(),
        ensures
            r.wf(),
            r.env_view() == Map::<Seq<char>, ValueView>::empty(),
            r.text_view() == parser.text_view(),
            r.start_view() == parser.start_view(),
    {
        Interpreter { parser, global_scope: Vec::new() }
    }

    /// Reads one variable of the environment, for post-run inspection.
    pub fn get(&self, name: &str) -> (r: Option<InterpreterType>)
        requires
            self.wf(),
        ensures
            match r {
                Some(v) => v.wf() && self.env_view().contains_key(name@) && self.env_view()[name@]
                    == v@,
                None => !self.env_view().contains_key(name@),
            },
    {
        scope_get(&self.global_scope, name)
    }

    fn visit_num(&mut self, num: InterpreterType) -> (r: Result<InterpreterType, InterpreterError>)
        requires
            old(self).wf(),
        ensures
            *final(self) == *old(self),
            r == Ok::<InterpreterType, InterpreterError>(num),
    {
        Ok(num)
    }

    fn visit_var(&mut self, token: &Token) -> (r: Result<InterpreterType, InterpreterError>)
        requires
            old(self).wf(),
        ensures
            final(self).wf(),
            final(self).text_view() == old(self).text_view(),
            final(self).start_view() == old(self).start_view(),
            outcome_matches(
                eval_node(AstView::Var(token@), old(self).env_view()),
                r,
                final(self).env_view(),
            ),
    {
        match &token.value {
            TokenValue::Str(s2) => {
                match scope_get(&self.global_scope, s2.as_str()) {
                    Some(v) => Ok(v),
                    None => Err(fault_to_error(EvalFault::NotFound)),
                }
            },
            _ => Err(fault_to_error(EvalFault::BadToken)),
        }
    }

    fn visit_assignment(
        &mut self,
        left: &AstNode,
        right: &AstNode,
        _token: &Token,
    ) -> (r: Result<InterpreterType, InterpreterError>)
        requires
            old(self).wf(),
            ast_view_wf(right@),
        ensures
            final(self).wf(),
            final(self).text_view() == old(self).text_view(),
            final(self).start_view() == old(self).start_view(),
            outcome_matches(
                eval_node(
                    AstView::Assign(Box::new(left@), Box::new(right@), _token@),
                    old(self).env_view(),
                ),
                r,
                final(self).env_view(),
            ),
        decreases size(right@), 2int,
    {
        let name = match left {
            AstNode::Var(token) => match &token.value {
                TokenValue::Str(s2) => s2.clone(),
                _ => {
                    return Err(fault_to_error(EvalFault::BadToken));
                },
            },
            _ => {
                return Err(fault_to_error(EvalFault::BadToken));
            },
        };
        proof {
            lemma_size_pos(right@);
        }
        let value = match self.visit(right) {
            Ok(v) => v,
            Err(e) => {
                return Err(e);
            },
        };
        scope_insert(&mut self.global_scope, name, value);
        Ok(value)
    }

    fn visit_binary_op(
        &mut self,
        left: &AstNode,
        right: &AstNode,
        token: &Token,
    ) -> (r: Result<InterpreterType, InterpreterError>)
        requires
            old(self).wf(),
            ast_view_wf(left@),
            ast_view_wf(right@),
        ensures
            final(self).wf(),
            final(self).text_view() == old(self).text_view(),
            final(self).start_view() == old(self).start_view(),
            outcome_matches(
                eval_node(
                    AstView::BinaryOp(Box::new(left@), Box::new(right@), token@),
                    old(self).env_view(),
                ),
                r,
                final(self).env_view(),
            ),
        decreases size(left@) + size(right@), 2int,
    {
        proof {
            lemma_size_pos(left@);
            lemma_size_pos(right@);
        }
        let lv = match self.visit(left) {
            Ok(v) => v,
            Err(e) => {
                return Err(e);
            },
        };
        let rv = match self.visit(right) {
            Ok(v) => v,
            Err(e) => {
                return Err(e);
            },
        };
        let applied: Result<InterpreterType, EvalFault> = match token.kind {
            TokenKind::Plus => lv.add(rv),
            TokenKind::Minus => lv.sub(rv),
            TokenKind::Multiply => lv.mul(rv),
            TokenKind::FloatDivide => lv.div(rv),
            TokenKind::IntegerDivide => lv.integer_div(rv),
            _ => Err(EvalFault::BadToken),
        };
        match applied {
            Ok(v) => Ok(v),
            Err(k) => Err(fault_to_error(k)),
        }
    }

    fn visit_unary_op(&mut self, child: &AstNode, token: &Token) -> (r: Result<
        InterpreterType,
        InterpreterError,
    >)
        requires
            old(self).wf(),
            ast_view_wf(child@),
        ensures
            final(self).wf(),
            final(self).text_view() == old(self).text_view(),
            final(self).start_view() == old(self).start_view(),
            outcome_matches(
                eval_node(AstView::UnaryOp(Box::new(child@), token@), old(self).env_view()),
                r,
                final(self).env_view(),
            ),
        decreases size(child@), 2int,
    {
        proof {
            lemma_size_pos(child@);
        }
        let v = match self.visit(child) {
            Ok(v) => v,
            Err(e) => {
                return Err(e);
            },
        };
        match token.kind {
            TokenKind::Plus => Ok(v),
            TokenKind::Minus => match v.neg() {
                Ok(n) => Ok(n),
                Err(k) => Err(fault_to_error(k)),
            },
            _ => Err(fault_to_error(EvalFault::BadToken)),
        }
    }

    #[verifier::loop_isolation(false)]
    fn visit_compound(&mut self, nodes: &Vec<AstNode>) -> (r: Result<
        InterpreterType,
        InterpreterError,
    >)
        requires
            old(self).wf(),
            ast_view_wf(AstView::Compound(view_nodes(nodes@))),
        ensures
            final(self).wf(),
            final(self).text_view() == old(self).text_view(),
            final(self).start_view() == old(self).start_view(),
            outcome_matches(
                eval_node(AstView::Compound(view_nodes(nodes@)), old(self).env_view()),
                r,
                final(self).env_view(),
            ),
        decreases size_seq(view_nodes(nodes@)), 2int,
    {
        let ghost ds = view_nodes(nodes@);
        let ghost env0 = self.env_view();
        proof {
            lemma_view_nodes(nodes@);
            lemma_size_seq_nonneg(ds);
        }
        proof {
            assert(ds.subrange(0, ds.len() as int) =~= ds);
        }
        let mut k: usize = 0;
        while k < nodes.len()
            invariant
                self.wf(),
                self.text_view() == old(self).text_view(),
                self.start_view() == old(self).start_view(),
                0 <= k <= nodes.len(),
                eval_seq(ds, env0) == eval_seq(
                    ds.subrange(k as int, ds.len() as int),
                    self.env_view(),
                ),
            decreases nodes.len() - k,
        {
            proof {
                lemma_size_seq_elem(ds, k as int);
                lemma_size_seq_drop(ds, k as int);
                lemma_size_seq_nonneg(ds.subrange(k as int + 1, ds.len() as int));
                lemma_size_pos(ds[k as int]);
                assert(nodes@[k as int]@ == ds[k as int]);
            }
            let res = self.visit(&nodes[k]);
            proof {
                let tail = ds.subrange(k as int, ds.len() as int);
                assert(tail[0] == ds[k as int]);
                assert(tail.drop_first() =~= ds.subrange(k as int + 1, ds.len() as int));
            }
            match res {
                Ok(_) => {},
                Err(e) => {
                    return Err(e);
                },
            }
            k = k + 1;
        }
        proof {
            assert(ds.subrange(k as int, ds.len() as int) =~= Seq::<AstView>::empty());
        }
        Ok(InterpreterType::Real(Rational::from_integer(0)))
    }

    fn visit_program(&mut self, _name: &String, block: &AstNode) -> (r: Result<
        InterpreterType,
        InterpreterError,
    >)
        requires
            old(self).wf(),
            ast_view_wf(block@),
        ensures
            final(self).wf(),
            final(self).text_view() == old(self).text_view(),
            final(self).start_view() == old(self).start_view(),
            outcome_matches(
                eval_node(AstView::Program(_name@, Box::new(block@)), old(self).env_view()),
                r,
                final(self).env_view(),
            ),
        decreases size(block@), 2int,
    {
        proof {
            lemma_size_pos(block@);
        }
        self.visit(block)
    }

    #[verifier::loop_isolation(false)]
    fn visit_block(&mut self, declarations: &Vec<AstNode>, compound_statement: &AstNode) -> (r:
        Result<InterpreterType, InterpreterError>)
        requires
            old(self).wf(),
            ast_view_wf(
                AstView::Block(view_nodes(declarations@), Box::new(compound_statement@)),
            ),
        ensures
            final(self).wf(),
            final(self).text_view() == old(self).text_view(),
            final(self).start_view() == old(self).start_view(),
            outcome_matches(
                eval_node(
                    AstView::Block(view_nodes(declarations@), Box::new(compound_statement@)),
                    old(self).env_view(),
                ),
                r,
                final(self).env_view(),
            ),
        decreases size_seq(view_nodes(declarations@)) + size(compound_statement@), 2int,
    {
        let ghost ds = view_nodes(declarations@);
        let ghost env0 = self.env_view();
        proof {
            lemma_view_nodes(declarations@);
            lemma_size_seq_nonneg(ds);
            lemma_size_pos(compound_statement@);
        }
        proof {
            assert(ds.subrange(0, ds.len() as int) =~= ds);
        }
        let mut k: usize = 0;
        while k < declarations.len()
            invariant
                self.wf(),
                self.text_view() == old(self).text_view(),
                self.start_view() == old(self).start_view(),
                0 <= k <= declarations.len(),
                eval_seq(ds, env0) == eval_seq(
                    ds.subrange(k as int, ds.len() as int),
                    self.env_view(),
                ),
            decreases declarations.len() - k,
        {
            proof {
                lemma_size_seq_elem(ds, k as int);
                lemma_size_seq_drop(ds, k as int);
                lemma_size_seq_nonneg(ds.subrange(k as int + 1, ds.len() as int));
                lemma_size_pos(ds[k as int]);
                assert(declarations@[k as int]@ == ds[k as int]);
            }
            let res = self.visit(&declarations[k]);
            proof {
                let tail = ds.subrange(k as int, ds.len() as int);
                assert(tail[0] == ds[k as int]);
                assert(tail.drop_first() =~= ds.subrange(k as int + 1, ds.len() as int));
            }
            match res {
                Ok(_) => {},
                Err(e) => {
                    return Err(e);
                },
            }
            k = k + 1;
        }
        proof {
            assert(ds.subrange(k as int, ds.len() as int) =~= Seq::<AstView>::empty());
        }
        self.visit(compound_statement)
    }

    /// Walks one node: dispatches on its variant, evaluating children
    /// before combining their results.
    pub fn visit(&mut self, node: &AstNode) -> (r: Result<InterpreterType, InterpreterError>)
        requires
            old(self).wf(),
            ast_view_wf(node@),
        ensures
            final(self).wf(),
            final(self).text_view() == old(self).text_view(),
            final(self).start_view() == old(self).start_view(),
            outcome_matches(
                eval_node(node@, old(self).env_view()),
                r,
                final(self).env_view(),
            ),
        decreases size(node@), 1int,
    {
        proof {
            lemma_size_pos(node@);
        }
        match node {
            AstNode::Program(name, block) => self.visit_program(name, &**block),
            AstNode::Block(declarations, compound_statement) => self.visit_block(
                declarations,
                &**compound_statement,
            ),
            AstNode::BinaryOp(left, right, token) => self.visit_binary_op(
                &**left,
                &**right,
                token,
            ),
            AstNode::Num(num) => {
                let value = match num {
                    AstType::Integer(v) => InterpreterType::Integer(*v),
                    AstType::Real(rr) => InterpreterType::Real(*rr),
                };
                self.visit_num(value)
            },
            AstNode::UnaryOp(child, token) => self.visit_unary_op(&**child, token),
            AstNode::Compound(nodes) => self.visit_compound(nodes),
            AstNode::Assign(left, right, token) => {
                proof {
                    lemma_size_pos((&**left)@);
                    lemma_size_pos((&**right)@);
                    assert(node@ == AstView::Assign(
                        Box::new((&**left)@),
                        Box::new((&**right)@),
                        token@,
                    ));
                    assert(size(node@) == 1 + size((&**left)@) + size((&**right)@));
                }
                self.visit_assignment(&**left, &**right, token)
            },
            AstNode::Var(token) => self.visit_var(token),
            _ => Ok(InterpreterType::Real(Rational::from_integer(0))),
        }
    }

    /// Parses the whole input and evaluates it once: a bare expression
    /// yields its value; a program yields the sentinel, its meaning being
    /// the final environment.
    pub fn interpret(&mut self) -> (r: Result<InterpreterType, String>)
        requires
            old(self).wf(),
        ensures
            final(self).wf(),
            final(self).text_view() == old(self).text_view(),
            match spec_parse(old(self).text_view(), old(self).start_view()) {
                PNode::NoParse => r is Err && final(self).env_view() == old(self).env_view(),
                PNode::Parsed(ast, _) => ({
                    let o = eval_node(ast, old(self).env_view());
                    final(self).env_view() == o.env && (match r {
                        Ok(v) => v.wf() && o.r == Ok::<ValueView, EvalFault>(v@),
                        Err(m) => (match o.r {
                            Ok(_) => false,
                            Err(k) => m@ == fault_message(k),
                        }),
                    })
                }),
            },
    {
        let tree = self.parser.parse();
        match tree {
            Ok(tree) => match self.visit(&tree) {
                Ok(value) => Ok(value),
                Err(e) => Err(e.message),
            },
            Err(e) => Err(e.message),
        }
    }
}

/// The executable result, the final environment, and the specified
/// outcome agree.
pub open spec fn outcome_matches(
    o: EvalOutcome,
    r: Result<InterpreterType, InterpreterError>,
    env: Map<Seq<char>, ValueView>,
) -> bool {
    env == o.env && (match r {
        Ok(v) => value_wf(v@) && o.r == Ok::<ValueView, EvalFault>(v@),
        Err(e) => (match o.r {
            Ok(_) => false,
            Err(k) => e.message@ == fault_message(k),
        }),
    })
}

} // verus!
