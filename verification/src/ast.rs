//! The abstract syntax tree that the parser builds and the evaluator
//! walks.  Each node owns its children outright; the tree is acyclic by
//! construction.

use vstd::prelude::*;

verus! {

use crate::rational::{RatView, Rational, rat_canon, rat_fits};
use crate::token::{Token, TokenView, token_wf};

/// A numeric literal: integer or real.
#[derive(Debug, Clone, Copy)]
pub enum AstType {
    Integer(i32),
    Real(Rational),
}

/// Mathematical view of a numeric literal.
pub enum AstTypeView {
    Integer(int),
    Real(RatView),
}

impl View for AstType {
    type V = AstTypeView;

    open spec fn view(&self) -> AstTypeView {
        match self {
            AstType::Integer(i) => AstTypeView::Integer(*i as int),
            AstType::Real(r) => AstTypeView::Real(r@),
        }
    }
}

/// A node of the tree.  Operator nodes carry the token they were built
/// from; `Var` carries the identifier token.
#[derive(Debug)]
pub enum AstNode {
    BinaryOp(Box<AstNode>, Box<AstNode>, Token),
    Num(AstType),
    UnaryOp(Box<AstNode>, Token),
    Var(Token),
    Assign(Box<AstNode>, Box<AstNode>, Token),
    Compound(Vec<AstNode>),
    NoOp,
    Program(String, Box<AstNode>),
    Block(Vec<AstNode>, Box<AstNode>),
    VarDecl(Box<AstNode>, Box<AstNode>),
    Type(Token),
}

/// Mathematical view of a tree.
pub enum AstView {
    BinaryOp(Box<AstView>, Box<AstView>, TokenView),
    Num(AstTypeView),
    UnaryOp(Box<AstView>, TokenView),
    Var(TokenView),
    Assign(Box<AstView>, Box<AstView>, TokenView),
    Compound(Seq<AstView>),
    NoOp,
    Program(Seq<char>, Box<AstView>),
    Block(Seq<AstView>, Box<AstView>),
    VarDecl(Box<AstView>, Box<AstView>),
    Type(TokenView),
}

/// The views of a list of nodes.
pub open spec fn view_nodes(s: Seq<AstNode>) -> Seq<AstView>
    decreases s, s.len(),
{
    if s.len() == 0 {
        Seq::empty()
    } else {
        view_nodes(s.drop_last()).push(s.last()@)
    }
}

/// `view_nodes` maps the view over the nodes, element by element.
pub broadcast proof fn lemma_view_nodes(s: Seq<AstNode>)
    ensures
        (#[trigger] view_nodes(s)).len() == s.len(),
        forall|i: int| 0 <= i < s.len() ==> #[trigger] view_nodes(s)[i] == s[i]@,
    decreases s.len(),
{
    if s.len() == 0 {
        assert(view_nodes(s) == Seq::<AstView>::empty());
        assert(view_nodes(s).len() == 0);
    } else {
        lemma_view_nodes(s.drop_last());
        assert(view_nodes(s) == view_nodes(s.drop_last()).push(s.last()@));
        assert(view_nodes(s).len() == s.len());
        assert forall|i: int| 0 <= i < s.len() implies #[trigger] view_nodes(s)[i] == s[i]@ by {
            assert(view_nodes(s) == view_nodes(s.drop_last()).push(s.last()@));
            assert(view_nodes(s.drop_last()).len() == s.len() - 1);
            if i < s.len() - 1 {
                assert(view_nodes(s)[i] == view_nodes(s.drop_last())[i]);
                assert(s.drop_last()[i] == s[i]);
            } else {
                assert(view_nodes(s)[i] == s.last()@);
                assert(s.last() == s[i]);
            }
        }
    }
}

impl View for AstNode {
    type V = AstView;

    open spec fn view(&self) -> AstView
        decreases self,
    {
        match self {
            AstNode::BinaryOp(l, r, t) => AstView::BinaryOp(
                Box::new((**l)@),
                Box::new((**r)@),
                t@,
            ),
            AstNode::Num(n) => AstView::Num(n@),
            AstNode::UnaryOp(o, t) => AstView::UnaryOp(Box::new((**o)@), t@),
            AstNode::Var(t) => AstView::Var(t@),
            AstNode::Assign(l, r, t) => AstView::Assign(Box::new((**l)@), Box::new((**r)@), t@),
            AstNode::Compound(v) => AstView::Compound(view_nodes(v@)),
            AstNode::NoOp => AstView::NoOp,
            AstNode::Program(name, b) => AstView::Program(name@, Box::new((**b)@)),
            AstNode::Block(d, b) => AstView::Block(view_nodes(d@), Box::new((**b)@)),
            AstNode::VarDecl(v, t) => AstView::VarDecl(Box::new((**v)@), Box::new((**t)@)),
            AstNode::Type(t) => AstView::Type(t@),
        }
    }
}

/// Every rational in the tree is well-formed and every integer literal is
/// in the 32-bit range.
pub open spec fn ast_view_wf(v: AstView) -> bool
    decreases v,
{
    match v {
        AstView::BinaryOp(l, r, _) => ast_view_wf(*l) && ast_view_wf(*r),
        AstView::Num(n) => match n {
            AstTypeView::Integer(i) => i32::MIN <= i <= i32::MAX,
            AstTypeView::Real(r) => rat_canon(r) && rat_fits(r),
        },
        AstView::UnaryOp(o, _) => ast_view_wf(*o),
        AstView::Var(_) => true,
        AstView::Assign(l, r, _) => ast_view_wf(*l) && ast_view_wf(*r),
        AstView::Compound(ss) => forall|i: int|
            0 <= i < ss.len() ==> ast_view_wf(#[trigger] ss[i]),
        AstView::NoOp => true,
        AstView::Program(_, b) => ast_view_wf(*b),
        AstView::Block(ds, b) => (forall|i: int|
            0 <= i < ds.len() ==> ast_view_wf(#[trigger] ds[i])) && ast_view_wf(*b),
        AstView::VarDecl(a, b) => ast_view_wf(*a) && ast_view_wf(*b),
        AstView::Type(_) => true,
    }
}

} // verus!
