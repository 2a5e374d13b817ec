//! The data that flows through the pipeline: tokens, expressions, equations.
use vstd::prelude::*;
use crate::number::Rational;

verus! {

/// Output tokens produced by the lexer.
#[derive(Debug, Clone, PartialEq)]
pub enum Token {
    Word(String),
    Number(Rational),
    /// e.g. "more than", "times", "divided by"
    Operator(String),
    /// e.g. '.', ',', '?'
    Punctuation(char),
}

/// The mathematical content of a `Token`.
pub enum TokenView {
    Word(Seq<char>),
    Number(Rational),
    Operator(Seq<char>),
    Punctuation(char),
}

impl DeepView for Token {
    type V = TokenView;

    open spec fn deep_view(&self) -> TokenView {
        match self {
            Token::Word(w) => TokenView::Word(w@),
            Token::Number(n) => TokenView::Number(*n),
            Token::Operator(o) => TokenView::Operator(o@),
            Token::Punctuation(c) => TokenView::Punctuation(*c),
        }
    }
}

impl Token {
    /// A copy of the token.
    pub fn duplicate(&self) -> (t: Token)
        ensures
            t.deep_view() == self.deep_view(),
    {
        match self {
            Token::Word(w) => Token::Word(w.clone()),
            Token::Number(n) => Token::Number(*n),
            Token::Operator(o) => Token::Operator(o.clone()),
            Token::Punctuation(c) => Token::Punctuation(*c),
        }
    }
}

/// Mathematical operators supported in expressions.
#[derive(Debug, Clone, Copy, PartialEq, Eq, Structural)]
pub enum Operator {
    Add,
    Sub,
    Mul,
    Div,
}

/// An algebraic expression tree node.
#[derive(Debug, PartialEq)]
pub enum Expr {
    /// A literal numeric value, e.g. 5
    Number(Rational),
    /// A named unknown variable, e.g. "x" or "john"
    Variable(String),
    /// A binary operation combining two sub-expressions
    BinaryOp { op: Operator, left: Box<Expr>, right: Box<Expr> },
}

/// The mathematical content of an `Expr`.
pub enum ExprView {
    Number(Rational),
    Variable(Seq<char>),
    BinaryOp { op: Operator, left: Box<ExprView>, right: Box<ExprView> },
}

pub open spec fn expr_view(e: &Expr) -> ExprView
    decreases e,
{
    match e {
        Expr::Number(n) => ExprView::Number(*n),
        Expr::Variable(v) => ExprView::Variable(v@),
        Expr::BinaryOp { op, left, right } => ExprView::BinaryOp {
            op: *op,
            left: Box::new(expr_view(left)),
            right: Box::new(expr_view(right)),
        },
    }
}

impl DeepView for Expr {
    type V = ExprView;

    open spec fn deep_view(&self) -> ExprView {
        expr_view(self)
    }
}

impl Expr {
    /// A copy of the expression.
    pub fn duplicate(&self) -> (e: Expr)
        ensures
            e.deep_view() == self.deep_view(),
        decreases self,
    {
        match self {
            Expr::Number(n) => Expr::Number(*n),
            Expr::Variable(v) => Expr::Variable(v.clone()),
            Expr::BinaryOp { op, left, right } => {
                let l = left.duplicate();
                let r = right.duplicate();
                Expr::BinaryOp { op: *op, left: Box::new(l), right: Box::new(r) }
            },
        }
    }
}

impl Clone for Expr {
    fn clone(&self) -> (e: Expr)
        ensures
            e.deep_view() == self.deep_view(),
    {
        self.duplicate()
    }
}

/// A single algebraic equation: lhs = rhs
#[derive(Debug, Clone, PartialEq)]
pub struct Equation {
    pub lhs: Expr,
    pub rhs: Expr,
}

/// The mathematical content of an `Equation`.
pub struct EquationView {
    pub lhs: ExprView,
    pub rhs: ExprView,
}

impl DeepView for Equation {
    type V = EquationView;

    open spec fn deep_view(&self) -> EquationView {
        EquationView { lhs: self.lhs.deep_view(), rhs: self.rhs.deep_view() }
    }
}

impl Equation {
    pub fn new(lhs: Expr, rhs: Expr) -> (e: Equation)
        ensures
            e.lhs == lhs,
            e.rhs == rhs,
    {
        Equation { lhs, rhs }
    }

    /// A copy of the equation.
    pub fn duplicate(&self) -> (e: Equation)
        ensures
            e.deep_view() == self.deep_view(),
    {
        Equation { lhs: self.lhs.duplicate(), rhs: self.rhs.duplicate() }
    }
}

} // verus!
