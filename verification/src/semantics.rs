//! What expressions and equations mean: their values when every variable
//! is given a number.
use vstd::prelude::*;
use crate::number::{Rational, spec_add, spec_sub, spec_mul, spec_div};
use crate::types::{EquationView, ExprView, Operator};

verus! {

/// One operation on two numbers; `None` for a division by zero or a result
/// that does not fit the exact numbers.
pub open spec fn op_value(op: Operator, l: Rational, r: Rational) -> Option<Rational> {
    match op {
        Operator::Add => spec_add(l, r),
        Operator::Sub => spec_sub(l, r),
        Operator::Mul => spec_mul(l, r),
        Operator::Div => if r.numer() == 0 {
            None
        } else {
            spec_div(l, r)
        },
    }
}

/// The value of an expression when each variable takes its number from
/// `env`; `None` when a variable has none or an operation has no value.
pub open spec fn value_in(e: ExprView, env: Map<Seq<char>, Rational>) -> Option<Rational>
    decreases e,
{
    match e {
        ExprView::Number(n) => Some(n),
        ExprView::Variable(v) => if env.contains_key(v) {
            Some(env[v])
        } else {
            None
        },
        ExprView::BinaryOp { op, left, right } => match value_in(*left, env) {
            Some(l) => match value_in(*right, env) {
                Some(r) => op_value(op, l, r),
                None => None,
            },
            None => None,
        },
    }
}

/// Both sides of the equation have a value under `env`, the same one.
pub open spec fn holds_in(eq: EquationView, env: Map<Seq<char>, Rational>) -> bool {
    value_in(eq.lhs, env) is Some && value_in(eq.lhs, env) == value_in(eq.rhs, env)
}

/// Every equation holds under `env`.
pub open spec fn all_hold(eqs: Seq<EquationView>, env: Map<Seq<char>, Rational>) -> bool {
    forall|i: int| 0 <= i < eqs.len() ==> holds_in(#[trigger] eqs[i], env)
}

/// Whether `name` occurs in the expression.
pub open spec fn occurs_in(e: ExprView, name: Seq<char>) -> bool
    decreases e,
{
    match e {
        ExprView::Variable(v) => v == name,
        ExprView::Number(_) => false,
        ExprView::BinaryOp { left, right, .. } => occurs_in(*left, name) || occurs_in(*right, name),
    }
}

/// Whether `name` occurs in one of the equations.
pub open spec fn occurs_in_equations(eqs: Seq<EquationView>, name: Seq<char>) -> bool {
    exists|i: int| 0 <= i < eqs.len() && (occurs_in(#[trigger] eqs[i].lhs, name) || occurs_in(eqs[i].rhs, name))
}

/// An expression with a value has a value for each of its variables.
pub proof fn lemma_value_needs_variables(e: ExprView, env: Map<Seq<char>, Rational>, x: Seq<char>)
    requires
        value_in(e, env) is Some,
        occurs_in(e, x),
    ensures
        env.dom().contains(x),
    decreases e,
{
    if let ExprView::BinaryOp { left, right, .. } = e {
        if occurs_in(*left, x) {
            lemma_value_needs_variables(*left, env, x);
        } else {
            lemma_value_needs_variables(*right, env, x);
        }
    }
}

} // verus!
