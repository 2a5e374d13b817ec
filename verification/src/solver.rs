//! The solver: scope guards, then constraint propagation over flat equations.
use vstd::prelude::*;
use crate::assignment::{Assignment, lookup, insert_sorted, sorted_keys, seq_lt, lemma_insert_sorted, lemma_lookup_index};
use crate::error::{SolverError, ErrorView};
use crate::number::{
    Rational,
    spec_add,
    spec_sub,
    spec_mul,
    spec_div,
    spec_render,
    same_value,
    denotes,
    in_lowest_terms,
    lemma_operation_values,
    law_lowest_terms_unique,
};
use crate::semantics::{
    all_hold,
    holds_in,
    occurs_in,
    occurs_in_equations,
    op_value,
    value_in,
    lemma_value_needs_variables,
};
use crate::text::{lowered, to_lowercase, chars_of, str_equals, push_str};
use crate::types::{Equation, EquationView, Expr, ExprView, Operator};

verus! {

// ---------------------------------------------------------------------------
// Scope guards — run before solving
// ---------------------------------------------------------------------------

/// Keywords that signal out-of-scope domains (trigonometry, calculus, ...).
pub open spec fn is_domain_keyword(w: Seq<char>) -> bool {
    ||| w == "sin"@
    ||| w == "cos"@
    ||| w == "tan"@
    ||| w == "cot"@
    ||| w == "sec"@
    ||| w == "csc"@
    ||| w == "log"@
    ||| w == "ln"@
    ||| w == "exp"@
    ||| w == "integral"@
    ||| w == "derivative"@
    ||| w == "limit"@
    ||| w == "differential"@
    ||| w == "vector"@
    ||| w == "matrix"@
    ||| w == "determinant"@
}

fn domain_keyword(w: &str) -> (b: bool)
    ensures
        b == is_domain_keyword(w@),
{
    str_equals(w, "sin") || str_equals(w, "cos") || str_equals(w, "tan") || str_equals(w, "cot")
        || str_equals(w, "sec") || str_equals(w, "csc") || str_equals(w, "log") || str_equals(w, "ln")
        || str_equals(w, "exp") || str_equals(w, "integral") || str_equals(w, "derivative")
        || str_equals(w, "limit") || str_equals(w, "differential") || str_equals(w, "vector")
        || str_equals(w, "matrix") || str_equals(w, "determinant")
}

/// The parts of a string between underscores (`str::split('_')`).
pub open spec fn split_underscore(s: Seq<char>) -> Seq<Seq<char>>
    decreases s.len(),
{
    if s.len() == 0 {
        seq![seq![]]
    } else {
        let p = split_underscore(s.drop_last());
        if s.last() == '_' {
            p.push(seq![])
        } else {
            p.update(p.len() - 1, p.last().push(s.last()))
        }
    }
}

pub proof fn lemma_split_underscore_len(s: Seq<char>)
    ensures
        split_underscore(s).len() >= 1,
    decreases s.len(),
{
    if s.len() > 0 {
        lemma_split_underscore_len(s.drop_last());
    }
}

/// A variable name is out of scope when its lower-cased form, or one of its
/// underscore-separated parts, is a domain keyword.
pub open spec fn name_out_of_scope(name: Seq<char>) -> bool {
    let lower = lowered(name);
    is_domain_keyword(lower) || exists|i: int|
        0 <= i < split_underscore(lower).len() && is_domain_keyword(#[trigger] split_underscore(lower)[i])
}

fn out_of_scope(name: &str) -> (b: bool)
    ensures
        b == name_out_of_scope(name@),
{
    let lower = to_lowercase(name);
    if domain_keyword(lower.as_str()) {
        return true;
    }
    let cs = chars_of(lower.as_str());
    let ghost l = lower@;
    let mut cur = String::new();
    let mut found = false;
    let mut i: usize = 0;
    assert(cs@.subrange(0, 0) =~= seq![]);
    while i < cs.len()
        invariant
            i <= cs@.len(),
            cs@ == l,
            split_underscore(l.subrange(0, i as int)).last() == cur@,
            split_underscore(l.subrange(0, i as int)).len() >= 1,
            found == exists|k: int|
                0 <= k < split_underscore(l.subrange(0, i as int)).len() - 1 && is_domain_keyword(
                    #[trigger] split_underscore(l.subrange(0, i as int))[k],
                ),
        decreases cs@.len() - i,
    {
        let c = cs[i];
        let ghost prev = split_underscore(l.subrange(0, i as int));
        assert(l.subrange(0, i + 1).drop_last() =~= l.subrange(0, i as int));
        if c == '_' {
            let ghost now = split_underscore(l.subrange(0, i + 1));
            assert(now == prev.push(seq![]));
            let kw = domain_keyword(cur.as_str());
            proof {
                assert(now[now.len() - 2] == cur@);
                if found {
                    let k = choose|k: int| 0 <= k < prev.len() - 1 && is_domain_keyword(#[trigger] prev[k]);
                    assert(now[k] == prev[k]);
                }
                if found || kw {
                } else {
                    assert forall|k: int| 0 <= k < now.len() - 1 implies !is_domain_keyword(#[trigger] now[k]) by {
                        if k < prev.len() - 1 {
                            assert(now[k] == prev[k]);
                        }
                    }
                }
            }
            found = found || kw;
            cur = String::new();
            assert(cur@ =~= seq![]);
        } else {
            let ghost now = split_underscore(l.subrange(0, i + 1));
            assert(now == prev.update(prev.len() - 1, prev.last().push(c)));
            cur.push(c);
            proof {
                if found {
                    let k = choose|k: int| 0 <= k < prev.len() - 1 && is_domain_keyword(#[trigger] prev[k]);
                    assert(now[k] == prev[k]);
                } else {
                    assert forall|k: int| 0 <= k < now.len() - 1 implies !is_domain_keyword(#[trigger] now[k]) by {
                        assert(now[k] == prev[k]);
                    }
                }
            }
        }
        i = i + 1;
    }
    assert(l.subrange(0, l.len() as int) =~= l);
    let last = domain_keyword(cur.as_str());
    proof {
        let parts = split_underscore(l);
        if found || last {
            if !found {
                assert(is_domain_keyword(parts[parts.len() - 1]));
            }
        } else {
            assert forall|k: int| 0 <= k < parts.len() implies !is_domain_keyword(#[trigger] parts[k]) by {
                if k == parts.len() - 1 {
                } else {
                }
            }
        }
    }
    found || last
}

/// The first out-of-scope variable of an expression, left to right.
pub open spec fn spec_domain_violation(e: ExprView) -> Option<Seq<char>>
    decreases e,
{
    match e {
        ExprView::Variable(n) => if name_out_of_scope(n) {
            Some(n)
        } else {
            None
        },
        ExprView::Number(_) => None,
        ExprView::BinaryOp { left, right, .. } => match spec_domain_violation(*left) {
            Some(n) => Some(n),
            None => spec_domain_violation(*right),
        },
    }
}

/// The first out-of-scope variable of the equations, each lhs before its rhs.
pub open spec fn spec_domain_check(eqs: Seq<EquationView>) -> Option<Seq<char>>
    decreases eqs.len(),
{
    if eqs.len() == 0 {
        None
    } else {
        match spec_domain_violation(eqs[0].lhs) {
            Some(n) => Some(n),
            None => match spec_domain_violation(eqs[0].rhs) {
                Some(n) => Some(n),
                None => spec_domain_check(eqs.drop_first()),
            },
        }
    }
}

fn check_expr_domain(expr: &Expr) -> (r: Result<(), SolverError>)
    ensures
        match r {
            Ok(()) => spec_domain_violation(expr.deep_view()) is None,
            Err(e) => spec_domain_violation(expr.deep_view()) matches Some(n) && e.deep_view()
                == ErrorView::UnsupportedDomain(n),
        },
    decreases expr,
{
    match expr {
        Expr::Variable(name) => {
            if out_of_scope(name.as_str()) {
                return Err(SolverError::UnsupportedDomain(name.clone()));
            }
            Ok(())
        },
        Expr::Number(_) => Ok(()),
        Expr::BinaryOp { left, right, .. } => {
            check_expr_domain(left)?;
            check_expr_domain(right)
        },
    }
}

/// Check every variable name in the equation list for out-of-scope keywords.
fn check_domain(equations: &Vec<Equation>) -> (r: Result<(), SolverError>)
    ensures
        match r {
            Ok(()) => spec_domain_check(equations.deep_view()) is None,
            Err(e) => spec_domain_check(equations.deep_view()) matches Some(n) && e.deep_view()
                == ErrorView::UnsupportedDomain(n),
        },
{
    let ghost es = equations.deep_view();
    let mut i: usize = 0;
    assert(es.skip(0) =~= es);
    while i < equations.len()
        invariant
            i <= equations@.len(),
            es == equations.deep_view(),
            spec_domain_check(es) == spec_domain_check(es.skip(i as int)),
        decreases equations@.len() - i,
    {
        let ghost rest = es.skip(i as int);
        assert(rest[0] == equations[i as int].deep_view());
        assert(rest.drop_first() =~= es.skip(i + 1));
        check_expr_domain(&equations[i].lhs)?;
        check_expr_domain(&equations[i].rhs)?;
        i = i + 1;
    }
    assert(es.skip(i as int) =~= seq![]);
    Ok(())
}

/// Whether an expression mentions a variable.
pub open spec fn has_variable(e: ExprView) -> bool
    decreases e,
{
    match e {
        ExprView::Variable(_) => true,
        ExprView::Number(_) => false,
        ExprView::BinaryOp { left, right, .. } => has_variable(*left) || has_variable(*right),
    }
}

/// The degree reported for an expression walked at degree `d`: a product
/// of two parts that both mention variables raises the degree; above one
/// it is reported at once (outer operations before inner, left before right).
pub open spec fn spec_expr_degree(e: ExprView, d: nat) -> Option<nat>
    decreases e,
{
    match e {
        ExprView::BinaryOp { op, left, right } => {
            let nd: nat = if op == Operator::Mul && has_variable(*left) && has_variable(*right) {
                d + 1
            } else {
                d
            };
            if nd > 1 {
                Some(nd)
            } else {
                match spec_expr_degree(*left, nd) {
                    Some(x) => Some(x),
                    None => spec_expr_degree(*right, nd),
                }
            }
        },
        _ => None,
    }
}

pub open spec fn spec_degree_check(eqs: Seq<EquationView>) -> Option<nat>
    decreases eqs.len(),
{
    if eqs.len() == 0 {
        None
    } else {
        match spec_expr_degree(eqs[0].lhs, 1) {
            Some(n) => Some(n),
            None => match spec_expr_degree(eqs[0].rhs, 1) {
                Some(n) => Some(n),
                None => spec_degree_check(eqs.drop_first()),
            },
        }
    }
}

proof fn lemma_evaluate_error_kind(e: ExprView)
    ensures
        spec_evaluate(e) matches Err(x) ==> !(x is UnsupportedDegree),
    decreases e,
{
    if let ExprView::BinaryOp { left, right, .. } = e {
        lemma_evaluate_error_kind(*left);
        lemma_evaluate_error_kind(*right);
    }
}

proof fn lemma_isolate_error_kind(eq: EquationView, var: Seq<char>, known: Seq<(Seq<char>, Rational)>)
    ensures
        spec_isolate(eq, var, known) matches Err(x) ==> !(x is UnsupportedDegree),
{
    let lhs = spec_substitute(eq.lhs, known);
    let rhs = spec_substitute(eq.rhs, known);
    lemma_evaluate_error_kind(lhs);
    lemma_evaluate_error_kind(rhs);
    if let ExprView::BinaryOp { left, right, .. } = lhs {
        lemma_evaluate_error_kind(*left);
        lemma_evaluate_error_kind(*right);
    }
    if let ExprView::BinaryOp { left, right, .. } = rhs {
        lemma_evaluate_error_kind(*left);
        lemma_evaluate_error_kind(*right);
    }
}

/// Propagation never reports a degree.
proof fn lemma_solve_loop_errors(
    remaining: Seq<EquationView>,
    known: Seq<(Seq<char>, Rational)>,
    steps: Seq<Seq<char>>,
)
    ensures
        spec_solve_loop(remaining, known, steps) matches Err(x) ==> !(x is UnsupportedDegree),
    decreases remaining.len(),
{
    let rest = retain_unsolved(remaining, known);
    if rest.len() > 0 {
        if let Some(idx) = first_single(rest, known, 0) {
            let eq = rest[idx];
            let var = the_unknown(eq, known);
            lemma_isolate_error_kind(eq, var, known);
            if let Ok(value) = spec_isolate(eq, var, known) {
                let known2 = insert_sorted(known, var, value);
                let next = rest.map_values(|q: EquationView| substitute_equation(q, known2)).remove(idx);
                lemma_retain_unsolved(remaining, known);
                lemma_first_single(rest, known, 0);
                lemma_solve_loop_errors(next, known2, steps.push(step_text(var, value)));
            }
        }
    }
}

/// Whether the expression multiplies two parts that both mention variables.
pub open spec fn has_variable_product(e: ExprView) -> bool
    decreases e,
{
    match e {
        ExprView::BinaryOp { op, left, right } => (op == Operator::Mul && has_variable(*left) && has_variable(
            *right,
        )) || has_variable_product(*left) || has_variable_product(*right),
        _ => false,
    }
}

proof fn lemma_degree_without_products(e: ExprView, d: nat)
    requires
        d <= 1,
        !has_variable_product(e),
    ensures
        spec_expr_degree(e, d) is None,
    decreases e,
{
    if let ExprView::BinaryOp { left, right, .. } = e {
        lemma_degree_without_products(*left, d);
        lemma_degree_without_products(*right, d);
    }
}

proof fn lemma_degree_check_without_products(eqs: Seq<EquationView>)
    requires
        forall|i: int| 0 <= i < eqs.len() ==> !has_variable_product(#[trigger] eqs[i].lhs) && !has_variable_product(
            eqs[i].rhs,
        ),
    ensures
        spec_degree_check(eqs) is None,
    decreases eqs.len(),
{
    if eqs.len() > 0 {
        lemma_degree_without_products(eqs[0].lhs, 1);
        lemma_degree_without_products(eqs[0].rhs, 1);
        assert forall|i: int| 0 <= i < eqs.drop_first().len() implies !has_variable_product(
            #[trigger] eqs.drop_first()[i].lhs,
        ) && !has_variable_product(eqs.drop_first()[i].rhs) by {
            assert(eqs.drop_first()[i] == eqs[i + 1]);
        }
        lemma_degree_check_without_products(eqs.drop_first());
    }
}

/// The degree guard refuses only a product of two parts that both mention
/// variables: equations with no such product (sums, differences,
/// quotients of variables, products by constants) are never refused for
/// their degree, and go straight from the domain check to propagation.
pub proof fn law_degree_guard_only_products(eqs: Seq<EquationView>)
    requires
        forall|i: int| 0 <= i < eqs.len() ==> !has_variable_product(#[trigger] eqs[i].lhs) && !has_variable_product(
            eqs[i].rhs,
        ),
    ensures
        forall|d: u32| spec_solve(eqs) != Err::<(Seq<(Seq<char>, Rational)>, Seq<Seq<char>>), _>(ErrorView::UnsupportedDegree(d)),
        spec_domain_check(eqs) is None ==> spec_solve(eqs) == spec_solve_loop(eqs, seq![], seq![]),
{
    lemma_degree_check_without_products(eqs);
    assert forall|d: u32| spec_solve(eqs) != Err::<(Seq<(Seq<char>, Rational)>, Seq<Seq<char>>), _>(ErrorView::UnsupportedDegree(d)) by {
        if spec_domain_check(eqs) is None {
            lemma_solve_loop_errors(eqs, seq![], seq![]);
        }
    }
}

/// Returns true if `expr` contains at least one variable.
fn contains_variable(expr: &Expr) -> (b: bool)
    ensures
        b == has_variable(expr.deep_view()),
    decreases expr,
{
    match expr {
        Expr::Variable(_) => true,
        Expr::Number(_) => false,
        Expr::BinaryOp { left, right, .. } => contains_variable(left) || contains_variable(right),
    }
}

fn check_expr_degree(expr: &Expr, current_degree: u32) -> (r: Result<(), SolverError>)
    requires
        current_degree <= 1,
    ensures
        match r {
            Ok(()) => spec_expr_degree(expr.deep_view(), current_degree as nat) is None,
            Err(e) => spec_expr_degree(expr.deep_view(), current_degree as nat) matches Some(d)
                && e.deep_view() == ErrorView::UnsupportedDegree(d as u32) && d <= 2,
        },
    decreases expr,
{
    match expr {
        Expr::Number(_) | Expr::Variable(_) => Ok(()),
        Expr::BinaryOp { op, left, right } => {
            let new_degree = if matches!(op, Operator::Mul) && contains_variable(left) && contains_variable(
                right,
            ) {
                current_degree + 1
            } else {
                current_degree
            };
            if new_degree > 1 {
                return Err(SolverError::UnsupportedDegree(new_degree));
            }
            check_expr_degree(left, new_degree)?;
            check_expr_degree(right, new_degree)
        },
    }
}

/// Detect degree > 1: both factors of a multiplication mention variables.
fn check_degree(equations: &Vec<Equation>) -> (r: Result<(), SolverError>)
    ensures
        match r {
            Ok(()) => spec_degree_check(equations.deep_view()) is None,
            Err(e) => spec_degree_check(equations.deep_view()) matches Some(d) && e.deep_view()
                == ErrorView::UnsupportedDegree(d as u32),
        },
{
    let ghost es = equations.deep_view();
    let mut i: usize = 0;
    assert(es.skip(0) =~= es);
    while i < equations.len()
        invariant
            i <= equations@.len(),
            es == equations.deep_view(),
            spec_degree_check(es) == spec_degree_check(es.skip(i as int)),
        decreases equations@.len() - i,
    {
        let ghost rest = es.skip(i as int);
        assert(rest[0] == equations[i as int].deep_view());
        assert(rest.drop_first() =~= es.skip(i + 1));
        check_expr_degree(&equations[i].lhs, 1)?;
        check_expr_degree(&equations[i].rhs, 1)?;
        i = i + 1;
    }
    assert(es.skip(i as int) =~= seq![]);
    Ok(())
}

// ---------------------------------------------------------------------------
// Unknown variables
// ---------------------------------------------------------------------------

pub open spec fn is_known(known: Seq<(Seq<char>, Rational)>, name: Seq<char>) -> bool {
    lookup(known, name) is Some
}

/// The distinct unknown variables of `e`, in order of first occurrence,
/// appended to `acc`.
pub open spec fn unknowns_acc(e: ExprView, known: Seq<(Seq<char>, Rational)>, acc: Seq<Seq<char>>) -> Seq<
    Seq<char>,
>
    decreases e,
{
    match e {
        ExprView::Number(_) => acc,
        ExprView::Variable(n) => if is_known(known, n) || acc.contains(n) {
            acc
        } else {
            acc.push(n)
        },
        ExprView::BinaryOp { left, right, .. } => unknowns_acc(*right, known, unknowns_acc(*left, known, acc)),
    }
}

/// The distinct unknown variables of `e`, in order of first occurrence.
pub open spec fn unknowns(e: ExprView, known: Seq<(Seq<char>, Rational)>) -> Seq<Seq<char>> {
    unknowns_acc(e, known, seq![])
}

/// How many distinct unknown variables `e` has.
pub open spec fn count_unknowns_of(e: ExprView, known: Seq<(Seq<char>, Rational)>) -> nat {
    unknowns(e, known).len()
}

fn contains_name(names: &Vec<String>, name: &str) -> (b: bool)
    ensures
        b == names.deep_view().contains(name@),
{
    let mut i: usize = 0;
    while i < names.len()
        invariant
            i <= names@.len(),
            forall|k: int| 0 <= k < i ==> names.deep_view()[k] != name@,
        decreases names@.len() - i,
    {
        if str_equals(names[i].as_str(), name) {
            assert(names.deep_view()[i as int] == name@);
            return true;
        }
        i = i + 1;
    }
    false
}

fn collect_unknowns_inner(expr: &Expr, known: &Assignment, out: &mut Vec<String>)
    ensures
        final(out).deep_view() == unknowns_acc(expr.deep_view(), known@, old(out).deep_view()),
    decreases expr,
{
    match expr {
        Expr::Number(_) => {},
        Expr::Variable(name) => {
            if known.get(name.as_str()).is_none() && !contains_name(out, name.as_str()) {
                let ghost o = out.deep_view();
                out.push(name.clone());
                assert(out.deep_view() =~= o.push(name@));
            }
        },
        Expr::BinaryOp { left, right, .. } => {
            collect_unknowns_inner(left, known, out);
            collect_unknowns_inner(right, known, out);
        },
    }
}

/// The distinct unknown variable names in `expr`.
fn collect_unknowns(expr: &Expr, known: &Assignment) -> (v: Vec<String>)
    ensures
        v.deep_view() == unknowns(expr.deep_view(), known@),
{
    let mut vars: Vec<String> = Vec::new();
    assert(vars.deep_view() =~= seq![]);
    collect_unknowns_inner(expr, known, &mut vars);
    vars
}

/// How many distinct unknown variables appear in `expr`.
fn count_unknowns(expr: &Expr, known: &Assignment) -> (n: usize)
    ensures
        n == count_unknowns_of(expr.deep_view(), known@),
{
    collect_unknowns(expr, known).len()
}

// ---------------------------------------------------------------------------
// Substitution
// ---------------------------------------------------------------------------

/// Every known variable replaced by its value.
pub open spec fn spec_substitute(e: ExprView, known: Seq<(Seq<char>, Rational)>) -> ExprView
    decreases e,
{
    match e {
        ExprView::Variable(n) => match lookup(known, n) {
            Some(v) => ExprView::Number(v),
            None => e,
        },
        ExprView::Number(_) => e,
        ExprView::BinaryOp { op, left, right } => ExprView::BinaryOp {
            op,
            left: Box::new(spec_substitute(*left, known)),
            right: Box::new(spec_substitute(*right, known)),
        },
    }
}

pub open spec fn substitute_equation(eq: EquationView, known: Seq<(Seq<char>, Rational)>) -> EquationView {
    EquationView { lhs: spec_substitute(eq.lhs, known), rhs: spec_substitute(eq.rhs, known) }
}

/// Replace every variable that is known by its value.
fn substitute(expr: &Expr, known: &Assignment) -> (e: Expr)
    ensures
        e.deep_view() == spec_substitute(expr.deep_view(), known@),
    decreases expr,
{
    match expr {
        Expr::Variable(name) => {
            match known.get(name.as_str()) {
                Some(val) => Expr::Number(val),
                None => Expr::Variable(name.clone()),
            }
        },
        Expr::Number(n) => Expr::Number(*n),
        Expr::BinaryOp { op, left, right } => Expr::BinaryOp {
            op: *op,
            left: Box::new(substitute(left, known)),
            right: Box::new(substitute(right, known)),
        },
    }
}

/// Substitute knowns into both sides of every equation in the list.
fn substitute_all(equations: &mut Vec<Equation>, known: &Assignment)
    ensures
        final(equations)@.len() == old(equations)@.len(),
        forall|i: int|
            0 <= i < old(equations)@.len() ==> #[trigger] final(equations).deep_view()[i] == substitute_equation(
                old(equations).deep_view()[i],
                known@,
            ),
{
    let ghost orig = equations.deep_view();
    let mut i: usize = 0;
    while i < equations.len()
        invariant
            i <= equations@.len(),
            equations@.len() == orig.len(),
            forall|k: int| 0 <= k < i ==> #[trigger] equations.deep_view()[k] == substitute_equation(orig[k], known@),
            forall|k: int| i <= k < orig.len() ==> #[trigger] equations.deep_view()[k] == orig[k],
        decreases equations@.len() - i,
    {
        let lhs = substitute(&equations[i].lhs, known);
        let rhs = substitute(&equations[i].rhs, known);
        let ghost before = equations.deep_view();
        let ghost before_v = equations@;
        equations.set(i, Equation::new(lhs, rhs));
        assert(equations.deep_view()[i as int] == equations@[i as int].deep_view());
        assert(before[i as int] == orig[i as int]);
        assert forall|k: int| 0 <= k < orig.len() && k != i implies #[trigger] equations.deep_view()[k] == before[k] by {
            assert(equations.deep_view()[k] == equations@[k].deep_view());
            assert(before[k] == before_v[k].deep_view());
            assert(equations@[k] == before_v[k]);
        }
        i = i + 1;
    }
}

// ---------------------------------------------------------------------------
// Evaluating a fully known expression
// ---------------------------------------------------------------------------

/// Reported when an exact result does not fit in 64-bit numerator and
/// denominator, the range of numbers the library computes with.
pub open spec fn overflow_error() -> ErrorView {
    ErrorView::ParseError("A number in the problem is too large to compute exactly."@)
}

pub open spec fn unknown_variable_error(name: Seq<char>) -> ErrorView {
    ErrorView::ParseError("Variable '"@ + name + "' is still unknown during evaluation."@)
}

pub open spec fn exact(r: Option<Rational>) -> Result<Rational, ErrorView> {
    match r {
        Some(v) => Ok(v),
        None => Err(overflow_error()),
    }
}

/// One operation on two values.
pub open spec fn apply_op(op: Operator, l: Rational, r: Rational) -> Result<Rational, ErrorView> {
    match op {
        Operator::Add => exact(spec_add(l, r)),
        Operator::Sub => exact(spec_sub(l, r)),
        Operator::Mul => exact(spec_mul(l, r)),
        Operator::Div => if r.numer() == 0 {
            Err(ErrorView::DivisionByZero)
        } else {
            exact(spec_div(l, r))
        },
    }
}

/// The value of an expression without unknowns; a variable is an error, as
/// is a division by zero; left operands are evaluated first.
pub open spec fn spec_evaluate(e: ExprView) -> Result<Rational, ErrorView>
    decreases e,
{
    match e {
        ExprView::Number(n) => Ok(n),
        ExprView::Variable(n) => Err(unknown_variable_error(n)),
        ExprView::BinaryOp { op, left, right } => match spec_evaluate(*left) {
            Err(x) => Err(x),
            Ok(l) => match spec_evaluate(*right) {
                Err(x) => Err(x),
                Ok(r) => apply_op(op, l, r),
            },
        },
    }
}

fn overflow_error_value() -> (e: SolverError)
    ensures
        e.deep_view() == overflow_error(),
{
    let mut m = String::new();
    push_str(&mut m, "A number in the problem is too large to compute exactly.");
    assert(m@ =~= "A number in the problem is too large to compute exactly."@);
    SolverError::ParseError(m)
}

fn exact_value(r: Option<Rational>) -> (v: Result<Rational, SolverError>)
    ensures
        result_view(v) == exact(r),
{
    match r {
        Some(x) => Ok(x),
        None => Err(overflow_error_value()),
    }
}

pub open spec fn result_view(r: Result<Rational, SolverError>) -> Result<Rational, ErrorView> {
    match r {
        Ok(v) => Ok(v),
        Err(e) => Err(e.deep_view()),
    }
}

fn apply_operator(op: Operator, l: Rational, r: Rational) -> (v: Result<Rational, SolverError>)
    ensures
        result_view(v) == apply_op(op, l, r),
{
    match op {
        Operator::Add => exact_value(l.add(&r)),
        Operator::Sub => exact_value(l.sub(&r)),
        Operator::Mul => exact_value(l.mul(&r)),
        Operator::Div => {
            if r.is_zero() {
                Err(SolverError::DivisionByZero)
            } else {
                exact_value(l.div(&r))
            }
        },
    }
}

/// Evaluate an expression that should contain no unknowns, exactly; a
/// result outside the 64-bit fractions is reported as too large.
fn evaluate(expr: &Expr) -> (v: Result<Rational, SolverError>)
    ensures
        result_view(v) == spec_evaluate(expr.deep_view()),
    decreases expr,
{
    match expr {
        Expr::Number(n) => Ok(*n),
        Expr::Variable(name) => {
            let mut m = String::new();
            push_str(&mut m, "Variable '");
            push_str(&mut m, name.as_str());
            push_str(&mut m, "' is still unknown during evaluation.");
            assert(m@ =~= "Variable '"@ + name@ + "' is still unknown during evaluation."@);
            Err(SolverError::ParseError(m))
        },
        Expr::BinaryOp { op, left, right } => {
            let l = evaluate(left)?;
            let r = evaluate(right)?;
            apply_operator(*op, l, r)
        },
    }
}

// ---------------------------------------------------------------------------
// Isolate: algebraic rearrangement
// ---------------------------------------------------------------------------

/// The unknown operand of `unknown OP known = result` (or of
/// `known OP unknown = result` when `unknown_is_left` is false).
pub open spec fn spec_invert_op(op: Operator, result: Rational, known: Rational, unknown_is_left: bool) -> Result<
    Rational,
    ErrorView,
> {
    match (op, unknown_is_left) {
        (Operator::Add, _) => exact(spec_sub(result, known)),
        (Operator::Sub, true) => exact(spec_add(result, known)),
        (Operator::Sub, false) => exact(spec_sub(known, result)),
        (Operator::Mul, _) => if known.numer() == 0 {
            Err(ErrorView::DivisionByZero)
        } else {
            exact(spec_div(result, known))
        },
        (Operator::Div, true) => exact(spec_mul(result, known)),
        (Operator::Div, false) => if result.numer() == 0 {
            Err(ErrorView::DivisionByZero)
        } else {
            exact(spec_div(known, result))
        },
    }
}

/// Invert a binary operation to solve for the unknown operand, exactly; a
/// result outside the 64-bit fractions is reported as too large.
fn invert_op(op: Operator, result: Rational, known: Rational, unknown_is_left: bool) -> (v: Result<
    Rational,
    SolverError,
>)
    ensures
        result_view(v) == spec_invert_op(op, result, known, unknown_is_left),
{
    match (op, unknown_is_left) {
        // x + k = r  →  x = r - k ;  k + x = r  →  x = r - k
        (Operator::Add, _) => exact_value(result.sub(&known)),
        // x - k = r  →  x = r + k
        (Operator::Sub, true) => exact_value(result.add(&known)),
        // k - x = r  →  x = k - r
        (Operator::Sub, false) => exact_value(known.sub(&result)),
        // x * k = r  or  k * x = r  →  x = r / k
        (Operator::Mul, _) => {
            if known.is_zero() {
                Err(SolverError::DivisionByZero)
            } else {
                exact_value(result.div(&known))
            }
        },
        // x / k = r  →  x = r * k
        (Operator::Div, true) => exact_value(result.mul(&known)),
        // k / x = r  →  x = k / r
        (Operator::Div, false) => {
            if result.is_zero() {
                Err(SolverError::DivisionByZero)
            } else {
                exact_value(known.div(&result))
            }
        },
    }
}

pub open spec fn is_var(e: ExprView, var: Seq<char>) -> bool {
    e == ExprView::Variable(var)
}

/// One operation whose operand is the unknown, the other operand known:
/// `Some` with the unknown's value, found from the value of the other side
/// of the equation (errors in that order: the other side, then the known
/// operand, then the inversion); `None` when the operation has no such
/// shape.
pub open spec fn isolate_in_op(
    e: ExprView,
    other: ExprView,
    var: Seq<char>,
    known: Seq<(Seq<char>, Rational)>,
) -> Option<Result<Rational, ErrorView>> {
    match e {
        ExprView::BinaryOp { op, left, right } => if is_var(*left, var) && count_unknowns_of(*right, known) == 0 {
            Some(
                match spec_evaluate(other) {
                    Err(x) => Err(x),
                    Ok(value) => match spec_evaluate(*right) {
                        Err(x) => Err(x),
                        Ok(r) => spec_invert_op(op, value, r, true),
                    },
                },
            )
        } else if is_var(*right, var) && count_unknowns_of(*left, known) == 0 {
            Some(
                match spec_evaluate(other) {
                    Err(x) => Err(x),
                    Ok(value) => match spec_evaluate(*left) {
                        Err(x) => Err(x),
                        Ok(l) => spec_invert_op(op, value, l, false),
                    },
                },
            )
        } else {
            None
        },
        _ => None,
    }
}

/// The value of `var`, the one unknown of `eq`: after substituting the
/// knowns, `var = known`, `known = var`, or one operation with `var` as an
/// operand on either side.
pub open spec fn spec_isolate(eq: EquationView, var: Seq<char>, known: Seq<(Seq<char>, Rational)>) -> Result<
    Rational,
    ErrorView,
> {
    let lhs = spec_substitute(eq.lhs, known);
    let rhs = spec_substitute(eq.rhs, known);
    if is_var(lhs, var) && count_unknowns_of(rhs, known) == 0 {
        spec_evaluate(rhs)
    } else if is_var(rhs, var) && count_unknowns_of(lhs, known) == 0 {
        spec_evaluate(lhs)
    } else {
        match isolate_in_op(rhs, lhs, var, known) {
            Some(r) => r,
            None => match isolate_in_op(lhs, rhs, var, known) {
                Some(r) => r,
                None => Err(ErrorView::InsufficientInformation),
            },
        }
    }
}

fn expr_is_var(e: &Expr, var: &str) -> (b: bool)
    ensures
        b == is_var(e.deep_view(), var@),
{
    match e {
        Expr::Variable(n) => str_equals(n.as_str(), var),
        _ => false,
    }
}

fn isolate_op(e: &Expr, other: &Expr, var: &str, known: &Assignment) -> (r: Option<Result<Rational, SolverError>>)
    ensures
        match r {
            Some(v) => isolate_in_op(e.deep_view(), other.deep_view(), var@, known@) == Some(result_view(v)),
            None => isolate_in_op(e.deep_view(), other.deep_view(), var@, known@) is None,
        },
{
    match e {
        Expr::BinaryOp { op, left, right } => {
            let unknown_is_left = expr_is_var(left, var) && count_unknowns(right, known) == 0;
            if !unknown_is_left && !(expr_is_var(right, var) && count_unknowns(left, known) == 0) {
                return None;
            }
            let value = match evaluate(other) {
                Err(x) => {
                    return Some(Err(x));
                },
                Ok(v) => v,
            };
            let known_side: &Expr = if unknown_is_left {
                right
            } else {
                left
            };
            Some(
                match evaluate(known_side) {
                    Err(x) => Err(x),
                    Ok(k) => invert_op(*op, value, k, unknown_is_left),
                },
            )
        },
        _ => None,
    }
}

/// Given an equation where `var` is the one unknown, rearrange it to
/// produce the value of `var`.
fn isolate(eq: &Equation, var: &str, known: &Assignment) -> (v: Result<Rational, SolverError>)
    ensures
        result_view(v) == spec_isolate(eq.deep_view(), var@, known@),
{
    let lhs = substitute(&eq.lhs, known);
    let rhs = substitute(&eq.rhs, known);

    // Case 1: var = <fully known rhs>
    if expr_is_var(&lhs, var) && count_unknowns(&rhs, known) == 0 {
        return evaluate(&rhs);
    }
    // Case 2: <fully known lhs> = var

    if expr_is_var(&rhs, var) && count_unknowns(&lhs, known) == 0 {
        return evaluate(&lhs);
    }
    // Case 3: operation on the rhs containing the unknown

    match isolate_op(&rhs, &lhs, var, known) {
        Some(r) => {
            return r;
        },
        None => {},
    }
    // Case 4: operation on the lhs containing the unknown

    match isolate_op(&lhs, &rhs, var, known) {
        Some(r) => {
            return r;
        },
        None => {},
    }
    Err(SolverError::InsufficientInformation)
}


// ---------------------------------------------------------------------------
// Constraint propagation
// ---------------------------------------------------------------------------

pub proof fn lemma_unknowns_acc(e: ExprView, known: Seq<(Seq<char>, Rational)>, acc: Seq<Seq<char>>)
    ensures
        forall|x: Seq<char>| #[trigger] unknowns_acc(e, known, acc).contains(x) ==> acc.contains(x) || !is_known(known, x),
        forall|x: Seq<char>| acc.contains(x) ==> #[trigger] unknowns_acc(e, known, acc).contains(x),
    decreases e,
{
    match e {
        ExprView::Variable(n) => {
            if is_known(known, n) || acc.contains(n) {
                assert(unknowns_acc(e, known, acc) == acc);
            } else {
                assert(unknowns_acc(e, known, acc) == acc.push(n));
                assert forall|x: Seq<char>| #[trigger] acc.push(n).contains(x) implies acc.contains(x) || x == n by {
                    let j = choose|j: int| 0 <= j < acc.push(n).len() && acc.push(n)[j] == x;
                    if j < acc.len() {
                        assert(acc[j] == x);
                    }
                }
                assert forall|x: Seq<char>| acc.contains(x) implies #[trigger] acc.push(n).contains(x) by {
                    let j = choose|j: int| 0 <= j < acc.len() && acc[j] == x;
                    assert(acc.push(n)[j] == x);
                }
            }
        },
        ExprView::Number(_) => {
            assert(unknowns_acc(e, known, acc) == acc);
        },
        ExprView::BinaryOp { left, right, .. } => {
            let acc1 = unknowns_acc(*left, known, acc);
            assert(unknowns_acc(e, known, acc) == unknowns_acc(*right, known, acc1));
            lemma_unknowns_acc(*left, known, acc);
            lemma_unknowns_acc(*right, known, acc1);
            assert forall|x: Seq<char>| #[trigger] unknowns_acc(e, known, acc).contains(x) implies acc.contains(x)
                || !is_known(known, x) by {
                assert(unknowns_acc(*right, known, acc1).contains(x));
                if acc1.contains(x) {
                    assert(unknowns_acc(*left, known, acc).contains(x));
                }
            }
            assert forall|x: Seq<char>| acc.contains(x) implies #[trigger] unknowns_acc(e, known, acc).contains(x) by {
                assert(unknowns_acc(*left, known, acc).contains(x));
                assert(unknowns_acc(*right, known, acc1).contains(x));
            }
        },
    }
}

/// Whether an equation still mentions an unknown variable.
pub open spec fn has_unknowns(eq: EquationView, known: Seq<(Seq<char>, Rational)>) -> bool {
    count_unknowns_of(eq.lhs, known) > 0 || count_unknowns_of(eq.rhs, known) > 0
}

/// The equations that still mention an unknown variable, in order.
pub open spec fn retain_unsolved(eqs: Seq<EquationView>, known: Seq<(Seq<char>, Rational)>) -> Seq<EquationView>
    decreases eqs.len(),
{
    if eqs.len() == 0 {
        seq![]
    } else {
        let r = retain_unsolved(eqs.drop_last(), known);
        if has_unknowns(eqs.last(), known) {
            r.push(eqs.last())
        } else {
            r
        }
    }
}

pub proof fn lemma_retain_unsolved(eqs: Seq<EquationView>, known: Seq<(Seq<char>, Rational)>)
    ensures
        retain_unsolved(eqs, known).len() <= eqs.len(),
        forall|i: int|
            0 <= i < retain_unsolved(eqs, known).len() ==> has_unknowns(#[trigger] retain_unsolved(eqs, known)[i], known),
    decreases eqs.len(),
{
    if eqs.len() > 0 {
        lemma_retain_unsolved(eqs.drop_last(), known);
    }
}

/// Whether an equation has exactly one unknown variable.
pub open spec fn single_unknown(eq: EquationView, known: Seq<(Seq<char>, Rational)>) -> bool {
    count_unknowns_of(eq.lhs, known) + count_unknowns_of(eq.rhs, known) == 1
}

/// The first index at or after `from` of an equation with exactly one unknown.
pub open spec fn first_single(eqs: Seq<EquationView>, known: Seq<(Seq<char>, Rational)>, from: int) -> Option<int>
    decreases eqs.len() - from,
{
    if from < 0 || from >= eqs.len() {
        None
    } else if single_unknown(eqs[from], known) {
        Some(from)
    } else {
        first_single(eqs, known, from + 1)
    }
}

/// The one unknown variable of an equation with exactly one.
pub open spec fn the_unknown(eq: EquationView, known: Seq<(Seq<char>, Rational)>) -> Seq<char> {
    if count_unknowns_of(eq.lhs, known) == 1 {
        unknowns(eq.lhs, known)[0]
    } else {
        unknowns(eq.rhs, known)[0]
    }
}

/// The trace line recorded when a variable is solved.
pub open spec fn step_text(var: Seq<char>, value: Rational) -> Seq<char> {
    var + " = "@ + spec_render(value)
}

/// The propagation loop: drop the equations without unknowns; stop when
/// none is left; otherwise solve the first equation with exactly one
/// unknown, record the value and its trace line, substitute it into every
/// equation, and drop the solved one. With no such equation, the
/// information is insufficient.
pub open spec fn spec_solve_loop(
    remaining: Seq<EquationView>,
    known: Seq<(Seq<char>, Rational)>,
    steps: Seq<Seq<char>>,
) -> Result<(Seq<(Seq<char>, Rational)>, Seq<Seq<char>>), ErrorView>
    decreases remaining.len(),
{
    let rest = retain_unsolved(remaining, known);
    if rest.len() == 0 {
        Ok((known, steps))
    } else {
        match first_single(rest, known, 0) {
            None => Err(ErrorView::InsufficientInformation),
            Some(idx) => {
                let eq = rest[idx];
                let var = the_unknown(eq, known);
                match spec_isolate(eq, var, known) {
                    Err(e) => Err(e),
                    Ok(value) => {
                        let known2 = insert_sorted(known, var, value);
                        let next = rest.map_values(|q: EquationView| substitute_equation(q, known2)).remove(idx);
                        proof {
                            lemma_retain_unsolved(remaining, known);
                            lemma_first_single(rest, known, 0);
                        }
                        spec_solve_loop(next, known2, steps.push(step_text(var, value)))
                    },
                }
            },
        }
    }
}

pub proof fn lemma_first_single(eqs: Seq<EquationView>, known: Seq<(Seq<char>, Rational)>, from: int)
    ensures
        first_single(eqs, known, from) matches Some(i) ==> from <= i < eqs.len() && single_unknown(eqs[i], known),
    decreases eqs.len() - from,
{
    if 0 <= from < eqs.len() && !single_unknown(eqs[from], known) {
        lemma_first_single(eqs, known, from + 1);
    }
}

/// What `solve` gives for a list of equations: the scope checks first (the
/// domain, then the degree), then the propagation loop from nothing known.
pub open spec fn spec_solve(eqs: Seq<EquationView>) -> Result<(Seq<(Seq<char>, Rational)>, Seq<Seq<char>>), ErrorView> {
    match spec_domain_check(eqs) {
        Some(n) => Err(ErrorView::UnsupportedDomain(n)),
        None => match spec_degree_check(eqs) {
            Some(d) => Err(ErrorView::UnsupportedDegree(d as u32)),
            None => spec_solve_loop(eqs, seq![], seq![]),
        },
    }
}

/// Result of a successful solve: the values of the variables, plus a
/// trace of the steps taken (for output display).
#[derive(Debug, PartialEq)]
pub struct Solution {
    pub values: Assignment,
    pub steps: Vec<String>,
}

fn retain_unsolved_eqs(eqs: &Vec<Equation>, known: &Assignment) -> (r: Vec<Equation>)
    ensures
        r.deep_view() == retain_unsolved(eqs.deep_view(), known@),
{
    let ghost es = eqs.deep_view();
    let mut out: Vec<Equation> = Vec::new();
    let mut i: usize = 0;
    assert(out.deep_view() =~= retain_unsolved(es.take(0), known@));
    while i < eqs.len()
        invariant
            i <= eqs@.len(),
            es == eqs.deep_view(),
            out.deep_view() == retain_unsolved(es.take(i as int), known@),
        decreases eqs@.len() - i,
    {
        assert(es.take(i + 1).drop_last() =~= es.take(i as int));
        assert(es.take(i + 1).last() == eqs@[i as int].deep_view());
        if count_unknowns(&eqs[i].lhs, known) > 0 || count_unknowns(&eqs[i].rhs, known) > 0 {
            let ghost o = out.deep_view();
            out.push(eqs[i].duplicate());
            assert(out.deep_view() =~= o.push(eqs@[i as int].deep_view()));
        }
        i = i + 1;
    }
    assert(es.take(i as int) =~= es);
    out
}

fn find_single(eqs: &Vec<Equation>, known: &Assignment) -> (r: Option<usize>)
    ensures
        match r {
            Some(i) => first_single(eqs.deep_view(), known@, 0) == Some(i as int),
            None => first_single(eqs.deep_view(), known@, 0) is None,
        },
{
    let ghost es = eqs.deep_view();
    let mut i: usize = 0;
    while i < eqs.len()
        invariant
            i <= eqs@.len(),
            es == eqs.deep_view(),
            first_single(es, known@, 0) == first_single(es, known@, i as int),
        decreases eqs@.len() - i,
    {
        assert(es[i as int] == eqs@[i as int].deep_view());
        let a = count_unknowns(&eqs[i].lhs, known);
        let b = count_unknowns(&eqs[i].rhs, known);
        if (a == 1 && b == 0) || (a == 0 && b == 1) {
            return Some(i);
        }
        i = i + 1;
    }
    None
}

fn unknown_of(eq: &Equation, known: &Assignment) -> (v: String)
    requires
        single_unknown(eq.deep_view(), known@),
    ensures
        v@ == the_unknown(eq.deep_view(), known@),
        !is_known(known@, v@),
{
    let l = collect_unknowns(&eq.lhs, known);
    proof {
        lemma_unknowns_acc(eq.lhs.deep_view(), known@, seq![]);
        lemma_unknowns_acc(eq.rhs.deep_view(), known@, seq![]);
    }
    if l.len() == 1 {
        assert(l.deep_view()[0] == l@[0]@);
        assert(unknowns(eq.lhs.deep_view(), known@).contains(l@[0]@));
        l[0].clone()
    } else {
        let r = collect_unknowns(&eq.rhs, known);
        assert(r.deep_view()[0] == r@[0]@);
        assert(unknowns(eq.rhs.deep_view(), known@).contains(r@[0]@));
        r[0].clone()
    }
}

/// Solve a list of equations by constraint propagation.
///
/// Algorithm:
///   1. Find an equation with exactly one unknown variable.
///   2. Isolate that variable algebraically and compute its value.
///   3. Record it; substitute it into all remaining equations.
///   4. Remove the solved equation; repeat.
///
/// Returns `SolverError::InsufficientInformation` if no progress can be
/// made while unknowns remain.
pub fn solve(equations: Vec<Equation>) -> (r: Result<Solution, SolverError>)
    ensures
        match r {
            Ok(s) => spec_solve(equations.deep_view()) == Ok::<_, ErrorView>((s.values@, s.steps.deep_view())),
            Err(e) => spec_solve(equations.deep_view()) == Err::<(Seq<(Seq<char>, Rational)>, Seq<Seq<char>>), _>(
                e.deep_view(),
            ),
        },
{
    // Pre-flight scope checks.
    check_domain(&equations)?;
    check_degree(&equations)?;

    let ghost input = equations.deep_view();
    let ghost target = spec_solve(input);
    let mut known = Assignment::new();
    let mut steps: Vec<String> = Vec::new();
    let mut remaining: Vec<Equation> = equations;
    assert(steps.deep_view() =~= seq![]);

    loop
        invariant
            target == spec_solve_loop(remaining.deep_view(), known@, steps.deep_view()),
            target == spec_solve(input),
            input == equations.deep_view(),
        decreases remaining@.len(),
    {
        let ghost before = remaining.deep_view();
        proof {
            lemma_retain_unsolved(before, known@);
        }
        // Drop the equations that are fully known now.
        remaining = retain_unsolved_eqs(&remaining, &known);
        let ghost rest = remaining.deep_view();
        assert(rest == retain_unsolved(before, known@));
        if remaining.len() == 0 {
            assert(target == Ok::<_, ErrorView>((known@, steps.deep_view())));
            return Ok(Solution { values: known, steps });
        }
        match find_single(&remaining, &known) {
            // Every remaining equation has an unknown, and none has exactly one.
            None => {
                assert(target == Err::<(Seq<(Seq<char>, Rational)>, Seq<Seq<char>>), _>(ErrorView::InsufficientInformation));
                return Err(SolverError::InsufficientInformation);
            },
            Some(idx) => {
                proof {
                    lemma_first_single(remaining.deep_view(), known@, 0);
                }
                assert(remaining.deep_view()[idx as int] == remaining@[idx as int].deep_view());
                let var = unknown_of(&remaining[idx], &known);
                let value = match isolate(&remaining[idx], var.as_str(), &known) {
                    Ok(v) => v,
                    Err(e) => {
                        assert(target == Err::<(Seq<(Seq<char>, Rational)>, Seq<Seq<char>>), _>(e.deep_view()));
                        return Err(e);
                    },
                };

                // Record the step in human-readable form.
                let mut step = var.clone();
                push_str(&mut step, " = ");
                value.push_rendered(&mut step);
                let ghost st = steps.deep_view();
                steps.push(step);
                assert(steps.deep_view() =~= st.push(step_text(var@, value)));
                known.insert(var, value);

                // Substitute into all remaining equations, then drop the solved one.
                substitute_all(&mut remaining, &known);
                let ghost subst = remaining.deep_view();
                remaining.remove(idx);
                assert(subst =~= rest.map_values(|q: EquationView| substitute_equation(q, known@)));
                assert(remaining.deep_view() =~= subst.remove(idx as int));
            },
        }
    }
}


// ---------------------------------------------------------------------------
// Laws
// ---------------------------------------------------------------------------

/// A variable that occurs and is not known is among the unknowns.
proof fn lemma_occurs_unknown(e: ExprView, known: Seq<(Seq<char>, Rational)>, acc: Seq<Seq<char>>, n: Seq<char>)
    requires
        occurs_in(e, n),
        !is_known(known, n),
    ensures
        unknowns_acc(e, known, acc).contains(n),
    decreases e,
{
    lemma_unknowns_acc(e, known, acc);
    match e {
        ExprView::Variable(v) => {
            assert(v == n);
            if acc.contains(n) {
                assert(unknowns_acc(e, known, acc) == acc);
            } else {
                assert(unknowns_acc(e, known, acc) == acc.push(n));
                assert(acc.push(n)[acc.len() as int] == n);
            }
        },
        ExprView::Number(_) => {},
        ExprView::BinaryOp { left, right, .. } => {
            let acc1 = unknowns_acc(*left, known, acc);
            assert(unknowns_acc(e, known, acc) == unknowns_acc(*right, known, acc1));
            lemma_unknowns_acc(*right, known, acc1);
            if occurs_in(*left, n) {
                lemma_occurs_unknown(*left, known, acc, n);
                assert(unknowns_acc(*right, known, acc1).contains(n));
            } else {
                lemma_occurs_unknown(*right, known, acc1, n);
            }
        },
    }
}

/// Substituting values for other names leaves an occurrence in place.
proof fn lemma_substitute_keeps(e: ExprView, known: Seq<(Seq<char>, Rational)>, n: Seq<char>)
    requires
        occurs_in(e, n),
        lookup(known, n) is None,
    ensures
        occurs_in(spec_substitute(e, known), n),
    decreases e,
{
    if let ExprView::BinaryOp { left, right, .. } = e {
        if occurs_in(*left, n) {
            lemma_substitute_keeps(*left, known, n);
        } else {
            lemma_substitute_keeps(*right, known, n);
        }
    }
}

/// An unknown variable that occurs in the equations still occurs in those
/// that are kept.
proof fn lemma_retain_keeps(eqs: Seq<EquationView>, known: Seq<(Seq<char>, Rational)>, n: Seq<char>)
    requires
        occurs_in_equations(eqs, n),
        !is_known(known, n),
    ensures
        occurs_in_equations(retain_unsolved(eqs, known), n),
    decreases eqs.len(),
{
    let r = retain_unsolved(eqs.drop_last(), known);
    let j = choose|j: int| 0 <= j < eqs.len() && (occurs_in(#[trigger] eqs[j].lhs, n) || occurs_in(eqs[j].rhs, n));
    if j == eqs.len() - 1 {
        let q = eqs.last();
        if occurs_in(q.lhs, n) {
            lemma_occurs_unknown(q.lhs, known, seq![], n);
        } else {
            lemma_occurs_unknown(q.rhs, known, seq![], n);
        }
        assert(retain_unsolved(eqs, known) == r.push(q));
        assert(r.push(q)[r.len() as int] == q);
    } else {
        assert(eqs.drop_last()[j] == eqs[j]);
        lemma_retain_keeps(eqs.drop_last(), known, n);
        let k = choose|k: int| 0 <= k < r.len() && (occurs_in(#[trigger] r[k].lhs, n) || occurs_in(r[k].rhs, n));
        if has_unknowns(eqs.last(), known) {
            assert(r.push(eqs.last())[k] == r[k]);
        }
    }
}

/// In an equation with exactly one unknown, every unknown variable that
/// occurs is that one.
proof fn lemma_single_unknown(eq: EquationView, known: Seq<(Seq<char>, Rational)>, n: Seq<char>)
    requires
        single_unknown(eq, known),
        occurs_in(eq.lhs, n) || occurs_in(eq.rhs, n),
        !is_known(known, n),
    ensures
        n == the_unknown(eq, known),
{
    if occurs_in(eq.lhs, n) {
        lemma_occurs_unknown(eq.lhs, known, seq![], n);
        let u = unknowns(eq.lhs, known);
        let j = choose|j: int| 0 <= j < u.len() && u[j] == n;
    } else {
        lemma_occurs_unknown(eq.rhs, known, seq![], n);
        let u = unknowns(eq.rhs, known);
        let j = choose|j: int| 0 <= j < u.len() && u[j] == n;
    }
}

/// The variables of the remaining equations and the known ones all end up
/// with values; known values never change, and each trace line names a
/// variable with its value.
proof fn lemma_solve_loop(
    remaining: Seq<EquationView>,
    known: Seq<(Seq<char>, Rational)>,
    steps: Seq<Seq<char>>,
    values: Seq<(Seq<char>, Rational)>,
    trace: Seq<Seq<char>>,
)
    requires
        sorted_keys(known),
        spec_solve_loop(remaining, known, steps) == Ok::<_, ErrorView>((values, trace)),
    ensures
        sorted_keys(values),
        forall|n: Seq<char>| occurs_in_equations(remaining, n) ==> #[trigger] lookup(values, n) is Some,
        forall|n: Seq<char>| #[trigger] lookup(known, n) is Some ==> lookup(values, n) == lookup(known, n),
        values.len() >= known.len(),
        trace.len() - steps.len() == values.len() - known.len(),
        forall|i: int| 0 <= i < steps.len() ==> trace[i] == #[trigger] steps[i],
        forall|i: int|
            steps.len() <= i < trace.len() ==> exists|n: Seq<char>|
                lookup(known, n) is None && #[trigger] trace[i] == step_text(n, lookup(values, n)->0)
                    && lookup(values, n) is Some,
    decreases remaining.len(),
{
    let rest = retain_unsolved(remaining, known);
    lemma_retain_unsolved(remaining, known);
    if rest.len() == 0 {
        assert forall|n: Seq<char>| occurs_in_equations(remaining, n) implies #[trigger] lookup(values, n) is Some by {
            if !is_known(known, n) {
                lemma_retain_keeps(remaining, known, n);
            }
        }
    } else {
        let idx = first_single(rest, known, 0)->0;
        lemma_first_single(rest, known, 0);
        let eq = rest[idx];
        let var = the_unknown(eq, known);
        let value = spec_isolate(eq, var, known)->Ok_0;
        let known2 = insert_sorted(known, var, value);
        let next = rest.map_values(|q: EquationView| substitute_equation(q, known2)).remove(idx);
        let steps2 = steps.push(step_text(var, value));
        // The solved variable was unknown.
        lemma_unknowns_acc(eq.lhs, known, seq![]);
        lemma_unknowns_acc(eq.rhs, known, seq![]);
        if count_unknowns_of(eq.lhs, known) == 1 {
            assert(unknowns(eq.lhs, known).contains(var));
        } else {
            assert(unknowns(eq.rhs, known).contains(var));
        }
        lemma_insert_sorted(known, var, value);
        lemma_solve_loop(next, known2, steps2, values, trace);
        assert forall|n: Seq<char>| occurs_in_equations(remaining, n) implies #[trigger] lookup(values, n) is Some by {
            if is_known(known, n) {
                assert(lookup(known2, n) is Some);
            } else if n == var {
                assert(lookup(known2, n) is Some);
            } else {
                lemma_retain_keeps(remaining, known, n);
                let j = choose|j: int| 0 <= j < rest.len() && (occurs_in(#[trigger] rest[j].lhs, n) || occurs_in(rest[j].rhs, n));
                if j == idx {
                    lemma_single_unknown(eq, known, n);
                } else {
                    let k = if j < idx { j } else { j - 1 };
                    let sub = rest.map_values(|q: EquationView| substitute_equation(q, known2));
                    assert(next[k] == sub[j]);
                    assert(lookup(known2, n) is None);
                    if occurs_in(rest[j].lhs, n) {
                        lemma_substitute_keeps(rest[j].lhs, known2, n);
                        assert(occurs_in(next[k].lhs, n));
                    } else {
                        lemma_substitute_keeps(rest[j].rhs, known2, n);
                        assert(occurs_in(next[k].rhs, n));
                    }
                }
            }
        }
        assert forall|n: Seq<char>| #[trigger] lookup(known, n) is Some implies lookup(values, n) == lookup(known, n) by {
            assert(n != var);
            assert(lookup(known2, n) == lookup(known, n));
        }
        assert forall|i: int| 0 <= i < steps.len() implies trace[i] == #[trigger] steps[i] by {
            assert(steps2[i] == steps[i]);
        }
        assert forall|i: int| steps.len() <= i < trace.len() implies exists|n: Seq<char>|
            lookup(known, n) is None && #[trigger] trace[i] == step_text(n, lookup(values, n)->0)
                && lookup(values, n) is Some by {
            if i == steps.len() {
                assert(trace[i] == steps2[i]);
                assert(trace[i] == step_text(var, value));
                assert(lookup(known2, var) == Some(value));
                assert(lookup(values, var) == Some(value));
            } else {
                let n = choose|n: Seq<char>| lookup(known2, n) is None && #[trigger] trace[i] == step_text(n, lookup(values, n)->0)
                    && lookup(values, n) is Some;
                assert(lookup(known, n) is None);
            }
        }
    }
}

/// A variable left after substitution was there before.
proof fn lemma_substitute_occurs_back(e: ExprView, known: Seq<(Seq<char>, Rational)>, x: Seq<char>)
    requires
        occurs_in(spec_substitute(e, known), x),
    ensures
        occurs_in(e, x),
    decreases e,
{
    if let ExprView::BinaryOp { left, right, .. } = e {
        if occurs_in(spec_substitute(*left, known), x) {
            lemma_substitute_occurs_back(*left, known, x);
        } else {
            lemma_substitute_occurs_back(*right, known, x);
        }
    }
}

/// An unknown that was not already collected occurs in the expression.
proof fn lemma_unknowns_occur(e: ExprView, known: Seq<(Seq<char>, Rational)>, acc: Seq<Seq<char>>, x: Seq<char>)
    requires
        unknowns_acc(e, known, acc).contains(x),
    ensures
        acc.contains(x) || occurs_in(e, x),
    decreases e,
{
    match e {
        ExprView::Variable(v) => {
            if !(is_known(known, v) || acc.contains(v)) {
                assert(unknowns_acc(e, known, acc) == acc.push(v));
                let j = choose|j: int| 0 <= j < acc.push(v).len() && acc.push(v)[j] == x;
                if j < acc.len() {
                    assert(acc[j] == x);
                }
            } else {
                assert(unknowns_acc(e, known, acc) == acc);
            }
        },
        ExprView::Number(_) => {
            assert(unknowns_acc(e, known, acc) == acc);
        },
        ExprView::BinaryOp { left, right, .. } => {
            let acc1 = unknowns_acc(*left, known, acc);
            assert(unknowns_acc(e, known, acc) == unknowns_acc(*right, known, acc1));
            lemma_unknowns_occur(*right, known, acc1, x);
            if acc1.contains(x) {
                lemma_unknowns_occur(*left, known, acc, x);
            }
        },
    }
}

/// The names solved from here on, in order: each was unknown, gets a
/// value and one trace line, and each is a different variable; every
/// variable that ends up with a value was known or occurs in the
/// remaining equations.
proof fn lemma_solve_loop_names(
    remaining: Seq<EquationView>,
    known: Seq<(Seq<char>, Rational)>,
    steps: Seq<Seq<char>>,
    values: Seq<(Seq<char>, Rational)>,
    trace: Seq<Seq<char>>,
) -> (names: Seq<Seq<char>>)
    requires
        sorted_keys(known),
        spec_solve_loop(remaining, known, steps) == Ok::<_, ErrorView>((values, trace)),
    ensures
        names.len() == trace.len() - steps.len(),
        forall|i: int|
            0 <= i < names.len() ==> lookup(known, #[trigger] names[i]) is None && lookup(values, names[i]) is Some
                && trace[steps.len() + i] == step_text(names[i], lookup(values, names[i])->0),
        forall|i: int, j: int| 0 <= i < j < names.len() ==> names[i] != names[j],
        forall|n: Seq<char>| #[trigger] lookup(values, n) is Some ==> lookup(known, n) is Some || occurs_in_equations(
            remaining,
            n,
        ),
    decreases remaining.len(),
{
    lemma_solve_loop(remaining, known, steps, values, trace);
    let rest = retain_unsolved(remaining, known);
    lemma_retain_unsolved(remaining, known);
    lemma_retain_members(remaining, known);
    if rest.len() == 0 {
        Seq::empty()
    } else {
        let idx = first_single(rest, known, 0)->0;
        lemma_first_single(rest, known, 0);
        let eq = rest[idx];
        let var = the_unknown(eq, known);
        let value = spec_isolate(eq, var, known)->Ok_0;
        let known2 = insert_sorted(known, var, value);
        let sub = rest.map_values(|q: EquationView| substitute_equation(q, known2));
        let next = sub.remove(idx);
        let steps2 = steps.push(step_text(var, value));
        lemma_unknowns_acc(eq.lhs, known, seq![]);
        lemma_unknowns_acc(eq.rhs, known, seq![]);
        // The solved variable was unknown, and occurs in its equation.
        if count_unknowns_of(eq.lhs, known) == 1 {
            assert(unknowns(eq.lhs, known).contains(var));
            lemma_unknowns_occur(eq.lhs, known, seq![], var);
        } else {
            assert(unknowns(eq.rhs, known).contains(var));
            lemma_unknowns_occur(eq.rhs, known, seq![], var);
        }
        assert(remaining.contains(eq));
        let m = choose|m: int| 0 <= m < remaining.len() && remaining[m] == eq;
        assert(occurs_in_equations(remaining, var)) by {
            assert(occurs_in(remaining[m].lhs, var) || occurs_in(remaining[m].rhs, var));
        }
        lemma_insert_sorted(known, var, value);
        lemma_solve_loop(next, known2, steps2, values, trace);
        let later = lemma_solve_loop_names(next, known2, steps2, values, trace);
        let names = seq![var] + later;
        assert(lookup(known2, var) == Some(value));
        assert forall|i: int| 0 <= i < names.len() implies lookup(known, #[trigger] names[i]) is None && lookup(values, names[i])
            is Some && trace[steps.len() + i] == step_text(names[i], lookup(values, names[i])->0) by {
            if i == 0 {
                assert(trace[steps.len() as int] == steps2[steps.len() as int]);
            } else {
                assert(names[i] == later[i - 1]);
                assert(lookup(known2, later[i - 1]) is None);
            }
        }
        assert forall|i: int, j: int| 0 <= i < j < names.len() implies names[i] != names[j] by {
            assert(names[j] == later[j - 1]);
            if i > 0 {
                assert(names[i] == later[i - 1]);
            } else {
                assert(lookup(known2, later[j - 1]) is None);
            }
        }
        assert forall|n: Seq<char>| #[trigger] lookup(values, n) is Some implies lookup(known, n) is Some
            || occurs_in_equations(remaining, n) by {
            if lookup(known2, n) is Some {
                if n != var {
                    assert(lookup(known, n) is Some);
                }
            } else {
                assert(occurs_in_equations(next, n));
                let k = choose|k: int| 0 <= k < next.len() && (occurs_in(#[trigger] next[k].lhs, n) || occurs_in(next[k].rhs, n));
                let j = if k < idx { k } else { k + 1 };
                assert(next[k] == sub[j]);
                if occurs_in(next[k].lhs, n) {
                    lemma_substitute_occurs_back(rest[j].lhs, known2, n);
                } else {
                    lemma_substitute_occurs_back(rest[j].rhs, known2, n);
                }
                assert(remaining.contains(rest[j]));
                let r = choose|r: int| 0 <= r < remaining.len() && remaining[r] == rest[j];
                assert(occurs_in(remaining[r].lhs, n) || occurs_in(remaining[r].rhs, n));
            }
        }
        names
    }
}

/// A successful solve binds exactly the variables of the equations, and
/// records one trace line for each, in the order they were solved: the
/// lines read `name = value` for names that are all different.
pub proof fn law_solve_binds_exactly(eqs: Seq<EquationView>, values: Seq<(Seq<char>, Rational)>, steps: Seq<Seq<char>>)
    requires
        spec_solve(eqs) == Ok::<_, ErrorView>((values, steps)),
    ensures
        forall|n: Seq<char>| #[trigger] lookup(values, n) is Some <==> occurs_in_equations(eqs, n),
        exists|names: Seq<Seq<char>>|
            #![trigger names.len()]
            names.len() == steps.len() && (forall|i: int, j: int| 0 <= i < j < names.len() ==> names[i] != names[j])
                && forall|i: int|
                0 <= i < names.len() ==> lookup(values, #[trigger] names[i]) is Some && steps[i] == step_text(
                    names[i],
                    lookup(values, names[i])->0,
                ),
{
    lemma_solve_loop(eqs, seq![], seq![], values, steps);
    let names = lemma_solve_loop_names(eqs, seq![], seq![], values, steps);
    assert forall|n: Seq<char>| #[trigger] lookup(values, n) is Some <==> occurs_in_equations(eqs, n) by {
        if lookup(values, n) is Some {
            assert(lookup(Seq::<(Seq<char>, Rational)>::empty(), n) is None);
        }
    }
    assert(names.len() == steps.len());
}

/// A successful solve gives a value to every variable of the equations.
pub proof fn law_solve_binds_every_variable(eqs: Seq<EquationView>, values: Seq<(Seq<char>, Rational)>, steps: Seq<Seq<char>>, n: Seq<char>)
    requires
        spec_solve(eqs) == Ok::<_, ErrorView>((values, steps)),
        occurs_in_equations(eqs, n),
    ensures
        lookup(values, n) is Some,
{
    lemma_solve_loop(eqs, seq![], seq![], values, steps);
}

/// A successful solve gives one trace line per solved variable, each
/// reading `name = value` with the value the variable ends up with; the
/// names are kept in order and each once.
pub proof fn law_solve_trace(eqs: Seq<EquationView>, values: Seq<(Seq<char>, Rational)>, steps: Seq<Seq<char>>)
    requires
        spec_solve(eqs) == Ok::<_, ErrorView>((values, steps)),
    ensures
        sorted_keys(values),
        steps.len() == values.len(),
        forall|i: int| 0 <= i < steps.len() ==> #[trigger] is_trace_line(steps[i], values),
{
    lemma_solve_loop(eqs, seq![], seq![], values, steps);
    assert forall|i: int| 0 <= i < steps.len() implies #[trigger] is_trace_line(steps[i], values) by {
        let n = choose|n: Seq<char>| lookup(Seq::<(Seq<char>, Rational)>::empty(), n) is None && #[trigger] steps[i] == step_text(n, lookup(values, n)->0)
            && lookup(values, n) is Some;
        assert(steps[i] == step_text(n, lookup(values, n)->0));
    }
}

/// The line `name = value` for a variable that has that value.
pub open spec fn is_trace_line(line: Seq<char>, values: Seq<(Seq<char>, Rational)>) -> bool {
    exists|n: Seq<char>| lookup(values, n) is Some && line == #[trigger] step_text(n, lookup(values, n)->0)
}


// Cross-multiplied forms of the inverse operations, over the integers.

#[verifier::spinoff_prover]
proof fn lemma_cancel(x: int, y: int, k: int)
    requires
        k != 0,
        x * k == y * k,
    ensures
        x == y,
{
    assert((x - y) * k == 0) by (nonlinear_arith)
        requires x * k == y * k;
    assert(x - y == 0) by (nonlinear_arith)
        requires (x - y) * k == 0, k != 0;
}

/// `r * ((x + y) * b)` spread over the sum.
#[verifier::spinoff_prover]
proof fn lemma_spread(r: int, x: int, y: int, b: int)
    ensures
        r * ((x + y) * b) == (r * x) * b + (r * y) * b,
{
    assert((x + y) * b == x * b + y * b) by (nonlinear_arith);
    assert(r * (x * b + y * b) == r * (x * b) + r * (y * b)) by (nonlinear_arith);
    assert(r * (x * b) == (r * x) * b) by (nonlinear_arith);
    assert(r * (y * b) == (r * y) * b) by (nonlinear_arith);
}

#[verifier::spinoff_prover]
proof fn lemma_undo_add(rn: int, rd: int, kn: int, kd: int, vn: int, vd: int, bn: int, bd: int)
    requires
        vd > 0,
        kd > 0,
        vn * (rd * kd) == (rn * kd - kn * rd) * vd,
        bn * (vd * kd) == (vn * kd + kn * vd) * bd,
    ensures
        bn * rd == rn * bd,
{
    let p = vd * kd;
    assert(bn * rd * p == rd * (bn * p)) by (nonlinear_arith);
    lemma_spread(rd, vn * kd, kn * vd, bd);
    assert(rd * (vn * kd) == vn * (rd * kd)) by (nonlinear_arith);
    assert(rd * (kn * vd) == kn * vd * rd) by (nonlinear_arith);
    assert(((rn * kd - kn * rd) * vd) * bd == (rn * kd * vd) * bd - (kn * rd * vd) * bd) by (nonlinear_arith);
    assert((kn * vd * rd) * bd == (kn * rd * vd) * bd) by (nonlinear_arith);
    assert((rn * kd * vd) * bd == rn * bd * p) by (nonlinear_arith)
        requires p == vd * kd;
    assert(p != 0) by (nonlinear_arith)
        requires vd > 0, kd > 0, p == vd * kd;
    lemma_cancel(bn * rd, rn * bd, p);
}

#[verifier::spinoff_prover]
proof fn lemma_undo_sub(rn: int, rd: int, kn: int, kd: int, vn: int, vd: int, bn: int, bd: int)
    requires
        vd > 0,
        kd > 0,
        vn * (rd * kd) == (rn * kd + kn * rd) * vd,
        bn * (vd * kd) == (vn * kd - kn * vd) * bd,
    ensures
        bn * rd == rn * bd,
{
    let p = vd * kd;
    assert(bn * rd * p == rd * (bn * p)) by (nonlinear_arith);
    lemma_spread(rd, vn * kd, -(kn * vd), bd);
    assert(rd * (vn * kd) == vn * (rd * kd)) by (nonlinear_arith);
    assert(rd * -(kn * vd) == -(kn * vd * rd)) by (nonlinear_arith);
    assert((-(kn * vd * rd)) * bd == -((kn * vd * rd) * bd)) by (nonlinear_arith);
    assert(((rn * kd + kn * rd) * vd) * bd == (rn * kd * vd) * bd + (kn * rd * vd) * bd) by (nonlinear_arith);
    assert((kn * vd * rd) * bd == (kn * rd * vd) * bd) by (nonlinear_arith);
    assert((rn * kd * vd) * bd == rn * bd * p) by (nonlinear_arith)
        requires p == vd * kd;
    assert(p != 0) by (nonlinear_arith)
        requires vd > 0, kd > 0, p == vd * kd;
    lemma_cancel(bn * rd, rn * bd, p);
}

#[verifier::spinoff_prover]
proof fn lemma_undo_sub_from(rn: int, rd: int, kn: int, kd: int, vn: int, vd: int, bn: int, bd: int)
    requires
        vd > 0,
        kd > 0,
        vn * (kd * rd) == (kn * rd - rn * kd) * vd,
        bn * (kd * vd) == (kn * vd - vn * kd) * bd,
    ensures
        bn * rd == rn * bd,
{
    let p = kd * vd;
    assert(bn * rd * p == rd * (bn * p)) by (nonlinear_arith);
    lemma_spread(rd, kn * vd, -(vn * kd), bd);
    assert(rd * (kn * vd) == kn * vd * rd) by (nonlinear_arith);
    assert(rd * -(vn * kd) == -(vn * (kd * rd))) by (nonlinear_arith);
    assert((-(vn * (kd * rd))) * bd == -((vn * (kd * rd)) * bd)) by (nonlinear_arith);
    assert(((kn * rd - rn * kd) * vd) * bd == (kn * rd * vd) * bd - (rn * kd * vd) * bd) by (nonlinear_arith);
    assert((kn * vd * rd) * bd == (kn * rd * vd) * bd) by (nonlinear_arith);
    assert((rn * kd * vd) * bd == rn * bd * p) by (nonlinear_arith)
        requires p == kd * vd;
    assert(p != 0) by (nonlinear_arith)
        requires vd > 0, kd > 0, p == kd * vd;
    lemma_cancel(bn * rd, rn * bd, p);
}

#[verifier::spinoff_prover]
proof fn lemma_undo_mul(rn: int, rd: int, kn: int, kd: int, vn: int, vd: int, bn: int, bd: int)
    requires
        vd > 0,
        kd > 0,
        vn * (rd * kn) == (rn * kd) * vd,
        bn * (vd * kd) == (vn * kn) * bd,
    ensures
        bn * rd == rn * bd,
{
    let p = vd * kd;
    assert(bn * rd * p == rd * (bn * p)) by (nonlinear_arith);
    assert(rd * ((vn * kn) * bd) == (vn * (rd * kn)) * bd) by (nonlinear_arith);
    assert(((rn * kd) * vd) * bd == rn * bd * p) by (nonlinear_arith)
        requires p == vd * kd;
    assert(p != 0) by (nonlinear_arith)
        requires vd > 0, kd > 0, p == vd * kd;
    lemma_cancel(bn * rd, rn * bd, p);
}

#[verifier::spinoff_prover]
proof fn lemma_undo_div(rn: int, rd: int, kn: int, kd: int, vn: int, vd: int, bn: int, bd: int)
    requires
        vd > 0,
        kn != 0,
        vn * (rd * kd) == (rn * kn) * vd,
        bn * (vd * kn) == (vn * kd) * bd,
    ensures
        bn * rd == rn * bd,
{
    let p = vd * kn;
    assert(bn * rd * p == rd * (bn * p)) by (nonlinear_arith);
    assert(rd * ((vn * kd) * bd) == (vn * (rd * kd)) * bd) by (nonlinear_arith);
    assert(((rn * kn) * vd) * bd == rn * bd * p) by (nonlinear_arith)
        requires p == vd * kn;
    assert(p != 0) by (nonlinear_arith)
        requires vd > 0, kn != 0, p == vd * kn;
    lemma_cancel(bn * rd, rn * bd, p);
}

#[verifier::spinoff_prover]
proof fn lemma_undo_div_into(rn: int, rd: int, kn: int, kd: int, vn: int, vd: int, bn: int, bd: int)
    requires
        kd > 0,
        vn != 0,
        vn * (kd * rn) == (kn * rd) * vd,
        bn * (kd * vn) == (kn * vd) * bd,
    ensures
        bn * rd == rn * bd,
{
    let p = kd * vn;
    assert(bn * rd * p == rd * (bn * p)) by (nonlinear_arith);
    assert(rd * ((kn * vd) * bd) == ((kn * rd) * vd) * bd) by (nonlinear_arith);
    assert((vn * (kd * rn)) * bd == rn * bd * p) by (nonlinear_arith)
        requires p == kd * vn;
    assert(p != 0) by (nonlinear_arith)
        requires kd > 0, vn != 0, p == kd * vn;
    lemma_cancel(bn * rd, rn * bd, p);
}


/// Undoing an operation gives the result back: the operand that
/// `spec_invert_op` finds, put back into the operation beside the known
/// operand, gives the same number as the result, wherever that operation
/// has a value.
#[verifier::spinoff_prover]
pub proof fn law_invert_op_undoes(
    op: Operator,
    result: Rational,
    known: Rational,
    unknown_is_left: bool,
    v: Rational,
    back: Rational,
)
    requires
        result.denom() > 0,
        known.denom() > 0,
        spec_invert_op(op, result, known, unknown_is_left) == Ok::<_, ErrorView>(v),
        (if unknown_is_left {
            apply_op(op, v, known)
        } else {
            apply_op(op, known, v)
        }) == Ok::<_, ErrorView>(back),
    ensures
        same_value(back, result),
{
    let (rn, rd, kn, kd) = (result.numer(), result.denom(), known.numer(), known.denom());
    lemma_operation_values(result, known);
    lemma_operation_values(known, result);
    match (op, unknown_is_left) {
        (Operator::Add, _) => {
            lemma_operation_values(v, known);
            lemma_operation_values(known, v);
            let (vn, vd, bn, bd) = (v.numer(), v.denom(), back.numer(), back.denom());
            if !unknown_is_left {
                assert(bn * (vd * kd) == (vn * kd + kn * vd) * bd) by (nonlinear_arith)
                    requires bn * (kd * vd) == (kn * vd + vn * kd) * bd;
            }
            lemma_undo_add(rn, rd, kn, kd, vn, vd, bn, bd);
        },
        (Operator::Sub, true) => {
            lemma_operation_values(v, known);
            let (vn, vd, bn, bd) = (v.numer(), v.denom(), back.numer(), back.denom());
            lemma_undo_sub(rn, rd, kn, kd, vn, vd, bn, bd);
        },
        (Operator::Sub, false) => {
            lemma_operation_values(known, v);
            let (vn, vd, bn, bd) = (v.numer(), v.denom(), back.numer(), back.denom());
            lemma_undo_sub_from(rn, rd, kn, kd, vn, vd, bn, bd);
        },
        (Operator::Mul, _) => {
            lemma_operation_values(v, known);
            lemma_operation_values(known, v);
            let (vn, vd, bn, bd) = (v.numer(), v.denom(), back.numer(), back.denom());
            if !unknown_is_left {
                assert(bn * (vd * kd) == (vn * kn) * bd) by (nonlinear_arith)
                    requires bn * (kd * vd) == (kn * vn) * bd;
            }
            lemma_undo_mul(rn, rd, kn, kd, vn, vd, bn, bd);
        },
        (Operator::Div, true) => {
            lemma_operation_values(v, known);
            let (vn, vd, bn, bd) = (v.numer(), v.denom(), back.numer(), back.denom());
            lemma_undo_div(rn, rd, kn, kd, vn, vd, bn, bd);
        },
        (Operator::Div, false) => {
            lemma_operation_values(known, v);
            let (vn, vd, bn, bd) = (v.numer(), v.denom(), back.numer(), back.denom());
            lemma_undo_div_into(rn, rd, kn, kd, vn, vd, bn, bd);
        },
    }
}


/// Every number written in the expression is in lowest terms (what the
/// type's invariant gives every executable value).
pub open spec fn numbers_valid(e: ExprView) -> bool
    decreases e,
{
    match e {
        ExprView::Number(n) => in_lowest_terms(n),
        ExprView::Variable(_) => true,
        ExprView::BinaryOp { left, right, .. } => numbers_valid(*left) && numbers_valid(*right),
    }
}

/// Every known value is in lowest terms.
pub open spec fn values_valid(known: Seq<(Seq<char>, Rational)>) -> bool {
    forall|i: int| 0 <= i < known.len() ==> in_lowest_terms((#[trigger] known[i]).1)
}

proof fn lemma_evaluate_valid(e: ExprView)
    requires
        numbers_valid(e),
        spec_evaluate(e) is Ok,
    ensures
        in_lowest_terms(spec_evaluate(e)->Ok_0),
    decreases e,
{
    if let ExprView::BinaryOp { op, left, right } = e {
        lemma_evaluate_valid(*left);
        lemma_evaluate_valid(*right);
        lemma_operation_values(spec_evaluate(*left)->Ok_0, spec_evaluate(*right)->Ok_0);
    }
}

proof fn lemma_evaluate_no_variables(e: ExprView, x: Seq<char>)
    requires
        spec_evaluate(e) is Ok,
    ensures
        !occurs_in(e, x),
    decreases e,
{
    if let ExprView::BinaryOp { op, left, right } = e {
        lemma_evaluate_no_variables(*left, x);
        lemma_evaluate_no_variables(*right, x);
    }
}

proof fn lemma_substitute_valid(e: ExprView, known: Seq<(Seq<char>, Rational)>)
    requires
        numbers_valid(e),
        values_valid(known),
    ensures
        numbers_valid(spec_substitute(e, known)),
    decreases e,
{
    match e {
        ExprView::Variable(n) => {
            lemma_lookup_index(known, n);
            if lookup(known, n) is Some {
                let i = choose|i: int| 0 <= i < known.len() && (#[trigger] known[i]).0 == n && known[i].1 == lookup(known, n)->0;
            }
        },
        ExprView::Number(_) => {},
        ExprView::BinaryOp { left, right, .. } => {
            lemma_substitute_valid(*left, known);
            lemma_substitute_valid(*right, known);
        },
    }
}

/// After substitution only unknown names are left.
proof fn lemma_substitute_leaves_unknowns(e: ExprView, known: Seq<(Seq<char>, Rational)>, x: Seq<char>)
    requires
        occurs_in(spec_substitute(e, known), x),
    ensures
        lookup(known, x) is None,
    decreases e,
{
    if let ExprView::BinaryOp { left, right, .. } = e {
        if occurs_in(spec_substitute(*left, known), x) {
            lemma_substitute_leaves_unknowns(*left, known, x);
        } else {
            lemma_substitute_leaves_unknowns(*right, known, x);
        }
    }
}

/// Substituting values for names that do not occur changes nothing.
proof fn lemma_substitute_absent(e: ExprView, known: Seq<(Seq<char>, Rational)>)
    requires
        forall|x: Seq<char>| #[trigger] occurs_in(e, x) ==> lookup(known, x) is None,
    ensures
        spec_substitute(e, known) == e,
    decreases e,
{
    match e {
        ExprView::Variable(n) => {
            assert(occurs_in(e, n));
        },
        ExprView::Number(_) => {},
        ExprView::BinaryOp { left, right, .. } => {
            assert forall|x: Seq<char>| #[trigger] occurs_in(*left, x) implies lookup(known, x) is None by {
                assert(occurs_in(e, x));
            }
            assert forall|x: Seq<char>| #[trigger] occurs_in(*right, x) implies lookup(known, x) is None by {
                assert(occurs_in(e, x));
            }
            lemma_substitute_absent(*left, known);
            lemma_substitute_absent(*right, known);
        },
    }
}

/// Substituting the knowns with one more value is substituting the knowns,
/// then that value.
proof fn lemma_substitute_extended(e: ExprView, known: Seq<(Seq<char>, Rational)>, var: Seq<char>, v: Rational)
    requires
        sorted_keys(known),
        lookup(known, var) is None,
    ensures
        spec_substitute(e, insert_sorted(known, var, v)) == spec_substitute(
            spec_substitute(e, known),
            seq![(var, v)],
        ),
    decreases e,
{
    lemma_insert_sorted(known, var, v);
    let single = seq![(var, v)];
    assert(single.drop_first() =~= Seq::<(Seq<char>, Rational)>::empty());
    match e {
        ExprView::Variable(n) => {
            assert(lookup(insert_sorted(known, var, v), n) == if n == var {
                Some(v)
            } else {
                lookup(known, n)
            });
            lemma_lookup_single(var, v, n);
        },
        ExprView::Number(_) => {},
        ExprView::BinaryOp { left, right, .. } => {
            lemma_substitute_extended(*left, known, var, v);
            lemma_substitute_extended(*right, known, var, v);
        },
    }
}

proof fn lemma_lookup_single(var: Seq<char>, v: Rational, n: Seq<char>)
    ensures
        lookup(seq![(var, v)], n) == (if n == var {
            Some(v)
        } else {
            None
        }),
{
    let single = seq![(var, v)];
    assert(single.len() == 1);
    assert(single[0] == (var, v));
    assert(single.drop_first() =~= Seq::<(Seq<char>, Rational)>::empty());
    assert(lookup(single.drop_first(), n) is None);
}

/// A side whose value is found by evaluation, with the solved value in
/// place: it is the same expression, with the same value.
proof fn lemma_closed_side(e: ExprView, known: Seq<(Seq<char>, Rational)>, var: Seq<char>, v: Rational)
    requires
        sorted_keys(known),
        lookup(known, var) is None,
        spec_evaluate(spec_substitute(e, known)) is Ok,
    ensures
        spec_substitute(e, insert_sorted(known, var, v)) == spec_substitute(e, known),
{
    lemma_substitute_extended(e, known, var, v);
    let se = spec_substitute(e, known);
    assert forall|x: Seq<char>| #[trigger] occurs_in(se, x) implies lookup(seq![(var, v)], x) is None by {
        lemma_evaluate_no_variables(se, x);
    }
    lemma_substitute_absent(se, seq![(var, v)]);
}

/// The operation side with the solved value in place: the unknown operand
/// becomes the value, the other operand stays.
proof fn lemma_operation_side(
    e: ExprView,
    known: Seq<(Seq<char>, Rational)>,
    var: Seq<char>,
    v: Rational,
    op: Operator,
    left: ExprView,
    right: ExprView,
)
    requires
        sorted_keys(known),
        lookup(known, var) is None,
        spec_substitute(e, known) == (ExprView::BinaryOp { op, left: Box::new(left), right: Box::new(right) }),
        (is_var(left, var) && count_unknowns_of(right, known) == 0) || (is_var(right, var) && count_unknowns_of(
            left,
            known,
        ) == 0),
    ensures
        spec_substitute(e, insert_sorted(known, var, v)) == (if is_var(left, var) && count_unknowns_of(right, known)
            == 0 {
            ExprView::BinaryOp { op, left: Box::new(ExprView::Number(v)), right: Box::new(right) }
        } else {
            ExprView::BinaryOp { op, left: Box::new(left), right: Box::new(ExprView::Number(v)) }
        }),
{
    lemma_substitute_extended(e, known, var, v);
    let single = seq![(var, v)];
    assert(single.drop_first() =~= Seq::<(Seq<char>, Rational)>::empty());
    assert(lookup(single, var) == Some(v));
    let se = spec_substitute(e, known);
    // The operand without unknowns holds no variable: it came out of the
    // substitution, so every name left in it is unknown.
    let other = if is_var(left, var) && count_unknowns_of(right, known) == 0 {
        right
    } else {
        left
    };
    assert forall|x: Seq<char>| #[trigger] occurs_in(other, x) implies lookup(single, x) is None by {
        assert(occurs_in(se, x));
        lemma_substitute_leaves_unknowns(e, known, x);
        lemma_occurs_unknown(other, known, seq![], x);
        lemma_lookup_single(var, v, x);
    }
    lemma_substitute_absent(other, single);
    assert(spec_substitute(se, single) == ExprView::BinaryOp {
        op,
        left: Box::new(spec_substitute(left, single)),
        right: Box::new(spec_substitute(right, single)),
    });
    if is_var(left, var) && count_unknowns_of(right, known) == 0 {
        assert(spec_substitute(left, single) == ExprView::Number(v));
    } else {
        assert(spec_substitute(right, single) == ExprView::Number(v));
    }
}


/// One side is an operation with the unknown as an operand and the other
/// side is evaluated: with the found value in place, the operation side
/// has the other side's value.
proof fn lemma_operation_case(
    op_side: ExprView,
    other_side: ExprView,
    var: Seq<char>,
    known: Seq<(Seq<char>, Rational)>,
    v: Rational,
    x: Rational,
    y: Rational,
)
    requires
        sorted_keys(known),
        values_valid(known),
        numbers_valid(op_side),
        numbers_valid(other_side),
        lookup(known, var) is None,
        isolate_in_op(spec_substitute(op_side, known), spec_substitute(other_side, known), var, known) == Some(
            Ok::<_, ErrorView>(v),
        ),
        spec_evaluate(spec_substitute(op_side, insert_sorted(known, var, v))) == Ok::<_, ErrorView>(x),
        spec_evaluate(spec_substitute(other_side, insert_sorted(known, var, v))) == Ok::<_, ErrorView>(y),
    ensures
        same_value(x, y),
{
    let os = spec_substitute(op_side, known);
    let ts = spec_substitute(other_side, known);
    lemma_substitute_valid(op_side, known);
    lemma_substitute_valid(other_side, known);
    if let ExprView::BinaryOp { op, left, right } = os {
        let value = spec_evaluate(ts)->Ok_0;
        lemma_evaluate_valid(ts);
        lemma_closed_side(other_side, known, var, v);
        assert(y == value);
        lemma_operation_side(op_side, known, var, v, op, *left, *right);
        let subbed = spec_substitute(op_side, insert_sorted(known, var, v));
        assert(spec_evaluate(ExprView::Number(v)) == Ok::<_, ErrorView>(v));
        if is_var(*left, var) && count_unknowns_of(*right, known) == 0 {
            let rv = spec_evaluate(*right)->Ok_0;
            lemma_evaluate_valid(*right);
            assert(subbed == ExprView::BinaryOp { op, left: Box::new(ExprView::Number(v)), right: right });
            assert(spec_evaluate(subbed) == apply_op(op, v, rv));
            law_invert_op_undoes(op, value, rv, true, v, x);
        } else {
            let lv = spec_evaluate(*left)->Ok_0;
            lemma_evaluate_valid(*left);
            assert(subbed == ExprView::BinaryOp { op, left: left, right: Box::new(ExprView::Number(v)) });
            assert(spec_evaluate(subbed) == apply_op(op, lv, v));
            law_invert_op_undoes(op, value, lv, false, v, x);
        }
    }
}

/// The value found for a variable solves the equation it was found from:
/// with the known values and the found one put in, both sides are the
/// same number wherever both can be evaluated.
pub proof fn law_isolate_solves(
    eq: EquationView,
    var: Seq<char>,
    known: Seq<(Seq<char>, Rational)>,
    v: Rational,
    a: Rational,
    b: Rational,
)
    requires
        sorted_keys(known),
        values_valid(known),
        numbers_valid(eq.lhs),
        numbers_valid(eq.rhs),
        lookup(known, var) is None,
        spec_isolate(eq, var, known) == Ok::<_, ErrorView>(v),
        spec_evaluate(spec_substitute(eq.lhs, insert_sorted(known, var, v))) == Ok::<_, ErrorView>(a),
        spec_evaluate(spec_substitute(eq.rhs, insert_sorted(known, var, v))) == Ok::<_, ErrorView>(b),
    ensures
        same_value(a, b),
{
    let lhs = spec_substitute(eq.lhs, known);
    let rhs = spec_substitute(eq.rhs, known);
    let single = seq![(var, v)];
    lemma_lookup_single(var, v, var);
    if is_var(lhs, var) && count_unknowns_of(rhs, known) == 0 {
        lemma_substitute_extended(eq.lhs, known, var, v);
        assert(spec_substitute(lhs, single) == ExprView::Number(v));
        lemma_closed_side(eq.rhs, known, var, v);
    } else if is_var(rhs, var) && count_unknowns_of(lhs, known) == 0 {
        lemma_substitute_extended(eq.rhs, known, var, v);
        assert(spec_substitute(rhs, single) == ExprView::Number(v));
        lemma_closed_side(eq.lhs, known, var, v);
    } else if isolate_in_op(rhs, lhs, var, known) is Some {
        lemma_operation_case(eq.rhs, eq.lhs, var, known, v, b, a);
    } else {
        lemma_operation_case(eq.lhs, eq.rhs, var, known, v, a, b);
    }
}

/// A side with every variable known: after substitution no variable is
/// left in it, so it has no unknowns either.
proof fn lemma_closed_substitute(e: ExprView, known: Seq<(Seq<char>, Rational)>)
    requires
        count_unknowns_of(e, known) == 0,
    ensures
        forall|x: Seq<char>| !#[trigger] occurs_in(spec_substitute(e, known), x),
        count_unknowns_of(spec_substitute(e, known), known) == 0,
{
    let se = spec_substitute(e, known);
    assert forall|x: Seq<char>| !#[trigger] occurs_in(se, x) by {
        if occurs_in(se, x) {
            lemma_substitute_leaves_unknowns(e, known, x);
            lemma_substitute_occurs_back(e, known, x);
            lemma_occurs_unknown(e, known, seq![], x);
        }
    }
    if unknowns(se, known).len() > 0 {
        let x = unknowns(se, known)[0];
        assert(unknowns_acc(se, known, seq![]).contains(x));
        lemma_unknowns_occur(se, known, seq![], x);
    }
}

/// What `isolate` gives for an operation with the unknown as one operand:
/// the operation inverted, from the value of the other side and the value
/// of the other operand, with the first error in that order.
pub open spec fn shape_value(op: Operator, other_side: ExprView, operand: ExprView, unknown_is_left: bool) -> Result<
    Rational,
    ErrorView,
> {
    match spec_evaluate(other_side) {
        Err(x) => Err(x),
        Ok(value) => match spec_evaluate(operand) {
            Err(x) => Err(x),
            Ok(k) => spec_invert_op(op, value, k, unknown_is_left),
        },
    }
}

/// The shapes that `isolate` handles, with `var` the one unknown and every
/// variable of `e` and `f` known: `var = f` and `f = var` give the value of
/// `f`; `var OP e = f`, `e OP var = f`, `f = var OP e` and `f = e OP var`
/// give OP inverted, from the value of `f` and the value of `e`.
pub proof fn law_isolate_shapes(
    var: Seq<char>,
    op: Operator,
    e: ExprView,
    f: ExprView,
    known: Seq<(Seq<char>, Rational)>,
)
    requires
        lookup(known, var) is None,
        count_unknowns_of(e, known) == 0,
        count_unknowns_of(f, known) == 0,
    ensures
        spec_isolate(EquationView { lhs: ExprView::Variable(var), rhs: f }, var, known) == spec_evaluate(
            spec_substitute(f, known),
        ),
        spec_isolate(EquationView { lhs: f, rhs: ExprView::Variable(var) }, var, known) == spec_evaluate(
            spec_substitute(f, known),
        ),
        spec_isolate(
            EquationView {
                lhs: ExprView::BinaryOp { op, left: Box::new(ExprView::Variable(var)), right: Box::new(e) },
                rhs: f,
            },
            var,
            known,
        ) == shape_value(op, spec_substitute(f, known), spec_substitute(e, known), true),
        spec_isolate(
            EquationView {
                lhs: ExprView::BinaryOp { op, left: Box::new(e), right: Box::new(ExprView::Variable(var)) },
                rhs: f,
            },
            var,
            known,
        ) == shape_value(op, spec_substitute(f, known), spec_substitute(e, known), false),
        spec_isolate(
            EquationView {
                lhs: f,
                rhs: ExprView::BinaryOp { op, left: Box::new(ExprView::Variable(var)), right: Box::new(e) },
            },
            var,
            known,
        ) == shape_value(op, spec_substitute(f, known), spec_substitute(e, known), true),
        spec_isolate(
            EquationView {
                lhs: f,
                rhs: ExprView::BinaryOp { op, left: Box::new(e), right: Box::new(ExprView::Variable(var)) },
            },
            var,
            known,
        ) == shape_value(op, spec_substitute(f, known), spec_substitute(e, known), false),
{
    lemma_closed_substitute(e, known);
    lemma_closed_substitute(f, known);
    let se = spec_substitute(e, known);
    let sf = spec_substitute(f, known);
    let v = ExprView::Variable(var);
    assert(spec_substitute(v, known) == v);
    assert(!occurs_in(se, var) && !occurs_in(sf, var));
    assert(!is_var(se, var) && !is_var(sf, var));
    if let ExprView::BinaryOp { left, right, .. } = sf {
        assert(!occurs_in(*left, var) && !occurs_in(*right, var));
        assert(!is_var(*left, var) && !is_var(*right, var));
        assert(isolate_in_op(sf, ExprView::BinaryOp { op, left: Box::new(v), right: Box::new(se) }, var, known) is None);
        assert(isolate_in_op(sf, ExprView::BinaryOp { op, left: Box::new(se), right: Box::new(v) }, var, known) is None);
    }
}


// Cross-multiplied forms of solving an operation back, over the integers:
// from `r = x op k` and the inverse `v`, the value `v` is `x`.

#[verifier::spinoff_prover]
proof fn lemma_redo_add(xn: int, xd: int, kn: int, kd: int, rn: int, rd: int, vn: int, vd: int)
    requires
        rd > 0,
        kd > 0,
        rn * (xd * kd) == (xn * kd + kn * xd) * rd,
        vn * (rd * kd) == (rn * kd - kn * rd) * vd,
    ensures
        vn * xd == xn * vd,
{
    let m = rd * kd;
    assert(vn * xd * m == xd * (vn * (rd * kd))) by (nonlinear_arith)
        requires m == rd * kd;
    lemma_spread(xd, rn * kd, -(kn * rd), vd);
    assert(xd * (rn * kd) == rn * (xd * kd)) by (nonlinear_arith);
    assert(xd * -(kn * rd) == -(kn * rd * xd)) by (nonlinear_arith);
    assert((-(kn * rd * xd)) * vd == -((kn * rd * xd) * vd)) by (nonlinear_arith);
    assert(((xn * kd + kn * xd) * rd) * vd == (xn * kd * rd) * vd + (kn * xd * rd) * vd) by (nonlinear_arith);
    assert((kn * xd * rd) * vd == (kn * rd * xd) * vd) by (nonlinear_arith);
    assert((xn * kd * rd) * vd == xn * vd * m) by (nonlinear_arith)
        requires m == rd * kd;
    assert(m != 0) by (nonlinear_arith)
        requires m == rd * kd, rd > 0, kd > 0;
    lemma_cancel(vn * xd, xn * vd, m);
}

#[verifier::spinoff_prover]
proof fn lemma_redo_sub(xn: int, xd: int, kn: int, kd: int, rn: int, rd: int, vn: int, vd: int)
    requires
        rd > 0,
        kd > 0,
        rn * (xd * kd) == (xn * kd - kn * xd) * rd,
        vn * (rd * kd) == (rn * kd + kn * rd) * vd,
    ensures
        vn * xd == xn * vd,
{
    let m = rd * kd;
    assert(vn * xd * m == xd * (vn * (rd * kd))) by (nonlinear_arith)
        requires m == rd * kd;
    lemma_spread(xd, rn * kd, kn * rd, vd);
    assert(xd * (rn * kd) == rn * (xd * kd)) by (nonlinear_arith);
    assert(xd * (kn * rd) == kn * rd * xd) by (nonlinear_arith);
    assert(((xn * kd - kn * xd) * rd) * vd == (xn * kd * rd) * vd - (kn * xd * rd) * vd) by (nonlinear_arith);
    assert((kn * xd * rd) * vd == (kn * rd * xd) * vd) by (nonlinear_arith);
    assert((xn * kd * rd) * vd == xn * vd * m) by (nonlinear_arith)
        requires m == rd * kd;
    assert(m != 0) by (nonlinear_arith)
        requires m == rd * kd, rd > 0, kd > 0;
    lemma_cancel(vn * xd, xn * vd, m);
}

#[verifier::spinoff_prover]
proof fn lemma_redo_sub_from(xn: int, xd: int, kn: int, kd: int, rn: int, rd: int, vn: int, vd: int)
    requires
        rd > 0,
        kd > 0,
        rn * (kd * xd) == (kn * xd - xn * kd) * rd,
        vn * (kd * rd) == (kn * rd - rn * kd) * vd,
    ensures
        vn * xd == xn * vd,
{
    let m = kd * rd;
    assert(vn * xd * m == xd * (vn * (kd * rd))) by (nonlinear_arith)
        requires m == kd * rd;
    lemma_spread(xd, kn * rd, -(rn * kd), vd);
    assert(xd * (kn * rd) == kn * rd * xd) by (nonlinear_arith);
    assert(xd * -(rn * kd) == -(rn * (kd * xd))) by (nonlinear_arith);
    assert((-(rn * (kd * xd))) * vd == -((rn * (kd * xd)) * vd)) by (nonlinear_arith);
    assert(((kn * xd - xn * kd) * rd) * vd == (kn * xd * rd) * vd - (xn * kd * rd) * vd) by (nonlinear_arith);
    assert((kn * xd * rd) * vd == (kn * rd * xd) * vd) by (nonlinear_arith);
    assert((xn * kd * rd) * vd == xn * vd * m) by (nonlinear_arith)
        requires m == kd * rd;
    assert(m != 0) by (nonlinear_arith)
        requires m == kd * rd, rd > 0, kd > 0;
    lemma_cancel(vn * xd, xn * vd, m);
}

#[verifier::spinoff_prover]
proof fn lemma_redo_mul(xn: int, xd: int, kn: int, kd: int, rn: int, rd: int, vn: int, vd: int)
    requires
        rd > 0,
        kn != 0,
        rn * (xd * kd) == (xn * kn) * rd,
        vn * (rd * kn) == (rn * kd) * vd,
    ensures
        vn * xd == xn * vd,
{
    let m = rd * kn;
    assert(vn * xd * m == xd * (vn * (rd * kn))) by (nonlinear_arith)
        requires m == rd * kn;
    assert(xd * ((rn * kd) * vd) == (rn * (xd * kd)) * vd) by (nonlinear_arith);
    assert(((xn * kn) * rd) * vd == xn * vd * m) by (nonlinear_arith)
        requires m == rd * kn;
    assert(m != 0) by (nonlinear_arith)
        requires m == rd * kn, rd > 0, kn != 0;
    lemma_cancel(vn * xd, xn * vd, m);
}

#[verifier::spinoff_prover]
proof fn lemma_redo_div(xn: int, xd: int, kn: int, kd: int, rn: int, rd: int, vn: int, vd: int)
    requires
        rd > 0,
        kd > 0,
        rn * (xd * kn) == (xn * kd) * rd,
        vn * (rd * kd) == (rn * kn) * vd,
    ensures
        vn * xd == xn * vd,
{
    let m = rd * kd;
    assert(vn * xd * m == xd * (vn * (rd * kd))) by (nonlinear_arith)
        requires m == rd * kd;
    assert(xd * ((rn * kn) * vd) == (rn * (xd * kn)) * vd) by (nonlinear_arith);
    assert(((xn * kd) * rd) * vd == xn * vd * m) by (nonlinear_arith)
        requires m == rd * kd;
    assert(m != 0) by (nonlinear_arith)
        requires m == rd * kd, rd > 0, kd > 0;
    lemma_cancel(vn * xd, xn * vd, m);
}

#[verifier::spinoff_prover]
proof fn lemma_redo_div_into(xn: int, xd: int, kn: int, kd: int, rn: int, rd: int, vn: int, vd: int)
    requires
        kd > 0,
        rn != 0,
        rn * (kd * xn) == (kn * xd) * rd,
        vn * (kd * rn) == (kn * rd) * vd,
    ensures
        vn * xd == xn * vd,
{
    let m = kd * rn;
    assert(vn * xd * m == xd * (vn * (kd * rn))) by (nonlinear_arith)
        requires m == kd * rn;
    assert(xd * ((kn * rd) * vd) == ((kn * xd) * rd) * vd) by (nonlinear_arith);
    assert((rn * (kd * xn)) * vd == xn * vd * m) by (nonlinear_arith)
        requires m == kd * rn;
    assert(m != 0) by (nonlinear_arith)
        requires m == kd * rn, kd > 0, rn != 0;
    lemma_cancel(vn * xd, xn * vd, m);
}

/// Solving an operation back finds the operand: if `r` is `x op k` (or
/// `k op x`) and `spec_invert_op` finds `v` from `r` and `k`, then `v` is `x`.
#[verifier::spinoff_prover]
proof fn lemma_invert_recovers(op: Operator, x: Rational, k: Rational, r: Rational, unknown_is_left: bool, v: Rational)
    requires
        in_lowest_terms(x),
        in_lowest_terms(k),
        (if unknown_is_left {
            op_value(op, x, k)
        } else {
            op_value(op, k, x)
        }) == Some(r),
        spec_invert_op(op, r, k, unknown_is_left) == Ok::<_, ErrorView>(v),
    ensures
        v == x,
{
    let (xn, xd, kn, kd) = (x.numer(), x.denom(), k.numer(), k.denom());
    lemma_operation_values(x, k);
    lemma_operation_values(k, x);
    let (rn, rd) = (r.numer(), r.denom());
    lemma_operation_values(r, k);
    lemma_operation_values(k, r);
    let (vn, vd) = (v.numer(), v.denom());
    match (op, unknown_is_left) {
        (Operator::Add, _) => {
            if !unknown_is_left {
                assert(rn * (xd * kd) == (xn * kd + kn * xd) * rd) by (nonlinear_arith)
                    requires rn * (kd * xd) == (kn * xd + xn * kd) * rd;
            }
            lemma_redo_add(xn, xd, kn, kd, rn, rd, vn, vd);
        },
        (Operator::Sub, true) => {
            lemma_redo_sub(xn, xd, kn, kd, rn, rd, vn, vd);
        },
        (Operator::Sub, false) => {
            lemma_redo_sub_from(xn, xd, kn, kd, rn, rd, vn, vd);
        },
        (Operator::Mul, _) => {
            if !unknown_is_left {
                assert(rn * (xd * kd) == (xn * kn) * rd) by (nonlinear_arith)
                    requires rn * (kd * xd) == (kn * xn) * rd;
            }
            lemma_redo_mul(xn, xd, kn, kd, rn, rd, vn, vd);
        },
        (Operator::Div, true) => {
            lemma_redo_div(xn, xd, kn, kd, rn, rd, vn, vd);
        },
        (Operator::Div, false) => {
            lemma_redo_div_into(xn, xd, kn, kd, rn, rd, vn, vd);
        },
    }
    law_lowest_terms_unique(v, x);
}


/// Each bound value is the value `env` gives that name.
pub open spec fn agrees_with(values: Seq<(Seq<char>, Rational)>, env: Map<Seq<char>, Rational>) -> bool {
    forall|i: int|
        0 <= i < values.len() ==> env.dom().contains((#[trigger] values[i]).0) && env[values[i].0] == values[i].1
}

/// Every value `env` gives is in lowest terms.
pub open spec fn env_valid(env: Map<Seq<char>, Rational>) -> bool {
    forall|x: Seq<char>| #[trigger] env.dom().contains(x) ==> in_lowest_terms(env[x])
}

/// Every number written in the equations is in lowest terms.
pub open spec fn equations_valid(eqs: Seq<EquationView>) -> bool {
    forall|i: int| 0 <= i < eqs.len() ==> numbers_valid((#[trigger] eqs[i]).lhs) && numbers_valid(eqs[i].rhs)
}

proof fn lemma_lookup_agrees(known: Seq<(Seq<char>, Rational)>, env: Map<Seq<char>, Rational>, n: Seq<char>)
    requires
        agrees_with(known, env),
        lookup(known, n) is Some,
    ensures
        env.dom().contains(n),
        env[n] == lookup(known, n)->0,
{
    lemma_lookup_index(known, n);
    let i = choose|i: int| 0 <= i < known.len() && (#[trigger] known[i]).0 == n && known[i].1 == lookup(known, n)->0;
}

/// Substituting values that agree with `env` keeps the value under `env`.
proof fn lemma_substitute_value(e: ExprView, known: Seq<(Seq<char>, Rational)>, env: Map<Seq<char>, Rational>)
    requires
        agrees_with(known, env),
    ensures
        value_in(spec_substitute(e, known), env) == value_in(e, env),
    decreases e,
{
    match e {
        ExprView::Variable(n) => {
            if lookup(known, n) is Some {
                lemma_lookup_agrees(known, env, n);
            }
        },
        ExprView::Number(_) => {},
        ExprView::BinaryOp { left, right, .. } => {
            lemma_substitute_value(*left, known, env);
            lemma_substitute_value(*right, known, env);
        },
    }
}

/// Evaluation and the value under any `env` agree where evaluation succeeds.
proof fn lemma_evaluate_value(e: ExprView, env: Map<Seq<char>, Rational>)
    requires
        spec_evaluate(e) is Ok,
    ensures
        value_in(e, env) == Some(spec_evaluate(e)->Ok_0),
    decreases e,
{
    if let ExprView::BinaryOp { op, left, right } = e {
        lemma_evaluate_value(*left, env);
        lemma_evaluate_value(*right, env);
    }
}

proof fn lemma_insert_elements(s: Seq<(Seq<char>, Rational)>, k: Seq<char>, v: Rational)
    ensures
        forall|i: int|
            0 <= i < insert_sorted(s, k, v).len() ==> #[trigger] insert_sorted(s, k, v)[i] == (k, v) || s.contains(
                insert_sorted(s, k, v)[i],
            ),
    decreases s.len(),
{
    let r = insert_sorted(s, k, v);
    if s.len() == 0 {
    } else if seq_lt(k, s[0].0) {
        assert forall|i: int| 0 <= i < r.len() implies #[trigger] r[i] == (k, v) || s.contains(r[i]) by {
            if i > 0 {
                assert(r[i] == s[i - 1]);
            }
        }
    } else {
        lemma_insert_elements(s.drop_first(), k, v);
        let t = insert_sorted(s.drop_first(), k, v);
        assert forall|i: int| 0 <= i < r.len() implies #[trigger] r[i] == (k, v) || s.contains(r[i]) by {
            if i == 0 {
                assert(r[0] == s[0]);
            } else {
                assert(r[i] == t[i - 1]);
                if s.drop_first().contains(t[i - 1]) {
                    let j = choose|j: int| 0 <= j < s.drop_first().len() && s.drop_first()[j] == t[i - 1];
                    assert(s[j + 1] == t[i - 1]);
                }
            }
        }
    }
}

proof fn lemma_insert_agrees(
    known: Seq<(Seq<char>, Rational)>,
    var: Seq<char>,
    v: Rational,
    env: Map<Seq<char>, Rational>,
)
    requires
        agrees_with(known, env),
        env.dom().contains(var),
        env[var] == v,
    ensures
        agrees_with(insert_sorted(known, var, v), env),
{
    lemma_insert_elements(known, var, v);
    let r = insert_sorted(known, var, v);
    assert forall|i: int| 0 <= i < r.len() implies env.dom().contains((#[trigger] r[i]).0) && env[r[i].0] == r[i].1 by {
        if r[i] != (var, v) {
            let j = choose|j: int| 0 <= j < known.len() && known[j] == r[i];
        }
    }
}

proof fn lemma_retain_members(eqs: Seq<EquationView>, known: Seq<(Seq<char>, Rational)>)
    ensures
        forall|i: int|
            0 <= i < retain_unsolved(eqs, known).len() ==> eqs.contains(#[trigger] retain_unsolved(eqs, known)[i]),
    decreases eqs.len(),
{
    if eqs.len() > 0 {
        lemma_retain_members(eqs.drop_last(), known);
        let r = retain_unsolved(eqs.drop_last(), known);
        let all = retain_unsolved(eqs, known);
        assert forall|i: int| 0 <= i < all.len() implies eqs.contains(#[trigger] all[i]) by {
            if i < r.len() {
                assert(all[i] == r[i]);
                let j = choose|j: int| 0 <= j < eqs.drop_last().len() && eqs.drop_last()[j] == r[i];
                assert(eqs[j] == r[i]);
            } else {
                assert(all[i] == eqs.last());
                assert(eqs[eqs.len() - 1] == eqs.last());
            }
        }
    }
}

/// The operation side of an equation that holds under `env`: solving it
/// back finds `env`'s value of the unknown.
proof fn lemma_isolate_op_finds(
    os: ExprView,
    ts: ExprView,
    var: Seq<char>,
    known: Seq<(Seq<char>, Rational)>,
    env: Map<Seq<char>, Rational>,
    v: Rational,
)
    requires
        numbers_valid(os),
        numbers_valid(ts),
        env_valid(env),
        value_in(os, env) is Some,
        value_in(os, env) == value_in(ts, env),
        isolate_in_op(os, ts, var, known) == Some(Ok::<_, ErrorView>(v)),
    ensures
        env.dom().contains(var),
        env[var] == v,
{
    if let ExprView::BinaryOp { op, left, right } = os {
        let value = spec_evaluate(ts)->Ok_0;
        lemma_evaluate_value(ts, env);
        lemma_evaluate_valid(ts);
        if is_var(*left, var) && count_unknowns_of(*right, known) == 0 {
            assert(occurs_in(*left, var));
            assert(occurs_in(os, var));
            lemma_value_needs_variables(os, env, var);
            let rv = spec_evaluate(*right)->Ok_0;
            lemma_evaluate_value(*right, env);
            lemma_evaluate_valid(*right);
            assert(value_in(*left, env) == Some(env[var]));
            assert(op_value(op, env[var], rv) == Some(value));
            lemma_invert_recovers(op, env[var], rv, value, true, v);
        } else {
            assert(occurs_in(*right, var));
            assert(occurs_in(os, var));
            lemma_value_needs_variables(os, env, var);
            let lv = spec_evaluate(*left)->Ok_0;
            lemma_evaluate_value(*left, env);
            lemma_evaluate_valid(*left);
            assert(value_in(*right, env) == Some(env[var]));
            assert(op_value(op, lv, env[var]) == Some(value));
            lemma_invert_recovers(op, env[var], lv, value, false, v);
        }
    }
}

/// An equation that holds under `env`, with the known values agreeing with
/// `env`: the value isolated for its unknown is `env`'s.
proof fn lemma_isolate_finds(
    eq: EquationView,
    var: Seq<char>,
    known: Seq<(Seq<char>, Rational)>,
    env: Map<Seq<char>, Rational>,
    v: Rational,
)
    requires
        agrees_with(known, env),
        values_valid(known),
        env_valid(env),
        numbers_valid(eq.lhs),
        numbers_valid(eq.rhs),
        holds_in(eq, env),
        spec_isolate(eq, var, known) == Ok::<_, ErrorView>(v),
    ensures
        env.dom().contains(var),
        env[var] == v,
{
    let lhs = spec_substitute(eq.lhs, known);
    let rhs = spec_substitute(eq.rhs, known);
    lemma_substitute_value(eq.lhs, known, env);
    lemma_substitute_value(eq.rhs, known, env);
    lemma_substitute_valid(eq.lhs, known);
    lemma_substitute_valid(eq.rhs, known);
    if is_var(lhs, var) && count_unknowns_of(rhs, known) == 0 {
        lemma_evaluate_value(rhs, env);
    } else if is_var(rhs, var) && count_unknowns_of(lhs, known) == 0 {
        lemma_evaluate_value(lhs, env);
    } else if isolate_in_op(rhs, lhs, var, known) is Some {
        lemma_isolate_op_finds(rhs, lhs, var, known, env, v);
    } else {
        lemma_isolate_op_finds(lhs, rhs, var, known, env, v);
    }
}

proof fn lemma_solve_loop_finds(
    remaining: Seq<EquationView>,
    known: Seq<(Seq<char>, Rational)>,
    steps: Seq<Seq<char>>,
    values: Seq<(Seq<char>, Rational)>,
    trace: Seq<Seq<char>>,
    env: Map<Seq<char>, Rational>,
)
    requires
        sorted_keys(known),
        spec_solve_loop(remaining, known, steps) == Ok::<_, ErrorView>((values, trace)),
        all_hold(remaining, env),
        equations_valid(remaining),
        agrees_with(known, env),
        env_valid(env),
    ensures
        agrees_with(values, env),
    decreases remaining.len(),
{
    let rest = retain_unsolved(remaining, known);
    lemma_retain_unsolved(remaining, known);
    lemma_retain_members(remaining, known);
    if rest.len() > 0 {
        let idx = first_single(rest, known, 0)->0;
        lemma_first_single(rest, known, 0);
        let eq = rest[idx];
        let var = the_unknown(eq, known);
        let value = spec_isolate(eq, var, known)->Ok_0;
        let known2 = insert_sorted(known, var, value);
        let sub = rest.map_values(|q: EquationView| substitute_equation(q, known2));
        let next = sub.remove(idx);
        // The equations kept hold and are valid.
        assert(remaining.contains(eq));
        let j = choose|j: int| 0 <= j < remaining.len() && remaining[j] == eq;
        assert(holds_in(remaining[j], env));
        assert(numbers_valid(remaining[j].lhs) && numbers_valid(remaining[j].rhs));
        assert forall|i: int| 0 <= i < known.len() implies in_lowest_terms((#[trigger] known[i]).1) by {
            assert(env.dom().contains(known[i].0));
        }
        lemma_isolate_finds(eq, var, known, env, value);
        // The solved variable was unknown.
        lemma_unknowns_acc(eq.lhs, known, seq![]);
        lemma_unknowns_acc(eq.rhs, known, seq![]);
        if count_unknowns_of(eq.lhs, known) == 1 {
            assert(unknowns(eq.lhs, known).contains(var));
        } else {
            assert(unknowns(eq.rhs, known).contains(var));
        }
        lemma_insert_sorted(known, var, value);
        lemma_insert_agrees(known, var, value, env);
        assert forall|i: int| 0 <= i < known2.len() implies in_lowest_terms((#[trigger] known2[i]).1) by {
            assert(env.dom().contains(known2[i].0));
        }
        assert forall|i: int| 0 <= i < next.len() implies holds_in(#[trigger] next[i], env) && numbers_valid(next[i].lhs)
            && numbers_valid(next[i].rhs) by {
            let k = if i < idx { i } else { i + 1 };
            assert(next[i] == sub[k]);
            assert(rest.len() == sub.len());
            assert(remaining.contains(rest[k]));
            let m = choose|m: int| 0 <= m < remaining.len() && remaining[m] == rest[k];
            assert(holds_in(remaining[m], env));
            assert(numbers_valid(remaining[m].lhs) && numbers_valid(remaining[m].rhs));
            lemma_substitute_value(rest[k].lhs, known2, env);
            lemma_substitute_value(rest[k].rhs, known2, env);
            lemma_substitute_valid(rest[k].lhs, known2);
            lemma_substitute_valid(rest[k].rhs, known2);
        }
        lemma_solve_loop_finds(next, known2, steps.push(step_text(var, value)), values, trace, env);
    }
}

/// When the equations have a solution, a successful solve finds it: every
/// value found is the solution's value of that variable (and, by
/// `law_solve_binds_every_variable`, every variable gets one).
pub proof fn law_solve_finds_solution(
    eqs: Seq<EquationView>,
    env: Map<Seq<char>, Rational>,
    values: Seq<(Seq<char>, Rational)>,
    steps: Seq<Seq<char>>,
)
    requires
        spec_solve(eqs) == Ok::<_, ErrorView>((values, steps)),
        all_hold(eqs, env),
        equations_valid(eqs),
        env_valid(env),
    ensures
        agrees_with(values, env),
{
    lemma_solve_loop_finds(eqs, seq![], seq![], values, steps, env);
}

} // verus!
