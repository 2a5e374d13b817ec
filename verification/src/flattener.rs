//! The flattener: nested expression trees to flat equations.
//!
//! Every rhs of the result is a leaf or one operation between two leaves;
//! nested sub-expressions are lifted into fresh variables `_t0`, `_t1`, ...
//! defined by equations of their own, placed before their use.
use vstd::prelude::*;
use crate::number::Rational;
use crate::text::{push_nat_digits, spec_nat_digits, law_nat_digits_injective};
use crate::semantics::{all_hold, holds_in, value_in, occurs_in, occurs_in_equations, lemma_value_needs_variables};
use crate::types::{Equation, EquationView, Expr, ExprView};

verus! {

/// The name of the `k`-th intermediate variable: `_t` and `k` in decimal.
pub open spec fn temp_name(k: nat) -> Seq<char> {
    seq!['_', 't'] + spec_nat_digits(k)
}

/// A counter for fresh intermediate variable names.
pub struct TempCounter(usize);

impl View for TempCounter {
    type V = nat;

    closed spec fn view(&self) -> nat {
        self.0 as nat
    }
}

impl TempCounter {
    pub fn new() -> (c: Self)
        ensures
            c@ == 0,
    {
        TempCounter(0)
    }

    /// The next fresh name; the counter moves on by one.
    pub fn next(&mut self) -> (name: String)
        requires
            old(self)@ < usize::MAX,
        ensures
            name@ == temp_name(old(self)@),
            final(self)@ == old(self)@ + 1,
    {
        let mut name = String::new();
        name.push('_');
        name.push('t');
        push_nat_digits(&mut name, self.0 as u64);
        assert(name@ =~= temp_name(self@));
        self.0 = self.0 + 1;
        name
    }
}

/// A number or a variable.
pub open spec fn is_leaf(e: ExprView) -> bool {
    e is Number || e is Variable
}

/// A leaf, or one operation between two leaves.
pub open spec fn is_flat(e: ExprView) -> bool {
    match e {
        ExprView::BinaryOp { left, right, .. } => is_leaf(*left) && is_leaf(*right),
        _ => true,
    }
}

/// The number of operations in an expression.
pub open spec fn op_count(e: ExprView) -> nat
    decreases e,
{
    match e {
        ExprView::BinaryOp { left, right, .. } => op_count(*left) + op_count(*right) + 1,
        _ => 0,
    }
}

/// Flattening one expression with the counter at `c`: the leaf that stands
/// for it, the equations emitted (innermost first, left before right), and
/// the counter afterwards.
pub open spec fn spec_flatten_expr(e: ExprView, c: nat) -> (ExprView, Seq<EquationView>, nat)
    decreases e,
{
    match e {
        ExprView::BinaryOp { op, left, right } => {
            let (hl, ol, c1) = spec_flatten_expr(*left, c);
            let (hr, or, c2) = spec_flatten_expr(*right, c1);
            let t = ExprView::Variable(temp_name(c2));
            (
                t,
                ol + or + seq![
                    EquationView {
                        lhs: t,
                        rhs: ExprView::BinaryOp { op, left: Box::new(hl), right: Box::new(hr) },
                    },
                ],
                c2 + 1,
            )
        },
        _ => (e, seq![], c),
    }
}

pub proof fn lemma_flatten_expr_counter(e: ExprView, c: nat)
    ensures
        spec_flatten_expr(e, c).2 == c + op_count(e),
        is_leaf(spec_flatten_expr(e, c).0),
        e is BinaryOp ==> spec_flatten_expr(e, c).1.len() > 0,
    decreases e,
{
    if let ExprView::BinaryOp { op, left, right } = e {
        lemma_flatten_expr_counter(*left, c);
        lemma_flatten_expr_counter(*right, spec_flatten_expr(*left, c).2);
    }
}

/// The emitted equations of one equation's rhs, with the last one naming
/// the equation's own lhs instead of a fresh variable.
pub open spec fn spec_flatten_equation(eq: EquationView, c: nat) -> (Seq<EquationView>, nat) {
    if is_flat(eq.rhs) {
        (seq![eq], c)
    } else {
        let (h, out, c2) = spec_flatten_expr(eq.rhs, c);
        if out.len() == 0 {
            (seq![EquationView { lhs: eq.lhs, rhs: h }], c2)
        } else {
            (out.update(out.len() - 1, EquationView { lhs: eq.lhs, rhs: out.last().rhs }), c2)
        }
    }
}

/// Flattening a list of equations with the counter at `c`; the counter
/// continues across equations so names never repeat.
pub open spec fn spec_flatten_from(eqs: Seq<EquationView>, c: nat) -> Seq<EquationView>
    decreases eqs.len(),
{
    if eqs.len() == 0 {
        seq![]
    } else {
        let (out, c2) = spec_flatten_equation(eqs[0], c);
        out + spec_flatten_from(eqs.drop_first(), c2)
    }
}

pub open spec fn spec_flatten(eqs: Seq<EquationView>) -> Seq<EquationView> {
    spec_flatten_from(eqs, 0)
}

/// How many fresh names flattening the equations takes.
pub open spec fn temps_needed(eqs: Seq<EquationView>) -> nat
    decreases eqs.len(),
{
    if eqs.len() == 0 {
        0
    } else {
        (if is_flat(eqs[0].rhs) {
            0
        } else {
            op_count(eqs[0].rhs)
        }) + temps_needed(eqs.drop_first())
    }
}

/// Flatten a single expression into a sequence of flat equations, returning
/// the leaf that stands for it.
fn flatten_expr(expr: Expr, counter: &mut TempCounter, out: &mut Vec<Equation>) -> (h: Expr)
    requires
        old(counter)@ + op_count(expr.deep_view()) <= usize::MAX,
    ensures
        ({
            let (sh, so, sc) = spec_flatten_expr(expr.deep_view(), old(counter)@);
            &&& h.deep_view() == sh
            &&& final(out).deep_view() == old(out).deep_view() + so
            &&& final(counter)@ == sc
        }),
    decreases expr,
{
    match expr {
        Expr::Number(_) | Expr::Variable(_) => {
            assert(out.deep_view() =~= out.deep_view() + seq![]);
            expr
        },
        Expr::BinaryOp { op, left, right } => {
            let ghost o0 = out.deep_view();
            let ghost c0 = counter@;
            proof {
                lemma_flatten_expr_counter(left.deep_view(), c0);
            }
            let flat_left = flatten_expr(*left, counter, out);
            proof {
                lemma_flatten_expr_counter(right.deep_view(), counter@);
            }
            let flat_right = flatten_expr(*right, counter, out);
            let flat_node = Expr::BinaryOp { op, left: Box::new(flat_left), right: Box::new(flat_right) };
            let temp = counter.next();
            let ghost o2 = out.deep_view();
            let new_eq = Equation::new(Expr::Variable(temp.clone()), flat_node);
            let ghost new_v = new_eq.deep_view();
            out.push(new_eq);
            proof {
                let (hl, ol, c1) = spec_flatten_expr(left.deep_view(), c0);
                let (hr, or, c2) = spec_flatten_expr(right.deep_view(), c1);
                assert(o2 =~= o0 + ol + or);
                assert(out.deep_view() =~= o2.push(new_v));
                assert(new_v == EquationView {
                        lhs: ExprView::Variable(temp_name(c2)),
                        rhs: ExprView::BinaryOp { op, left: Box::new(hl), right: Box::new(hr) },
                    });
                assert(out.deep_view() =~= o0 + (ol + or + seq![
                    EquationView {
                        lhs: ExprView::Variable(temp_name(c2)),
                        rhs: ExprView::BinaryOp { op, left: Box::new(hl), right: Box::new(hr) },
                    },
                ]));
            }
            Expr::Variable(temp)
        },
    }
}

fn is_leaf_expr(e: &Expr) -> (b: bool)
    ensures
        b == is_leaf(e.deep_view()),
{
    matches!(e, Expr::Number(_) | Expr::Variable(_))
}

fn is_flat_expr(e: &Expr) -> (b: bool)
    ensures
        b == is_flat(e.deep_view()),
{
    match e {
        Expr::Number(_) | Expr::Variable(_) => true,
        Expr::BinaryOp { left, right, .. } => is_leaf_expr(left) && is_leaf_expr(right),
    }
}

/// Flatten equations produced by `translator::translate`.
///
/// Each equation is processed in turn:
/// - If the rhs is a leaf, or one operation with leaf operands, the
///   equation is kept as-is.
/// - Otherwise sub-expressions are lifted into intermediate equations with
///   variables `_t0`, `_t1`, … and the equation's own lhs is assigned by the last
///   of them, so the definitions come before the final assignment.
pub fn flatten(equations: Vec<Equation>) -> (result: Vec<Equation>)
    requires
        temps_needed(equations.deep_view()) <= usize::MAX,
    ensures
        result.deep_view() == spec_flatten(equations.deep_view()),
{
    let mut counter = TempCounter::new();
    let mut result: Vec<Equation> = Vec::new();
    let ghost es = equations.deep_view();
    let mut i: usize = 0;
    assert(result.deep_view() =~= seq![]);
    assert(es.skip(0) =~= es);
    while i < equations.len()
        invariant
            i <= equations@.len(),
            es == equations.deep_view(),
            counter@ + temps_needed(es.skip(i as int)) <= usize::MAX,
            result.deep_view() + spec_flatten_from(es.skip(i as int), counter@) == spec_flatten(es),
        decreases equations@.len() - i,
    {
        let eq = equations[i].duplicate();
        let ghost rest = es.skip(i as int);
        assert(rest[0] == eq.deep_view());
        assert(rest.drop_first() =~= es.skip(i + 1));
        let ghost r0 = result.deep_view();
        let ghost c0 = counter@;
        if is_flat_expr(&eq.rhs) {
            result.push(eq);
            assert(result.deep_view() =~= r0 + seq![rest[0]]);
        } else {
            let mut intermediates: Vec<Equation> = Vec::new();
            proof {
                lemma_flatten_expr_counter(eq.rhs.deep_view(), c0);
            }
            let Equation { lhs, rhs } = eq;
            let ghost rhs_v = rhs.deep_view();
            let ghost lhs_v = lhs.deep_view();
            let flat_rhs = flatten_expr(rhs, &mut counter, &mut intermediates);
            let ghost (sh, so, sc) = spec_flatten_expr(rhs_v, c0);
            assert(intermediates.deep_view() =~= so);
            let n = intermediates.len();
            if n > 0 {
                let last = intermediates.pop().unwrap();
                intermediates.push(Equation::new(lhs, last.rhs));
                assert(intermediates.deep_view() =~= so.update(so.len() - 1, EquationView {
                    lhs: lhs_v,
                    rhs: so.last().rhs,
                }));
                let mut k: usize = 0;
                let ghost r1 = result.deep_view();
                while k < intermediates.len()
                    invariant
                        k <= intermediates@.len(),
                        result.deep_view() == r1 + intermediates.deep_view().subrange(0, k as int),
                    decreases intermediates@.len() - k,
                {
                    let ghost rk = result.deep_view();
                    let d = intermediates[k].duplicate();
                    assert(d.deep_view() == intermediates.deep_view()[k as int]);
                    result.push(d);
                    assert(result.deep_view() =~= rk.push(intermediates.deep_view()[k as int]));
                    assert(result.deep_view() =~= r1 + intermediates.deep_view().subrange(0, k + 1));
                    k = k + 1;
                }
                assert(intermediates.deep_view().subrange(0, intermediates@.len() as int)
                    =~= intermediates.deep_view());
            } else {
                result.push(Equation::new(lhs, flat_rhs));
            }
            assert(result.deep_view() =~= r0 + spec_flatten_equation(rest[0], c0).0);
        }
        proof {
            assert(spec_flatten_from(rest, c0) == spec_flatten_equation(rest[0], c0).0
                + spec_flatten_from(rest.drop_first(), spec_flatten_equation(rest[0], c0).1));
            assert(r0 + spec_flatten_from(rest, c0) =~= result.deep_view() + spec_flatten_from(
                es.skip(i + 1),
                counter@,
            ));
        }
        i = i + 1;
    }
    assert(es.skip(equations@.len() as int) =~= seq![]);
    assert(result.deep_view() =~= result.deep_view() + seq![]);
    result
}


/// The number of operations in an expression, if it fits in a `usize`.
fn op_count_checked(e: &Expr) -> (r: Option<usize>)
    ensures
        match r {
            Some(n) => n == op_count(e.deep_view()),
            None => op_count(e.deep_view()) > usize::MAX,
        },
    decreases e,
{
    match e {
        Expr::BinaryOp { left, right, .. } => {
            let l = op_count_checked(left)?;
            let r = op_count_checked(right)?;
            let s = l.checked_add(r)?;
            s.checked_add(1)
        },
        _ => Some(0),
    }
}

/// Whether the fresh names that flattening takes can be counted in a
/// `usize` (what `flatten` requires).
pub fn temps_fit(equations: &Vec<Equation>) -> (b: bool)
    ensures
        b == (temps_needed(equations.deep_view()) <= usize::MAX),
{
    let ghost es = equations.deep_view();
    let mut total: usize = 0;
    let mut i: usize = equations.len();
    assert(es.skip(es.len() as int) =~= seq![]);
    while i > 0
        invariant
            i <= es.len(),
            es == equations.deep_view(),
            total == temps_needed(es.skip(i as int)),
        decreases i,
    {
        let ghost rest = es.skip(i - 1);
        assert(rest[0] == equations@[i - 1].deep_view());
        assert(rest.drop_first() =~= es.skip(i as int));
        if !is_flat_expr(&equations[i - 1].rhs) {
            match op_count_checked(&equations[i - 1].rhs) {
                Some(n) => match total.checked_add(n) {
                    Some(t) => {
                        total = t;
                    },
                    None => {
                        proof {
                            lemma_temps_needed_suffix(es, i - 1);
                        }
                        return false;
                    },
                },
                None => {
                    proof {
                        lemma_temps_needed_suffix(es, i - 1);
                    }
                    return false;
                },
            }
        }
        i = i - 1;
    }
    assert(es.skip(0) =~= es);
    true
}

/// The fresh names taken by a suffix are no more than those of the whole.
proof fn lemma_temps_needed_suffix(es: Seq<EquationView>, k: int)
    requires
        0 <= k <= es.len(),
    ensures
        temps_needed(es.skip(k)) <= temps_needed(es),
    decreases k,
{
    if k > 0 {
        assert(es.drop_first().skip(k - 1) =~= es.skip(k));
        lemma_temps_needed_suffix(es.drop_first(), k - 1);
    } else {
        assert(es.skip(0) =~= es);
    }
}


// ---------------------------------------------------------------------------
// Laws
// ---------------------------------------------------------------------------

proof fn lemma_flatten_expr_flat(e: ExprView, c: nat)
    ensures
        forall|i: int|
            0 <= i < spec_flatten_expr(e, c).1.len() ==> is_flat(#[trigger] spec_flatten_expr(e, c).1[i].rhs)
                && spec_flatten_expr(e, c).1[i].rhs is BinaryOp,
    decreases e,
{
    if let ExprView::BinaryOp { op, left, right } = e {
        let (hl, ol, c1) = spec_flatten_expr(*left, c);
        let (hr, or, c2) = spec_flatten_expr(*right, c1);
        lemma_flatten_expr_flat(*left, c);
        lemma_flatten_expr_flat(*right, c1);
        lemma_flatten_expr_counter(*left, c);
        lemma_flatten_expr_counter(*right, c1);
        let out = spec_flatten_expr(e, c).1;
        assert forall|i: int| 0 <= i < out.len() implies is_flat(#[trigger] out[i].rhs) && out[i].rhs is BinaryOp by {
            if i < ol.len() {
                assert(out[i] == ol[i]);
            } else if i < ol.len() + or.len() {
                assert(out[i] == or[i - ol.len()]);
            }
        }
    }
}

proof fn lemma_flatten_equation_flat(eq: EquationView, c: nat)
    ensures
        forall|i: int|
            0 <= i < spec_flatten_equation(eq, c).0.len() ==> is_flat(#[trigger] spec_flatten_equation(eq, c).0[i].rhs),
{
    if !is_flat(eq.rhs) {
        lemma_flatten_expr_flat(eq.rhs, c);
        lemma_flatten_expr_counter(eq.rhs, c);
    }
}

proof fn lemma_flatten_from_flat(eqs: Seq<EquationView>, c: nat)
    ensures
        forall|i: int| 0 <= i < spec_flatten_from(eqs, c).len() ==> is_flat(#[trigger] spec_flatten_from(eqs, c)[i].rhs),
    decreases eqs.len(),
{
    if eqs.len() > 0 {
        let (out, c2) = spec_flatten_equation(eqs[0], c);
        lemma_flatten_equation_flat(eqs[0], c);
        lemma_flatten_from_flat(eqs.drop_first(), c2);
        let all = spec_flatten_from(eqs, c);
        let rest = spec_flatten_from(eqs.drop_first(), c2);
        assert forall|i: int| 0 <= i < all.len() implies is_flat(#[trigger] all[i].rhs) by {
            if i < out.len() {
                assert(all[i] == out[i]);
            } else {
                assert(all[i] == rest[i - out.len()]);
            }
        }
    }
}

/// Flattening yields flat equations: every right-hand side is a number, a
/// variable, or one operation between two of those.
pub proof fn law_flatten_output_is_flat(eqs: Seq<EquationView>)
    ensures
        forall|i: int| 0 <= i < spec_flatten(eqs).len() ==> is_flat(#[trigger] spec_flatten(eqs)[i].rhs),
{
    lemma_flatten_from_flat(eqs, 0);
}

/// Where the emitted equations all hold, the leaf standing for an expression
/// has the value of the expression, and an operation has a value.
proof fn lemma_flatten_expr_value(e: ExprView, c: nat, env: Map<Seq<char>, Rational>)
    requires
        all_hold(spec_flatten_expr(e, c).1, env),
    ensures
        value_in(spec_flatten_expr(e, c).0, env) == value_in(e, env),
        e is BinaryOp ==> value_in(e, env) is Some,
    decreases e,
{
    if let ExprView::BinaryOp { op, left, right } = e {
        let (hl, ol, c1) = spec_flatten_expr(*left, c);
        let (hr, or, c2) = spec_flatten_expr(*right, c1);
        let out = spec_flatten_expr(e, c).1;
        assert(out == ol + or + seq![
            EquationView {
                lhs: ExprView::Variable(temp_name(c2)),
                rhs: ExprView::BinaryOp { op, left: Box::new(hl), right: Box::new(hr) },
            },
        ]);
        assert forall|i: int| 0 <= i < ol.len() implies holds_in(#[trigger] ol[i], env) by {
            assert(out[i] == ol[i]);
        }
        assert forall|i: int| 0 <= i < or.len() implies holds_in(#[trigger] or[i], env) by {
            assert(out[ol.len() + i] == or[i]);
        }
        lemma_flatten_expr_value(*left, c, env);
        lemma_flatten_expr_value(*right, c1, env);
        let last = out[out.len() - 1];
        assert(holds_in(last, env));
    }
}

proof fn lemma_flatten_equation_sound(eq: EquationView, c: nat, env: Map<Seq<char>, Rational>)
    requires
        all_hold(spec_flatten_equation(eq, c).0, env),
    ensures
        holds_in(eq, env),
{
    if is_flat(eq.rhs) {
        assert(spec_flatten_equation(eq, c).0[0] == eq);
    } else {
        let (h, out, c2) = spec_flatten_expr(eq.rhs, c);
        lemma_flatten_expr_counter(eq.rhs, c);
        let res = spec_flatten_equation(eq, c).0;
        if let ExprView::BinaryOp { op, left, right } = eq.rhs {
            let (hl, ol, c1) = spec_flatten_expr(*left, c);
            let (hr, or, c3) = spec_flatten_expr(*right, c1);
            assert(out == ol + or + seq![
                EquationView {
                    lhs: ExprView::Variable(temp_name(c3)),
                    rhs: ExprView::BinaryOp { op, left: Box::new(hl), right: Box::new(hr) },
                },
            ]);
            assert(res == out.update(out.len() - 1, EquationView { lhs: eq.lhs, rhs: out.last().rhs }));
            assert forall|i: int| 0 <= i < ol.len() implies holds_in(#[trigger] ol[i], env) by {
                assert(res[i] == ol[i]);
            }
            assert forall|i: int| 0 <= i < or.len() implies holds_in(#[trigger] or[i], env) by {
                assert(res[ol.len() + i] == or[i]);
            }
            lemma_flatten_expr_value(*left, c, env);
            lemma_flatten_expr_value(*right, c1, env);
            assert(holds_in(res[res.len() - 1], env));
        }
    }
}

proof fn lemma_flatten_from_sound(eqs: Seq<EquationView>, c: nat, env: Map<Seq<char>, Rational>)
    requires
        all_hold(spec_flatten_from(eqs, c), env),
    ensures
        all_hold(eqs, env),
    decreases eqs.len(),
{
    if eqs.len() > 0 {
        let (out, c2) = spec_flatten_equation(eqs[0], c);
        let rest = spec_flatten_from(eqs.drop_first(), c2);
        let all = spec_flatten_from(eqs, c);
        assert(all == out + rest);
        assert forall|i: int| 0 <= i < out.len() implies holds_in(#[trigger] out[i], env) by {
            assert(all[i] == out[i]);
        }
        assert forall|i: int| 0 <= i < rest.len() implies holds_in(#[trigger] rest[i], env) by {
            assert(all[out.len() + i] == rest[i]);
        }
        lemma_flatten_equation_sound(eqs[0], c, env);
        lemma_flatten_from_sound(eqs.drop_first(), c2, env);
        assert forall|i: int| 0 <= i < eqs.len() implies holds_in(#[trigger] eqs[i], env) by {
            if i > 0 {
                assert(eqs[i] == eqs.drop_first()[i - 1]);
            }
        }
    }
}

/// Flattening keeps the meaning of the equations: any values of the
/// variables under which every flat equation holds make every given
/// equation hold too.
pub proof fn law_flatten_sound(eqs: Seq<EquationView>, env: Map<Seq<char>, Rational>)
    requires
        all_hold(spec_flatten(eqs), env),
    ensures
        all_hold(eqs, env),
{
    lemma_flatten_from_sound(eqs, 0, env);
}


/// Fresh names never repeat: different counts give different names; and
/// every fresh name starts with `_t`, so it cannot be a name that does not
/// start with `_`.
pub proof fn law_temp_names_fresh(a: nat, b: nat)
    ensures
        a != b ==> temp_name(a) != temp_name(b),
        temp_name(a).len() > 2 && temp_name(a)[0] == '_' && temp_name(a)[1] == 't',
{
    if temp_name(a) == temp_name(b) {
        assert(temp_name(a).skip(2) =~= spec_nat_digits(a));
        assert(temp_name(b).skip(2) =~= spec_nat_digits(b));
        law_nat_digits_injective(a, b);
    }
    lemma_digits_nonempty(a);
}

proof fn lemma_digits_nonempty(n: nat)
    ensures
        spec_nat_digits(n).len() >= 1,
    decreases n,
{
    if n >= 10 {
        lemma_digits_nonempty(n / 10);
    }
}


/// The values the fresh variables of `e` take, flattening from the counter
/// `c`, when the variables of `e` take theirs from `env`: each names the
/// value of the operation it stands for.
pub open spec fn temp_values(e: ExprView, c: nat, env: Map<Seq<char>, Rational>) -> Map<Seq<char>, Rational>
    decreases e,
{
    match e {
        ExprView::BinaryOp { op, left, right } => {
            let c1 = spec_flatten_expr(*left, c).2;
            let c2 = spec_flatten_expr(*right, c1).2;
            temp_values(*left, c, env).union_prefer_right(temp_values(*right, c1, env)).insert(
                temp_name(c2),
                value_in(e, env)->0,
            )
        },
        _ => Map::empty(),
    }
}

/// The values of all fresh variables of the equations, flattening from `c`.
pub open spec fn all_temp_values(eqs: Seq<EquationView>, c: nat, env: Map<Seq<char>, Rational>) -> Map<
    Seq<char>,
    Rational,
>
    decreases eqs.len(),
{
    if eqs.len() == 0 {
        Map::empty()
    } else {
        let here = if is_flat(eqs[0].rhs) {
            Map::empty()
        } else {
            temp_values(eqs[0].rhs, c, env)
        };
        here.union_prefer_right(all_temp_values(eqs.drop_first(), spec_flatten_equation(eqs[0], c).1, env))
    }
}

proof fn lemma_temp_values_dom(e: ExprView, c: nat, env: Map<Seq<char>, Rational>)
    ensures
        forall|n: Seq<char>| #[trigger] temp_values(e, c, env).dom().contains(n) ==> exists|k: nat|
            c <= k < c + op_count(e) && n == #[trigger] temp_name(k),
    decreases e,
{
    if let ExprView::BinaryOp { op, left, right } = e {
        lemma_flatten_expr_counter(*left, c);
        let c1 = spec_flatten_expr(*left, c).2;
        lemma_flatten_expr_counter(*right, c1);
        let c2 = spec_flatten_expr(*right, c1).2;
        lemma_temp_values_dom(*left, c, env);
        lemma_temp_values_dom(*right, c1, env);
        let ml = temp_values(*left, c, env);
        let mr = temp_values(*right, c1, env);
        assert forall|n: Seq<char>| #[trigger] temp_values(e, c, env).dom().contains(n) implies exists|k: nat|
            c <= k < c + op_count(e) && n == #[trigger] temp_name(k) by {
            if n == temp_name(c2) {
            } else if mr.dom().contains(n) {
                let k = choose|k: nat| c1 <= k < c1 + op_count(*right) && n == #[trigger] temp_name(k);
            } else {
                assert(ml.dom().contains(n));
                let k = choose|k: nat| c <= k < c + op_count(*left) && n == #[trigger] temp_name(k);
            }
        }
    }
}

proof fn lemma_all_temp_values_dom(eqs: Seq<EquationView>, c: nat, env: Map<Seq<char>, Rational>)
    ensures
        forall|n: Seq<char>| #[trigger] all_temp_values(eqs, c, env).dom().contains(n) ==> exists|k: nat|
            c <= k && n == #[trigger] temp_name(k),
    decreases eqs.len(),
{
    if eqs.len() > 0 {
        let c2 = spec_flatten_equation(eqs[0], c).1;
        if !is_flat(eqs[0].rhs) {
            lemma_flatten_expr_counter(eqs[0].rhs, c);
            lemma_temp_values_dom(eqs[0].rhs, c, env);
        }
        lemma_all_temp_values_dom(eqs.drop_first(), c2, env);
        let here = if is_flat(eqs[0].rhs) {
            Map::<Seq<char>, Rational>::empty()
        } else {
            temp_values(eqs[0].rhs, c, env)
        };
        let rest = all_temp_values(eqs.drop_first(), c2, env);
        assert forall|n: Seq<char>| #[trigger] all_temp_values(eqs, c, env).dom().contains(n) implies exists|k: nat|
            c <= k && n == #[trigger] temp_name(k) by {
            if rest.dom().contains(n) {
                let k = choose|k: nat| c2 <= k && n == #[trigger] temp_name(k);
            } else {
                assert(here.dom().contains(n));
                let k = choose|k: nat| c <= k < c + op_count(eqs[0].rhs) && n == #[trigger] temp_name(k);
            }
        }
    }
}

/// Values that agree on the variables of an expression give it the same
/// value.
proof fn lemma_value_agrees(e: ExprView, env: Map<Seq<char>, Rational>, big: Map<Seq<char>, Rational>)
    requires
        forall|x: Seq<char>| #[trigger] occurs_in(e, x) ==> big.dom().contains(x) && env.dom().contains(x) && big[x]
            == env[x],
    ensures
        value_in(e, big) == value_in(e, env),
    decreases e,
{
    match e {
        ExprView::Variable(v) => {
            assert(occurs_in(e, v));
        },
        ExprView::Number(_) => {},
        ExprView::BinaryOp { left, right, .. } => {
            assert forall|x: Seq<char>| #[trigger] occurs_in(*left, x) implies big.dom().contains(x) && env.dom().contains(x)
                && big[x] == env[x] by {
                assert(occurs_in(e, x));
            }
            assert forall|x: Seq<char>| #[trigger] occurs_in(*right, x) implies big.dom().contains(x) && env.dom().contains(x)
                && big[x] == env[x] by {
                assert(occurs_in(e, x));
            }
            lemma_value_agrees(*left, env, big);
            lemma_value_agrees(*right, env, big);
        },
    }
}

/// With the fresh variables given the values of what they stand for, the
/// emitted equations hold and the leaf standing for the expression has its
/// value.
proof fn lemma_flatten_expr_complete(
    e: ExprView,
    c: nat,
    env: Map<Seq<char>, Rational>,
    big: Map<Seq<char>, Rational>,
)
    requires
        value_in(e, env) is Some,
        forall|x: Seq<char>| #[trigger] occurs_in(e, x) ==> big.dom().contains(x) && big[x] == env[x],
        forall|n: Seq<char>| #[trigger] temp_values(e, c, env).dom().contains(n) ==> big.dom().contains(n) && big[n]
            == temp_values(e, c, env)[n],
    ensures
        all_hold(spec_flatten_expr(e, c).1, big),
        value_in(spec_flatten_expr(e, c).0, big) == value_in(e, env),
    decreases e,
{
    match e {
        ExprView::Variable(v) => {
            assert(occurs_in(e, v));
            lemma_value_needs_variables(e, env, v);
        },
        ExprView::Number(_) => {},
        ExprView::BinaryOp { op, left, right } => {
            lemma_flatten_expr_counter(*left, c);
            let (hl, ol, c1) = spec_flatten_expr(*left, c);
            lemma_flatten_expr_counter(*right, c1);
            let (hr, or, c2) = spec_flatten_expr(*right, c1);
            let ml = temp_values(*left, c, env);
            let mr = temp_values(*right, c1, env);
            let t = temp_name(c2);
            let all = temp_values(e, c, env);
            assert(all == ml.union_prefer_right(mr).insert(t, value_in(e, env)->0));
            lemma_temp_values_dom(*left, c, env);
            lemma_temp_values_dom(*right, c1, env);
            // The fresh names of the left part, of the right part and the
            // last one are all different.
            assert forall|n: Seq<char>| #[trigger] ml.dom().contains(n) implies big.dom().contains(n) && big[n] == ml[n] by {
                let k = choose|k: nat| c <= k < c + op_count(*left) && n == #[trigger] temp_name(k);
                law_temp_names_fresh(k, c2);
                if mr.dom().contains(n) {
                    let k2 = choose|k2: nat| c1 <= k2 < c1 + op_count(*right) && n == #[trigger] temp_name(k2);
                    law_temp_names_fresh(k, k2);
                }
                assert(all.dom().contains(n));
            }
            assert forall|n: Seq<char>| #[trigger] mr.dom().contains(n) implies big.dom().contains(n) && big[n] == mr[n] by {
                let k = choose|k: nat| c1 <= k < c1 + op_count(*right) && n == #[trigger] temp_name(k);
                law_temp_names_fresh(k, c2);
                assert(all.dom().contains(n));
            }
            assert forall|x: Seq<char>| #[trigger] occurs_in(*left, x) implies big.dom().contains(x) && big[x] == env[x] by {
                assert(occurs_in(e, x));
            }
            assert forall|x: Seq<char>| #[trigger] occurs_in(*right, x) implies big.dom().contains(x) && big[x] == env[x] by {
                assert(occurs_in(e, x));
            }
            lemma_flatten_expr_complete(*left, c, env, big);
            lemma_flatten_expr_complete(*right, c1, env, big);
            assert(all.dom().contains(t));
            assert(big[t] == value_in(e, env)->0);
            let out = spec_flatten_expr(e, c).1;
            let last = EquationView {
                lhs: ExprView::Variable(t),
                rhs: ExprView::BinaryOp { op, left: Box::new(hl), right: Box::new(hr) },
            };
            assert(out == ol + or + seq![last]);
            assert(holds_in(last, big));
            assert forall|i: int| 0 <= i < out.len() implies holds_in(#[trigger] out[i], big) by {
                if i < ol.len() {
                    assert(out[i] == ol[i]);
                } else if i < ol.len() + or.len() {
                    assert(out[i] == or[i - ol.len()]);
                }
            }
        },
    }
}

proof fn lemma_flatten_equation_complete(
    eq: EquationView,
    c: nat,
    env: Map<Seq<char>, Rational>,
    big: Map<Seq<char>, Rational>,
)
    requires
        holds_in(eq, env),
        forall|x: Seq<char>| #[trigger] occurs_in(eq.lhs, x) ==> big.dom().contains(x) && big[x] == env[x],
        forall|x: Seq<char>| #[trigger] occurs_in(eq.rhs, x) ==> big.dom().contains(x) && big[x] == env[x],
        !is_flat(eq.rhs) ==> forall|n: Seq<char>| #[trigger] temp_values(eq.rhs, c, env).dom().contains(n)
            ==> big.dom().contains(n) && big[n] == temp_values(eq.rhs, c, env)[n],
    ensures
        all_hold(spec_flatten_equation(eq, c).0, big),
{
    assert forall|x: Seq<char>| #[trigger] occurs_in(eq.lhs, x) implies big.dom().contains(x) && env.dom().contains(x)
        && big[x] == env[x] by {
        lemma_value_needs_variables(eq.lhs, env, x);
    }
    assert forall|x: Seq<char>| #[trigger] occurs_in(eq.rhs, x) implies big.dom().contains(x) && env.dom().contains(x)
        && big[x] == env[x] by {
        lemma_value_needs_variables(eq.rhs, env, x);
    }
    lemma_value_agrees(eq.lhs, env, big);
    lemma_value_agrees(eq.rhs, env, big);
    let res = spec_flatten_equation(eq, c).0;
    if is_flat(eq.rhs) {
        assert(res == seq![eq]);
        assert forall|i: int| 0 <= i < res.len() implies holds_in(#[trigger] res[i], big) by {
            assert(res[i] == eq);
        }
    } else {
        lemma_flatten_expr_counter(eq.rhs, c);
        if let ExprView::BinaryOp { op, left, right } = eq.rhs {
            let (hl, ol, c1) = spec_flatten_expr(*left, c);
            let (hr, or, c2) = spec_flatten_expr(*right, c1);
            let out = spec_flatten_expr(eq.rhs, c).1;
            let last = EquationView {
                lhs: ExprView::Variable(temp_name(c2)),
                rhs: ExprView::BinaryOp { op, left: Box::new(hl), right: Box::new(hr) },
            };
            assert(out == ol + or + seq![last]);
            lemma_flatten_expr_complete(eq.rhs, c, env, big);
            assert(holds_in(out[out.len() - 1], big));
            assert(res == out.update(out.len() - 1, EquationView { lhs: eq.lhs, rhs: out.last().rhs }));
            assert forall|i: int| 0 <= i < res.len() implies holds_in(#[trigger] res[i], big) by {
                if i < res.len() - 1 {
                    assert(res[i] == out[i]);
                }
            }
        }
    }
}

proof fn lemma_flatten_from_complete(
    eqs: Seq<EquationView>,
    c: nat,
    env: Map<Seq<char>, Rational>,
    big: Map<Seq<char>, Rational>,
)
    requires
        all_hold(eqs, env),
        forall|x: Seq<char>| #[trigger] occurs_in_equations(eqs, x) ==> big.dom().contains(x) && big[x] == env[x],
        forall|n: Seq<char>| #[trigger] all_temp_values(eqs, c, env).dom().contains(n) ==> big.dom().contains(n)
            && big[n] == all_temp_values(eqs, c, env)[n],
    ensures
        all_hold(spec_flatten_from(eqs, c), big),
    decreases eqs.len(),
{
    if eqs.len() > 0 {
        let eq = eqs[0];
        let (out, c2) = spec_flatten_equation(eq, c);
        let rest_eqs = eqs.drop_first();
        let here = if is_flat(eq.rhs) {
            Map::<Seq<char>, Rational>::empty()
        } else {
            temp_values(eq.rhs, c, env)
        };
        let rest = all_temp_values(rest_eqs, c2, env);
        let all = all_temp_values(eqs, c, env);
        assert(all == here.union_prefer_right(rest));
        lemma_all_temp_values_dom(rest_eqs, c2, env);
        if !is_flat(eq.rhs) {
            lemma_flatten_expr_counter(eq.rhs, c);
            lemma_temp_values_dom(eq.rhs, c, env);
            assert forall|n: Seq<char>| #[trigger] temp_values(eq.rhs, c, env).dom().contains(n) implies big.dom().contains(n)
                && big[n] == temp_values(eq.rhs, c, env)[n] by {
                let k = choose|k: nat| c <= k < c + op_count(eq.rhs) && n == #[trigger] temp_name(k);
                if rest.dom().contains(n) {
                    let k2 = choose|k2: nat| c2 <= k2 && n == #[trigger] temp_name(k2);
                    law_temp_names_fresh(k, k2);
                }
                assert(all.dom().contains(n));
            }
        }
        assert forall|x: Seq<char>| #[trigger] occurs_in(eq.lhs, x) implies big.dom().contains(x) && big[x] == env[x] by {
            assert(occurs_in(eqs[0].lhs, x));
            assert(occurs_in_equations(eqs, x));
        }
        assert forall|x: Seq<char>| #[trigger] occurs_in(eq.rhs, x) implies big.dom().contains(x) && big[x] == env[x] by {
            assert(occurs_in(eqs[0].rhs, x));
            assert(occurs_in_equations(eqs, x));
        }
        assert(holds_in(eqs[0], env));
        lemma_flatten_equation_complete(eq, c, env, big);
        assert forall|i: int| 0 <= i < rest_eqs.len() implies holds_in(#[trigger] rest_eqs[i], env) by {
            assert(rest_eqs[i] == eqs[i + 1]);
        }
        assert forall|x: Seq<char>| #[trigger] occurs_in_equations(rest_eqs, x) implies big.dom().contains(x) && big[x]
            == env[x] by {
            let j = choose|j: int| 0 <= j < rest_eqs.len() && (occurs_in(#[trigger] rest_eqs[j].lhs, x) || occurs_in(rest_eqs[j].rhs, x));
            assert(rest_eqs[j] == eqs[j + 1]);
            assert(occurs_in_equations(eqs, x));
        }
        assert forall|n: Seq<char>| #[trigger] rest.dom().contains(n) implies big.dom().contains(n) && big[n] == rest[n] by {
            assert(all.dom().contains(n));
        }
        lemma_flatten_from_complete(rest_eqs, c2, env, big);
        let flat_rest = spec_flatten_from(rest_eqs, c2);
        let whole = spec_flatten_from(eqs, c);
        assert(whole == out + flat_rest);
        assert forall|i: int| 0 <= i < whole.len() implies holds_in(#[trigger] whole[i], big) by {
            if i < out.len() {
                assert(whole[i] == out[i]);
            } else {
                assert(whole[i] == flat_rest[i - out.len()]);
            }
        }
    }
}

/// Flattening loses no solution: for any values of the variables under
/// which every given equation holds, there are values of the fresh
/// variables under which every flat equation holds, the given variables
/// keeping theirs. The given variables must not start with `_`, the mark
/// of the fresh ones.
pub proof fn law_flatten_complete(eqs: Seq<EquationView>, env: Map<Seq<char>, Rational>)
    requires
        all_hold(eqs, env),
        forall|x: Seq<char>| #[trigger] occurs_in_equations(eqs, x) ==> !(x.len() > 0 && x[0] == '_'),
    ensures
        exists|big: Map<Seq<char>, Rational>|
            all_hold(spec_flatten(eqs), big) && forall|x: Seq<char>| #[trigger] occurs_in_equations(eqs, x)
                ==> big.dom().contains(x) && big[x] == env[x],
{
    let temps = all_temp_values(eqs, 0, env);
    let big = env.union_prefer_right(temps);
    lemma_all_temp_values_dom(eqs, 0, env);
    assert forall|x: Seq<char>| #[trigger] occurs_in_equations(eqs, x) implies big.dom().contains(x) && big[x] == env[x] by {
        let j = choose|j: int| 0 <= j < eqs.len() && (occurs_in(#[trigger] eqs[j].lhs, x) || occurs_in(eqs[j].rhs, x));
        assert(holds_in(eqs[j], env));
        if occurs_in(eqs[j].lhs, x) {
            lemma_value_needs_variables(eqs[j].lhs, env, x);
        } else {
            lemma_value_needs_variables(eqs[j].rhs, env, x);
        }
        if temps.dom().contains(x) {
            let k = choose|k: nat| 0 <= k && x == #[trigger] temp_name(k);
            law_temp_names_fresh(k, k);
        }
    }
    assert forall|n: Seq<char>| #[trigger] temps.dom().contains(n) implies big.dom().contains(n) && big[n] == temps[n] by {}
    lemma_flatten_from_complete(eqs, 0, env, big);
    assert(all_hold(spec_flatten(eqs), big));
}


/// Flat equations are left as they are.
pub proof fn law_flatten_keeps_flat(eqs: Seq<EquationView>)
    requires
        forall|i: int| 0 <= i < eqs.len() ==> is_flat(#[trigger] eqs[i].rhs),
    ensures
        spec_flatten(eqs) == eqs,
{
    lemma_flatten_from_keeps_flat(eqs, 0);
}

proof fn lemma_flatten_from_keeps_flat(eqs: Seq<EquationView>, c: nat)
    requires
        forall|i: int| 0 <= i < eqs.len() ==> is_flat(#[trigger] eqs[i].rhs),
    ensures
        spec_flatten_from(eqs, c) == eqs,
    decreases eqs.len(),
{
    if eqs.len() > 0 {
        assert(is_flat(eqs[0].rhs));
        assert forall|i: int| 0 <= i < eqs.drop_first().len() implies is_flat(#[trigger] eqs.drop_first()[i].rhs) by {
            assert(eqs.drop_first()[i] == eqs[i + 1]);
        }
        lemma_flatten_from_keeps_flat(eqs.drop_first(), c);
        assert(seq![eqs[0]] + eqs.drop_first() =~= eqs);
    }
}

/// Flattening twice is flattening once.
pub proof fn law_flatten_idempotent(eqs: Seq<EquationView>)
    ensures
        spec_flatten(spec_flatten(eqs)) == spec_flatten(eqs),
{
    law_flatten_output_is_flat(eqs);
    law_flatten_keeps_flat(spec_flatten(eqs));
}

} // verus!
