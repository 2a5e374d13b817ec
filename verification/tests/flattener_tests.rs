use lib::flattener::{flatten, temps_fit, TempCounter};
use lib::number::Rational;
use lib::types::{Equation, Expr, Operator};

fn num_value(v: f64) -> Rational {
    let scaled = (v * 10000.0).round() as i64;
    Rational::ratio(scaled, 10000).unwrap()
}

fn var(s: &str) -> Expr {
    Expr::Variable(s.to_string())
}

fn num(v: f64) -> Expr {
    Expr::Number(num_value(v))
}

fn binop(op: Operator, l: Expr, r: Expr) -> Expr {
    Expr::BinaryOp { op, left: Box::new(l), right: Box::new(r) }
}

fn eq(lhs: Expr, rhs: Expr) -> Equation {
    Equation::new(lhs, rhs)
}

fn collect_var_names(expr: &Expr, out: &mut Vec<String>) {
    match expr {
        Expr::Variable(name) => out.push(name.clone()),
        Expr::Number(_) => {},
        Expr::BinaryOp { left, right, .. } => {
            collect_var_names(left, out);
            collect_var_names(right, out);
        },
    }
}

/// A leaf rhs passes through unchanged.
#[test]
fn test_leaf_rhs_unchanged() {
    let input = vec![eq(var("x"), num(5.0))];
    let flat = flatten(input);
    assert_eq!(flat, vec![eq(var("x"), num(5.0))]);
}

/// A one-level operation passes through unchanged.
#[test]
fn test_single_level_binop_unchanged() {
    let input = vec![eq(var("x"), binop(Operator::Add, var("y"), num(3.0)))];
    let flat = flatten(input.clone());
    assert_eq!(flat, input);
}

/// result = (a + b) * c  →  _t0 = a + b ; result = _t0 * c
#[test]
fn test_two_level_nesting() {
    let nested = binop(Operator::Mul, binop(Operator::Add, var("a"), var("b")), var("c"));
    let input = vec![eq(var("result"), nested)];
    let flat = flatten(input);
    assert_eq!(flat.len(), 2);
    assert_eq!(flat[0].lhs, var("_t0"));
    assert_eq!(flat[0].rhs, binop(Operator::Add, var("a"), var("b")));
    assert_eq!(flat[1].lhs, var("result"));
    assert_eq!(flat[1].rhs, binop(Operator::Mul, var("_t0"), var("c")));
}

/// result = ((a + b) * c) - d
#[test]
fn test_three_level_nesting() {
    let nested = binop(
        Operator::Sub,
        binop(Operator::Mul, binop(Operator::Add, var("a"), var("b")), var("c")),
        var("d"),
    );
    let input = vec![eq(var("result"), nested)];
    let flat = flatten(input);
    assert_eq!(flat.len(), 3);
    assert_eq!(flat[0].lhs, var("_t0"));
    assert_eq!(flat[0].rhs, binop(Operator::Add, var("a"), var("b")));
    assert_eq!(flat[1].lhs, var("_t1"));
    assert_eq!(flat[1].rhs, binop(Operator::Mul, var("_t0"), var("c")));
    assert_eq!(flat[2].lhs, var("result"));
    assert_eq!(flat[2].rhs, binop(Operator::Sub, var("_t1"), var("d")));
}

/// The temp counter continues across equations.
#[test]
fn test_multiple_equations_independent() {
    let eq1 = eq(var("x"), binop(Operator::Mul, binop(Operator::Add, var("a"), var("b")), num(2.0)));
    let eq2 = eq(var("y"), binop(Operator::Add, binop(Operator::Sub, var("c"), var("d")), num(1.0)));
    let flat = flatten(vec![eq1, eq2]);
    assert_eq!(flat.len(), 4);
    assert_eq!(flat[0].lhs, var("_t0"));
    assert_eq!(flat[1].lhs, var("x"));
    assert_eq!(flat[2].lhs, var("_t2"));
    assert_eq!(flat[3].lhs, var("y"));
}

/// First equation flat, second nested.
#[test]
fn test_mixed_flat_and_nested() {
    let flat_eq = eq(var("a"), num(10.0));
    let nested_eq = eq(var("b"), binop(Operator::Mul, binop(Operator::Add, var("a"), num(5.0)), num(2.0)));
    let result = flatten(vec![flat_eq.clone(), nested_eq]);
    assert_eq!(result.len(), 3);
    assert_eq!(result[0], flat_eq);
    assert_eq!(result[1].lhs, var("_t0"));
    assert_eq!(result[2].lhs, var("b"));
}

/// result = (a + b) + c
#[test]
fn test_sum_of_three_terms_flattens_correctly() {
    let nested = binop(Operator::Add, binop(Operator::Add, var("a"), var("b")), var("c"));
    let input = vec![eq(var("result"), nested)];
    let flat = flatten(input);
    assert_eq!(flat.len(), 2);
    assert_eq!(flat[0].lhs, var("_t0"));
    assert_eq!(flat[0].rhs, binop(Operator::Add, var("a"), var("b")));
    assert_eq!(flat[1].lhs, var("result"));
    assert_eq!(flat[1].rhs, binop(Operator::Add, var("_t0"), var("c")));
}

/// Temp names never collide with user variables.
#[test]
fn test_temp_names_dont_collide_with_user_vars() {
    let nested = binop(Operator::Mul, binop(Operator::Add, var("a"), var("b")), var("x"));
    let flat = flatten(vec![eq(var("result"), nested)]);
    let mut names: Vec<String> = Vec::new();
    for equation in &flat {
        collect_var_names(&equation.lhs, &mut names);
        collect_var_names(&equation.rhs, &mut names);
    }
    let temps: Vec<&String> = names.iter().filter(|n| n.starts_with('_')).collect();
    let user_vars: Vec<&String> = names.iter().filter(|n| !n.starts_with('_')).collect();
    for t in &temps {
        assert!(!user_vars.contains(t), "Temp name '{}' collided with a user variable", t);
    }
    assert!(!temps.is_empty(), "Expected at least one temp variable");
}

/// result = (10 + 20) * 3
#[test]
fn test_constants_only_no_panic() {
    let nested = binop(Operator::Mul, binop(Operator::Add, num(10.0), num(20.0)), num(3.0));
    let input = vec![eq(var("result"), nested)];
    let flat = flatten(input);
    assert_eq!(flat.len(), 2);
    assert_eq!(flat[0].lhs, var("_t0"));
    assert_eq!(flat[0].rhs, binop(Operator::Add, num(10.0), num(20.0)));
    assert_eq!(flat[1].lhs, var("result"));
    assert_eq!(flat[1].rhs, binop(Operator::Mul, var("_t0"), num(3.0)));
}

/// x + y = 10 passes through unchanged.
#[test]
fn test_flat_two_unknown_equation_unchanged() {
    let input = vec![eq(binop(Operator::Add, var("x"), var("y")), num(10.0))];
    let flat = flatten(input.clone());
    assert_eq!(flat, input, "Flat 2-unknown equation should pass through unchanged");
}

/// result = (2 + 3) * 4 keeps its meaning.
#[test]
fn test_flattening_preserves_mathematical_equivalence() {
    let nested = binop(Operator::Mul, binop(Operator::Add, num(2.0), num(3.0)), num(4.0));
    let flat = flatten(vec![eq(var("result"), nested)]);
    assert_eq!(flat[0].rhs, binop(Operator::Add, num(2.0), num(3.0)));
    let t0_val = 2.0 + 3.0;
    assert_eq!(t0_val, 5.0);
    assert_eq!(flat[1].rhs, binop(Operator::Mul, var("_t0"), num(4.0)));
    let result_val = t0_val * 4.0;
    assert_eq!(result_val, 20.0, "Mathematical equivalence violated");
}

/// Empty input returns an empty list.
#[test]
fn test_empty_input_returns_empty() {
    let flat = flatten(vec![]);
    assert!(flat.is_empty(), "Expected empty output for empty input");
}

// ---------------------------------------------------------------------------
// Further cases
// ---------------------------------------------------------------------------

/// Fresh names count up from `_t0`.
#[test]
fn test_temp_counter_names() {
    let mut c = TempCounter::new();
    assert_eq!(c.next(), "_t0".to_string());
    assert_eq!(c.next(), "_t1".to_string());
    let mut k = 2;
    while k < 10 {
        c.next();
        k += 1;
    }
    assert_eq!(c.next(), "_t10".to_string());
}

/// Small equation lists always fit the counter.
#[test]
fn test_temps_fit_small() {
    let nested = binop(Operator::Mul, binop(Operator::Add, var("a"), var("b")), var("c"));
    assert!(temps_fit(&vec![eq(var("r"), nested)]));
}

/// Every rhs of the result is flat; the given lhs is assigned last.
#[test]
fn test_flat_result_rhs_is_flat() {
    let nested = binop(
        Operator::Div,
        binop(Operator::Sub, var("a"), num(1.0)),
        binop(Operator::Add, var("b"), num(2.0)),
    );
    let flat = flatten(vec![eq(var("r"), nested)]);
    assert_eq!(flat.len(), 3);
    assert_eq!(flat[0], eq(var("_t0"), binop(Operator::Sub, var("a"), num(1.0))));
    assert_eq!(flat[1], eq(var("_t1"), binop(Operator::Add, var("b"), num(2.0))));
    assert_eq!(flat[2], eq(var("r"), binop(Operator::Div, var("_t0"), var("_t1"))));
}
