use lib::error::SolverError;
use lib::number::Rational;
use lib::solver::solve;
use lib::types::{Equation, Expr, Operator};

fn num_value(v: f64) -> Rational {
    let scaled = (v * 10000.0).round() as i64;
    Rational::ratio(scaled, 10000).unwrap()
}

fn var(s: &str) -> Expr {
    Expr::Variable(s.to_string())
}

fn num(v: f64) -> Expr {
    Expr::Number(num_value(v))
}

fn binop(op: Operator, l: Expr, r: Expr) -> Expr {
    Expr::BinaryOp { op, left: Box::new(l), right: Box::new(r) }
}

fn eq(lhs: Expr, rhs: Expr) -> Equation {
    Equation::new(lhs, rhs)
}

/// x = y + 3, y = 4  →  y = 4, x = 7
#[test]
fn test_two_variable_system() {
    let equations = vec![eq(var("x"), binop(Operator::Add, var("y"), num(3.0))), eq(var("y"), num(4.0))];
    let sol = solve(equations).unwrap();
    assert_eq!(sol.values.get("y").unwrap(), num_value(4.0));
    assert_eq!(sol.values.get("x").unwrap(), num_value(7.0));
}

/// a = 2, b = a * 3, c = b + a  →  2, 6, 8
#[test]
fn test_three_variable_chain() {
    let equations = vec![
        eq(var("a"), num(2.0)),
        eq(var("b"), binop(Operator::Mul, var("a"), num(3.0))),
        eq(var("c"), binop(Operator::Add, var("b"), var("a"))),
    ];
    let sol = solve(equations).unwrap();
    assert_eq!(sol.values.get("a").unwrap(), num_value(2.0));
    assert_eq!(sol.values.get("b").unwrap(), num_value(6.0));
    assert_eq!(sol.values.get("c").unwrap(), num_value(8.0));
}

/// x = 10 / 0  →  division by zero
#[test]
fn test_division_by_zero() {
    let equations = vec![eq(var("x"), binop(Operator::Div, num(10.0), num(0.0)))];
    let result = solve(equations);
    assert_eq!(result, Err(SolverError::DivisionByZero));
}

/// x + y = 10 alone  →  insufficient information
#[test]
fn test_insufficient_information() {
    let equations = vec![eq(binop(Operator::Add, var("x"), var("y")), num(10.0))];
    let result = solve(equations);
    assert_eq!(result, Err(SolverError::InsufficientInformation));
}

/// x * x = 9  →  degree 2 rejected
#[test]
fn test_quadratic_rejected() {
    let equations = vec![eq(binop(Operator::Mul, var("x"), var("x")), num(9.0))];
    let result = solve(equations);
    assert_eq!(result, Err(SolverError::UnsupportedDegree(2)));
}

/// A variable named "sin_theta" is out of scope.
#[test]
fn test_unsupported_domain_rejected() {
    let equations = vec![eq(var("sin_theta"), num(1.0))];
    let result = solve(equations);
    assert_eq!(result, Err(SolverError::UnsupportedDomain("sin_theta".into())));
}

/// Solve steps are recorded.
#[test]
fn test_solution_steps_recorded() {
    let equations = vec![eq(var("x"), num(5.0)), eq(var("y"), binop(Operator::Add, var("x"), num(2.0)))];
    let sol = solve(equations).unwrap();
    assert!(sol.steps.iter().any(|s| s.contains("x = 5")));
    assert!(sol.steps.iter().any(|s| s.contains("y = 7")));
}

/// x - 3 = 7  →  x = 10
#[test]
fn test_subtraction_isolation() {
    let equations = vec![eq(binop(Operator::Sub, var("x"), num(3.0)), num(7.0))];
    let sol = solve(equations).unwrap();
    assert_eq!(sol.values.get("x").unwrap(), num_value(10.0));
}

/// x * 4 = 20  →  x = 5
#[test]
fn test_multiplication_isolation() {
    let equations = vec![eq(binop(Operator::Mul, var("x"), num(4.0)), num(20.0))];
    let sol = solve(equations).unwrap();
    assert_eq!(sol.values.get("x").unwrap(), num_value(5.0));
}

// ---------------------------------------------------------------------------
// Sample problems solved directly
// ---------------------------------------------------------------------------

/// first = 4, second = first * 4  →  16
#[test]
fn test_e2e_two_sentence_system() {
    let equations = vec![
        Equation::new(Expr::Variable("first".into()), num(4.0)),
        Equation::new(Expr::Variable("second".into()), binop(Operator::Mul, var("first"), num(4.0))),
    ];
    let sol = solve(equations).unwrap();
    assert_eq!(sol.values.get("first").unwrap(), num_value(4.0));
    assert_eq!(sol.values.get("second").unwrap(), num_value(16.0));
}

/// x = 25 / 0  →  division by zero, with its message
#[test]
fn test_e2e_division_by_zero() {
    let equations = vec![Equation::new(var("x"), binop(Operator::Div, num(25.0), num(0.0)))];
    let result = solve(equations);
    assert_eq!(result, Err(SolverError::DivisionByZero));
    assert_eq!(SolverError::DivisionByZero.to_string(), "Division by zero is not possible.");
}

/// area = x * x  →  degree 2
#[test]
fn test_e2e_quadratic_rejected() {
    let equations = vec![Equation::new(var("area"), binop(Operator::Mul, var("x"), var("x")))];
    let result = solve(equations);
    assert_eq!(result, Err(SolverError::UnsupportedDegree(2)));
    assert!(SolverError::UnsupportedDegree(2).to_string().contains("degree-2"));
}

/// smaller = 4, larger = smaller * 4  →  4 and 16, summing to 20
#[test]
fn test_e2e_sum_of_two_numbers() {
    let equations = vec![
        Equation::new(var("smaller"), num(4.0)),
        Equation::new(var("larger"), binop(Operator::Mul, var("smaller"), num(4.0))),
    ];
    let sol = solve(equations).unwrap();
    assert_eq!(sol.values.get("smaller").unwrap(), num_value(4.0), "smaller number should be 4");
    assert_eq!(sol.values.get("larger").unwrap(), num_value(16.0), "larger number should be 16");
    assert_eq!(
        sol.values.get("smaller").unwrap().add(&sol.values.get("larger").unwrap()).unwrap(),
        num_value(20.0),
        "sum must equal 20"
    );
}

/// mary = 5, john = mary + 3, diff = john - mary
#[test]
fn test_e2e_more_than_less_than_combination() {
    let equations = vec![
        Equation::new(var("mary"), num(5.0)),
        Equation::new(var("john"), binop(Operator::Add, var("mary"), num(3.0))),
        Equation::new(var("diff"), binop(Operator::Sub, var("john"), var("mary"))),
    ];
    let sol = solve(equations).unwrap();
    assert_eq!(sol.values.get("mary").unwrap(), num_value(5.0), "mary = 5");
    assert_eq!(sol.values.get("john").unwrap(), num_value(8.0), "john = 5 + 3 = 8");
    assert_eq!(sol.values.get("diff").unwrap(), num_value(3.0), "diff = 8 - 5 = 3 (less than gap)");
}

/// base = 6, doubled = base * 2, product = doubled * 3
#[test]
fn test_e2e_twice_and_product_combination() {
    let equations = vec![
        Equation::new(var("base"), num(6.0)),
        Equation::new(var("doubled"), binop(Operator::Mul, var("base"), num(2.0))),
        Equation::new(var("product"), binop(Operator::Mul, var("doubled"), num(3.0))),
    ];
    let sol = solve(equations).unwrap();
    assert_eq!(sol.values.get("base").unwrap(), num_value(6.0), "base = 6");
    assert_eq!(sol.values.get("doubled").unwrap(), num_value(12.0), "doubled = 6 * 2 = 12");
    assert_eq!(sol.values.get("product").unwrap(), num_value(36.0), "product = 12 * 3 = 36");
}

/// share = 25 / 5  →  5
#[test]
fn test_e2e_divided_by_solves_correctly() {
    let equations = vec![Equation::new(var("share"), binop(Operator::Div, num(25.0), num(5.0)))];
    let sol = solve(equations).unwrap();
    assert_eq!(sol.values.get("share").unwrap(), num_value(5.0), "25 / 5 = 5");
}

/// x = 10 / 0  →  error with the exact message
#[test]
fn test_e2e_division_by_zero_message_and_no_crash() {
    let equations = vec![Equation::new(var("x"), binop(Operator::Div, num(10.0), num(0.0)))];
    let result = solve(equations);
    assert!(result.is_err(), "Expected an error for division by zero");
    let err = result.unwrap_err();
    assert_eq!(err, SolverError::DivisionByZero);
    assert_eq!(err.to_string(), "Division by zero is not possible.", "Error message must match spec exactly");
}

/// x + y = 15 alone  →  insufficient information, exact message
#[test]
fn test_e2e_insufficient_equations_message_and_no_crash() {
    let equations = vec![Equation::new(binop(Operator::Add, var("x"), var("y")), num(15.0))];
    let result = solve(equations);
    assert!(result.is_err(), "Expected InsufficientInformation error");
    let err = result.unwrap_err();
    assert_eq!(err, SolverError::InsufficientInformation);
    assert_eq!(
        err.to_string(),
        "Not enough information to solve the problem.",
        "Error message must match spec exactly"
    );
}

/// area = x * x  →  rejected with a message that mentions the degree
#[test]
fn test_e2e_quadratic_word_problem_rejected() {
    let equations = vec![Equation::new(var("area"), binop(Operator::Mul, var("x"), var("x")))];
    let result = solve(equations);
    assert!(result.is_err(), "Quadratic must be rejected");
    let err = result.unwrap_err();
    assert!(matches!(err, SolverError::UnsupportedDegree(_)), "Expected UnsupportedDegree, got: {:?}", err);
    let msg = err.to_string();
    assert!(!msg.is_empty(), "Error message must not be empty");
    assert!(msg.contains("degree"), "Message should mention degree");
}

/// sin = 1  →  out of scope
#[test]
fn test_e2e_trig_word_problem_rejected() {
    let equations = vec![Equation::new(var("sin"), num(1.0))];
    let result = solve(equations);
    assert!(result.is_err(), "Trig problem must be rejected");
    let err = result.unwrap_err();
    assert!(matches!(err, SolverError::UnsupportedDomain(_)), "Expected UnsupportedDomain, got: {:?}", err);
    let msg = err.to_string();
    assert!(msg.contains("sin"), "Message should name the trig keyword");
}

/// integral = 5  →  out of scope
#[test]
fn test_e2e_calculus_word_problem_rejected() {
    let equations = vec![Equation::new(var("integral"), num(5.0))];
    let result = solve(equations);
    assert!(result.is_err(), "Calculus problem must be rejected");
    let err = result.unwrap_err();
    assert!(matches!(err, SolverError::UnsupportedDomain(_)), "Expected UnsupportedDomain, got: {:?}", err);
    let msg = err.to_string();
    assert!(msg.contains("integral"), "Message should name the calculus keyword");
}

// ---------------------------------------------------------------------------
// Further cases
// ---------------------------------------------------------------------------

/// Whole-word matching: "second" and "cosine" are in scope.
#[test]
fn test_domain_whole_words_only() {
    let equations = vec![eq(var("second"), num(2.0)), eq(var("cosine"), num(3.0))];
    let sol = solve(equations).unwrap();
    assert_eq!(sol.values.get("second").unwrap(), num_value(2.0));
    assert_eq!(sol.values.get("cosine").unwrap(), num_value(3.0));
}

/// Upper case in a name still counts for the scope check.
#[test]
fn test_domain_case_insensitive() {
    let result = solve(vec![eq(var("the_COS"), num(1.0))]);
    assert_eq!(result, Err(SolverError::UnsupportedDomain("the_COS".into())));
}

/// The first out-of-scope name is reported.
#[test]
fn test_domain_first_reported() {
    let result = solve(vec![eq(var("x"), binop(Operator::Add, var("log"), var("exp")))]);
    assert_eq!(result, Err(SolverError::UnsupportedDomain("log".into())));
}

/// The domain check comes before the degree check.
#[test]
fn test_domain_before_degree() {
    let result = solve(vec![eq(var("tan"), binop(Operator::Mul, var("x"), var("x")))]);
    assert_eq!(result, Err(SolverError::UnsupportedDomain("tan".into())));
}

/// A product with a constant factor is of degree one.
#[test]
fn test_linear_product_accepted() {
    let sol = solve(vec![eq(var("y"), binop(Operator::Mul, num(3.0), num(2.0)))]).unwrap();
    assert_eq!(sol.values.get("y").unwrap(), num_value(6.0));
}

/// Each isolation shape: k - x = r, k / x = r, x / k = r, k + x = r.
#[test]
fn test_isolation_shapes() {
    let sol = solve(vec![eq(binop(Operator::Sub, num(10.0), var("x")), num(4.0))]).unwrap();
    assert_eq!(sol.values.get("x").unwrap(), num_value(6.0));
    let sol = solve(vec![eq(binop(Operator::Div, num(12.0), var("x")), num(4.0))]).unwrap();
    assert_eq!(sol.values.get("x").unwrap(), num_value(3.0));
    let sol = solve(vec![eq(binop(Operator::Div, var("x"), num(4.0)), num(2.5))]).unwrap();
    assert_eq!(sol.values.get("x").unwrap(), num_value(10.0));
    let sol = solve(vec![eq(num(9.0), binop(Operator::Add, num(2.0), var("x")))]).unwrap();
    assert_eq!(sol.values.get("x").unwrap(), num_value(7.0));
}

/// k / x = 0 has no solution: division by zero.
#[test]
fn test_isolation_divide_by_zero_result() {
    let result = solve(vec![eq(binop(Operator::Div, num(12.0), var("x")), num(0.0))]);
    assert_eq!(result, Err(SolverError::DivisionByZero));
}

/// x * 0 = 5 has no solution: division by zero.
#[test]
fn test_isolation_multiply_by_zero() {
    let result = solve(vec![eq(binop(Operator::Mul, var("x"), num(0.0)), num(5.0))]);
    assert_eq!(result, Err(SolverError::DivisionByZero));
}

/// Exact fractions: x * 3 = 1  →  x = 1/3, printed to sixteen places.
#[test]
fn test_exact_fraction_value() {
    let sol = solve(vec![eq(binop(Operator::Mul, var("x"), num(3.0)), num(1.0))]).unwrap();
    assert_eq!(sol.values.get("x").unwrap(), Rational::ratio(1, 3).unwrap());
    assert_eq!(sol.steps, vec!["x = 0.3333333333333333".to_string()]);
}

/// The steps follow the solving order and every variable is bound.
#[test]
fn test_steps_in_solving_order() {
    let equations = vec![eq(var("x"), binop(Operator::Add, var("y"), num(3.0))), eq(var("y"), num(4.0))];
    let sol = solve(equations).unwrap();
    assert_eq!(sol.steps, vec!["y = 4".to_string(), "x = 7".to_string()]);
    assert_eq!(sol.values.len(), 2);
}

/// No equations: nothing to solve, nothing bound.
#[test]
fn test_solve_empty() {
    let sol = solve(vec![]).unwrap();
    assert_eq!(sol.values.len(), 0);
    assert!(sol.steps.is_empty());
}

/// A contradiction among known values is dropped, not reported.
#[test]
fn test_known_equation_dropped() {
    let sol = solve(vec![eq(var("x"), num(1.0)), eq(var("x"), num(2.0))]).unwrap();
    assert_eq!(sol.values.get("x").unwrap(), num_value(1.0));
}

/// An operation on both sides: the unknown is isolated on its own side.
#[test]
fn test_operation_on_both_sides() {
    let sol = solve(vec![eq(binop(Operator::Sub, var("x"), num(3.0)), binop(Operator::Add, num(7.0), num(0.0)))]).unwrap();
    assert_eq!(sol.values.get("x").unwrap(), num_value(10.0));
    let sol = solve(vec![eq(binop(Operator::Add, var("x"), num(1.0)), binop(Operator::Add, num(2.0), num(3.0)))]).unwrap();
    assert_eq!(sol.values.get("x").unwrap(), num_value(4.0));
}

/// Overflowing exact arithmetic is reported.
#[test]
fn test_overflow_reported() {
    let big = Expr::Number(Rational::from_integer(i64::MAX));
    let result = solve(vec![eq(var("x"), binop(Operator::Add, big, num(1.0)))]);
    assert_eq!(
        result,
        Err(SolverError::ParseError("A number in the problem is too large to compute exactly.".to_string()))
    );
}

/// Every shape that isolation handles, with the unknown on either side and
/// as either operand: 12 = x, x = 12, x * 3 = 12, 3 * x = 12, 12 = x - 3,
/// 12 = 24 / x.
#[test]
fn test_isolate_shapes() {
    let cases = vec![
        (eq(num(12.0), var("x")), 12.0),
        (eq(var("x"), num(12.0)), 12.0),
        (eq(binop(Operator::Mul, var("x"), num(3.0)), num(12.0)), 4.0),
        (eq(binop(Operator::Mul, num(3.0), var("x")), num(12.0)), 4.0),
        (eq(num(12.0), binop(Operator::Sub, var("x"), num(3.0))), 15.0),
        (eq(num(12.0), binop(Operator::Div, num(24.0), var("x"))), 2.0),
    ];
    for (equation, expected) in cases {
        let sol = solve(vec![equation]).unwrap();
        assert_eq!(sol.values.get("x").unwrap(), num_value(expected));
    }
}
