use lib::error::SolverError;
use lib::filter::FilterOutput;
use lib::number::Rational;
use lib::translator::translate;
use lib::types::{Expr, Operator, Token};

fn num_value(v: f64) -> Rational {
    let scaled = (v * 10000.0).round() as i64;
    Rational::ratio(scaled, 10000).unwrap()
}

fn w(s: &str) -> Token {
    Token::Word(s.to_string())
}

fn n(v: f64) -> Token {
    Token::Number(num_value(v))
}

fn var(s: &str) -> Expr {
    Expr::Variable(s.to_string())
}

fn num(v: f64) -> Expr {
    Expr::Number(num_value(v))
}

fn binop(op: Operator, l: Expr, r: Expr) -> Expr {
    Expr::BinaryOp { op, left: Box::new(l), right: Box::new(r) }
}

fn filter_out(tokens: Vec<Token>, signals: Vec<&str>) -> FilterOutput {
    FilterOutput { tokens, signals: signals.iter().map(|s| s.to_string()).collect() }
}

/// "more than" → Add.  [john, 5, more, than, mary], signals [is]  →  john = 5 + mary
#[test]
fn test_more_than_maps_to_add() {
    let input = filter_out(vec![w("john"), n(5.0), w("more"), w("than"), w("mary")], vec!["is"]);
    let eqs = translate(input).unwrap();
    assert_eq!(eqs.len(), 1);
    assert_eq!(eqs[0].lhs, var("john"));
    assert_eq!(eqs[0].rhs, binop(Operator::Add, num(5.0), var("mary")));
}

/// "less than" → Sub.
#[test]
fn test_less_than_maps_to_sub() {
    let input = filter_out(vec![w("price"), n(3.0), w("less"), w("than"), w("cost")], vec!["is"]);
    let eqs = translate(input).unwrap();
    assert_eq!(eqs[0].lhs, var("price"));
    assert_eq!(eqs[0].rhs, binop(Operator::Sub, num(3.0), var("cost")));
}

/// "times" → Mul.
#[test]
fn test_times_maps_to_mul() {
    let input = filter_out(vec![w("result"), w("x"), w("times"), n(4.0)], vec!["is"]);
    let eqs = translate(input).unwrap();
    assert_eq!(eqs[0].lhs, var("result"));
    assert_eq!(eqs[0].rhs, binop(Operator::Mul, var("x"), num(4.0)));
}

/// "twice" → Mul × 2.
#[test]
fn test_twice_maps_to_mul_2() {
    let input = filter_out(vec![w("y"), w("twice"), w("x")], vec!["is"]);
    let eqs = translate(input).unwrap();
    assert_eq!(eqs[0].lhs, var("y"));
    assert_eq!(eqs[0].rhs, binop(Operator::Mul, var("x"), num(2.0)));
}

/// "thrice" → Mul × 3.
#[test]
fn test_thrice_maps_to_mul_3() {
    let input = filter_out(vec![w("y"), w("thrice"), w("x")], vec!["is"]);
    let eqs = translate(input).unwrap();
    assert_eq!(eqs[0].lhs, var("y"));
    assert_eq!(eqs[0].rhs, binop(Operator::Mul, var("x"), num(3.0)));
}

/// "doubled" → Mul × 2.
#[test]
fn test_doubled_maps_to_mul_2() {
    let input = filter_out(vec![w("y"), w("doubled"), w("x")], vec!["is"]);
    let eqs = translate(input).unwrap();
    assert_eq!(eqs[0].lhs, var("y"));
    assert_eq!(eqs[0].rhs, binop(Operator::Mul, var("x"), num(2.0)));
}

/// "tripled" → Mul × 3.
#[test]
fn test_tripled_maps_to_mul_3() {
    let input = filter_out(vec![w("y"), w("tripled"), w("x")], vec!["is"]);
    let eqs = translate(input).unwrap();
    assert_eq!(eqs[0].lhs, var("y"));
    assert_eq!(eqs[0].rhs, binop(Operator::Mul, var("x"), num(3.0)));
}

/// "divided by" → Div.
#[test]
fn test_divided_by_maps_to_div() {
    let input = filter_out(vec![w("share"), w("apples"), w("divided"), w("by"), n(3.0)], vec!["is"]);
    let eqs = translate(input).unwrap();
    assert_eq!(eqs[0].lhs, var("share"));
    assert_eq!(eqs[0].rhs, binop(Operator::Div, var("apples"), num(3.0)));
}

/// "total" signal → sum of all numbers = first variable.
#[test]
fn test_total_signal_builds_sum() {
    let input = filter_out(vec![w("cost"), n(10.0), n(20.0), n(5.0)], vec!["total", "is"]);
    let eqs = translate(input).unwrap();
    assert_eq!(eqs.len(), 1);
    assert_eq!(eqs[0].lhs, var("cost"));
    let expected_rhs = binop(Operator::Add, binop(Operator::Add, num(10.0), num(20.0)), num(5.0));
    assert_eq!(eqs[0].rhs, expected_rhs);
}

/// Empty token list returns a parse error.
#[test]
fn test_empty_input_returns_error() {
    let input = filter_out(vec![], vec![]);
    let result = translate(input);
    assert!(matches!(result, Err(SolverError::ParseError(_))));
}

// ---------------------------------------------------------------------------
// Further cases
// ---------------------------------------------------------------------------

/// Without "is"/"are", a sentence gives no equation.
#[test]
fn test_no_copula_gives_no_equation() {
    let input = filter_out(vec![w("john"), n(5.0)], vec![]);
    let result = translate(input);
    assert!(matches!(result, Err(SolverError::ParseError(_))));
}

/// A number stands alone as the rhs.
#[test]
fn test_plain_assignment() {
    let input = filter_out(vec![w("x"), n(7.0)], vec!["is"]);
    let eqs = translate(input).unwrap();
    assert_eq!(eqs.len(), 1);
    assert_eq!(eqs[0].lhs, var("x"));
    assert_eq!(eqs[0].rhs, num(7.0));
}

/// A multiplier word with nothing after it forms no equation.
#[test]
fn test_dangling_operator_is_parse_error() {
    let input = filter_out(vec![w("y"), w("twice")], vec!["is"]);
    assert_eq!(
        translate(input),
        Err(SolverError::ParseError("Could not form any equation from the input.".to_string()))
    );
    let input = filter_out(vec![w("twice")], vec![]);
    assert!(matches!(translate(input), Err(SolverError::ParseError(_))));
}
