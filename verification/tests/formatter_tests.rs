use lib::assignment::Assignment;
use lib::error::SolverError;
use lib::formatter::{equation_to_string, expr_to_string, fmt_number, format_output, op_symbol};
use lib::number::Rational;
use lib::types::{Equation, Expr, Operator};

fn num_value(v: f64) -> Rational {
    let scaled = (v * 10000.0).round() as i64;
    Rational::ratio(scaled, 10000).unwrap()
}

fn var(s: &str) -> Expr {
    Expr::Variable(s.to_string())
}

fn num(v: f64) -> Expr {
    Expr::Number(num_value(v))
}

fn binop(op: Operator, l: Expr, r: Expr) -> Expr {
    Expr::BinaryOp { op, left: Box::new(l), right: Box::new(r) }
}

fn eq(lhs: Expr, rhs: Expr) -> Equation {
    Equation::new(lhs, rhs)
}

fn fmt_number_pub(v: f64) -> String {
    fmt_number(&num_value(v))
}

fn values_of(pairs: &[(&str, f64)]) -> Assignment {
    let mut values = Assignment::new();
    for (k, v) in pairs {
        values.insert(k.to_string(), num_value(*v));
    }
    values
}

#[test]
fn test_number_whole_prints_without_decimal() {
    assert_eq!(expr_to_string(&num(7.0)), "7");
}

#[test]
fn test_number_decimal_prints_with_decimal() {
    assert_eq!(expr_to_string(&num(3.5)), "3.5");
}

#[test]
fn test_variable_prints_name() {
    assert_eq!(expr_to_string(&var("john")), "john");
}

#[test]
fn test_simple_binop_add() {
    let expr = binop(Operator::Add, var("x"), num(3.0));
    assert_eq!(expr_to_string(&expr), "x + 3");
}

#[test]
fn test_nested_binop_adds_parens() {
    let inner = binop(Operator::Add, var("x"), num(3.0));
    let outer = binop(Operator::Mul, inner, var("y"));
    assert_eq!(expr_to_string(&outer), "(x + 3) * y");
}

#[test]
fn test_equation_to_string() {
    let equation = eq(var("x"), binop(Operator::Add, var("y"), num(3.0)));
    assert_eq!(equation_to_string(&equation), "x = y + 3");
}

/// Single variable solved: the "Expressions:" section and the answer line.
#[test]
fn test_format_single_variable() {
    let equations = vec![eq(var("x"), binop(Operator::Add, var("y"), num(3.0))), eq(var("y"), num(4.0))];
    let steps = vec!["y = 4".to_string(), "x = 7".to_string()];
    let values = values_of(&[("x", 7.0), ("y", 4.0)]);
    let question_vars = vec!["x".to_string()];
    let out = format_output(&equations, &steps, &values, &question_vars);
    assert!(out.display.contains("Expressions:"));
    assert!(out.display.contains("x = y + 3"));
    assert!(out.display.contains("Answer: x = 7"));
}

/// Several answer variables: "Answer:" and indented lines.
#[test]
fn test_format_multiple_answer_vars() {
    let equations = vec![eq(var("x"), num(5.0)), eq(var("y"), num(8.0))];
    let steps = vec!["x = 5".to_string(), "y = 8".to_string()];
    let values = values_of(&[("x", 5.0), ("y", 8.0)]);
    let question_vars = vec!["x".to_string(), "y".to_string()];
    let out = format_output(&equations, &steps, &values, &question_vars);
    assert!(out.display.contains("Answer:"));
    assert!(out.display.contains("  x = 5"));
    assert!(out.display.contains("  y = 8"));
}

/// Temporary variables are hidden.
#[test]
fn test_temp_variables_hidden() {
    let equations = vec![eq(var("_t0"), binop(Operator::Add, var("a"), var("b"))), eq(var("result"), var("_t0"))];
    let steps = vec!["_t0 = 9".to_string(), "result = 9".to_string()];
    let values = values_of(&[("_t0", 9.0), ("result", 9.0)]);
    let question_vars = vec!["result".to_string()];
    let out = format_output(&equations, &steps, &values, &question_vars);
    assert!(!out.equation_lines.iter().any(|l| l.contains("_t0")));
    assert!(out.display.contains("Answer: result = 9"));
    assert!(!out.display.contains("_t0"));
}

/// Whole number answers drop the decimal point.
#[test]
fn test_answer_whole_number_no_decimal() {
    let equations = vec![eq(var("x"), num(10.0))];
    let steps = vec!["x = 10".to_string()];
    let values = values_of(&[("x", 10.0)]);
    let out = format_output(&equations, &steps, &values, &["x".to_string()]);
    assert!(out.display.contains("Answer: x = 10"));
    assert!(!out.display.contains("10.0"));
}

/// Readable algebra, not a debug dump.
#[test]
fn test_single_equation_readable_not_debug() {
    let equation = eq(var("x"), binop(Operator::Add, var("y"), num(5.0)));
    let rendered = equation_to_string(&equation);
    assert_eq!(rendered, "x = y + 5");
    assert!(!rendered.contains("BinaryOp"), "Should not contain 'BinaryOp'");
    assert!(!rendered.contains("Variable"), "Should not contain 'Variable'");
    assert!(!rendered.contains("Number"), "Should not contain 'Number'");
    assert!(!rendered.contains("Operator"), "Should not contain 'Operator'");
}

/// Each equation on its own line, in order.
#[test]
fn test_multiple_equations_each_on_own_line_ordered() {
    let equations = vec![
        eq(var("a"), num(1.0)),
        eq(var("b"), binop(Operator::Add, var("a"), num(2.0))),
        eq(var("c"), binop(Operator::Mul, var("b"), num(3.0))),
    ];
    let steps = vec!["a = 1".to_string(), "b = 3".to_string(), "c = 9".to_string()];
    let values = values_of(&[("a", 1.0), ("b", 3.0), ("c", 9.0)]);
    let out = format_output(&equations, &steps, &values, &[]);
    let lines: Vec<&str> = out.display.lines().collect();
    let expr_lines: Vec<&str> = lines.iter().filter(|l| l.starts_with("  ") && l.contains(" = ")).copied().collect();
    assert!(expr_lines.len() >= 3, "Expected at least 3 expression lines");
    let pos_a = expr_lines.iter().position(|l| l.contains("a = ")).unwrap();
    let pos_b = expr_lines.iter().position(|l| l.contains("b = ")).unwrap();
    let pos_c = expr_lines.iter().position(|l| l.contains("c = ")).unwrap();
    assert!(pos_a < pos_b, "a must appear before b");
    assert!(pos_b < pos_c, "b must appear before c");
}

/// The answer section comes after the expressions.
#[test]
fn test_answer_section_distinguished_from_expressions() {
    let equations = vec![eq(var("x"), num(7.0))];
    let steps = vec!["x = 7".to_string()];
    let values = values_of(&[("x", 7.0)]);
    let out = format_output(&equations, &steps, &values, &["x".to_string()]);
    assert!(out.display.contains("Expressions:"), "Missing 'Expressions:' header");
    assert!(out.display.contains("Answer:") || out.display.contains("Answer: "), "Missing 'Answer' section");
    let expr_pos = out.display.find("Expressions:").unwrap();
    let answer_pos = out.display.find("Answer").unwrap();
    assert!(answer_pos > expr_pos, "Answer section must appear after Expressions");
}

#[test]
fn test_division_by_zero_exact_message() {
    let err = SolverError::DivisionByZero;
    assert_eq!(err.to_string(), "Division by zero is not possible.", "DivisionByZero message does not match spec");
}

#[test]
fn test_insufficient_information_exact_message() {
    let err = SolverError::InsufficientInformation;
    assert_eq!(
        err.to_string(),
        "Not enough information to solve the problem.",
        "InsufficientInformation message does not match spec"
    );
}

#[test]
fn test_unsupported_degree_clear_message() {
    let err2 = SolverError::UnsupportedDegree(2);
    let err3 = SolverError::UnsupportedDegree(3);
    let msg2 = err2.to_string();
    let msg3 = err3.to_string();
    assert!(!msg2.is_empty(), "Error message must not be empty");
    assert!(msg2.contains("2"), "Message must mention degree 2");
    assert!(msg3.contains("3"), "Message must mention degree 3");
    assert!(!msg2.contains("UnsupportedDegree"), "Should not expose enum variant name to user");
}

#[test]
fn test_unsupported_domain_clear_message() {
    let err = SolverError::UnsupportedDomain("sin".to_string());
    let msg = err.to_string();
    assert!(!msg.is_empty(), "Error message must not be empty");
    assert!(msg.contains("sin"), "Message must name the offending keyword");
    assert!(!msg.contains("UnsupportedDomain"), "Should not expose enum variant name to user");
}

/// Negative numbers format without breaking the output.
#[test]
fn test_negative_number_formats_correctly() {
    assert_eq!(expr_to_string(&num(-5.0)), "-5");
    assert_eq!(expr_to_string(&num(-3.5)), "-3.5");
    let equations = vec![eq(var("x"), num(-5.0))];
    let steps = vec!["x = -5".to_string()];
    let values = values_of(&[("x", -5.0)]);
    let out = format_output(&equations, &steps, &values, &["x".to_string()]);
    assert!(out.display.contains("Answer: x = -5"), "Negative answer not formatted correctly: {}", out.display);
}

/// Exact fractions print cleanly.
#[test]
fn test_decimal_result_no_float_artifacts() {
    assert_eq!(fmt_number_pub(0.5), "0.5");
    assert_eq!(fmt_number_pub(2.5), "2.5");
    assert_eq!(fmt_number_pub(1.25), "1.25");
    assert_eq!(fmt_number_pub(10.0), "10");
    assert_eq!(fmt_number_pub(-0.5), "-0.5");
    let equations = vec![eq(var("x"), num(2.5))];
    let steps = vec!["x = 2.5".to_string()];
    let values = values_of(&[("x", 2.5)]);
    let out = format_output(&equations, &steps, &values, &["x".to_string()]);
    assert!(out.display.contains("Answer: x = 2.5"), "Decimal answer not clean: {}", out.display);
    assert!(!out.display.contains("2.50000"), "Float artifact found in output: {}", out.display);
}

/// The answer lines are readable by a caller.
#[test]
fn test_answer_lines_accessible_to_external_caller() {
    let equations = vec![eq(var("apples"), num(3.0)), eq(var("oranges"), num(6.0))];
    let steps = vec!["apples = 3".to_string(), "oranges = 6".to_string()];
    let values = values_of(&[("apples", 3.0), ("oranges", 6.0)]);
    let question_vars = vec!["apples".to_string(), "oranges".to_string()];
    let out = format_output(&equations, &steps, &values, &question_vars);
    assert_eq!(out.answer_lines.len(), 2, "Expected 2 answer lines, got: {:?}", out.answer_lines);
    assert!(
        out.answer_lines.contains(&"apples = 3".to_string()),
        "answer_lines missing 'apples = 3': {:?}",
        out.answer_lines
    );
    assert!(
        out.answer_lines.contains(&"oranges = 6".to_string()),
        "answer_lines missing 'oranges = 6': {:?}",
        out.answer_lines
    );
    for line in &out.answer_lines {
        assert!(line.contains(" = "), "answer_line not in 'name = value' format: {}", line);
        let parts: Vec<&str> = line.splitn(2, " = ").collect();
        assert_eq!(parts.len(), 2);
        assert!(!parts[1].is_empty(), "Value part is empty in: {}", line);
    }
}

// ---------------------------------------------------------------------------
// Further cases
// ---------------------------------------------------------------------------

/// The exact layout of a whole output.
#[test]
fn test_full_display_layout() {
    let equations = vec![eq(var("x"), binop(Operator::Add, var("y"), num(3.0))), eq(var("y"), num(4.0))];
    let steps = vec!["y = 4".to_string(), "x = 7".to_string()];
    let values = values_of(&[("x", 7.0), ("y", 4.0)]);
    let out = format_output(&equations, &steps, &values, &["x".to_string()]);
    assert_eq!(out.display, "Expressions:\n  x = y + 3\n  y = 4\n  x = 7\n\nAnswer: x = 7");
    assert_eq!(out.equation_lines, vec!["x = y + 3".to_string(), "y = 4".to_string()]);
    assert_eq!(out.answer_lines, vec!["x = 7".to_string()]);
}

/// No question: every bound variable in name order, temporaries hidden.
#[test]
fn test_all_variables_sorted_without_question() {
    let values = values_of(&[("zeta", 1.0), ("_t0", 2.0), ("alpha", 3.0)]);
    let out = format_output(&[], &[], &values, &[]);
    assert_eq!(out.answer_lines, vec!["alpha = 3".to_string(), "zeta = 1".to_string()]);
    assert_eq!(out.display, "Expressions:\n\nAnswer:\n  alpha = 3\n  zeta = 1");
}

/// An asked variable without a value is left out; no answer at all gives
/// an empty answer section.
#[test]
fn test_asked_variable_without_value() {
    let values = values_of(&[("x", 1.0)]);
    let out = format_output(&[], &[], &values, &["y".to_string()]);
    assert!(out.answer_lines.is_empty());
    assert_eq!(out.display, "Expressions:\n\nAnswer:");
}

/// Operator symbols.
#[test]
fn test_op_symbols() {
    assert_eq!(op_symbol(&Operator::Add), "+");
    assert_eq!(op_symbol(&Operator::Sub), "-");
    assert_eq!(op_symbol(&Operator::Mul), "*");
    assert_eq!(op_symbol(&Operator::Div), "/");
}

/// Operands that are operations get parentheses on both sides.
#[test]
fn test_parens_on_right() {
    let e = binop(Operator::Sub, var("a"), binop(Operator::Div, var("b"), num(2.0)));
    assert_eq!(expr_to_string(&e), "a - (b / 2)");
}

/// Repeating fractions print sixteen decimal places, cut off.
#[test]
fn test_repeating_fraction() {
    assert_eq!(fmt_number(&Rational::ratio(2, 3).unwrap()), "0.6666666666666666");
    assert_eq!(fmt_number(&Rational::ratio(-1, 3).unwrap()), "-0.3333333333333333");
}
