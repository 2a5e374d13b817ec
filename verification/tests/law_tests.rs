use lib::assignment::Assignment;
use lib::filter::filter;
use lib::flattener::flatten;
use lib::lexer::tokenize;
use lib::number::Rational;
use lib::solver::solve;
use lib::types::{Equation, Expr, Operator, Token};

fn whole(n: i64) -> Rational {
    Rational::from_integer(n)
}

fn var(s: &str) -> Expr {
    Expr::Variable(s.to_string())
}

fn num(n: i64) -> Expr {
    Expr::Number(whole(n))
}

fn binop(op: Operator, l: Expr, r: Expr) -> Expr {
    Expr::BinaryOp { op, left: Box::new(l), right: Box::new(r) }
}

fn w(s: &str) -> Token {
    Token::Word(s.to_string())
}

/// Solving the flat form of a nested equation gives the nested value.
#[test]
fn test_flatten_then_solve_keeps_value() {
    let nested = binop(Operator::Add, binop(Operator::Add, num(2), num(3)), binop(Operator::Sub, num(9), num(5)));
    let flat = flatten(vec![Equation::new(var("result"), nested)]);
    let sol = solve(flat).unwrap();
    assert_eq!(sol.values.get("result").unwrap(), whole(9));
    // A product of two temporaries reads as degree two to the solver.
    let nested = binop(Operator::Mul, binop(Operator::Add, num(2), num(3)), binop(Operator::Sub, num(9), num(5)));
    let flat = flatten(vec![Equation::new(var("result"), nested)]);
    assert!(solve(flat).is_err());
}

/// Every variable of the equations ends up with a value.
#[test]
fn test_every_variable_bound() {
    let equations = vec![
        Equation::new(var("c"), binop(Operator::Add, var("b"), var("a"))),
        Equation::new(var("b"), binop(Operator::Mul, var("a"), num(3))),
        Equation::new(var("a"), num(2)),
    ];
    let sol = solve(equations).unwrap();
    for name in ["a", "b", "c"] {
        assert!(sol.values.get(name).is_some());
    }
    assert_eq!(sol.steps.len(), sol.values.len());
    assert_eq!(sol.steps, vec!["a = 2".to_string(), "b = 6".to_string(), "c = 8".to_string()]);
}

/// The value found solves its equation: 12 / x = 5 gives x = 12/5, and
/// 12 / (12/5) is 5 again.
#[test]
fn test_found_value_solves_equation() {
    let sol = solve(vec![Equation::new(binop(Operator::Div, num(12), var("x")), num(5))]).unwrap();
    let x = sol.values.get("x").unwrap();
    assert_eq!(x, Rational::ratio(12, 5).unwrap());
    assert_eq!(whole(12).div(&x).unwrap(), whole(5));
    let sol = solve(vec![Equation::new(binop(Operator::Sub, num(3), var("y")), num(10))]).unwrap();
    let y = sol.values.get("y").unwrap();
    assert_eq!(whole(3).sub(&y).unwrap(), whole(10));
}

/// Filtering two pieces and joining the results is filtering the whole.
#[test]
fn test_filter_piecewise() {
    let a = vec![w("the"), w("cost"), w("is")];
    let b = vec![Token::Number(whole(5)), w("and"), w("total"), w("x")];
    let whole: Vec<Token> = a.iter().chain(b.iter()).cloned().collect();
    let fa = filter(a);
    let fb = filter(b);
    let fw = filter(whole);
    let tokens: Vec<Token> = fa.tokens.iter().chain(fb.tokens.iter()).cloned().collect();
    let signals: Vec<String> = fa.signals.iter().chain(fb.signals.iter()).cloned().collect();
    assert_eq!(fw.tokens, tokens);
    assert_eq!(fw.signals, signals);
}

/// Words are runs of letters; digits in between make their own tokens.
#[test]
fn test_words_are_letters() {
    let tokens = tokenize("abc1def, ghi");
    assert_eq!(
        tokens,
        vec![w("abc"), Token::Number(whole(1)), w("def"), Token::Punctuation(','), w("ghi")]
    );
    for t in &tokens {
        if let Token::Word(s) = t {
            assert!(!s.is_empty() && s.chars().all(|c| c.is_alphabetic()));
        }
    }
}

/// A read after a write gives the value written; names stay in order.
#[test]
fn test_assignment_read_after_write() {
    let mut a = Assignment::new();
    a.insert("m".to_string(), whole(1));
    a.insert("c".to_string(), whole(2));
    a.insert("x".to_string(), whole(3));
    assert_eq!(a.get("c"), Some(whole(2)));
    assert_eq!(a.get("m"), Some(whole(1)));
    assert_eq!(a.get("q"), None);
    assert_eq!(a.len(), 3);
    assert_eq!(a.entry(0).0.as_str(), "c");
    assert_eq!(a.entry(2).0.as_str(), "x");
}

/// Fractions are kept in lowest terms with a positive denominator.
#[test]
fn test_fractions_reduced() {
    let q = Rational::ratio(6, -4).unwrap();
    assert_eq!(q.numerator(), -3);
    assert_eq!(q.denominator(), 2);
    assert_eq!(q, Rational::ratio(-3, 2).unwrap());
    assert!(Rational::ratio(1, 0).is_none());
    assert_eq!(q.to_decimal_string(), "-1.5");
}

/// Arithmetic that leaves the 64-bit range reports it.
#[test]
fn test_arithmetic_overflow_is_none() {
    assert!(whole(i64::MAX).add(&whole(1)).is_none());
    assert!(whole(i64::MAX).mul(&whole(2)).is_none());
    assert_eq!(whole(7).mul(&Rational::ratio(1, 7).unwrap()).unwrap(), whole(1));
}
