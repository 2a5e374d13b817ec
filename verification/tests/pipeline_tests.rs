use lib::error::SolverError;
use lib::formatter::FormattedOutput;
use lib::lexer::{is_punctuation, tokenize};
use lib::pipeline::{extract_question_vars, run_pipeline};
use lib::text::trim;

fn pipeline_result(sentence: &str) -> Result<FormattedOutput, SolverError> {
    run_pipeline(sentence)
}

/// Empty input is a parse error.
#[test]
fn test_empty_input_rejected() {
    assert!(matches!(pipeline_result(""), Err(SolverError::ParseError(_))));
}

/// Whitespace-only input is a parse error.
#[test]
fn test_whitespace_only_rejected() {
    assert!(matches!(pipeline_result("   "), Err(SolverError::ParseError(_))));
}

/// A simple solvable problem runs without an unexpected error.
#[test]
fn test_simple_solvable_runs_ok() {
    let result = pipeline_result("x is 5 more than 2");
    assert!(
        result.is_ok()
            || matches!(result, Err(SolverError::InsufficientInformation))
            || matches!(result, Err(SolverError::ParseError(_)))
    );
}

#[test]
fn test_division_by_zero_error_message() {
    let err = SolverError::DivisionByZero;
    assert_eq!(err.to_string(), "Division by zero is not possible.");
}

#[test]
fn test_insufficient_information_message() {
    let err = SolverError::InsufficientInformation;
    assert_eq!(err.to_string(), "Not enough information to solve the problem.");
}

#[test]
fn test_unsupported_degree_message() {
    let err = SolverError::UnsupportedDegree(2);
    assert!(err.to_string().contains("degree-2"));
}

#[test]
fn test_unsupported_domain_message() {
    let err = SolverError::UnsupportedDomain("sin".into());
    assert!(err.to_string().contains("sin"));
}

/// The word after "find" is the question variable.
#[test]
fn test_question_var_extraction() {
    let tokens = tokenize("find the value of x");
    let vars = extract_question_vars(&tokens);
    assert!(vars.contains(&"x".to_string()));
}

/// "x plus y is 20": one equation, two unknowns.
#[test]
fn test_e2e_insufficient_information() {
    let result = pipeline_result("x plus y is 20");
    assert!(
        matches!(result, Err(SolverError::InsufficientInformation)) || matches!(result, Err(SolverError::ParseError(_))),
        "Expected InsufficientInformation or ParseError, got: {:?}",
        result
    );
}

/// Nonsense input is handled without a crash.
#[test]
fn test_e2e_nonsensical_input_graceful() {
    let nonsense_inputs = vec!["!!! ??? ###", "the the the the", "42 42 42 42", "asdfghjkl qwertyuiop", "     "];
    for input in nonsense_inputs {
        let result = pipeline_result(input);
        assert!(result.is_err() || result.is_ok(), "Pipeline must not panic on input: {:?}", input);
        match result {
            Ok(_) => {},
            Err(SolverError::ParseError(_)) => {},
            Err(SolverError::InsufficientInformation) => {},
            Err(SolverError::DivisionByZero) => {},
            Err(SolverError::UnsupportedDegree(_)) => {},
            Err(SolverError::UnsupportedDomain(_)) => {},
        }
    }
}

// ---------------------------------------------------------------------------
// Further cases
// ---------------------------------------------------------------------------

/// The exact messages of the two input guards.
#[test]
fn test_guard_messages() {
    assert_eq!(
        pipeline_result("  \t ").unwrap_err(),
        SolverError::ParseError("Input sentence is empty.".to_string())
    );
    assert_eq!(
        pipeline_result("### $$$").unwrap_err(),
        SolverError::ParseError("No tokens could be extracted from the input.".to_string())
    );
}

/// A whole problem, solved and formatted.
#[test]
fn test_pipeline_solves_and_formats() {
    let out = pipeline_result("x is 5 more than 2").unwrap();
    assert_eq!(out.display, "Expressions:\n  x = 5 + 2\n  x = 7\n\nAnswer: x = 7");
    let out = pipeline_result("The price is 3 times 4.").unwrap();
    assert_eq!(out.equation_lines, vec!["price = 3 * 4".to_string()]);
    assert_eq!(out.answer_lines, vec!["price = 12".to_string()]);
    assert_eq!(out.display, "Expressions:\n  price = 3 * 4\n  price = 12\n\nAnswer: price = 12");
}

/// The question picks the answer line.
#[test]
fn test_pipeline_question_picks_answer() {
    let out = pipeline_result("x is 6 divided by 2, find x").unwrap();
    assert_eq!(out.display, "Expressions:\n  x = 6 / 2\n  x = 3\n\nAnswer: x = 3");
}

/// "total" sums the numbers into the first word.
#[test]
fn test_pipeline_total() {
    let out = pipeline_result("The total cost is 10 and 20 and 5.").unwrap();
    assert_eq!(out.answer_lines, vec!["cost = 35".to_string()]);
}

/// A multiplier word with nothing after it forms no equation.
#[test]
fn test_pipeline_dangling_operator() {
    assert_eq!(
        run_pipeline("y is twice").unwrap_err(),
        SolverError::ParseError("Could not form any equation from the input.".to_string())
    );
    assert!(matches!(run_pipeline("twice"), Err(SolverError::ParseError(_))));
}

/// Noise words are recognised whatever their case.
#[test]
fn test_pipeline_mixed_case() {
    let out = pipeline_result("THE PRICE IS 3 TIMES 4.").unwrap();
    assert_eq!(out.answer_lines, vec!["price = 12".to_string()]);
}

/// Question variables stop at the first punctuation after the question.
#[test]
fn test_question_vars_stop_at_punctuation() {
    let tokens = tokenize("What is the cost? apples");
    assert_eq!(extract_question_vars(&tokens), vec!["cost".to_string()]);
    let tokens = tokenize("john has apples");
    assert!(extract_question_vars(&tokens).is_empty());
}

/// Trimming white space at both ends only.
#[test]
fn test_trim() {
    assert_eq!(trim("  a b \n"), "a b".to_string());
    assert_eq!(trim(""), "".to_string());
}

/// The punctuation marks.
#[test]
fn test_punctuation_marks() {
    for c in ['.', ',', '?', '!', ';', ':'] {
        assert!(is_punctuation(c));
    }
    assert!(!is_punctuation('-'));
    assert!(!is_punctuation('a'));
}

/// A literal too large to read exactly is reported, not dropped.
#[test]
fn test_oversized_literal_reported() {
    assert_eq!(
        run_pipeline("x is 100000000000000000000 plus 1").unwrap_err(),
        SolverError::ParseError("A number in the problem is too large to compute exactly.".to_string())
    );
}
