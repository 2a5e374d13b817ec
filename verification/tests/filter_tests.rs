use lib::filter::filter;
use lib::number::Rational;
use lib::types::Token;

fn num(v: f64) -> Rational {
    let scaled = (v * 10000.0).round() as i64;
    Rational::ratio(scaled, 10000).unwrap()
}

fn w(s: &str) -> Token {
    Token::Word(s.to_string())
}

fn n(v: f64) -> Token {
    Token::Number(num(v))
}

fn p(c: char) -> Token {
    Token::Punctuation(c)
}

/// Pure noise words are removed, meaningful words survive.
#[test]
fn test_noise_words_removed() {
    let input = vec![w("john"), w("has"), w("a"), w("bag"), w("of"), w("apples")];
    let out = filter(input);
    assert_eq!(out.tokens, vec![w("john"), w("has"), w("bag"), w("apples")]);
    assert!(out.signals.is_empty());
}

/// Signal words are removed from the token stream but appear in signals.
#[test]
fn test_signal_words_preserved_separately() {
    let input = vec![w("john"), w("is"), w("older"), w("than"), w("mary")];
    let out = filter(input);
    assert_eq!(out.tokens, vec![w("john"), w("older"), w("than"), w("mary")]);
    assert_eq!(out.signals, vec!["is".to_string()]);
}

/// "total" is a signal word.
#[test]
fn test_total_is_a_signal() {
    let input = vec![w("the"), w("total"), w("cost"), w("are"), n(50.0)];
    let out = filter(input);
    assert_eq!(out.tokens, vec![w("cost"), n(50.0)]);
    assert_eq!(out.signals, vec!["total".to_string(), "are".to_string()]);
}

/// Numbers and punctuation always pass through untouched.
#[test]
fn test_numbers_and_punctuation_pass_through() {
    let input = vec![w("find"), w("the"), n(25.0), p('?')];
    let out = filter(input);
    assert_eq!(out.tokens, vec![n(25.0), p('?')]);
    assert!(out.signals.is_empty());
}

/// Multiple signal words are all collected in order.
#[test]
fn test_multiple_signals_collected_in_order() {
    let input = vec![w("x"), w("is"), n(5.0), w("and"), w("y"), w("are"), n(10.0)];
    let out = filter(input);
    assert_eq!(out.tokens, vec![w("x"), n(5.0), w("y"), n(10.0)]);
    assert_eq!(out.signals, vec!["is".to_string(), "are".to_string()]);
}

/// A clean sentence with no noise or signals passes through unchanged.
#[test]
fn test_clean_sentence_unchanged() {
    let input = vec![w("john"), w("has"), n(5.0), w("apples")];
    let out = filter(input.clone());
    assert_eq!(out.tokens, input);
    assert!(out.signals.is_empty());
}

/// Lexer output of a whole sentence through the filter.
#[test]
fn test_full_pipeline_noise_and_signals() {
    let input = vec![
        w("what"),
        w("is"),
        w("the"),
        w("total"),
        w("if"),
        w("john"),
        w("has"),
        n(5.0),
        w("apples"),
        w("and"),
        w("mary"),
        w("has"),
        n(3.0),
        p('?'),
    ];
    let out = filter(input);
    assert_eq!(
        out.tokens,
        vec![w("john"), w("has"), n(5.0), w("apples"), w("mary"), w("has"), n(3.0), p('?')]
    );
    assert_eq!(out.signals, vec!["is".to_string(), "total".to_string()]);
}

/// Every listed noise word is removed.
#[test]
fn test_all_noise_words_removed() {
    let input = vec![
        w("a"),
        w("an"),
        w("the"),
        w("was"),
        w("were"),
        w("if"),
        w("of"),
        w("and"),
        w("then"),
        w("each"),
        w("some"),
        w("there"),
        w("find"),
        w("how"),
        w("many"),
        w("what"),
        w("is"),
        w("are"),
        w("total"),
        w("result"),
    ];
    let out = filter(input);
    assert_eq!(out.tokens, vec![w("result")]);
    assert_eq!(out.signals, vec!["is".to_string(), "are".to_string(), "total".to_string()]);
}

/// "is" goes to the signals list, not deleted entirely.
#[test]
fn test_is_is_signal_not_deleted() {
    let input = vec![w("x"), w("is"), n(5.0)];
    let out = filter(input);
    assert_eq!(out.tokens, vec![w("x"), n(5.0)]);
    assert!(out.signals.contains(&"is".to_string()));
}

/// "are" goes to the signals list, not deleted entirely.
#[test]
fn test_are_is_signal_not_deleted() {
    let input = vec![w("values"), w("are"), n(10.0)];
    let out = filter(input);
    assert_eq!(out.tokens, vec![w("values"), n(10.0)]);
    assert!(out.signals.contains(&"are".to_string()));
}

/// "total" goes to the signals list, not deleted entirely.
#[test]
fn test_total_is_signal_not_deleted() {
    let input = vec![w("total"), w("cost"), n(99.0)];
    let out = filter(input);
    assert_eq!(out.tokens, vec![w("cost"), n(99.0)]);
    assert!(out.signals.contains(&"total".to_string()));
}

/// A sentence with no noise words returns an unchanged token list.
#[test]
fn test_no_noise_words_returns_unchanged() {
    let input = vec![w("john"), w("has"), n(7.0), w("apples")];
    let out = filter(input.clone());
    assert_eq!(out.tokens, input);
    assert!(out.signals.is_empty());
}

/// Only noise and signal words: empty token list, signals captured.
#[test]
fn test_only_noise_words_empty_tokens() {
    let input = vec![w("is"), w("the"), w("total")];
    let out = filter(input);
    assert!(out.tokens.is_empty(), "Expected empty tokens, got: {:?}", out.tokens);
    assert_eq!(out.signals, vec!["is".to_string(), "total".to_string()]);
}

/// Noise filtering on lower-case input (what the lexer gives).
#[test]
fn test_noise_filtering_case_insensitive() {
    let input_lower = vec![w("the"), w("john"), w("a"), w("mary")];
    let out_lower = filter(input_lower);
    assert_eq!(out_lower.tokens, vec![w("john"), w("mary")]);
    assert!(out_lower.signals.is_empty());
}

/// Noise words in mixed case are dropped too.
#[test]
fn test_noise_filtering_mixed_case() {
    let out = filter(vec![w("The"), w("john"), w("A"), w("mary"), w("IS"), n(3.0)]);
    assert_eq!(out.tokens, vec![w("john"), w("mary"), n(3.0)]);
    assert_eq!(out.signals, vec!["is".to_string()]);
}

/// Numbers and content words pass through completely untouched.
#[test]
fn test_numbers_and_content_words_pass_through() {
    let input = vec![n(42.0), w("apples"), n(3.14), w("price"), p('.')];
    let out = filter(input.clone());
    assert_eq!(out.tokens, input);
    assert!(out.signals.is_empty());
}

/// Noise words next to punctuation are still filtered.
#[test]
fn test_noise_words_adjacent_to_punctuation() {
    let input = vec![w("find"), p(','), w("the"), w("answer"), p('?')];
    let out = filter(input);
    assert_eq!(out.tokens, vec![p(','), w("answer"), p('?')]);
    assert!(out.signals.is_empty());
}

/// Signal words keep their order.
#[test]
fn test_signal_words_preserve_order() {
    let input = vec![
        w("total"),
        w("cost"),
        w("are"),
        n(10.0),
        w("and"),
        w("price"),
        w("is"),
        n(5.0),
    ];
    let out = filter(input);
    assert_eq!(out.signals, vec!["total".to_string(), "are".to_string(), "is".to_string()]);
    assert_eq!(out.tokens, vec![w("cost"), n(10.0), w("price"), n(5.0)]);
}

// ---------------------------------------------------------------------------
// Further cases
// ---------------------------------------------------------------------------

/// The empty token list gives empty output.
#[test]
fn test_filter_empty() {
    let out = filter(vec![]);
    assert!(out.tokens.is_empty());
    assert!(out.signals.is_empty());
}

/// Kept tokens and signals together account for every non-noise token.
#[test]
fn test_filter_partition() {
    let input = vec![w("x"), w("is"), w("the"), n(2.0), w("total"), p('.')];
    let out = filter(input);
    assert_eq!(out.tokens.len() + out.signals.len(), 5);
}
