use lib::lexer::{tokenize, tokenize_and_check};
use lib::number::Rational;
use lib::types::Token;

fn num(v: f64) -> Rational {
    let scaled = (v * 10000.0).round() as i64;
    Rational::ratio(scaled, 10000).unwrap()
}

fn w(s: &str) -> Token {
    Token::Word(s.to_string())
}

fn n(v: f64) -> Token {
    Token::Number(num(v))
}

/// Simple sentence — all plain words, no numbers.
#[test]
fn test_simple_sentence() {
    let tokens = tokenize("John has apples");
    assert_eq!(tokens, vec![w("john"), w("has"), w("apples")]);
}

/// Sentence containing digit literals.
#[test]
fn test_sentence_with_digits() {
    let tokens = tokenize("John has 25 apples and 3 oranges");
    assert_eq!(
        tokens,
        vec![w("john"), w("has"), n(25.0), w("apples"), w("and"), n(3.0), w("oranges")]
    );
}

/// Sentence containing English number-words.
#[test]
fn test_sentence_with_number_words() {
    let tokens = tokenize("Mary has twelve cookies and five brownies");
    assert_eq!(
        tokens,
        vec![w("mary"), w("has"), n(12.0), w("cookies"), w("and"), n(5.0), w("brownies")]
    );
}

/// Sentence ending with punctuation.
#[test]
fn test_sentence_with_punctuation() {
    let tokens = tokenize("How many apples does John have?");
    assert_eq!(
        tokens,
        vec![
            w("how"),
            w("many"),
            w("apples"),
            w("does"),
            w("john"),
            w("have"),
            Token::Punctuation('?'),
        ]
    );
}

/// Mixed: digits, number-words, punctuation, and mixed-case input.
#[test]
fn test_mixed_and_case_insensitive() {
    let tokens = tokenize("Alice has 3 more than TWENTY apples, right?");
    assert_eq!(
        tokens,
        vec![
            w("alice"),
            w("has"),
            n(3.0),
            w("more"),
            w("than"),
            n(20.0),
            w("apples"),
            Token::Punctuation(','),
            w("right"),
            Token::Punctuation('?'),
        ]
    );
}

/// Decimal number handling.
#[test]
fn test_decimal_number() {
    let tokens = tokenize("The price is 3.5 dollars");
    assert_eq!(tokens, vec![w("the"), w("price"), w("is"), n(3.5), w("dollars")]);
}

/// "The sum is 10" → [the, sum, is, 10]
#[test]
fn test_simple_sentence_the_sum_is_10() {
    let tokens = tokenize("The sum is 10");
    assert_eq!(tokens, vec![w("the"), w("sum"), w("is"), n(10.0)]);
}

/// Digit numbers 20 and 100 parse correctly.
#[test]
fn test_digit_numbers_20_and_100() {
    let tokens = tokenize("20 plus 100");
    assert_eq!(tokens, vec![n(20.0), w("plus"), n(100.0)]);
}

/// Number-words "two", "four", "twenty" parse to their numeric values.
#[test]
fn test_number_words_two_four_twenty() {
    let tokens = tokenize("two plus four equals twenty");
    assert_eq!(tokens, vec![n(2.0), w("plus"), n(4.0), w("equals"), n(20.0)]);
}

/// Mixed digit literals and number-words in one sentence.
#[test]
fn test_mixed_digits_and_number_words() {
    let tokens = tokenize("3 times twelve is thirty six");
    assert_eq!(tokens, vec![n(3.0), w("times"), n(12.0), w("is"), n(30.0), n(6.0)]);
}

/// Period, comma, and question mark are each tokenized as punctuation.
#[test]
fn test_all_three_punctuation_types() {
    let tokens = tokenize("Wait, really. Are you sure?");
    assert!(tokens.contains(&Token::Punctuation('.')));
    assert!(tokens.contains(&Token::Punctuation(',')));
    assert!(tokens.contains(&Token::Punctuation('?')));
}

/// "The" and "the" produce identical tokens.
#[test]
fn test_case_insensitivity_the() {
    let upper = tokenize("The");
    let lower = tokenize("the");
    assert_eq!(upper, lower);
    assert_eq!(upper, vec![w("the")]);
}

/// Multiple spaces and extra whitespace do not break tokenization.
#[test]
fn test_extra_whitespace_ignored() {
    let tokens = tokenize("john   has    5   apples");
    assert_eq!(tokens, vec![w("john"), w("has"), n(5.0), w("apples")]);
}

/// Empty string returns an empty token list without panicking.
#[test]
fn test_empty_string_returns_empty_vec() {
    let tokens = tokenize("");
    assert!(tokens.is_empty());
}

/// Sentence with only numbers and no words.
#[test]
fn test_only_numbers_no_words() {
    let tokens = tokenize("10 20 30");
    assert_eq!(tokens, vec![n(10.0), n(20.0), n(30.0)]);
}

/// "twenty-five": the hyphen is skipped, each side tokenized on its own.
#[test]
fn test_hyphenated_number_word() {
    let tokens = tokenize("twenty-five");
    assert_eq!(tokens, vec![n(20.0), n(5.0)]);
}

/// "well-known" splits into two word tokens.
#[test]
fn test_hyphenated_plain_word() {
    let tokens = tokenize("well-known fact");
    assert_eq!(tokens, vec![w("well"), w("known"), w("fact")]);
}

// ---------------------------------------------------------------------------
// Further cases
// ---------------------------------------------------------------------------

/// Upper-case letters are lowered before words are read.
#[test]
fn test_upper_case_words_are_lowered() {
    assert_eq!(tokenize("JOHN HAS APPLES"), vec![w("john"), w("has"), w("apples")]);
}

/// Tokenizing is insensitive to case, sentence by sentence.
#[test]
fn test_case_never_changes_tokens() {
    assert_eq!(tokenize("Mary Has Five Apples."), tokenize("mary has five apples."));
}

/// A number with two decimal points is not a number and is dropped.
#[test]
fn test_two_decimal_points_dropped() {
    assert_eq!(tokenize("x is 1.2.3"), vec![w("x"), w("is")]);
}

/// Other symbols are skipped.
#[test]
fn test_symbols_skipped() {
    assert_eq!(tokenize("a # b $ 7"), vec![w("a"), w("b"), n(7.0)]);
}

/// A fractional number keeps its exact value.
#[test]
fn test_fraction_exact() {
    assert_eq!(tokenize("0.25"), vec![Token::Number(Rational::ratio(1, 4).unwrap())]);
}

/// A number too large for exact 64-bit fractions gives no token and is
/// flagged; a run with two dots is simply not a number.
#[test]
fn test_oversized_literal_flagged() {
    let (tokens, oversized) = tokenize_and_check("x is 100000000000000000000 apples");
    assert!(oversized);
    assert_eq!(tokens, vec![Token::Word("x".to_string()), Token::Word("is".to_string()), Token::Word("apples".to_string())]);
    let (tokens, oversized) = tokenize_and_check("x is 1.2.3");
    assert!(!oversized);
    assert_eq!(tokens, vec![Token::Word("x".to_string()), Token::Word("is".to_string())]);
    let (_, oversized) = tokenize_and_check("x is 9223372036854775807");
    assert!(!oversized);
}
