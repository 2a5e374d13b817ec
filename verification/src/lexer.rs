//! The lexer: raw English text to a stream of typed tokens.
use vstd::prelude::*;
use crate::number::{Rational, spec_integer, spec_parse_decimal, parse_decimal, too_large_literal, is_too_large_literal};
use crate::text::{
    is_white_space, is_letter, lowered, all_ascii, is_ascii_char, ascii_lower, is_ascii_digit, char_is_whitespace,
    char_is_alphabetic, char_is_ascii_digit, to_lowercase, chars_of, string_from_chars, chars_range,
    str_equals,
};
use crate::types::{Token, TokenView};

verus! {

/// English number-words and their values: zero through twenty, the tens
/// thirty to ninety, hundred and thousand.
pub open spec fn spec_word_to_number(w: Seq<char>) -> Option<Rational> {
    if w == "zero"@ {
        Some(spec_integer(0))
    } else if w == "one"@ {
        Some(spec_integer(1))
    } else if w == "two"@ {
        Some(spec_integer(2))
    } else if w == "three"@ {
        Some(spec_integer(3))
    } else if w == "four"@ {
        Some(spec_integer(4))
    } else if w == "five"@ {
        Some(spec_integer(5))
    } else if w == "six"@ {
        Some(spec_integer(6))
    } else if w == "seven"@ {
        Some(spec_integer(7))
    } else if w == "eight"@ {
        Some(spec_integer(8))
    } else if w == "nine"@ {
        Some(spec_integer(9))
    } else if w == "ten"@ {
        Some(spec_integer(10))
    } else if w == "eleven"@ {
        Some(spec_integer(11))
    } else if w == "twelve"@ {
        Some(spec_integer(12))
    } else if w == "thirteen"@ {
        Some(spec_integer(13))
    } else if w == "fourteen"@ {
        Some(spec_integer(14))
    } else if w == "fifteen"@ {
        Some(spec_integer(15))
    } else if w == "sixteen"@ {
        Some(spec_integer(16))
    } else if w == "seventeen"@ {
        Some(spec_integer(17))
    } else if w == "eighteen"@ {
        Some(spec_integer(18))
    } else if w == "nineteen"@ {
        Some(spec_integer(19))
    } else if w == "twenty"@ {
        Some(spec_integer(20))
    } else if w == "thirty"@ {
        Some(spec_integer(30))
    } else if w == "forty"@ {
        Some(spec_integer(40))
    } else if w == "fifty"@ {
        Some(spec_integer(50))
    } else if w == "sixty"@ {
        Some(spec_integer(60))
    } else if w == "seventy"@ {
        Some(spec_integer(70))
    } else if w == "eighty"@ {
        Some(spec_integer(80))
    } else if w == "ninety"@ {
        Some(spec_integer(90))
    } else if w == "hundred"@ {
        Some(spec_integer(100))
    } else if w == "thousand"@ {
        Some(spec_integer(1000))
    } else {
        None
    }
}

/// Maps an English number-word to its value.
pub fn word_to_number(w: &str) -> (r: Option<Rational>)
    ensures
        r == spec_word_to_number(w@),
{
    if str_equals(w, "zero") {
        Some(Rational::from_integer(0))
    } else if str_equals(w, "one") {
        Some(Rational::from_integer(1))
    } else if str_equals(w, "two") {
        Some(Rational::from_integer(2))
    } else if str_equals(w, "three") {
        Some(Rational::from_integer(3))
    } else if str_equals(w, "four") {
        Some(Rational::from_integer(4))
    } else if str_equals(w, "five") {
        Some(Rational::from_integer(5))
    } else if str_equals(w, "six") {
        Some(Rational::from_integer(6))
    } else if str_equals(w, "seven") {
        Some(Rational::from_integer(7))
    } else if str_equals(w, "eight") {
        Some(Rational::from_integer(8))
    } else if str_equals(w, "nine") {
        Some(Rational::from_integer(9))
    } else if str_equals(w, "ten") {
        Some(Rational::from_integer(10))
    } else if str_equals(w, "eleven") {
        Some(Rational::from_integer(11))
    } else if str_equals(w, "twelve") {
        Some(Rational::from_integer(12))
    } else if str_equals(w, "thirteen") {
        Some(Rational::from_integer(13))
    } else if str_equals(w, "fourteen") {
        Some(Rational::from_integer(14))
    } else if str_equals(w, "fifteen") {
        Some(Rational::from_integer(15))
    } else if str_equals(w, "sixteen") {
        Some(Rational::from_integer(16))
    } else if str_equals(w, "seventeen") {
        Some(Rational::from_integer(17))
    } else if str_equals(w, "eighteen") {
        Some(Rational::from_integer(18))
    } else if str_equals(w, "nineteen") {
        Some(Rational::from_integer(19))
    } else if str_equals(w, "twenty") {
        Some(Rational::from_integer(20))
    } else if str_equals(w, "thirty") {
        Some(Rational::from_integer(30))
    } else if str_equals(w, "forty") {
        Some(Rational::from_integer(40))
    } else if str_equals(w, "fifty") {
        Some(Rational::from_integer(50))
    } else if str_equals(w, "sixty") {
        Some(Rational::from_integer(60))
    } else if str_equals(w, "seventy") {
        Some(Rational::from_integer(70))
    } else if str_equals(w, "eighty") {
        Some(Rational::from_integer(80))
    } else if str_equals(w, "ninety") {
        Some(Rational::from_integer(90))
    } else if str_equals(w, "hundred") {
        Some(Rational::from_integer(100))
    } else if str_equals(w, "thousand") {
        Some(Rational::from_integer(1000))
    } else {
        None
    }
}

/// The recognised punctuation characters.
pub open spec fn spec_is_punctuation(c: char) -> bool {
    c == '.' || c == ',' || c == '?' || c == '!' || c == ';' || c == ':'
}

/// Returns true if the character is recognised punctuation.
pub fn is_punctuation(c: char) -> (b: bool)
    ensures
        b == spec_is_punctuation(c),
{
    c == '.' || c == ',' || c == '?' || c == '!' || c == ';' || c == ':'
}

pub open spec fn is_number_char(c: char) -> bool {
    is_ascii_digit(c) || c == '.'
}

/// The end of the run of digits and dots that starts at `i`.
pub open spec fn digit_run_end(cs: Seq<char>, i: nat) -> nat
    decreases cs.len() - i,
{
    if i < cs.len() && is_number_char(cs[i as int]) {
        digit_run_end(cs, i + 1)
    } else {
        i
    }
}

/// The end of the run of alphabetic characters that starts at `i`.
pub open spec fn alpha_run_end(cs: Seq<char>, i: nat) -> nat
    decreases cs.len() - i,
{
    if i < cs.len() && is_letter(cs[i as int]) {
        alpha_run_end(cs, i + 1)
    } else {
        i
    }
}

pub proof fn lemma_digit_run_end(cs: Seq<char>, i: nat)
    requires
        i <= cs.len(),
    ensures
        i <= digit_run_end(cs, i) <= cs.len(),
        i < cs.len() && is_number_char(cs[i as int]) ==> i < digit_run_end(cs, i),
        forall|k: int| i <= k < digit_run_end(cs, i) ==> is_number_char(#[trigger] cs[k]),
        digit_run_end(cs, i) < cs.len() ==> !is_number_char(cs[digit_run_end(cs, i) as int]),
    decreases cs.len() - i,
{
    if i < cs.len() && is_number_char(cs[i as int]) {
        lemma_digit_run_end(cs, i + 1);
    }
}

pub proof fn lemma_alpha_run_end(cs: Seq<char>, i: nat)
    requires
        i <= cs.len(),
    ensures
        i <= alpha_run_end(cs, i) <= cs.len(),
        i < cs.len() && is_letter(cs[i as int]) ==> i < alpha_run_end(cs, i),
        forall|k: int| i <= k < alpha_run_end(cs, i) ==> is_letter(#[trigger] cs[k]),
        alpha_run_end(cs, i) < cs.len() ==> !is_letter(cs[alpha_run_end(cs, i) as int]),
    decreases cs.len() - i,
{
    if i < cs.len() && is_letter(cs[i as int]) {
        lemma_alpha_run_end(cs, i + 1);
    }
}

proof fn lemma_alpha_run_to_end(cs: Seq<char>, i: nat)
    requires
        i <= cs.len(),
        forall|k: int| i <= k < cs.len() ==> 'a' <= #[trigger] cs[k] && cs[k] <= 'z',
    ensures
        alpha_run_end(cs, i) == cs.len(),
    decreases cs.len() - i,
{
    if i < cs.len() {
        assert('a' <= cs[i as int] && cs[i as int] <= 'z');
        lemma_alpha_run_to_end(cs, i + 1);
    }
}

/// A lower-case word on its own is one token: its number when it is a
/// number-word, else the word.
proof fn lemma_tokenize_lower_word(w: Seq<char>)
    requires
        w.len() > 0,
        forall|k: int| 0 <= k < w.len() ==> 'a' <= #[trigger] w[k] && w[k] <= 'z',
    ensures
        spec_tokenize(w) == seq![
            match spec_word_to_number(w) {
                Some(n) => TokenView::Number(n),
                None => TokenView::Word(w),
            },
        ],
{
    assert(all_ascii(w)) by {
        assert forall|k: int| 0 <= k < w.len() implies is_ascii_char(#[trigger] w[k]) by {
            assert('a' <= w[k] && w[k] <= 'z');
        }
    }
    assert(w.map_values(|c: char| ascii_lower(c)) =~= w);
    assert(lowered(w) == w);
    assert('a' <= w[0] && w[0] <= 'z');
    lemma_alpha_run_to_end(w, 0);
    assert(w.subrange(0, w.len() as int) =~= w);
    assert(spec_tokens_from(w, w.len()) == Seq::<TokenView>::empty());
}

/// The number-words and their values.
proof fn lemma_number_word(w: Seq<char>, n: int)
    requires
        w.len() > 0,
        forall|k: int| 0 <= k < w.len() ==> 'a' <= #[trigger] w[k] && w[k] <= 'z',
        spec_word_to_number(w) == Some(spec_integer(n)),
    ensures
        spec_tokenize(w) == seq![TokenView::Number(spec_integer(n))],
{
    lemma_tokenize_lower_word(w);
}

/// Each English number-word reads as its value: "forty" on its own is the
/// single number 40, and likewise for every tens word from "thirty" to
/// "ninety" (ten times its tens digit, the `d`-th word below being `10 * (d + 3)`).
pub proof fn law_tens_words(d: int)
    requires
        0 <= d < 7,
    ensures
        spec_tokenize(seq!["thirty"@, "forty"@, "fifty"@, "sixty"@, "seventy"@, "eighty"@, "ninety"@][d])
            == seq![TokenView::Number(spec_integer(10 * (d + 3)))],
{
    let table = seq!["thirty"@, "forty"@, "fifty"@, "sixty"@, "seventy"@, "eighty"@, "ninety"@];
    reveal_strlit("zero");
    reveal_strlit("one");
    reveal_strlit("two");
    reveal_strlit("three");
    reveal_strlit("four");
    reveal_strlit("five");
    reveal_strlit("six");
    reveal_strlit("seven");
    reveal_strlit("eight");
    reveal_strlit("nine");
    reveal_strlit("ten");
    reveal_strlit("eleven");
    reveal_strlit("twelve");
    reveal_strlit("thirteen");
    reveal_strlit("fourteen");
    reveal_strlit("fifteen");
    reveal_strlit("sixteen");
    reveal_strlit("seventeen");
    reveal_strlit("eighteen");
    reveal_strlit("nineteen");
    reveal_strlit("twenty");
    reveal_strlit("thirty");
    reveal_strlit("forty");
    reveal_strlit("fifty");
    reveal_strlit("sixty");
    reveal_strlit("seventy");
    reveal_strlit("eighty");
    reveal_strlit("ninety");
    reveal_strlit("hundred");
    reveal_strlit("thousand");
    let w = table[d];
    assert forall|k: int| 0 <= k < w.len() implies 'a' <= #[trigger] w[k] && w[k] <= 'z' by {}
    if d == 0 {
        assert(w == "thirty"@);
        assert("thirty"@ != "zero"@) by { assert("thirty"@.len() == 6 && "zero"@.len() == 4); }
        assert("thirty"@ != "one"@) by { assert("thirty"@.len() == 6 && "one"@.len() == 3); }
        assert("thirty"@ != "two"@) by { assert("thirty"@.len() == 6 && "two"@.len() == 3); }
        assert("thirty"@ != "three"@) by { assert("thirty"@.len() == 6 && "three"@.len() == 5); }
        assert("thirty"@ != "four"@) by { assert("thirty"@.len() == 6 && "four"@.len() == 4); }
        assert("thirty"@ != "five"@) by { assert("thirty"@.len() == 6 && "five"@.len() == 4); }
        assert("thirty"@ != "six"@) by { assert("thirty"@.len() == 6 && "six"@.len() == 3); }
        assert("thirty"@ != "seven"@) by { assert("thirty"@.len() == 6 && "seven"@.len() == 5); }
        assert("thirty"@ != "eight"@) by { assert("thirty"@.len() == 6 && "eight"@.len() == 5); }
        assert("thirty"@ != "nine"@) by { assert("thirty"@.len() == 6 && "nine"@.len() == 4); }
        assert("thirty"@ != "ten"@) by { assert("thirty"@.len() == 6 && "ten"@.len() == 3); }
        assert("thirty"@ != "eleven"@) by { assert("thirty"@[0] == 't' && "eleven"@[0] == 'e'); }
        assert("thirty"@ != "twelve"@) by { assert("thirty"@[1] == 'h' && "twelve"@[1] == 'w'); }
        assert("thirty"@ != "thirteen"@) by { assert("thirty"@.len() == 6 && "thirteen"@.len() == 8); }
        assert("thirty"@ != "fourteen"@) by { assert("thirty"@.len() == 6 && "fourteen"@.len() == 8); }
        assert("thirty"@ != "fifteen"@) by { assert("thirty"@.len() == 6 && "fifteen"@.len() == 7); }
        assert("thirty"@ != "sixteen"@) by { assert("thirty"@.len() == 6 && "sixteen"@.len() == 7); }
        assert("thirty"@ != "seventeen"@) by { assert("thirty"@.len() == 6 && "seventeen"@.len() == 9); }
        assert("thirty"@ != "eighteen"@) by { assert("thirty"@.len() == 6 && "eighteen"@.len() == 8); }
        assert("thirty"@ != "nineteen"@) by { assert("thirty"@.len() == 6 && "nineteen"@.len() == 8); }
        assert("thirty"@ != "twenty"@) by { assert("thirty"@[1] == 'h' && "twenty"@[1] == 'w'); }
        assert(spec_word_to_number("thirty"@) == Some(spec_integer(30)));
    } else if d == 1 {
        assert(w == "forty"@);
        assert("forty"@ != "zero"@) by { assert("forty"@.len() == 5 && "zero"@.len() == 4); }
        assert("forty"@ != "one"@) by { assert("forty"@.len() == 5 && "one"@.len() == 3); }
        assert("forty"@ != "two"@) by { assert("forty"@.len() == 5 && "two"@.len() == 3); }
        assert("forty"@ != "three"@) by { assert("forty"@[0] == 'f' && "three"@[0] == 't'); }
        assert("forty"@ != "four"@) by { assert("forty"@.len() == 5 && "four"@.len() == 4); }
        assert("forty"@ != "five"@) by { assert("forty"@.len() == 5 && "five"@.len() == 4); }
        assert("forty"@ != "six"@) by { assert("forty"@.len() == 5 && "six"@.len() == 3); }
        assert("forty"@ != "seven"@) by { assert("forty"@[0] == 'f' && "seven"@[0] == 's'); }
        assert("forty"@ != "eight"@) by { assert("forty"@[0] == 'f' && "eight"@[0] == 'e'); }
        assert("forty"@ != "nine"@) by { assert("forty"@.len() == 5 && "nine"@.len() == 4); }
        assert("forty"@ != "ten"@) by { assert("forty"@.len() == 5 && "ten"@.len() == 3); }
        assert("forty"@ != "eleven"@) by { assert("forty"@.len() == 5 && "eleven"@.len() == 6); }
        assert("forty"@ != "twelve"@) by { assert("forty"@.len() == 5 && "twelve"@.len() == 6); }
        assert("forty"@ != "thirteen"@) by { assert("forty"@.len() == 5 && "thirteen"@.len() == 8); }
        assert("forty"@ != "fourteen"@) by { assert("forty"@.len() == 5 && "fourteen"@.len() == 8); }
        assert("forty"@ != "fifteen"@) by { assert("forty"@.len() == 5 && "fifteen"@.len() == 7); }
        assert("forty"@ != "sixteen"@) by { assert("forty"@.len() == 5 && "sixteen"@.len() == 7); }
        assert("forty"@ != "seventeen"@) by { assert("forty"@.len() == 5 && "seventeen"@.len() == 9); }
        assert("forty"@ != "eighteen"@) by { assert("forty"@.len() == 5 && "eighteen"@.len() == 8); }
        assert("forty"@ != "nineteen"@) by { assert("forty"@.len() == 5 && "nineteen"@.len() == 8); }
        assert("forty"@ != "twenty"@) by { assert("forty"@.len() == 5 && "twenty"@.len() == 6); }
        assert("forty"@ != "thirty"@) by { assert("forty"@.len() == 5 && "thirty"@.len() == 6); }
        assert(spec_word_to_number("forty"@) == Some(spec_integer(40)));
    } else if d == 2 {
        assert(w == "fifty"@);
        assert("fifty"@ != "zero"@) by { assert("fifty"@.len() == 5 && "zero"@.len() == 4); }
        assert("fifty"@ != "one"@) by { assert("fifty"@.len() == 5 && "one"@.len() == 3); }
        assert("fifty"@ != "two"@) by { assert("fifty"@.len() == 5 && "two"@.len() == 3); }
        assert("fifty"@ != "three"@) by { assert("fifty"@[0] == 'f' && "three"@[0] == 't'); }
        assert("fifty"@ != "four"@) by { assert("fifty"@.len() == 5 && "four"@.len() == 4); }
        assert("fifty"@ != "five"@) by { assert("fifty"@.len() == 5 && "five"@.len() == 4); }
        assert("fifty"@ != "six"@) by { assert("fifty"@.len() == 5 && "six"@.len() == 3); }
        assert("fifty"@ != "seven"@) by { assert("fifty"@[0] == 'f' && "seven"@[0] == 's'); }
        assert("fifty"@ != "eight"@) by { assert("fifty"@[0] == 'f' && "eight"@[0] == 'e'); }
        assert("fifty"@ != "nine"@) by { assert("fifty"@.len() == 5 && "nine"@.len() == 4); }
        assert("fifty"@ != "ten"@) by { assert("fifty"@.len() == 5 && "ten"@.len() == 3); }
        assert("fifty"@ != "eleven"@) by { assert("fifty"@.len() == 5 && "eleven"@.len() == 6); }
        assert("fifty"@ != "twelve"@) by { assert("fifty"@.len() == 5 && "twelve"@.len() == 6); }
        assert("fifty"@ != "thirteen"@) by { assert("fifty"@.len() == 5 && "thirteen"@.len() == 8); }
        assert("fifty"@ != "fourteen"@) by { assert("fifty"@.len() == 5 && "fourteen"@.len() == 8); }
        assert("fifty"@ != "fifteen"@) by { assert("fifty"@.len() == 5 && "fifteen"@.len() == 7); }
        assert("fifty"@ != "sixteen"@) by { assert("fifty"@.len() == 5 && "sixteen"@.len() == 7); }
        assert("fifty"@ != "seventeen"@) by { assert("fifty"@.len() == 5 && "seventeen"@.len() == 9); }
        assert("fifty"@ != "eighteen"@) by { assert("fifty"@.len() == 5 && "eighteen"@.len() == 8); }
        assert("fifty"@ != "nineteen"@) by { assert("fifty"@.len() == 5 && "nineteen"@.len() == 8); }
        assert("fifty"@ != "twenty"@) by { assert("fifty"@.len() == 5 && "twenty"@.len() == 6); }
        assert("fifty"@ != "thirty"@) by { assert("fifty"@.len() == 5 && "thirty"@.len() == 6); }
        assert("fifty"@ != "forty"@) by { assert("fifty"@[1] == 'i' && "forty"@[1] == 'o'); }
        assert(spec_word_to_number("fifty"@) == Some(spec_integer(50)));
    } else if d == 3 {
        assert(w == "sixty"@);
        assert("sixty"@ != "zero"@) by { assert("sixty"@.len() == 5 && "zero"@.len() == 4); }
        assert("sixty"@ != "one"@) by { assert("sixty"@.len() == 5 && "one"@.len() == 3); }
        assert("sixty"@ != "two"@) by { assert("sixty"@.len() == 5 && "two"@.len() == 3); }
        assert("sixty"@ != "three"@) by { assert("sixty"@[0] == 's' && "three"@[0] == 't'); }
        assert("sixty"@ != "four"@) by { assert("sixty"@.len() == 5 && "four"@.len() == 4); }
        assert("sixty"@ != "five"@) by { assert("sixty"@.len() == 5 && "five"@.len() == 4); }
        assert("sixty"@ != "six"@) by { assert("sixty"@.len() == 5 && "six"@.len() == 3); }
        assert("sixty"@ != "seven"@) by { assert("sixty"@[1] == 'i' && "seven"@[1] == 'e'); }
        assert("sixty"@ != "eight"@) by { assert("sixty"@[0] == 's' && "eight"@[0] == 'e'); }
        assert("sixty"@ != "nine"@) by { assert("sixty"@.len() == 5 && "nine"@.len() == 4); }
        assert("sixty"@ != "ten"@) by { assert("sixty"@.len() == 5 && "ten"@.len() == 3); }
        assert("sixty"@ != "eleven"@) by { assert("sixty"@.len() == 5 && "eleven"@.len() == 6); }
        assert("sixty"@ != "twelve"@) by { assert("sixty"@.len() == 5 && "twelve"@.len() == 6); }
        assert("sixty"@ != "thirteen"@) by { assert("sixty"@.len() == 5 && "thirteen"@.len() == 8); }
        assert("sixty"@ != "fourteen"@) by { assert("sixty"@.len() == 5 && "fourteen"@.len() == 8); }
        assert("sixty"@ != "fifteen"@) by { assert("sixty"@.len() == 5 && "fifteen"@.len() == 7); }
        assert("sixty"@ != "sixteen"@) by { assert("sixty"@.len() == 5 && "sixteen"@.len() == 7); }
        assert("sixty"@ != "seventeen"@) by { assert("sixty"@.len() == 5 && "seventeen"@.len() == 9); }
        assert("sixty"@ != "eighteen"@) by { assert("sixty"@.len() == 5 && "eighteen"@.len() == 8); }
        assert("sixty"@ != "nineteen"@) by { assert("sixty"@.len() == 5 && "nineteen"@.len() == 8); }
        assert("sixty"@ != "twenty"@) by { assert("sixty"@.len() == 5 && "twenty"@.len() == 6); }
        assert("sixty"@ != "thirty"@) by { assert("sixty"@.len() == 5 && "thirty"@.len() == 6); }
        assert("sixty"@ != "forty"@) by { assert("sixty"@[0] == 's' && "forty"@[0] == 'f'); }
        assert("sixty"@ != "fifty"@) by { assert("sixty"@[0] == 's' && "fifty"@[0] == 'f'); }
        assert(spec_word_to_number("sixty"@) == Some(spec_integer(60)));
    } else if d == 4 {
        assert(w == "seventy"@);
        assert("seventy"@ != "zero"@) by { assert("seventy"@.len() == 7 && "zero"@.len() == 4); }
        assert("seventy"@ != "one"@) by { assert("seventy"@.len() == 7 && "one"@.len() == 3); }
        assert("seventy"@ != "two"@) by { assert("seventy"@.len() == 7 && "two"@.len() == 3); }
        assert("seventy"@ != "three"@) by { assert("seventy"@.len() == 7 && "three"@.len() == 5); }
        assert("seventy"@ != "four"@) by { assert("seventy"@.len() == 7 && "four"@.len() == 4); }
        assert("seventy"@ != "five"@) by { assert("seventy"@.len() == 7 && "five"@.len() == 4); }
        assert("seventy"@ != "six"@) by { assert("seventy"@.len() == 7 && "six"@.len() == 3); }
        assert("seventy"@ != "seven"@) by { assert("seventy"@.len() == 7 && "seven"@.len() == 5); }
        assert("seventy"@ != "eight"@) by { assert("seventy"@.len() == 7 && "eight"@.len() == 5); }
        assert("seventy"@ != "nine"@) by { assert("seventy"@.len() == 7 && "nine"@.len() == 4); }
        assert("seventy"@ != "ten"@) by { assert("seventy"@.len() == 7 && "ten"@.len() == 3); }
        assert("seventy"@ != "eleven"@) by { assert("seventy"@.len() == 7 && "eleven"@.len() == 6); }
        assert("seventy"@ != "twelve"@) by { assert("seventy"@.len() == 7 && "twelve"@.len() == 6); }
        assert("seventy"@ != "thirteen"@) by { assert("seventy"@.len() == 7 && "thirteen"@.len() == 8); }
        assert("seventy"@ != "fourteen"@) by { assert("seventy"@.len() == 7 && "fourteen"@.len() == 8); }
        assert("seventy"@ != "fifteen"@) by { assert("seventy"@[0] == 's' && "fifteen"@[0] == 'f'); }
        assert("seventy"@ != "sixteen"@) by { assert("seventy"@[1] == 'e' && "sixteen"@[1] == 'i'); }
        assert("seventy"@ != "seventeen"@) by { assert("seventy"@.len() == 7 && "seventeen"@.len() == 9); }
        assert("seventy"@ != "eighteen"@) by { assert("seventy"@.len() == 7 && "eighteen"@.len() == 8); }
        assert("seventy"@ != "nineteen"@) by { assert("seventy"@.len() == 7 && "nineteen"@.len() == 8); }
        assert("seventy"@ != "twenty"@) by { assert("seventy"@.len() == 7 && "twenty"@.len() == 6); }
        assert("seventy"@ != "thirty"@) by { assert("seventy"@.len() == 7 && "thirty"@.len() == 6); }
        assert("seventy"@ != "forty"@) by { assert("seventy"@.len() == 7 && "forty"@.len() == 5); }
        assert("seventy"@ != "fifty"@) by { assert("seventy"@.len() == 7 && "fifty"@.len() == 5); }
        assert("seventy"@ != "sixty"@) by { assert("seventy"@.len() == 7 && "sixty"@.len() == 5); }
        assert(spec_word_to_number("seventy"@) == Some(spec_integer(70)));
    } else if d == 5 {
        assert(w == "eighty"@);
        assert("eighty"@ != "zero"@) by { assert("eighty"@.len() == 6 && "zero"@.len() == 4); }
        assert("eighty"@ != "one"@) by { assert("eighty"@.len() == 6 && "one"@.len() == 3); }
        assert("eighty"@ != "two"@) by { assert("eighty"@.len() == 6 && "two"@.len() == 3); }
        assert("eighty"@ != "three"@) by { assert("eighty"@.len() == 6 && "three"@.len() == 5); }
        assert("eighty"@ != "four"@) by { assert("eighty"@.len() == 6 && "four"@.len() == 4); }
        assert("eighty"@ != "five"@) by { assert("eighty"@.len() == 6 && "five"@.len() == 4); }
        assert("eighty"@ != "six"@) by { assert("eighty"@.len() == 6 && "six"@.len() == 3); }
        assert("eighty"@ != "seven"@) by { assert("eighty"@.len() == 6 && "seven"@.len() == 5); }
        assert("eighty"@ != "eight"@) by { assert("eighty"@.len() == 6 && "eight"@.len() == 5); }
        assert("eighty"@ != "nine"@) by { assert("eighty"@.len() == 6 && "nine"@.len() == 4); }
        assert("eighty"@ != "ten"@) by { assert("eighty"@.len() == 6 && "ten"@.len() == 3); }
        assert("eighty"@ != "eleven"@) by { assert("eighty"@[1] == 'i' && "eleven"@[1] == 'l'); }
        assert("eighty"@ != "twelve"@) by { assert("eighty"@[0] == 'e' && "twelve"@[0] == 't'); }
        assert("eighty"@ != "thirteen"@) by { assert("eighty"@.len() == 6 && "thirteen"@.len() == 8); }
        assert("eighty"@ != "fourteen"@) by { assert("eighty"@.len() == 6 && "fourteen"@.len() == 8); }
        assert("eighty"@ != "fifteen"@) by { assert("eighty"@.len() == 6 && "fifteen"@.len() == 7); }
        assert("eighty"@ != "sixteen"@) by { assert("eighty"@.len() == 6 && "sixteen"@.len() == 7); }
        assert("eighty"@ != "seventeen"@) by { assert("eighty"@.len() == 6 && "seventeen"@.len() == 9); }
        assert("eighty"@ != "eighteen"@) by { assert("eighty"@.len() == 6 && "eighteen"@.len() == 8); }
        assert("eighty"@ != "nineteen"@) by { assert("eighty"@.len() == 6 && "nineteen"@.len() == 8); }
        assert("eighty"@ != "twenty"@) by { assert("eighty"@[0] == 'e' && "twenty"@[0] == 't'); }
        assert("eighty"@ != "thirty"@) by { assert("eighty"@[0] == 'e' && "thirty"@[0] == 't'); }
        assert("eighty"@ != "forty"@) by { assert("eighty"@.len() == 6 && "forty"@.len() == 5); }
        assert("eighty"@ != "fifty"@) by { assert("eighty"@.len() == 6 && "fifty"@.len() == 5); }
        assert("eighty"@ != "sixty"@) by { assert("eighty"@.len() == 6 && "sixty"@.len() == 5); }
        assert("eighty"@ != "seventy"@) by { assert("eighty"@.len() == 6 && "seventy"@.len() == 7); }
        assert(spec_word_to_number("eighty"@) == Some(spec_integer(80)));
    } else if d == 6 {
        assert(w == "ninety"@);
        assert("ninety"@ != "zero"@) by { assert("ninety"@.len() == 6 && "zero"@.len() == 4); }
        assert("ninety"@ != "one"@) by { assert("ninety"@.len() == 6 && "one"@.len() == 3); }
        assert("ninety"@ != "two"@) by { assert("ninety"@.len() == 6 && "two"@.len() == 3); }
        assert("ninety"@ != "three"@) by { assert("ninety"@.len() == 6 && "three"@.len() == 5); }
        assert("ninety"@ != "four"@) by { assert("ninety"@.len() == 6 && "four"@.len() == 4); }
        assert("ninety"@ != "five"@) by { assert("ninety"@.len() == 6 && "five"@.len() == 4); }
        assert("ninety"@ != "six"@) by { assert("ninety"@.len() == 6 && "six"@.len() == 3); }
        assert("ninety"@ != "seven"@) by { assert("ninety"@.len() == 6 && "seven"@.len() == 5); }
        assert("ninety"@ != "eight"@) by { assert("ninety"@.len() == 6 && "eight"@.len() == 5); }
        assert("ninety"@ != "nine"@) by { assert("ninety"@.len() == 6 && "nine"@.len() == 4); }
        assert("ninety"@ != "ten"@) by { assert("ninety"@.len() == 6 && "ten"@.len() == 3); }
        assert("ninety"@ != "eleven"@) by { assert("ninety"@[0] == 'n' && "eleven"@[0] == 'e'); }
        assert("ninety"@ != "twelve"@) by { assert("ninety"@[0] == 'n' && "twelve"@[0] == 't'); }
        assert("ninety"@ != "thirteen"@) by { assert("ninety"@.len() == 6 && "thirteen"@.len() == 8); }
        assert("ninety"@ != "fourteen"@) by { assert("ninety"@.len() == 6 && "fourteen"@.len() == 8); }
        assert("ninety"@ != "fifteen"@) by { assert("ninety"@.len() == 6 && "fifteen"@.len() == 7); }
        assert("ninety"@ != "sixteen"@) by { assert("ninety"@.len() == 6 && "sixteen"@.len() == 7); }
        assert("ninety"@ != "seventeen"@) by { assert("ninety"@.len() == 6 && "seventeen"@.len() == 9); }
        assert("ninety"@ != "eighteen"@) by { assert("ninety"@.len() == 6 && "eighteen"@.len() == 8); }
        assert("ninety"@ != "nineteen"@) by { assert("ninety"@.len() == 6 && "nineteen"@.len() == 8); }
        assert("ninety"@ != "twenty"@) by { assert("ninety"@[0] == 'n' && "twenty"@[0] == 't'); }
        assert("ninety"@ != "thirty"@) by { assert("ninety"@[0] == 'n' && "thirty"@[0] == 't'); }
        assert("ninety"@ != "forty"@) by { assert("ninety"@.len() == 6 && "forty"@.len() == 5); }
        assert("ninety"@ != "fifty"@) by { assert("ninety"@.len() == 6 && "fifty"@.len() == 5); }
        assert("ninety"@ != "sixty"@) by { assert("ninety"@.len() == 6 && "sixty"@.len() == 5); }
        assert("ninety"@ != "seventy"@) by { assert("ninety"@.len() == 6 && "seventy"@.len() == 7); }
        assert("ninety"@ != "eighty"@) by { assert("ninety"@[0] == 'n' && "eighty"@[0] == 'e'); }
        assert(spec_word_to_number("ninety"@) == Some(spec_integer(90)));
    }
    lemma_number_word(w, 10 * (d + 3));
}

/// The number-words from "zero" to "twenty" read as their values: the
/// `d`-th of them on its own is the single number `d`.
pub proof fn law_unit_words(d: int)
    requires
        0 <= d < 21,
    ensures
        spec_tokenize(seq!["zero"@, "one"@, "two"@, "three"@, "four"@, "five"@, "six"@, "seven"@, "eight"@, "nine"@, "ten"@, "eleven"@, "twelve"@, "thirteen"@, "fourteen"@, "fifteen"@, "sixteen"@, "seventeen"@, "eighteen"@, "nineteen"@, "twenty"@][d]) == seq![TokenView::Number(spec_integer(d))],
{
    let table = seq!["zero"@, "one"@, "two"@, "three"@, "four"@, "five"@, "six"@, "seven"@, "eight"@, "nine"@, "ten"@, "eleven"@, "twelve"@, "thirteen"@, "fourteen"@, "fifteen"@, "sixteen"@, "seventeen"@, "eighteen"@, "nineteen"@, "twenty"@];
    reveal_strlit("zero");
    reveal_strlit("one");
    reveal_strlit("two");
    reveal_strlit("three");
    reveal_strlit("four");
    reveal_strlit("five");
    reveal_strlit("six");
    reveal_strlit("seven");
    reveal_strlit("eight");
    reveal_strlit("nine");
    reveal_strlit("ten");
    reveal_strlit("eleven");
    reveal_strlit("twelve");
    reveal_strlit("thirteen");
    reveal_strlit("fourteen");
    reveal_strlit("fifteen");
    reveal_strlit("sixteen");
    reveal_strlit("seventeen");
    reveal_strlit("eighteen");
    reveal_strlit("nineteen");
    reveal_strlit("twenty");
    reveal_strlit("thirty");
    reveal_strlit("forty");
    reveal_strlit("fifty");
    reveal_strlit("sixty");
    reveal_strlit("seventy");
    reveal_strlit("eighty");
    reveal_strlit("ninety");
    reveal_strlit("hundred");
    reveal_strlit("thousand");
    let w = table[d];
    assert forall|k: int| 0 <= k < w.len() implies 'a' <= #[trigger] w[k] && w[k] <= 'z' by {}
    if d == 0 {
        assert(w == "zero"@);
        assert(spec_word_to_number("zero"@) == Some(spec_integer(0)));
    } else if d == 1 {
        assert(w == "one"@);
        assert("one"@ != "zero"@) by { assert("one"@.len() == 3 && "zero"@.len() == 4); }
        assert(spec_word_to_number("one"@) == Some(spec_integer(1)));
    } else if d == 2 {
        assert(w == "two"@);
        assert("two"@ != "zero"@) by { assert("two"@.len() == 3 && "zero"@.len() == 4); }
        assert("two"@ != "one"@) by { assert("two"@[0] == 't' && "one"@[0] == 'o'); }
        assert(spec_word_to_number("two"@) == Some(spec_integer(2)));
    } else if d == 3 {
        assert(w == "three"@);
        assert("three"@ != "zero"@) by { assert("three"@.len() == 5 && "zero"@.len() == 4); }
        assert("three"@ != "one"@) by { assert("three"@.len() == 5 && "one"@.len() == 3); }
        assert("three"@ != "two"@) by { assert("three"@.len() == 5 && "two"@.len() == 3); }
        assert(spec_word_to_number("three"@) == Some(spec_integer(3)));
    } else if d == 4 {
        assert(w == "four"@);
        assert("four"@ != "zero"@) by { assert("four"@[0] == 'f' && "zero"@[0] == 'z'); }
        assert("four"@ != "one"@) by { assert("four"@.len() == 4 && "one"@.len() == 3); }
        assert("four"@ != "two"@) by { assert("four"@.len() == 4 && "two"@.len() == 3); }
        assert("four"@ != "three"@) by { assert("four"@.len() == 4 && "three"@.len() == 5); }
        assert(spec_word_to_number("four"@) == Some(spec_integer(4)));
    } else if d == 5 {
        assert(w == "five"@);
        assert("five"@ != "zero"@) by { assert("five"@[0] == 'f' && "zero"@[0] == 'z'); }
        assert("five"@ != "one"@) by { assert("five"@.len() == 4 && "one"@.len() == 3); }
        assert("five"@ != "two"@) by { assert("five"@.len() == 4 && "two"@.len() == 3); }
        assert("five"@ != "three"@) by { assert("five"@.len() == 4 && "three"@.len() == 5); }
        assert("five"@ != "four"@) by { assert("five"@[1] == 'i' && "four"@[1] == 'o'); }
        assert(spec_word_to_number("five"@) == Some(spec_integer(5)));
    } else if d == 6 {
        assert(w == "six"@);
        assert("six"@ != "zero"@) by { assert("six"@.len() == 3 && "zero"@.len() == 4); }
        assert("six"@ != "one"@) by { assert("six"@[0] == 's' && "one"@[0] == 'o'); }
        assert("six"@ != "two"@) by { assert("six"@[0] == 's' && "two"@[0] == 't'); }
        assert("six"@ != "three"@) by { assert("six"@.len() == 3 && "three"@.len() == 5); }
        assert("six"@ != "four"@) by { assert("six"@.len() == 3 && "four"@.len() == 4); }
        assert("six"@ != "five"@) by { assert("six"@.len() == 3 && "five"@.len() == 4); }
        assert(spec_word_to_number("six"@) == Some(spec_integer(6)));
    } else if d == 7 {
        assert(w == "seven"@);
        assert("seven"@ != "zero"@) by { assert("seven"@.len() == 5 && "zero"@.len() == 4); }
        assert("seven"@ != "one"@) by { assert("seven"@.len() == 5 && "one"@.len() == 3); }
        assert("seven"@ != "two"@) by { assert("seven"@.len() == 5 && "two"@.len() == 3); }
        assert("seven"@ != "three"@) by { assert("seven"@[0] == 's' && "three"@[0] == 't'); }
        assert("seven"@ != "four"@) by { assert("seven"@.len() == 5 && "four"@.len() == 4); }
        assert("seven"@ != "five"@) by { assert("seven"@.len() == 5 && "five"@.len() == 4); }
        assert("seven"@ != "six"@) by { assert("seven"@.len() == 5 && "six"@.len() == 3); }
        assert(spec_word_to_number("seven"@) == Some(spec_integer(7)));
    } else if d == 8 {
        assert(w == "eight"@);
        assert("eight"@ != "zero"@) by { assert("eight"@.len() == 5 && "zero"@.len() == 4); }
        assert("eight"@ != "one"@) by { assert("eight"@.len() == 5 && "one"@.len() == 3); }
        assert("eight"@ != "two"@) by { assert("eight"@.len() == 5 && "two"@.len() == 3); }
        assert("eight"@ != "three"@) by { assert("eight"@[0] == 'e' && "three"@[0] == 't'); }
        assert("eight"@ != "four"@) by { assert("eight"@.len() == 5 && "four"@.len() == 4); }
        assert("eight"@ != "five"@) by { assert("eight"@.len() == 5 && "five"@.len() == 4); }
        assert("eight"@ != "six"@) by { assert("eight"@.len() == 5 && "six"@.len() == 3); }
        assert("eight"@ != "seven"@) by { assert("eight"@[0] == 'e' && "seven"@[0] == 's'); }
        assert(spec_word_to_number("eight"@) == Some(spec_integer(8)));
    } else if d == 9 {
        assert(w == "nine"@);
        assert("nine"@ != "zero"@) by { assert("nine"@[0] == 'n' && "zero"@[0] == 'z'); }
        assert("nine"@ != "one"@) by { assert("nine"@.len() == 4 && "one"@.len() == 3); }
        assert("nine"@ != "two"@) by { assert("nine"@.len() == 4 && "two"@.len() == 3); }
        assert("nine"@ != "three"@) by { assert("nine"@.len() == 4 && "three"@.len() == 5); }
        assert("nine"@ != "four"@) by { assert("nine"@[0] == 'n' && "four"@[0] == 'f'); }
        assert("nine"@ != "five"@) by { assert("nine"@[0] == 'n' && "five"@[0] == 'f'); }
        assert("nine"@ != "six"@) by { assert("nine"@.len() == 4 && "six"@.len() == 3); }
        assert("nine"@ != "seven"@) by { assert("nine"@.len() == 4 && "seven"@.len() == 5); }
        assert("nine"@ != "eight"@) by { assert("nine"@.len() == 4 && "eight"@.len() == 5); }
        assert(spec_word_to_number("nine"@) == Some(spec_integer(9)));
    } else if d == 10 {
        assert(w == "ten"@);
        assert("ten"@ != "zero"@) by { assert("ten"@.len() == 3 && "zero"@.len() == 4); }
        assert("ten"@ != "one"@) by { assert("ten"@[0] == 't' && "one"@[0] == 'o'); }
        assert("ten"@ != "two"@) by { assert("ten"@[1] == 'e' && "two"@[1] == 'w'); }
        assert("ten"@ != "three"@) by { assert("ten"@.len() == 3 && "three"@.len() == 5); }
        assert("ten"@ != "four"@) by { assert("ten"@.len() == 3 && "four"@.len() == 4); }
        assert("ten"@ != "five"@) by { assert("ten"@.len() == 3 && "five"@.len() == 4); }
        assert("ten"@ != "six"@) by { assert("ten"@[0] == 't' && "six"@[0] == 's'); }
        assert("ten"@ != "seven"@) by { assert("ten"@.len() == 3 && "seven"@.len() == 5); }
        assert("ten"@ != "eight"@) by { assert("ten"@.len() == 3 && "eight"@.len() == 5); }
        assert("ten"@ != "nine"@) by { assert("ten"@.len() == 3 && "nine"@.len() == 4); }
        assert(spec_word_to_number("ten"@) == Some(spec_integer(10)));
    } else if d == 11 {
        assert(w == "eleven"@);
        assert("eleven"@ != "zero"@) by { assert("eleven"@.len() == 6 && "zero"@.len() == 4); }
        assert("eleven"@ != "one"@) by { assert("eleven"@.len() == 6 && "one"@.len() == 3); }
        assert("eleven"@ != "two"@) by { assert("eleven"@.len() == 6 && "two"@.len() == 3); }
        assert("eleven"@ != "three"@) by { assert("eleven"@.len() == 6 && "three"@.len() == 5); }
        assert("eleven"@ != "four"@) by { assert("eleven"@.len() == 6 && "four"@.len() == 4); }
        assert("eleven"@ != "five"@) by { assert("eleven"@.len() == 6 && "five"@.len() == 4); }
        assert("eleven"@ != "six"@) by { assert("eleven"@.len() == 6 && "six"@.len() == 3); }
        assert("eleven"@ != "seven"@) by { assert("eleven"@.len() == 6 && "seven"@.len() == 5); }
        assert("eleven"@ != "eight"@) by { assert("eleven"@.len() == 6 && "eight"@.len() == 5); }
        assert("eleven"@ != "nine"@) by { assert("eleven"@.len() == 6 && "nine"@.len() == 4); }
        assert("eleven"@ != "ten"@) by { assert("eleven"@.len() == 6 && "ten"@.len() == 3); }
        assert(spec_word_to_number("eleven"@) == Some(spec_integer(11)));
    } else if d == 12 {
        assert(w == "twelve"@);
        assert("twelve"@ != "zero"@) by { assert("twelve"@.len() == 6 && "zero"@.len() == 4); }
        assert("twelve"@ != "one"@) by { assert("twelve"@.len() == 6 && "one"@.len() == 3); }
        assert("twelve"@ != "two"@) by { assert("twelve"@.len() == 6 && "two"@.len() == 3); }
        assert("twelve"@ != "three"@) by { assert("twelve"@.len() == 6 && "three"@.len() == 5); }
        assert("twelve"@ != "four"@) by { assert("twelve"@.len() == 6 && "four"@.len() == 4); }
        assert("twelve"@ != "five"@) by { assert("twelve"@.len() == 6 && "five"@.len() == 4); }
        assert("twelve"@ != "six"@) by { assert("twelve"@.len() == 6 && "six"@.len() == 3); }
        assert("twelve"@ != "seven"@) by { assert("twelve"@.len() == 6 && "seven"@.len() == 5); }
        assert("twelve"@ != "eight"@) by { assert("twelve"@.len() == 6 && "eight"@.len() == 5); }
        assert("twelve"@ != "nine"@) by { assert("twelve"@.len() == 6 && "nine"@.len() == 4); }
        assert("twelve"@ != "ten"@) by { assert("twelve"@.len() == 6 && "ten"@.len() == 3); }
        assert("twelve"@ != "eleven"@) by { assert("twelve"@[0] == 't' && "eleven"@[0] == 'e'); }
        assert(spec_word_to_number("twelve"@) == Some(spec_integer(12)));
    } else if d == 13 {
        assert(w == "thirteen"@);
        assert("thirteen"@ != "zero"@) by { assert("thirteen"@.len() == 8 && "zero"@.len() == 4); }
        assert("thirteen"@ != "one"@) by { assert("thirteen"@.len() == 8 && "one"@.len() == 3); }
        assert("thirteen"@ != "two"@) by { assert("thirteen"@.len() == 8 && "two"@.len() == 3); }
        assert("thirteen"@ != "three"@) by { assert("thirteen"@.len() == 8 && "three"@.len() == 5); }
        assert("thirteen"@ != "four"@) by { assert("thirteen"@.len() == 8 && "four"@.len() == 4); }
        assert("thirteen"@ != "five"@) by { assert("thirteen"@.len() == 8 && "five"@.len() == 4); }
        assert("thirteen"@ != "six"@) by { assert("thirteen"@.len() == 8 && "six"@.len() == 3); }
        assert("thirteen"@ != "seven"@) by { assert("thirteen"@.len() == 8 && "seven"@.len() == 5); }
        assert("thirteen"@ != "eight"@) by { assert("thirteen"@.len() == 8 && "eight"@.len() == 5); }
        assert("thirteen"@ != "nine"@) by { assert("thirteen"@.len() == 8 && "nine"@.len() == 4); }
        assert("thirteen"@ != "ten"@) by { assert("thirteen"@.len() == 8 && "ten"@.len() == 3); }
        assert("thirteen"@ != "eleven"@) by { assert("thirteen"@.len() == 8 && "eleven"@.len() == 6); }
        assert("thirteen"@ != "twelve"@) by { assert("thirteen"@.len() == 8 && "twelve"@.len() == 6); }
        assert(spec_word_to_number("thirteen"@) == Some(spec_integer(13)));
    } else if d == 14 {
        assert(w == "fourteen"@);
        assert("fourteen"@ != "zero"@) by { assert("fourteen"@.len() == 8 && "zero"@.len() == 4); }
        assert("fourteen"@ != "one"@) by { assert("fourteen"@.len() == 8 && "one"@.len() == 3); }
        assert("fourteen"@ != "two"@) by { assert("fourteen"@.len() == 8 && "two"@.len() == 3); }
        assert("fourteen"@ != "three"@) by { assert("fourteen"@.len() == 8 && "three"@.len() == 5); }
        assert("fourteen"@ != "four"@) by { assert("fourteen"@.len() == 8 && "four"@.len() == 4); }
        assert("fourteen"@ != "five"@) by { assert("fourteen"@.len() == 8 && "five"@.len() == 4); }
        assert("fourteen"@ != "six"@) by { assert("fourteen"@.len() == 8 && "six"@.len() == 3); }
        assert("fourteen"@ != "seven"@) by { assert("fourteen"@.len() == 8 && "seven"@.len() == 5); }
        assert("fourteen"@ != "eight"@) by { assert("fourteen"@.len() == 8 && "eight"@.len() == 5); }
        assert("fourteen"@ != "nine"@) by { assert("fourteen"@.len() == 8 && "nine"@.len() == 4); }
        assert("fourteen"@ != "ten"@) by { assert("fourteen"@.len() == 8 && "ten"@.len() == 3); }
        assert("fourteen"@ != "eleven"@) by { assert("fourteen"@.len() == 8 && "eleven"@.len() == 6); }
        assert("fourteen"@ != "twelve"@) by { assert("fourteen"@.len() == 8 && "twelve"@.len() == 6); }
        assert("fourteen"@ != "thirteen"@) by { assert("fourteen"@[0] == 'f' && "thirteen"@[0] == 't'); }
        assert(spec_word_to_number("fourteen"@) == Some(spec_integer(14)));
    } else if d == 15 {
        assert(w == "fifteen"@);
        assert("fifteen"@ != "zero"@) by { assert("fifteen"@.len() == 7 && "zero"@.len() == 4); }
        assert("fifteen"@ != "one"@) by { assert("fifteen"@.len() == 7 && "one"@.len() == 3); }
        assert("fifteen"@ != "two"@) by { assert("fifteen"@.len() == 7 && "two"@.len() == 3); }
        assert("fifteen"@ != "three"@) by { assert("fifteen"@.len() == 7 && "three"@.len() == 5); }
        assert("fifteen"@ != "four"@) by { assert("fifteen"@.len() == 7 && "four"@.len() == 4); }
        assert("fifteen"@ != "five"@) by { assert("fifteen"@.len() == 7 && "five"@.len() == 4); }
        assert("fifteen"@ != "six"@) by { assert("fifteen"@.len() == 7 && "six"@.len() == 3); }
        assert("fifteen"@ != "seven"@) by { assert("fifteen"@.len() == 7 && "seven"@.len() == 5); }
        assert("fifteen"@ != "eight"@) by { assert("fifteen"@.len() == 7 && "eight"@.len() == 5); }
        assert("fifteen"@ != "nine"@) by { assert("fifteen"@.len() == 7 && "nine"@.len() == 4); }
        assert("fifteen"@ != "ten"@) by { assert("fifteen"@.len() == 7 && "ten"@.len() == 3); }
        assert("fifteen"@ != "eleven"@) by { assert("fifteen"@.len() == 7 && "eleven"@.len() == 6); }
        assert("fifteen"@ != "twelve"@) by { assert("fifteen"@.len() == 7 && "twelve"@.len() == 6); }
        assert("fifteen"@ != "thirteen"@) by { assert("fifteen"@.len() == 7 && "thirteen"@.len() == 8); }
        assert("fifteen"@ != "fourteen"@) by { assert("fifteen"@.len() == 7 && "fourteen"@.len() == 8); }
        assert(spec_word_to_number("fifteen"@) == Some(spec_integer(15)));
    } else if d == 16 {
        assert(w == "sixteen"@);
        assert("sixteen"@ != "zero"@) by { assert("sixteen"@.len() == 7 && "zero"@.len() == 4); }
        assert("sixteen"@ != "one"@) by { assert("sixteen"@.len() == 7 && "one"@.len() == 3); }
        assert("sixteen"@ != "two"@) by { assert("sixteen"@.len() == 7 && "two"@.len() == 3); }
        assert("sixteen"@ != "three"@) by { assert("sixteen"@.len() == 7 && "three"@.len() == 5); }
        assert("sixteen"@ != "four"@) by { assert("sixteen"@.len() == 7 && "four"@.len() == 4); }
        assert("sixteen"@ != "five"@) by { assert("sixteen"@.len() == 7 && "five"@.len() == 4); }
        assert("sixteen"@ != "six"@) by { assert("sixteen"@.len() == 7 && "six"@.len() == 3); }
        assert("sixteen"@ != "seven"@) by { assert("sixteen"@.len() == 7 && "seven"@.len() == 5); }
        assert("sixteen"@ != "eight"@) by { assert("sixteen"@.len() == 7 && "eight"@.len() == 5); }
        assert("sixteen"@ != "nine"@) by { assert("sixteen"@.len() == 7 && "nine"@.len() == 4); }
        assert("sixteen"@ != "ten"@) by { assert("sixteen"@.len() == 7 && "ten"@.len() == 3); }
        assert("sixteen"@ != "eleven"@) by { assert("sixteen"@.len() == 7 && "eleven"@.len() == 6); }
        assert("sixteen"@ != "twelve"@) by { assert("sixteen"@.len() == 7 && "twelve"@.len() == 6); }
        assert("sixteen"@ != "thirteen"@) by { assert("sixteen"@.len() == 7 && "thirteen"@.len() == 8); }
        assert("sixteen"@ != "fourteen"@) by { assert("sixteen"@.len() == 7 && "fourteen"@.len() == 8); }
        assert("sixteen"@ != "fifteen"@) by { assert("sixteen"@[0] == 's' && "fifteen"@[0] == 'f'); }
        assert(spec_word_to_number("sixteen"@) == Some(spec_integer(16)));
    } else if d == 17 {
        assert(w == "seventeen"@);
        assert("seventeen"@ != "zero"@) by { assert("seventeen"@.len() == 9 && "zero"@.len() == 4); }
        assert("seventeen"@ != "one"@) by { assert("seventeen"@.len() == 9 && "one"@.len() == 3); }
        assert("seventeen"@ != "two"@) by { assert("seventeen"@.len() == 9 && "two"@.len() == 3); }
        assert("seventeen"@ != "three"@) by { assert("seventeen"@.len() == 9 && "three"@.len() == 5); }
        assert("seventeen"@ != "four"@) by { assert("seventeen"@.len() == 9 && "four"@.len() == 4); }
        assert("seventeen"@ != "five"@) by { assert("seventeen"@.len() == 9 && "five"@.len() == 4); }
        assert("seventeen"@ != "six"@) by { assert("seventeen"@.len() == 9 && "six"@.len() == 3); }
        assert("seventeen"@ != "seven"@) by { assert("seventeen"@.len() == 9 && "seven"@.len() == 5); }
        assert("seventeen"@ != "eight"@) by { assert("seventeen"@.len() == 9 && "eight"@.len() == 5); }
        assert("seventeen"@ != "nine"@) by { assert("seventeen"@.len() == 9 && "nine"@.len() == 4); }
        assert("seventeen"@ != "ten"@) by { assert("seventeen"@.len() == 9 && "ten"@.len() == 3); }
        assert("seventeen"@ != "eleven"@) by { assert("seventeen"@.len() == 9 && "eleven"@.len() == 6); }
        assert("seventeen"@ != "twelve"@) by { assert("seventeen"@.len() == 9 && "twelve"@.len() == 6); }
        assert("seventeen"@ != "thirteen"@) by { assert("seventeen"@.len() == 9 && "thirteen"@.len() == 8); }
        assert("seventeen"@ != "fourteen"@) by { assert("seventeen"@.len() == 9 && "fourteen"@.len() == 8); }
        assert("seventeen"@ != "fifteen"@) by { assert("seventeen"@.len() == 9 && "fifteen"@.len() == 7); }
        assert("seventeen"@ != "sixteen"@) by { assert("seventeen"@.len() == 9 && "sixteen"@.len() == 7); }
        assert(spec_word_to_number("seventeen"@) == Some(spec_integer(17)));
    } else if d == 18 {
        assert(w == "eighteen"@);
        assert("eighteen"@ != "zero"@) by { assert("eighteen"@.len() == 8 && "zero"@.len() == 4); }
        assert("eighteen"@ != "one"@) by { assert("eighteen"@.len() == 8 && "one"@.len() == 3); }
        assert("eighteen"@ != "two"@) by { assert("eighteen"@.len() == 8 && "two"@.len() == 3); }
        assert("eighteen"@ != "three"@) by { assert("eighteen"@.len() == 8 && "three"@.len() == 5); }
        assert("eighteen"@ != "four"@) by { assert("eighteen"@.len() == 8 && "four"@.len() == 4); }
        assert("eighteen"@ != "five"@) by { assert("eighteen"@.len() == 8 && "five"@.len() == 4); }
        assert("eighteen"@ != "six"@) by { assert("eighteen"@.len() == 8 && "six"@.len() == 3); }
        assert("eighteen"@ != "seven"@) by { assert("eighteen"@.len() == 8 && "seven"@.len() == 5); }
        assert("eighteen"@ != "eight"@) by { assert("eighteen"@.len() == 8 && "eight"@.len() == 5); }
        assert("eighteen"@ != "nine"@) by { assert("eighteen"@.len() == 8 && "nine"@.len() == 4); }
        assert("eighteen"@ != "ten"@) by { assert("eighteen"@.len() == 8 && "ten"@.len() == 3); }
        assert("eighteen"@ != "eleven"@) by { assert("eighteen"@.len() == 8 && "eleven"@.len() == 6); }
        assert("eighteen"@ != "twelve"@) by { assert("eighteen"@.len() == 8 && "twelve"@.len() == 6); }
        assert("eighteen"@ != "thirteen"@) by { assert("eighteen"@[0] == 'e' && "thirteen"@[0] == 't'); }
        assert("eighteen"@ != "fourteen"@) by { assert("eighteen"@[0] == 'e' && "fourteen"@[0] == 'f'); }
        assert("eighteen"@ != "fifteen"@) by { assert("eighteen"@.len() == 8 && "fifteen"@.len() == 7); }
        assert("eighteen"@ != "sixteen"@) by { assert("eighteen"@.len() == 8 && "sixteen"@.len() == 7); }
        assert("eighteen"@ != "seventeen"@) by { assert("eighteen"@.len() == 8 && "seventeen"@.len() == 9); }
        assert(spec_word_to_number("eighteen"@) == Some(spec_integer(18)));
    } else if d == 19 {
        assert(w == "nineteen"@);
        assert("nineteen"@ != "zero"@) by { assert("nineteen"@.len() == 8 && "zero"@.len() == 4); }
        assert("nineteen"@ != "one"@) by { assert("nineteen"@.len() == 8 && "one"@.len() == 3); }
        assert("nineteen"@ != "two"@) by { assert("nineteen"@.len() == 8 && "two"@.len() == 3); }
        assert("nineteen"@ != "three"@) by { assert("nineteen"@.len() == 8 && "three"@.len() == 5); }
        assert("nineteen"@ != "four"@) by { assert("nineteen"@.len() == 8 && "four"@.len() == 4); }
        assert("nineteen"@ != "five"@) by { assert("nineteen"@.len() == 8 && "five"@.len() == 4); }
        assert("nineteen"@ != "six"@) by { assert("nineteen"@.len() == 8 && "six"@.len() == 3); }
        assert("nineteen"@ != "seven"@) by { assert("nineteen"@.len() == 8 && "seven"@.len() == 5); }
        assert("nineteen"@ != "eight"@) by { assert("nineteen"@.len() == 8 && "eight"@.len() == 5); }
        assert("nineteen"@ != "nine"@) by { assert("nineteen"@.len() == 8 && "nine"@.len() == 4); }
        assert("nineteen"@ != "ten"@) by { assert("nineteen"@.len() == 8 && "ten"@.len() == 3); }
        assert("nineteen"@ != "eleven"@) by { assert("nineteen"@.len() == 8 && "eleven"@.len() == 6); }
        assert("nineteen"@ != "twelve"@) by { assert("nineteen"@.len() == 8 && "twelve"@.len() == 6); }
        assert("nineteen"@ != "thirteen"@) by { assert("nineteen"@[0] == 'n' && "thirteen"@[0] == 't'); }
        assert("nineteen"@ != "fourteen"@) by { assert("nineteen"@[0] == 'n' && "fourteen"@[0] == 'f'); }
        assert("nineteen"@ != "fifteen"@) by { assert("nineteen"@.len() == 8 && "fifteen"@.len() == 7); }
        assert("nineteen"@ != "sixteen"@) by { assert("nineteen"@.len() == 8 && "sixteen"@.len() == 7); }
        assert("nineteen"@ != "seventeen"@) by { assert("nineteen"@.len() == 8 && "seventeen"@.len() == 9); }
        assert("nineteen"@ != "eighteen"@) by { assert("nineteen"@[0] == 'n' && "eighteen"@[0] == 'e'); }
        assert(spec_word_to_number("nineteen"@) == Some(spec_integer(19)));
    } else if d == 20 {
        assert(w == "twenty"@);
        assert("twenty"@ != "zero"@) by { assert("twenty"@.len() == 6 && "zero"@.len() == 4); }
        assert("twenty"@ != "one"@) by { assert("twenty"@.len() == 6 && "one"@.len() == 3); }
        assert("twenty"@ != "two"@) by { assert("twenty"@.len() == 6 && "two"@.len() == 3); }
        assert("twenty"@ != "three"@) by { assert("twenty"@.len() == 6 && "three"@.len() == 5); }
        assert("twenty"@ != "four"@) by { assert("twenty"@.len() == 6 && "four"@.len() == 4); }
        assert("twenty"@ != "five"@) by { assert("twenty"@.len() == 6 && "five"@.len() == 4); }
        assert("twenty"@ != "six"@) by { assert("twenty"@.len() == 6 && "six"@.len() == 3); }
        assert("twenty"@ != "seven"@) by { assert("twenty"@.len() == 6 && "seven"@.len() == 5); }
        assert("twenty"@ != "eight"@) by { assert("twenty"@.len() == 6 && "eight"@.len() == 5); }
        assert("twenty"@ != "nine"@) by { assert("twenty"@.len() == 6 && "nine"@.len() == 4); }
        assert("twenty"@ != "ten"@) by { assert("twenty"@.len() == 6 && "ten"@.len() == 3); }
        assert("twenty"@ != "eleven"@) by { assert("twenty"@[0] == 't' && "eleven"@[0] == 'e'); }
        assert("twenty"@ != "twelve"@) by { assert("twenty"@[3] == 'n' && "twelve"@[3] == 'l'); }
        assert("twenty"@ != "thirteen"@) by { assert("twenty"@.len() == 6 && "thirteen"@.len() == 8); }
        assert("twenty"@ != "fourteen"@) by { assert("twenty"@.len() == 6 && "fourteen"@.len() == 8); }
        assert("twenty"@ != "fifteen"@) by { assert("twenty"@.len() == 6 && "fifteen"@.len() == 7); }
        assert("twenty"@ != "sixteen"@) by { assert("twenty"@.len() == 6 && "sixteen"@.len() == 7); }
        assert("twenty"@ != "seventeen"@) by { assert("twenty"@.len() == 6 && "seventeen"@.len() == 9); }
        assert("twenty"@ != "eighteen"@) by { assert("twenty"@.len() == 6 && "eighteen"@.len() == 8); }
        assert("twenty"@ != "nineteen"@) by { assert("twenty"@.len() == 6 && "nineteen"@.len() == 8); }
        assert(spec_word_to_number("twenty"@) == Some(spec_integer(20)));
    }
    lemma_number_word(w, d);
}

/// "hundred" and "thousand" on their own read as 100 and 1000.
pub proof fn law_scale_words()
    ensures
        spec_tokenize("hundred"@) == seq![TokenView::Number(spec_integer(100))],
        spec_tokenize("thousand"@) == seq![TokenView::Number(spec_integer(1000))],
{
    reveal_strlit("zero");
    reveal_strlit("one");
    reveal_strlit("two");
    reveal_strlit("three");
    reveal_strlit("four");
    reveal_strlit("five");
    reveal_strlit("six");
    reveal_strlit("seven");
    reveal_strlit("eight");
    reveal_strlit("nine");
    reveal_strlit("ten");
    reveal_strlit("eleven");
    reveal_strlit("twelve");
    reveal_strlit("thirteen");
    reveal_strlit("fourteen");
    reveal_strlit("fifteen");
    reveal_strlit("sixteen");
    reveal_strlit("seventeen");
    reveal_strlit("eighteen");
    reveal_strlit("nineteen");
    reveal_strlit("twenty");
    reveal_strlit("thirty");
    reveal_strlit("forty");
    reveal_strlit("fifty");
    reveal_strlit("sixty");
    reveal_strlit("seventy");
    reveal_strlit("eighty");
    reveal_strlit("ninety");
    reveal_strlit("hundred");
    reveal_strlit("thousand");
    assert forall|k: int| 0 <= k < "hundred"@.len() implies 'a' <= #[trigger] "hundred"@[k] && "hundred"@[k] <= 'z' by {}
    assert forall|k: int| 0 <= k < "thousand"@.len() implies 'a' <= #[trigger] "thousand"@[k] && "thousand"@[k] <= 'z' by {}
        assert("hundred"@ != "zero"@) by { assert("hundred"@.len() == 7 && "zero"@.len() == 4); }
        assert("hundred"@ != "one"@) by { assert("hundred"@.len() == 7 && "one"@.len() == 3); }
        assert("hundred"@ != "two"@) by { assert("hundred"@.len() == 7 && "two"@.len() == 3); }
        assert("hundred"@ != "three"@) by { assert("hundred"@.len() == 7 && "three"@.len() == 5); }
        assert("hundred"@ != "four"@) by { assert("hundred"@.len() == 7 && "four"@.len() == 4); }
        assert("hundred"@ != "five"@) by { assert("hundred"@.len() == 7 && "five"@.len() == 4); }
        assert("hundred"@ != "six"@) by { assert("hundred"@.len() == 7 && "six"@.len() == 3); }
        assert("hundred"@ != "seven"@) by { assert("hundred"@.len() == 7 && "seven"@.len() == 5); }
        assert("hundred"@ != "eight"@) by { assert("hundred"@.len() == 7 && "eight"@.len() == 5); }
        assert("hundred"@ != "nine"@) by { assert("hundred"@.len() == 7 && "nine"@.len() == 4); }
        assert("hundred"@ != "ten"@) by { assert("hundred"@.len() == 7 && "ten"@.len() == 3); }
        assert("hundred"@ != "eleven"@) by { assert("hundred"@.len() == 7 && "eleven"@.len() == 6); }
        assert("hundred"@ != "twelve"@) by { assert("hundred"@.len() == 7 && "twelve"@.len() == 6); }
        assert("hundred"@ != "thirteen"@) by { assert("hundred"@.len() == 7 && "thirteen"@.len() == 8); }
        assert("hundred"@ != "fourteen"@) by { assert("hundred"@.len() == 7 && "fourteen"@.len() == 8); }
        assert("hundred"@ != "fifteen"@) by { assert("hundred"@[0] == 'h' && "fifteen"@[0] == 'f'); }
        assert("hundred"@ != "sixteen"@) by { assert("hundred"@[0] == 'h' && "sixteen"@[0] == 's'); }
        assert("hundred"@ != "seventeen"@) by { assert("hundred"@.len() == 7 && "seventeen"@.len() == 9); }
        assert("hundred"@ != "eighteen"@) by { assert("hundred"@.len() == 7 && "eighteen"@.len() == 8); }
        assert("hundred"@ != "nineteen"@) by { assert("hundred"@.len() == 7 && "nineteen"@.len() == 8); }
        assert("hundred"@ != "twenty"@) by { assert("hundred"@.len() == 7 && "twenty"@.len() == 6); }
        assert("hundred"@ != "thirty"@) by { assert("hundred"@.len() == 7 && "thirty"@.len() == 6); }
        assert("hundred"@ != "forty"@) by { assert("hundred"@.len() == 7 && "forty"@.len() == 5); }
        assert("hundred"@ != "fifty"@) by { assert("hundred"@.len() == 7 && "fifty"@.len() == 5); }
        assert("hundred"@ != "sixty"@) by { assert("hundred"@.len() == 7 && "sixty"@.len() == 5); }
        assert("hundred"@ != "seventy"@) by { assert("hundred"@[0] == 'h' && "seventy"@[0] == 's'); }
        assert("hundred"@ != "eighty"@) by { assert("hundred"@.len() == 7 && "eighty"@.len() == 6); }
        assert("hundred"@ != "ninety"@) by { assert("hundred"@.len() == 7 && "ninety"@.len() == 6); }
        assert("thousand"@ != "zero"@) by { assert("thousand"@.len() == 8 && "zero"@.len() == 4); }
        assert("thousand"@ != "one"@) by { assert("thousand"@.len() == 8 && "one"@.len() == 3); }
        assert("thousand"@ != "two"@) by { assert("thousand"@.len() == 8 && "two"@.len() == 3); }
        assert("thousand"@ != "three"@) by { assert("thousand"@.len() == 8 && "three"@.len() == 5); }
        assert("thousand"@ != "four"@) by { assert("thousand"@.len() == 8 && "four"@.len() == 4); }
        assert("thousand"@ != "five"@) by { assert("thousand"@.len() == 8 && "five"@.len() == 4); }
        assert("thousand"@ != "six"@) by { assert("thousand"@.len() == 8 && "six"@.len() == 3); }
        assert("thousand"@ != "seven"@) by { assert("thousand"@.len() == 8 && "seven"@.len() == 5); }
        assert("thousand"@ != "eight"@) by { assert("thousand"@.len() == 8 && "eight"@.len() == 5); }
        assert("thousand"@ != "nine"@) by { assert("thousand"@.len() == 8 && "nine"@.len() == 4); }
        assert("thousand"@ != "ten"@) by { assert("thousand"@.len() == 8 && "ten"@.len() == 3); }
        assert("thousand"@ != "eleven"@) by { assert("thousand"@.len() == 8 && "eleven"@.len() == 6); }
        assert("thousand"@ != "twelve"@) by { assert("thousand"@.len() == 8 && "twelve"@.len() == 6); }
        assert("thousand"@ != "thirteen"@) by { assert("thousand"@[2] == 'o' && "thirteen"@[2] == 'i'); }
        assert("thousand"@ != "fourteen"@) by { assert("thousand"@[0] == 't' && "fourteen"@[0] == 'f'); }
        assert("thousand"@ != "fifteen"@) by { assert("thousand"@.len() == 8 && "fifteen"@.len() == 7); }
        assert("thousand"@ != "sixteen"@) by { assert("thousand"@.len() == 8 && "sixteen"@.len() == 7); }
        assert("thousand"@ != "seventeen"@) by { assert("thousand"@.len() == 8 && "seventeen"@.len() == 9); }
        assert("thousand"@ != "eighteen"@) by { assert("thousand"@[0] == 't' && "eighteen"@[0] == 'e'); }
        assert("thousand"@ != "nineteen"@) by { assert("thousand"@[0] == 't' && "nineteen"@[0] == 'n'); }
        assert("thousand"@ != "twenty"@) by { assert("thousand"@.len() == 8 && "twenty"@.len() == 6); }
        assert("thousand"@ != "thirty"@) by { assert("thousand"@.len() == 8 && "thirty"@.len() == 6); }
        assert("thousand"@ != "forty"@) by { assert("thousand"@.len() == 8 && "forty"@.len() == 5); }
        assert("thousand"@ != "fifty"@) by { assert("thousand"@.len() == 8 && "fifty"@.len() == 5); }
        assert("thousand"@ != "sixty"@) by { assert("thousand"@.len() == 8 && "sixty"@.len() == 5); }
        assert("thousand"@ != "seventy"@) by { assert("thousand"@.len() == 8 && "seventy"@.len() == 7); }
        assert("thousand"@ != "eighty"@) by { assert("thousand"@.len() == 8 && "eighty"@.len() == 6); }
        assert("thousand"@ != "ninety"@) by { assert("thousand"@.len() == 8 && "ninety"@.len() == 6); }
        assert("thousand"@ != "hundred"@) by { assert("thousand"@.len() == 8 && "hundred"@.len() == 7); }
    lemma_number_word("hundred"@, 100);
    lemma_number_word("thousand"@, 1000);
}

/// The tokens of the (already lower-cased) characters from position `i` on:
/// whitespace separates; a run of digits and dots is a number (dropped when
/// it does not read as one, or when its exact value does not fit the
/// 64-bit fractions of `number`); a run of letters is a number-word or a word;
/// punctuation is kept; any other character is skipped.
pub open spec fn spec_tokens_from(cs: Seq<char>, i: nat) -> Seq<TokenView>
    decreases cs.len() - i,
{
    if i >= cs.len() {
        seq![]
    } else {
        let c = cs[i as int];
        if is_white_space(c) {
            spec_tokens_from(cs, i + 1)
        } else if is_ascii_digit(c) {
            let j = digit_run_end(cs, i);
            proof {
                lemma_digit_run_end(cs, i);
            }
            match spec_parse_decimal(cs.subrange(i as int, j as int)) {
                Some(n) => seq![TokenView::Number(n)] + spec_tokens_from(cs, j),
                None => spec_tokens_from(cs, j),
            }
        } else if is_letter(c) {
            let j = alpha_run_end(cs, i);
            proof {
                lemma_alpha_run_end(cs, i);
            }
            let w = cs.subrange(i as int, j as int);
            let t = match spec_word_to_number(w) {
                Some(n) => TokenView::Number(n),
                None => TokenView::Word(w),
            };
            seq![t] + spec_tokens_from(cs, j)
        } else if spec_is_punctuation(c) {
            seq![TokenView::Punctuation(c)] + spec_tokens_from(cs, i + 1)
        } else {
            spec_tokens_from(cs, i + 1)
        }
    }
}

/// Whether, scanning the (already lower-cased) characters from position
/// `i` on as the tokens are found, some run of digits and dots reads as a
/// decimal number too large for the 64-bit fractions.
pub open spec fn spec_oversized_from(cs: Seq<char>, i: nat) -> bool
    decreases cs.len() - i,
{
    if i >= cs.len() {
        false
    } else {
        let c = cs[i as int];
        if is_white_space(c) {
            spec_oversized_from(cs, i + 1)
        } else if is_ascii_digit(c) {
            let j = digit_run_end(cs, i);
            proof {
                lemma_digit_run_end(cs, i);
            }
            too_large_literal(cs.subrange(i as int, j as int)) || spec_oversized_from(cs, j)
        } else if is_letter(c) {
            let j = alpha_run_end(cs, i);
            proof {
                lemma_alpha_run_end(cs, i);
            }
            spec_oversized_from(cs, j)
        } else {
            spec_oversized_from(cs, i + 1)
        }
    }
}

/// Whether a raw sentence holds a number too large to read exactly.
pub open spec fn spec_has_oversized_literal(input: Seq<char>) -> bool {
    spec_oversized_from(lowered(input), 0)
}

/// The tokens of a raw sentence: it is lower-cased, then split.
pub open spec fn spec_tokenize(input: Seq<char>) -> Seq<TokenView> {
    spec_tokens_from(lowered(input), 0)
}

/// Tokenizes already lower-cased characters, and tells whether a number
/// among them was too large to read.
fn scan_chars(chars: &Vec<char>) -> (r: (Vec<Token>, bool))
    ensures
        r.0.deep_view() == spec_tokens_from(chars@, 0),
        r.1 == spec_oversized_from(chars@, 0),
{
    let ghost cs = chars@;
    let n = chars.len();
    let mut tokens: Vec<Token> = Vec::new();
    let mut oversized = false;
    let mut i: usize = 0;
    while i < n
        invariant
            n == cs.len(),
            cs == chars@,
            i <= n,
            tokens.deep_view() + spec_tokens_from(cs, i as nat) == spec_tokens_from(cs, 0),
            (oversized || spec_oversized_from(cs, i as nat)) == spec_oversized_from(cs, 0),
        decreases n - i,
    {
        let c = chars[i];
        let ghost before = tokens.deep_view();
        if char_is_whitespace(c) {
            i = i + 1;
        } else if char_is_ascii_digit(c) {
            let start = i;
            while i < n && (char_is_ascii_digit(chars[i]) || chars[i] == '.')
                invariant
                    start <= i <= n,
                    n == cs.len(),
                    cs == chars@,
                    digit_run_end(cs, start as nat) == digit_run_end(cs, i as nat),
                    forall|k: int| start <= k < i ==> is_number_char(#[trigger] cs[k]),
                decreases n - i,
            {
                i = i + 1;
            }
            proof {
                lemma_digit_run_end(cs, start as nat);
            }
            let run = chars_range(chars, start, i);
            if is_too_large_literal(&run) {
                oversized = true;
            }
            match parse_decimal(&run) {
                Some(v) => {
                    tokens.push(Token::Number(v));
                },
                None => {},
            }
            proof {
                assert(tokens.deep_view() + spec_tokens_from(cs, i as nat) =~= before + spec_tokens_from(cs, start as nat));
            }
        } else if char_is_alphabetic(c) {
            let start = i;
            while i < n && char_is_alphabetic(chars[i])
                invariant
                    start <= i <= n,
                    n == cs.len(),
                    cs == chars@,
                    alpha_run_end(cs, start as nat) == alpha_run_end(cs, i as nat),
                decreases n - i,
            {
                i = i + 1;
            }
            proof {
                lemma_alpha_run_end(cs, start as nat);
            }
            let word = string_from_chars(chars, start, i);
            match word_to_number(word.as_str()) {
                Some(v) => {
                    tokens.push(Token::Number(v));
                },
                None => {
                    tokens.push(Token::Word(word));
                },
            }
            proof {
                assert(tokens.deep_view() + spec_tokens_from(cs, i as nat) =~= before + spec_tokens_from(cs, start as nat));
            }
        } else if is_punctuation(c) {
            tokens.push(Token::Punctuation(c));
            i = i + 1;
            proof {
                assert(tokens.deep_view() + spec_tokens_from(cs, i as nat) =~= before + spec_tokens_from(cs, (i - 1) as nat));
            }
        } else {
            i = i + 1;
        }
    }
    assert(tokens.deep_view() =~= spec_tokens_from(cs, 0));
    (tokens, oversized)
}

/// Tokenizes already lower-cased characters.
pub fn tokenize_chars(chars: &Vec<char>) -> (tokens: Vec<Token>)
    ensures
        tokens.deep_view() == spec_tokens_from(chars@, 0),
{
    scan_chars(chars).0
}

/// Tokenizes a raw English sentence into a `Vec<Token>`.
///
/// Steps:
/// 1. Lowercase the entire input (case-insensitive handling).
/// 2. Walk character-by-character, collecting:
///    - digit runs  → `Token::Number`
///    - alpha runs  → check word-to-number map first, else `Token::Word`
///    - punctuation → `Token::Punctuation`
///    - whitespace  → separator, ignored
pub fn tokenize(input: &str) -> (tokens: Vec<Token>)
    ensures
        tokens.deep_view() == spec_tokenize(input@),
{
    tokenize_and_check(input).0
}

/// Tokenizes a raw sentence as `tokenize` does, and tells whether it holds
/// a number too large to read exactly (such a number gives no token).
pub fn tokenize_and_check(input: &str) -> (r: (Vec<Token>, bool))
    ensures
        r.0.deep_view() == spec_tokenize(input@),
        r.1 == spec_has_oversized_literal(input@),
{
    let lowered = to_lowercase(input);
    let chars = chars_of(lowered.as_str());
    scan_chars(&chars)
}


/// Tokenizing ignores case: two inputs with the same lower-case form give
/// the same tokens.
pub proof fn law_tokenize_ignores_case(a: Seq<char>, b: Seq<char>)
    requires
        lowered(a) == lowered(b),
    ensures
        spec_tokenize(a) == spec_tokenize(b),
{
}


/// The shape of one token: a word is a non-empty run of letters that is
/// not a number-word, punctuation is one of the recognised marks, and no
/// operator token is made.
pub open spec fn well_shaped(t: TokenView) -> bool {
    match t {
        TokenView::Word(w) => w.len() > 0 && (forall|j: int| 0 <= j < w.len() ==> is_letter(#[trigger] w[j]))
            && spec_word_to_number(w) is None,
        TokenView::Punctuation(c) => spec_is_punctuation(c),
        TokenView::Number(_) => true,
        TokenView::Operator(_) => false,
    }
}

proof fn lemma_tokens_shaped(cs: Seq<char>, i: nat)
    ensures
        forall|k: int| 0 <= k < spec_tokens_from(cs, i).len() ==> well_shaped(#[trigger] spec_tokens_from(cs, i)[k]),
    decreases cs.len() - i,
{
    if i < cs.len() {
        let c = cs[i as int];
        let out = spec_tokens_from(cs, i);
        if is_white_space(c) {
            lemma_tokens_shaped(cs, i + 1);
            assert(out == spec_tokens_from(cs, i + 1));
        } else if is_ascii_digit(c) {
            lemma_digit_run_end(cs, i);
            let j = digit_run_end(cs, i);
            lemma_tokens_shaped(cs, j);
            let rest = spec_tokens_from(cs, j);
            match spec_parse_decimal(cs.subrange(i as int, j as int)) {
                Some(n) => {
                    assert(out == seq![TokenView::Number(n)] + rest);
                    assert forall|k: int| 0 <= k < out.len() implies well_shaped(#[trigger] out[k]) by {
                        if k > 0 {
                            assert(out[k] == rest[k - 1]);
                        }
                    }
                },
                None => {
                    assert(out == rest);
                },
            }
        } else if is_letter(c) {
            lemma_alpha_run_end(cs, i);
            let j = alpha_run_end(cs, i);
            lemma_tokens_shaped(cs, j);
            let rest = spec_tokens_from(cs, j);
            let w = cs.subrange(i as int, j as int);
            let t = match spec_word_to_number(w) {
                Some(n) => TokenView::Number(n),
                None => TokenView::Word(w),
            };
            assert(out == seq![t] + rest);
            assert forall|m: int| 0 <= m < w.len() implies is_letter(#[trigger] w[m]) by {
                assert(w[m] == cs[i + m]);
            }
            assert(well_shaped(t));
            assert forall|k: int| 0 <= k < out.len() implies well_shaped(#[trigger] out[k]) by {
                if k > 0 {
                    assert(out[k] == rest[k - 1]);
                }
            }
        } else if spec_is_punctuation(c) {
            lemma_tokens_shaped(cs, i + 1);
            let rest = spec_tokens_from(cs, i + 1);
            assert(out == seq![TokenView::Punctuation(c)] + rest);
            assert forall|k: int| 0 <= k < out.len() implies well_shaped(#[trigger] out[k]) by {
                if k > 0 {
                    assert(out[k] == rest[k - 1]);
                }
            }
        } else {
            lemma_tokens_shaped(cs, i + 1);
            assert(out == spec_tokens_from(cs, i + 1));
        }
    }
}

/// Every token of a sentence is well shaped: words are non-empty runs of
/// letters, number-words have become numbers,
/// and punctuation is one of the recognised marks.
pub proof fn law_tokens_well_shaped(input: Seq<char>)
    ensures
        forall|k: int| 0 <= k < spec_tokenize(input).len() ==> well_shaped(#[trigger] spec_tokenize(input)[k]),
{
    lemma_tokens_shaped(lowered(input), 0);
}

} // verus!
