//! The whole pipeline on one English sentence:
//! lexer → filter → translator → flattener → solver → formatter.
use vstd::prelude::*;
use crate::assignment::Assignment;
use crate::error::{SolverError, ErrorView};
use crate::filter::{filter, spec_filter};
use crate::flattener::{flatten, spec_flatten, temps_fit, temps_needed};
use crate::formatter::{
    format_output,
    join_lines,
    spec_answer_lines,
    spec_equation_lines,
    spec_output_lines,
    FormattedOutput,
};
use crate::lexer::{spec_has_oversized_literal, spec_tokenize, tokenize_and_check};
use crate::number::Rational;
use crate::solver::{overflow_error, solve, spec_solve};
use crate::text::{push_str, spec_trim, str_equals, trim};
use crate::translator::{translate, spec_translate};
use crate::types::{Equation, EquationView, Token, TokenView};

verus! {

// ---------------------------------------------------------------------------
// Question-variable extraction
// ---------------------------------------------------------------------------

/// Words that announce the question.
pub open spec fn is_question_word(w: Seq<char>) -> bool {
    w == "find"@ || w == "what"@ || w == "how"@ || w == "many"@
}

/// Filler words skipped after the question starts.
pub open spec fn is_question_filler(w: Seq<char>) -> bool {
    ||| w == "is"@
    ||| w == "are"@
    ||| w == "the"@
    ||| w == "a"@
    ||| w == "an"@
    ||| w == "many"@
    ||| w == "value"@
    ||| w == "of"@
    ||| w == "much"@
    ||| w == "does"@
    ||| w == "do"@
    ||| w == "each"@
    ||| w == "per"@
    ||| w == "get"@
    ||| w == "have"@
    ||| w == "there"@
    ||| w == "total"@
    ||| w == "then"@
    ||| w == "and"@
    ||| w == "or"@
}

/// The words asked about: after a question word has been seen (`found`),
/// every word that is neither a question word nor filler, up to the first
/// punctuation mark after it.
pub open spec fn spec_question_vars(tokens: Seq<TokenView>, found: bool) -> Seq<Seq<char>>
    decreases tokens.len(),
{
    if tokens.len() == 0 {
        seq![]
    } else {
        let rest = tokens.drop_first();
        match tokens[0] {
            TokenView::Word(w) => if is_question_word(w) {
                spec_question_vars(rest, true)
            } else if found && !is_question_filler(w) {
                seq![w] + spec_question_vars(rest, found)
            } else {
                spec_question_vars(rest, found)
            },
            TokenView::Punctuation(_) => if found {
                seq![]
            } else {
                spec_question_vars(rest, found)
            },
            _ => spec_question_vars(rest, found),
        }
    }
}

/// Words as word tokens.
pub open spec fn word_tokens(ws: Seq<Seq<char>>) -> Seq<TokenView> {
    ws.map_values(|w: Seq<char>| TokenView::Word(w))
}

proof fn lemma_question_words_kept(ws: Seq<Seq<char>>, tail: Seq<TokenView>)
    requires
        forall|k: int| 0 <= k < ws.len() ==> !is_question_word(#[trigger] ws[k]) && !is_question_filler(ws[k]),
    ensures
        spec_question_vars(word_tokens(ws) + tail, true) == ws + spec_question_vars(tail, true),
    decreases ws.len(),
{
    if ws.len() == 0 {
        assert(word_tokens(ws) + tail =~= tail);
        assert(ws + spec_question_vars(tail, true) =~= spec_question_vars(tail, true));
    } else {
        let all = word_tokens(ws) + tail;
        assert(all[0] == TokenView::Word(ws[0]));
        assert(all.drop_first() =~= word_tokens(ws.drop_first()) + tail);
        lemma_question_words_kept(ws.drop_first(), tail);
        assert(ws =~= seq![ws[0]] + ws.drop_first());
        assert(seq![ws[0]] + (ws.drop_first() + spec_question_vars(tail, true)) =~= ws + spec_question_vars(tail, true));
    }
}

/// Every word asked about is kept, in order: after a question word, a run
/// of words that are neither question words nor filler, ending at a
/// punctuation mark or at the end, is exactly what is extracted, whatever
/// follows the punctuation mark.
pub proof fn law_question_vars_all_words(q: Seq<char>, ws: Seq<Seq<char>>, c: char, rest: Seq<TokenView>)
    requires
        is_question_word(q),
        forall|k: int| 0 <= k < ws.len() ==> !is_question_word(#[trigger] ws[k]) && !is_question_filler(ws[k]),
    ensures
        spec_question_vars(seq![TokenView::Word(q)] + word_tokens(ws), false) == ws,
        spec_question_vars(
            seq![TokenView::Word(q)] + word_tokens(ws) + seq![TokenView::Punctuation(c)] + rest,
            false,
        ) == ws,
{
    let empty: Seq<TokenView> = seq![];
    lemma_question_words_kept(ws, empty);
    assert(word_tokens(ws) + empty =~= word_tokens(ws));
    assert(ws + seq![] =~= ws);
    let t1 = seq![TokenView::Word(q)] + word_tokens(ws);
    assert(t1.drop_first() =~= word_tokens(ws));
    let tail = seq![TokenView::Punctuation(c)] + rest;
    lemma_question_words_kept(ws, tail);
    let t2 = seq![TokenView::Word(q)] + word_tokens(ws) + tail;
    assert(t2 =~= seq![TokenView::Word(q)] + (word_tokens(ws) + tail));
    assert(t2.drop_first() =~= word_tokens(ws) + tail);
    assert(tail[0] == TokenView::Punctuation(c));
    assert(spec_question_vars(tail, true) == Seq::<Seq<char>>::empty());
    assert(seq![TokenView::Word(q)] + word_tokens(ws) + seq![TokenView::Punctuation(c)] + rest =~= t2);
}

fn question_word(w: &str) -> (b: bool)
    ensures
        b == is_question_word(w@),
{
    str_equals(w, "find") || str_equals(w, "what") || str_equals(w, "how") || str_equals(w, "many")
}

fn question_filler(w: &str) -> (b: bool)
    ensures
        b == is_question_filler(w@),
{
    str_equals(w, "is") || str_equals(w, "are") || str_equals(w, "the") || str_equals(w, "a")
        || str_equals(w, "an") || str_equals(w, "many") || str_equals(w, "value") || str_equals(w, "of")
        || str_equals(w, "much") || str_equals(w, "does") || str_equals(w, "do") || str_equals(w, "each")
        || str_equals(w, "per") || str_equals(w, "get") || str_equals(w, "have") || str_equals(w, "there")
        || str_equals(w, "total") || str_equals(w, "then") || str_equals(w, "and") || str_equals(w, "or")
}

/// Find the variable names being asked about: the words after "find",
/// "what", "how" or "many" in the token stream (before filtering), up to
/// the next punctuation mark, filler words left out. Empty when there is
/// no question (the formatter then shows every variable).
pub fn extract_question_vars(tokens: &[Token]) -> (vars: Vec<String>)
    ensures
        vars.deep_view() == spec_question_vars(tokens.deep_view(), false),
{
    let ghost ts = tokens.deep_view();
    let mut found = false;
    let mut vars: Vec<String> = Vec::new();
    let mut i: usize = 0;
    assert(ts.skip(0) =~= ts);
    assert(vars.deep_view() + spec_question_vars(ts.skip(0), false) =~= spec_question_vars(ts, false));
    while i < tokens.len()
        invariant
            i <= ts.len(),
            ts == tokens.deep_view(),
            vars.deep_view() + spec_question_vars(ts.skip(i as int), found) == spec_question_vars(ts, false),
        decreases ts.len() - i,
    {
        let ghost rest = ts.skip(i as int);
        assert(rest[0] == tokens@[i as int].deep_view());
        assert(rest.drop_first() =~= ts.skip(i + 1));
        match &tokens[i] {
            Token::Word(w) => {
                if question_word(w.as_str()) {
                    found = true;
                } else if found && !question_filler(w.as_str()) {
                    let ghost v0 = vars.deep_view();
                    vars.push(w.clone());
                    assert(vars.deep_view() =~= v0.push(w@));
                    assert(v0.push(w@) + spec_question_vars(ts.skip(i + 1), found) =~= v0 + (seq![w@]
                        + spec_question_vars(ts.skip(i + 1), found)));
                }
            },
            Token::Punctuation(_) => {
                if found {
                    // Stop at punctuation after the question starts.
                    assert(vars.deep_view() + seq![] =~= vars.deep_view());
                    return vars;
                }
            },
            _ => {},
        }
        i = i + 1;
    }
    assert(ts.skip(i as int) =~= seq![]);
    assert(vars.deep_view() + seq![] =~= vars.deep_view());
    vars
}

// ---------------------------------------------------------------------------
// Core pipeline
// ---------------------------------------------------------------------------

/// The printed text, the equation lines and the answer lines of an output.
pub open spec fn spec_format(
    eqs: Seq<EquationView>,
    steps: Seq<Seq<char>>,
    values: Seq<(Seq<char>, Rational)>,
    asked: Seq<Seq<char>>,
) -> (Seq<char>, Seq<Seq<char>>, Seq<Seq<char>>) {
    (
        join_lines(spec_output_lines(eqs, steps, values, asked)),
        spec_equation_lines(eqs),
        spec_answer_lines(values, asked),
    )
}

pub open spec fn parse_error(msg: Seq<char>) -> ErrorView {
    ErrorView::ParseError(msg)
}

/// What the pipeline gives for a sentence: the error, or the formatted
/// output of the solved, flattened equations. A number in the sentence too
/// large to read exactly is reported as such. Flattening needs one fresh
/// name per nested operation; where that count does not fit a `usize`, the
/// problem is refused as too large.
pub open spec fn spec_pipeline(sentence: Seq<char>) -> Result<(Seq<char>, Seq<Seq<char>>, Seq<Seq<char>>), ErrorView> {
    let trimmed = spec_trim(sentence);
    let tokens = spec_tokenize(trimmed);
    if trimmed.len() == 0 {
        Err(parse_error("Input sentence is empty."@))
    } else if spec_has_oversized_literal(trimmed) {
        Err(overflow_error())
    } else if tokens.len() == 0 {
        Err(parse_error("No tokens could be extracted from the input."@))
    } else {
        let asked = spec_question_vars(tokens, false);
        match spec_translate(spec_filter(tokens)) {
            Err(e) => Err(e),
            Ok(eqs) => if temps_needed(eqs) > usize::MAX {
                Err(parse_error("The problem has too many operations to solve."@))
            } else {
                let flat = spec_flatten(eqs);
                match spec_solve(flat) {
                    Err(e) => Err(e),
                    Ok((values, steps)) => Ok(spec_format(flat, steps, values, asked)),
                }
            },
        }
    }
}

fn parse_error_value(msg: &str) -> (e: SolverError)
    ensures
        e.deep_view() == parse_error(msg@),
{
    let mut m = String::new();
    push_str(&mut m, msg);
    assert(m@ =~= msg@);
    SolverError::ParseError(m)
}

fn copy_equations(eqs: &Vec<Equation>) -> (r: Vec<Equation>)
    ensures
        r.deep_view() == eqs.deep_view(),
{
    let mut r: Vec<Equation> = Vec::new();
    let mut i: usize = 0;
    while i < eqs.len()
        invariant
            i <= eqs@.len(),
            r.deep_view() == eqs.deep_view().take(i as int),
        decreases eqs@.len() - i,
    {
        let ghost r0 = r.deep_view();
        r.push(eqs[i].duplicate());
        assert(r.deep_view() =~= r0.push(eqs@[i as int].deep_view()));
        assert(eqs.deep_view().take(i + 1) =~= eqs.deep_view().take(i as int).push(eqs@[i as int].deep_view()));
        i = i + 1;
    }
    assert(eqs.deep_view().take(i as int) =~= eqs.deep_view());
    r
}

/// Run the full pipeline on a single English sentence and return what is
/// to be printed, or the error to report.
pub fn run_pipeline(sentence: &str) -> (r: Result<FormattedOutput, SolverError>)
    ensures
        match r {
            Ok(o) => spec_pipeline(sentence@) == Ok::<_, ErrorView>(
                (o.display@, o.equation_lines.deep_view(), o.answer_lines.deep_view()),
            ),
            Err(e) => spec_pipeline(sentence@) == Err::<(Seq<char>, Seq<Seq<char>>, Seq<Seq<char>>), _>(
                e.deep_view(),
            ),
        },
{
    // Step 0: guard — reject empty input.
    let trimmed = trim(sentence);
    if trimmed.unicode_len() == 0 {
        return Err(parse_error_value("Input sentence is empty."));
    }
    // Step 1: lexer — tokenise.

    let (tokens, oversized) = tokenize_and_check(trimmed.as_str());
    if oversized {
        return Err(parse_error_value("A number in the problem is too large to compute exactly."));
    }
    if tokens.len() == 0 {
        return Err(parse_error_value("No tokens could be extracted from the input."));
    }
    // Question variables, before filtering strips them.

    let question_vars = extract_question_vars(tokens.as_slice());

    // Step 2: filter — remove noise, extract signals.
    let filter_output = filter(tokens);

    // Step 3: translate — build expression trees and equations.
    let equations = match translate(filter_output) {
        Err(e) => {
            return Err(e);
        },
        Ok(eqs) => eqs,
    };

    // Step 4: flatten — nested expression trees to flat equations.
    if !temps_fit(&equations) {
        return Err(parse_error_value("The problem has too many operations to solve."));
    }
    let flat_equations = flatten(equations);

    // Step 5: solve — constraint propagation.
    let solution = match solve(copy_equations(&flat_equations)) {
        Ok(s) => s,
        Err(e) => {
            return Err(e);
        },
    };

    // Step 6: format.
    let output = format_output(
        flat_equations.as_slice(),
        solution.steps.as_slice(),
        &solution.values,
        question_vars.as_slice(),
    );
    Ok(output)
}


/// Blank input is refused: a sentence of white space only is answered
/// with the parse error saying that the input is empty.
pub proof fn law_blank_input_refused(sentence: Seq<char>)
    requires
        spec_trim(sentence).len() == 0,
    ensures
        spec_pipeline(sentence) == Err::<(Seq<char>, Seq<Seq<char>>, Seq<Seq<char>>), _>(
            parse_error("Input sentence is empty."@),
        ),
{
}

} // verus!
