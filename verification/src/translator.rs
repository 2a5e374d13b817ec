//! The translator: English phrases to expression trees and equations.
use vstd::prelude::*;
use crate::error::{SolverError, ErrorView};
use crate::filter::{FilterOutput, FilterOutputView};
use crate::number::{Rational, spec_integer};
use crate::text::{str_equals, push_str};
use crate::types::{Equation, EquationView, Expr, ExprView, Operator, Token, TokenView};

verus! {

// ---------------------------------------------------------------------------
// Keyword → Operator mapping
// ---------------------------------------------------------------------------

/// Two-word operator phrases: the two words joined by one space, with how
/// many tokens to move on before the right operand (the whole phrase).
pub open spec fn spec_two_word_op(ts: Seq<TokenView>, i: nat) -> Option<(Operator, nat)> {
    if i + 1 >= ts.len() {
        None
    } else {
        match (ts[i as int], ts[i + 1int]) {
            (TokenView::Word(a), TokenView::Word(b)) => {
                let pair = a + seq![' '] + b;
                if pair == "more than"@ {
                    Some((Operator::Add, 2))
                } else if pair == "less than"@ {
                    Some((Operator::Sub, 2))
                } else if pair == "product of"@ {
                    Some((Operator::Mul, 2))
                } else if pair == "sum of"@ {
                    Some((Operator::Add, 2))
                } else if pair == "divided by"@ {
                    Some((Operator::Div, 2))
                } else {
                    None
                }
            },
            _ => None,
        }
    }
}

/// Single-word operators.
pub open spec fn spec_one_word_op(t: TokenView) -> Option<Operator> {
    match t {
        TokenView::Word(w) => if w == "times"@ {
            Some(Operator::Mul)
        } else if w == "plus"@ {
            Some(Operator::Add)
        } else if w == "minus"@ {
            Some(Operator::Sub)
        } else {
            None
        },
        _ => None,
    }
}

/// Words that multiply the next operand by a constant.
pub open spec fn spec_multiplier(t: TokenView) -> Option<Rational> {
    match t {
        TokenView::Word(w) => if w == "twice"@ || w == "doubled"@ {
            Some(spec_integer(2))
        } else if w == "thrice"@ || w == "tripled"@ {
            Some(spec_integer(3))
        } else {
            None
        },
        _ => None,
    }
}

/// Numbers are constants, words are unknowns, other tokens are no operand.
pub open spec fn spec_token_to_leaf(t: TokenView) -> Option<ExprView> {
    match t {
        TokenView::Number(n) => Some(ExprView::Number(n)),
        TokenView::Word(w) => Some(ExprView::Variable(w)),
        _ => None,
    }
}

pub open spec fn binary_view(op: Operator, left: ExprView, right: ExprView) -> ExprView {
    ExprView::BinaryOp { op, left: Box::new(left), right: Box::new(right) }
}

pub open spec fn is_punct(t: TokenView) -> bool {
    t is Punctuation
}

/// The first position at or after `i` that holds no punctuation.
pub open spec fn skip_punct(ts: Seq<TokenView>, i: nat) -> nat
    decreases ts.len() - i,
{
    if i < ts.len() && is_punct(ts[i as int]) {
        skip_punct(ts, i + 1)
    } else {
        i
    }
}

pub proof fn lemma_skip_punct(ts: Seq<TokenView>, i: nat)
    ensures
        i <= skip_punct(ts, i),
        i <= ts.len() ==> skip_punct(ts, i) <= ts.len(),
        skip_punct(ts, i) < ts.len() ==> !is_punct(ts[skip_punct(ts, i) as int]),
    decreases ts.len() - i,
{
    if i < ts.len() && is_punct(ts[i as int]) {
        lemma_skip_punct(ts, i + 1);
    }
}

/// What reading one side of an equation from `start` gives.
pub enum ParseOutcome {
    /// The reading indexes past the end of the tokens (a multiplier word
    /// with nothing after it).
    OutOfBounds,
    /// No expression starts here.
    Nothing,
    /// An expression, and how many tokens from `start` it used.
    Parsed(ExprView, nat),
}

/// After the left operand ends at `i`: an optional operator phrase and a
/// right operand.
pub open spec fn spec_parse_rest(ts: Seq<TokenView>, start: nat, left: ExprView, i: nat) -> ParseOutcome {
    let n = ts.len();
    if i >= n {
        ParseOutcome::Parsed(left, (i - start) as nat)
    } else {
        let found: Option<(Operator, nat)> = match spec_two_word_op(ts, i) {
            Some(p) => Some(p),
            None => match spec_one_word_op(ts[i as int]) {
                Some(op) => Some((op, 1nat)),
                None => None,
            },
        };
        match found {
            None => ParseOutcome::Parsed(left, (i - start) as nat),
            Some((op, skip)) => {
                let j = skip_punct(ts, i + skip);
                if j < n && spec_token_to_leaf(ts[j as int]) is Some {
                    ParseOutcome::Parsed(
                        binary_view(op, left, spec_token_to_leaf(ts[j as int])->0),
                        (j + 1 - start) as nat,
                    )
                } else {
                    ParseOutcome::Parsed(left, (j - start) as nat)
                }
            },
        }
    }
}

/// Reads one side of an equation from `start`: leading punctuation is
/// skipped; "twice x" is `x * 2` (and "doubled", "thrice", "tripled");
/// otherwise an operand, then possibly an operator phrase and a second
/// operand.
pub open spec fn spec_parse_expr(ts: Seq<TokenView>, start: nat) -> ParseOutcome {
    let n = ts.len();
    let i0 = skip_punct(ts, start);
    if i0 >= n {
        ParseOutcome::Nothing
    } else {
        let mult = spec_multiplier(ts[i0 as int]);
        if mult is Some && i0 + 1 < n && spec_token_to_leaf(ts[i0 + 1int]) is Some {
            ParseOutcome::Parsed(
                binary_view(
                    Operator::Mul,
                    spec_token_to_leaf(ts[i0 + 1int])->0,
                    ExprView::Number(mult->0),
                ),
                (i0 + 2 - start) as nat,
            )
        } else {
            let i: nat = if mult is Some {
                i0 + 1
            } else {
                i0
            };
            if i >= n {
                ParseOutcome::OutOfBounds
            } else {
                match spec_token_to_leaf(ts[i as int]) {
                    None => ParseOutcome::Nothing,
                    Some(left) => spec_parse_rest(ts, start, left, skip_punct(ts, i + 1)),
                }
            }
        }
    }
}

/// A parsed expression never reaches past the tokens, and an operation uses
/// at least one token.
pub proof fn lemma_parse_expr_consumed(ts: Seq<TokenView>, start: nat)
    requires
        start <= ts.len(),
    ensures
        spec_parse_expr(ts, start) matches ParseOutcome::Parsed(e, c) ==> {
            &&& start + c <= ts.len()
            &&& (e is BinaryOp ==> c >= 1)
        },
{
    let n = ts.len();
    lemma_skip_punct(ts, start);
    let i0 = skip_punct(ts, start);
    if i0 < n {
        let mult = spec_multiplier(ts[i0 as int]);
        let i: nat = if mult is Some {
            i0 + 1
        } else {
            i0
        };
        if i < n {
            lemma_skip_punct(ts, i + 1);
            let i2 = skip_punct(ts, i + 1);
            if i2 < n {
                lemma_skip_punct(ts, i2 + 1);
                if i2 + 1 < n {
                    lemma_skip_punct(ts, i2 + 2);
                }
            }
        }
    }
}

// ---------------------------------------------------------------------------
// Whole-input translation
// ---------------------------------------------------------------------------

/// The position of the first word.
pub open spec fn first_word_pos(ts: Seq<TokenView>, from: nat) -> Option<nat>
    decreases ts.len() - from,
{
    if from >= ts.len() {
        None
    } else if ts[from as int] is Word {
        Some(from)
    } else {
        first_word_pos(ts, from + 1)
    }
}

pub proof fn lemma_first_word_pos(ts: Seq<TokenView>, from: nat)
    ensures
        first_word_pos(ts, from) matches Some(p) ==> from <= p < ts.len() && ts[p as int] is Word,
        first_word_pos(ts, from) is None ==> forall|k: int| from <= k < ts.len() ==> !(ts[k] is Word),
    decreases ts.len() - from,
{
    if from < ts.len() && !(ts[from as int] is Word) {
        lemma_first_word_pos(ts, from + 1);
    }
}

/// The number tokens, in order.
pub open spec fn numbers_of(ts: Seq<TokenView>) -> Seq<Rational>
    decreases ts.len(),
{
    if ts.len() == 0 {
        seq![]
    } else {
        match ts.last() {
            TokenView::Number(n) => numbers_of(ts.drop_last()).push(n),
            _ => numbers_of(ts.drop_last()),
        }
    }
}

/// `n0 + n1 + ... + nk`, grouped to the left.
pub open spec fn sum_tree(nums: Seq<Rational>) -> ExprView
    decreases nums.len(),
{
    if nums.len() <= 1 {
        ExprView::Number(nums[0])
    } else {
        binary_view(Operator::Add, sum_tree(nums.drop_last()), ExprView::Number(nums.last()))
    }
}

/// The sum of all numbers in the stream, or 0 when there is none.
pub open spec fn spec_sum_expr(ts: Seq<TokenView>) -> ExprView {
    let nums = numbers_of(ts);
    if nums.len() == 0 {
        ExprView::Number(spec_integer(0))
    } else {
        sum_tree(nums)
    }
}

/// The last word before `from`; else the first word at or after it; else
/// the variable "unknown".
pub open spec fn last_word_before(ts: Seq<TokenView>, from: nat) -> Option<Seq<char>>
    decreases from,
{
    if from == 0 || from > ts.len() {
        None
    } else {
        match ts[from - 1] {
            TokenView::Word(w) => Some(w),
            _ => last_word_before(ts, (from - 1) as nat),
        }
    }
}

pub open spec fn spec_find_lhs(ts: Seq<TokenView>, from: nat) -> ExprView {
    match last_word_before(ts, from) {
        Some(w) => ExprView::Variable(w),
        None => match first_word_pos(ts, from) {
            Some(p) => ExprView::Variable(ts[p as int]->Word_0),
            None => ExprView::Variable("unknown"@),
        },
    }
}

/// Scans the stream from `i` for operations: each one becomes an equation
/// with a nearby word as its left side; `None` where reading runs past the
/// end of the tokens.
pub open spec fn spec_scan(ts: Seq<TokenView>, i: nat) -> Option<Seq<EquationView>>
    decreases ts.len() - i,
{
    if i >= ts.len() {
        Some(seq![])
    } else {
        proof {
            lemma_parse_expr_consumed(ts, i);
        }
        match spec_parse_expr(ts, i) {
            ParseOutcome::OutOfBounds => None,
            ParseOutcome::Nothing => spec_scan(ts, i + 1),
            ParseOutcome::Parsed(e, c) => if e is BinaryOp {
                match spec_scan(ts, i + c) {
                    Some(rest) => Some(seq![EquationView { lhs: spec_find_lhs(ts, i), rhs: e }] + rest),
                    None => None,
                }
            } else {
                spec_scan(ts, if c >= 1 { i + c } else { i + 1 })
            },
        }
    }
}

pub open spec fn parse_error(msg: Seq<char>) -> ErrorView {
    ErrorView::ParseError(msg)
}

/// The equations the scan found, or a parse error when there is none.
pub open spec fn scan_result(scan: Option<Seq<EquationView>>) -> Option<Result<Seq<EquationView>, ErrorView>> {
    match scan {
        None => None,
        Some(eqs) => if eqs.len() == 0 {
            Some(Err(parse_error("Could not form any equation from the input."@)))
        } else {
            Some(Ok(eqs))
        },
    }
}

/// What the translator makes of a filtered stream; `None` where reading an
/// operand would run past the end of the tokens (a multiplier word with
/// nothing after it).
///
/// - No tokens: a parse error.
/// - A "total" signal: the first word equals the sum of all numbers.
/// - An "is"/"are" signal: the first word equals the expression after it.
/// - Otherwise, and when that expression is missing: every operation found
///   in the stream; a parse error when there is none.
pub open spec fn spec_translation(input: FilterOutputView) -> Option<Result<Seq<EquationView>, ErrorView>> {
    let ts = input.tokens;
    let signals = input.signals;
    if ts.len() == 0 {
        Some(Err(parse_error("No meaningful tokens after filtering."@)))
    } else if signals.contains("total"@) {
        match first_word_pos(ts, 0) {
            Some(p) => Some(
                Ok(
                    seq![EquationView { lhs: ExprView::Variable(ts[p as int]->Word_0), rhs: spec_sum_expr(ts) }],
                ),
            ),
            None => Some(Err(parse_error("No variable found for total."@))),
        }
    } else {
        let assigned: Option<Option<Seq<EquationView>>> = if signals.contains("is"@) || signals.contains("are"@) {
            match first_word_pos(ts, 0) {
                Some(p) => match spec_parse_expr(ts, p + 1) {
                    ParseOutcome::OutOfBounds => None,
                    ParseOutcome::Nothing => Some(None),
                    ParseOutcome::Parsed(rhs, _) => Some(
                        Some(seq![EquationView { lhs: ExprView::Variable(ts[p as int]->Word_0), rhs }]),
                    ),
                },
                None => Some(None),
            }
        } else {
            Some(None)
        };
        match assigned {
            None => None,
            Some(Some(eqs)) => Some(Ok(eqs)),
            Some(None) => scan_result(spec_scan(ts, 0)),
        }
    }
}

/// The content of a translation result.
pub open spec fn equations_result_view(r: Result<Vec<Equation>, SolverError>) -> Result<
    Seq<EquationView>,
    ErrorView,
> {
    match r {
        Ok(v) => Ok(v.deep_view()),
        Err(e) => Err(e.deep_view()),
    }
}

// ---------------------------------------------------------------------------
// Executable translation
// ---------------------------------------------------------------------------

fn match_two_word_op(tokens: &Vec<Token>, i: usize) -> (r: Option<(Operator, usize)>)
    ensures
        match r {
            Some((op, k)) => spec_two_word_op(tokens.deep_view(), i as nat) == Some((op, k as nat)),
            None => spec_two_word_op(tokens.deep_view(), i as nat) is None,
        },
{
    if i >= tokens.len() || tokens.len() - i < 2 {
        return None;
    }
    match (&tokens[i], &tokens[i + 1]) {
        (Token::Word(a), Token::Word(b)) => {
            let mut pair = a.clone();
            pair.push(' ');
            push_str(&mut pair, b.as_str());
            assert(pair@ =~= a@ + seq![' '] + b@);
            let p = pair.as_str();
            if str_equals(p, "more than") {
                Some((Operator::Add, 2))
            } else if str_equals(p, "less than") {
                Some((Operator::Sub, 2))
            } else if str_equals(p, "product of") {
                Some((Operator::Mul, 2))
            } else if str_equals(p, "sum of") {
                Some((Operator::Add, 2))
            } else if str_equals(p, "divided by") {
                Some((Operator::Div, 2))
            } else {
                None
            }
        },
        _ => None,
    }
}

fn match_one_word_op(token: &Token) -> (r: Option<Operator>)
    ensures
        r == spec_one_word_op(token.deep_view()),
{
    match token {
        Token::Word(w) => {
            if str_equals(w.as_str(), "times") {
                Some(Operator::Mul)
            } else if str_equals(w.as_str(), "plus") {
                Some(Operator::Add)
            } else if str_equals(w.as_str(), "minus") {
                Some(Operator::Sub)
            } else {
                None
            }
        },
        _ => None,
    }
}

fn multiplier(token: &Token) -> (r: Option<Rational>)
    ensures
        r == spec_multiplier(token.deep_view()),
{
    match token {
        Token::Word(w) => {
            if str_equals(w.as_str(), "twice") || str_equals(w.as_str(), "doubled") {
                Some(Rational::from_integer(2))
            } else if str_equals(w.as_str(), "thrice") || str_equals(w.as_str(), "tripled") {
                Some(Rational::from_integer(3))
            } else {
                None
            }
        },
        _ => None,
    }
}

/// Wrap a token as a leaf expression.
fn token_to_leaf(token: &Token) -> (r: Option<Expr>)
    ensures
        match r {
            Some(e) => spec_token_to_leaf(token.deep_view()) == Some(e.deep_view()),
            None => spec_token_to_leaf(token.deep_view()) is None,
        },
{
    match token {
        Token::Number(n) => Some(Expr::Number(*n)),
        Token::Word(w) => Some(Expr::Variable(w.clone())),
        _ => None,
    }
}

/// Build a BinaryOp node from two expressions and an operator.
fn binary(op: Operator, left: Expr, right: Expr) -> (e: Expr)
    ensures
        e.deep_view() == binary_view(op, left.deep_view(), right.deep_view()),
{
    Expr::BinaryOp { op, left: Box::new(left), right: Box::new(right) }
}

fn skip_punctuation(tokens: &Vec<Token>, i: usize) -> (j: usize)
    requires
        i <= tokens@.len(),
    ensures
        j == skip_punct(tokens.deep_view(), i as nat),
{
    let ghost ts = tokens.deep_view();
    let mut j = i;
    while j < tokens.len() && matches!(tokens[j], Token::Punctuation(_))
        invariant
            i <= j <= tokens@.len(),
            ts == tokens.deep_view(),
            skip_punct(ts, i as nat) == skip_punct(ts, j as nat),
        decreases tokens@.len() - j,
    {
        j = j + 1;
    }
    j
}

/// The executable form of `ParseOutcome`.
enum Parse {
    OutOfBounds,
    Nothing,
    Parsed(Expr, usize),
}

spec fn parse_view(p: Parse) -> ParseOutcome {
    match p {
        Parse::OutOfBounds => ParseOutcome::OutOfBounds,
        Parse::Nothing => ParseOutcome::Nothing,
        Parse::Parsed(e, c) => ParseOutcome::Parsed(e.deep_view(), c as nat),
    }
}

fn parse_rest(tokens: &Vec<Token>, start: usize, left: Expr, i: usize) -> (r: Parse)
    requires
        start <= i <= tokens@.len(),
    ensures
        parse_view(r) == spec_parse_rest(tokens.deep_view(), start as nat, left.deep_view(), i as nat),
{
    let ghost ts = tokens.deep_view();
    let n = tokens.len();
    if i >= n {
        return Parse::Parsed(left, i - start);
    }
    let found: Option<(Operator, usize)> = match match_two_word_op(tokens, i) {
        Some(p) => Some(p),
        None => match match_one_word_op(&tokens[i]) {
            Some(op) => Some((op, 1)),
            None => None,
        },
    };
    match found {
        None => Parse::Parsed(left, i - start),
        Some((op, skip)) => {
            proof {
                lemma_skip_punct(ts, (i + skip) as nat);
            }
            let j = skip_punctuation(tokens, i + skip);
            proof {
                lemma_skip_punct(ts, (i + skip) as nat);
            }
            if j < n {
                match token_to_leaf(&tokens[j]) {
                    Some(right) => {
                        return Parse::Parsed(binary(op, left, right), j + 1 - start);
                    },
                    None => {},
                }
            }
            Parse::Parsed(left, j - start)
        },
    }
}

fn parse_expr(tokens: &Vec<Token>, start: usize) -> (r: Parse)
    requires
        start <= tokens@.len(),
    ensures
        parse_view(r) == spec_parse_expr(tokens.deep_view(), start as nat),
{
    let ghost ts = tokens.deep_view();
    let n = tokens.len();
    proof {
        lemma_skip_punct(ts, start as nat);
    }
    let i0 = skip_punctuation(tokens, start);
    if i0 >= n {
        return Parse::Nothing;
    }
    let mult = multiplier(&tokens[i0]);
    let mut i = i0;
    match mult {
        Some(factor) => {
            i = i0 + 1;
            if i < n {
                match token_to_leaf(&tokens[i]) {
                    Some(right) => {
                        return Parse::Parsed(binary(Operator::Mul, right, Expr::Number(factor)), i + 1 - start);
                    },
                    None => {},
                }
            }
        },
        None => {},
    }
    if i >= n {
        return Parse::OutOfBounds;
    }
    match token_to_leaf(&tokens[i]) {
        None => Parse::Nothing,
        Some(left) => {
            proof {
                lemma_skip_punct(ts, (i + 1) as nat);
            }
            let j = skip_punctuation(tokens, i + 1);
            parse_rest(tokens, start, left, j)
        },
    }
}

fn contains_signal(signals: &Vec<String>, word: &str) -> (b: bool)
    ensures
        b == signals.deep_view().contains(word@),
{
    let mut i: usize = 0;
    while i < signals.len()
        invariant
            i <= signals@.len(),
            forall|k: int| 0 <= k < i ==> signals.deep_view()[k] != word@,
        decreases signals@.len() - i,
    {
        if str_equals(signals[i].as_str(), word) {
            assert(signals.deep_view()[i as int] == word@);
            return true;
        }
        i = i + 1;
    }
    false
}

fn first_word_position(tokens: &Vec<Token>) -> (r: Option<usize>)
    ensures
        match r {
            Some(p) => first_word_pos(tokens.deep_view(), 0) == Some(p as nat),
            None => first_word_pos(tokens.deep_view(), 0) is None,
        },
{
    let ghost ts = tokens.deep_view();
    let mut i: usize = 0;
    while i < tokens.len()
        invariant
            i <= tokens@.len(),
            ts == tokens.deep_view(),
            first_word_pos(ts, 0) == first_word_pos(ts, i as nat),
        decreases tokens@.len() - i,
    {
        if matches!(tokens[i], Token::Word(_)) {
            return Some(i);
        }
        i = i + 1;
    }
    None
}

fn word_at(tokens: &Vec<Token>, p: usize) -> (e: Expr)
    requires
        p < tokens@.len(),
        tokens.deep_view()[p as int] is Word,
    ensures
        e.deep_view() == ExprView::Variable(tokens.deep_view()[p as int]->Word_0),
{
    match &tokens[p] {
        Token::Word(w) => Expr::Variable(w.clone()),
        _ => {
            proof {
                assert(false);
            }
            Expr::Variable(String::new())
        },
    }
}

/// Sum all number tokens into a left-grouped Add tree; 0 when there is none.
fn build_sum_expr(tokens: &Vec<Token>) -> (e: Expr)
    ensures
        e.deep_view() == spec_sum_expr(tokens.deep_view()),
{
    let ghost ts = tokens.deep_view();
    let mut acc: Option<Expr> = None;
    let mut i: usize = 0;
    while i < tokens.len()
        invariant
            i <= tokens@.len(),
            ts == tokens.deep_view(),
            numbers_of(ts.subrange(0, i as int)).len() == 0 ==> acc is None,
            numbers_of(ts.subrange(0, i as int)).len() > 0 ==> (acc matches Some(a) && a.deep_view()
                == sum_tree(numbers_of(ts.subrange(0, i as int)))),
        decreases tokens@.len() - i,
    {
        assert(ts.subrange(0, i + 1).drop_last() =~= ts.subrange(0, i as int));
        match &tokens[i] {
            Token::Number(n) => {
                let ghost prev = numbers_of(ts.subrange(0, i as int));
                let next = match acc {
                    None => Expr::Number(*n),
                    Some(a) => binary(Operator::Add, a, Expr::Number(*n)),
                };
                proof {
                    let now = numbers_of(ts.subrange(0, i + 1));
                    assert(now == prev.push(*n));
                    assert(now.drop_last() =~= prev);
                }
                acc = Some(next);
            },
            _ => {},
        }
        i = i + 1;
    }
    assert(ts.subrange(0, tokens@.len() as int) =~= ts);
    match acc {
        Some(a) => a,
        None => Expr::Number(Rational::from_integer(0)),
    }
}

/// A suitable lhs variable: the last word before `from`, else the first word
/// from there on, else "unknown".
fn find_lhs_variable(tokens: &Vec<Token>, from: usize) -> (e: Expr)
    requires
        from <= tokens@.len(),
    ensures
        e.deep_view() == spec_find_lhs(tokens.deep_view(), from as nat),
{
    let ghost ts = tokens.deep_view();
    let mut i = from;
    while i > 0
        invariant
            i <= from <= tokens@.len(),
            ts == tokens.deep_view(),
            last_word_before(ts, from as nat) == last_word_before(ts, i as nat),
        decreases i,
    {
        match &tokens[i - 1] {
            Token::Word(w) => {
                return Expr::Variable(w.clone());
            },
            _ => {},
        }
        i = i - 1;
    }
    assert(last_word_before(ts, from as nat) is None);
    let mut j = from;
    while j < tokens.len()
        invariant
            from <= j <= tokens@.len(),
            ts == tokens.deep_view(),
            first_word_pos(ts, from as nat) == first_word_pos(ts, j as nat),
            last_word_before(ts, from as nat) is None,
        decreases tokens@.len() - j,
    {
        match &tokens[j] {
            Token::Word(w) => {
                assert(first_word_pos(ts, j as nat) == Some(j as nat));
                assert(ts[j as int]->Word_0 == w@);
                return Expr::Variable(w.clone());
            },
            _ => {},
        }
        j = j + 1;
    }
    let mut u = String::new();
    push_str(&mut u, "unknown");
    assert(u@ =~= "unknown"@);
    Expr::Variable(u)
}

fn parse_error_value(msg: &str) -> (e: SolverError)
    ensures
        e.deep_view() == parse_error(msg@),
{
    let mut m = String::new();
    push_str(&mut m, msg);
    assert(m@ =~= msg@);
    SolverError::ParseError(m)
}

/// Translate a filter output into a list of equations; `None` exactly where
/// the translation would index past the end of the tokens (a multiplier
/// word as the last operand).
fn translate_checked(input: FilterOutput) -> (r: Option<Result<Vec<Equation>, SolverError>>)
    ensures
        match r {
            Some(res) => spec_translation(input.deep_view()) == Some(equations_result_view(res)),
            None => spec_translation(input.deep_view()) is None,
        },
{
    let ghost iv = input.deep_view();
    let tokens = &input.tokens;
    let signals = &input.signals;
    let ghost ts = tokens.deep_view();
    if tokens.len() == 0 {
        return Some(Err(parse_error_value("No meaningful tokens after filtering.")));
    }
    let mut equations: Vec<Equation> = Vec::new();

    // --- Strategy 1: "total" signal → sum all number tokens = variable ---
    if contains_signal(signals, "total") {
        let sum_expr = build_sum_expr(tokens);
        match first_word_position(tokens) {
            Some(p) => {
                proof {
                    lemma_first_word_pos(ts, 0);
                }
                let var = word_at(tokens, p);
                equations.push(Equation::new(var, sum_expr));
                assert(equations.deep_view() =~= seq![
                    EquationView { lhs: ExprView::Variable(ts[p as int]->Word_0), rhs: spec_sum_expr(ts) },
                ]);
                return Some(Ok(equations));
            },
            None => {
                return Some(Err(parse_error_value("No variable found for total.")));
            },
        }
    }
    // --- Strategy 2: "is" / "are" → first word = expression after it ---

    if contains_signal(signals, "is") || contains_signal(signals, "are") {
        match first_word_position(tokens) {
            Some(pos) => {
                proof {
                    lemma_first_word_pos(ts, 0);
                }
                match parse_expr(tokens, pos + 1) {
                    Parse::OutOfBounds => {
                        return None;
                    },
                    Parse::Nothing => {},
                    Parse::Parsed(rhs, _) => {
                        let lhs = word_at(tokens, pos);
                        equations.push(Equation::new(lhs, rhs));
                        assert(equations.deep_view() =~= seq![
                            EquationView { lhs: ExprView::Variable(ts[pos as int]->Word_0), rhs: rhs.deep_view() },
                        ]);
                        return Some(Ok(equations));
                    },
                }
            },
            None => {},
        }
    }
    // --- Strategy 3: scan for operator phrases in the token stream ---

    let mut i: usize = 0;
    assert(equations.deep_view() =~= seq![]);
    assert(spec_translation(iv) == scan_result(spec_scan(ts, 0)));
    while i < tokens.len()
        invariant
            i <= tokens@.len(),
            ts == tokens.deep_view(),
            spec_translation(iv) == scan_result(spec_scan(ts, 0)),
            iv == input.deep_view(),
            spec_scan(ts, 0) == match spec_scan(ts, i as nat) {
                Some(rest) => Some(equations.deep_view() + rest),
                None => None,
            },
        decreases tokens@.len() - i,
    {
        proof {
            lemma_parse_expr_consumed(ts, i as nat);
        }
        match parse_expr(tokens, i) {
            Parse::OutOfBounds => {
                assert(spec_scan(ts, i as nat) is None);
                return None;
            },
            Parse::Nothing => {
                i = i + 1;
            },
            Parse::Parsed(expr, consumed) => {
                if matches!(expr, Expr::BinaryOp { .. }) {
                    let lhs = find_lhs_variable(tokens, i);
                    let ghost before = equations.deep_view();
                    let ghost eqv = EquationView { lhs: lhs.deep_view(), rhs: expr.deep_view() };
                    equations.push(Equation::new(lhs, expr));
                    proof {
                        assert(equations.deep_view() =~= before.push(eqv));
                        match spec_scan(ts, (i + consumed) as nat) {
                            Some(rest) => {
                                assert(before + (seq![eqv] + rest) =~= equations.deep_view() + rest);
                            },
                            None => {},
                        }
                    }
                    i = i + consumed;
                } else {
                    i = if consumed >= 1 {
                        i + consumed
                    } else {
                        i + 1
                    };
                }
            },
        }
    }
    if equations.len() == 0 {
        return Some(Err(parse_error_value("Could not form any equation from the input.")));
    }
    Some(Ok(equations))
}

/// Translate a filter output (from `filter::filter`) into a list of
/// `Equation`s.
///
/// Assignment strategy:
///   - If signals contain `"total"`, a summation equation is emitted:
///     `first_variable = sum_of_numbers`.
///   - If signals contain `"is"` or `"are"`, the first word is the lhs
///     variable and the expression after it the rhs.
///   - Fallback: every operation phrase in the stream becomes an equation
///     with a nearby word as its lhs.
///
/// Returns `Err(SolverError::ParseError)` if no equation can be formed.
pub fn translate(input: FilterOutput) -> (r: Result<Vec<Equation>, SolverError>)
    ensures
        equations_result_view(r) == spec_translate(input.deep_view()),
{
    match translate_checked(input) {
        Some(r) => r,
        None => Err(parse_error_value("Could not form any equation from the input.")),
    }
}

/// What `translate` gives: the translation, or the parse error saying that
/// no equation can be formed where reading an operand would run past the
/// end of the tokens.
pub open spec fn spec_translate(input: FilterOutputView) -> Result<Seq<EquationView>, ErrorView> {
    match spec_translation(input) {
        Some(r) => r,
        None => Err(parse_error("Could not form any equation from the input."@)),
    }
}


/// What translating always gives: on success at least one equation; on
/// failure a parse error; with no tokens, the parse error saying so.
pub proof fn law_translate_outcomes(input: FilterOutputView)
    ensures
        spec_translate(input) matches Ok(eqs) ==> eqs.len() > 0,
        spec_translate(input) matches Err(e) ==> e is ParseError,
        input.tokens.len() == 0 ==> spec_translate(input) == Err::<Seq<EquationView>, _>(
            parse_error("No meaningful tokens after filtering."@),
        ),
{
}

/// The three operator words between two numbers, after "w is": "w is a
/// plus b" gives `w = a + b`, "w is a minus b" gives `w = a - b`, and
/// "w is a times b" gives `w = a * b`, whatever the word `w` and the numbers.
pub proof fn law_operator_words(w: Seq<char>, a: Rational, b: Rational)
    ensures
        spec_translate(
            FilterOutputView {
                tokens: seq![TokenView::Word(w), TokenView::Number(a), TokenView::Word("plus"@), TokenView::Number(b)],
                signals: seq!["is"@],
            },
        ) == Ok::<_, ErrorView>(
            seq![EquationView {
                lhs: ExprView::Variable(w),
                rhs: binary_view(Operator::Add, ExprView::Number(a), ExprView::Number(b)),
            }],
        ),
        spec_translate(
            FilterOutputView {
                tokens: seq![TokenView::Word(w), TokenView::Number(a), TokenView::Word("minus"@), TokenView::Number(b)],
                signals: seq!["is"@],
            },
        ) == Ok::<_, ErrorView>(
            seq![EquationView {
                lhs: ExprView::Variable(w),
                rhs: binary_view(Operator::Sub, ExprView::Number(a), ExprView::Number(b)),
            }],
        ),
        spec_translate(
            FilterOutputView {
                tokens: seq![TokenView::Word(w), TokenView::Number(a), TokenView::Word("times"@), TokenView::Number(b)],
                signals: seq!["is"@],
            },
        ) == Ok::<_, ErrorView>(
            seq![EquationView {
                lhs: ExprView::Variable(w),
                rhs: binary_view(Operator::Mul, ExprView::Number(a), ExprView::Number(b)),
            }],
        ),
{
    reveal_strlit("plus");
    reveal_strlit("minus");
    reveal_strlit("times");
    reveal_strlit("is");
    reveal_strlit("total");
    let sig: Seq<Seq<char>> = seq!["is"@];
    assert(sig[0] == "is"@);
    assert(sig.contains("is"@));
    assert(!sig.contains("total"@)) by {
        if sig.contains("total"@) {
            let k = choose|k: int| 0 <= k < sig.len() && sig[k] == "total"@;
            assert(sig[k].len() != "total"@.len());
        }
    }
    assert("plus"@.len() == 4 && "times"@.len() == 5 && "minus"@.len() == 5);
    assert("minus"@[0] == 'm' && "times"@[0] == 't' && "plus"@[0] == 'p');
    assert("plus"@ != "times"@);
    assert("minus"@ != "times"@);
    assert("minus"@ != "plus"@);
    lemma_operator_word_case(w, a, b, "plus"@, Operator::Add);
    lemma_operator_word_case(w, a, b, "minus"@, Operator::Sub);
    lemma_operator_word_case(w, a, b, "times"@, Operator::Mul);
}

proof fn lemma_operator_word_case(w: Seq<char>, a: Rational, b: Rational, word: Seq<char>, op: Operator)
    requires
        spec_one_word_op(TokenView::Word(word)) == Some(op),
        seq!["is"@].contains("is"@),
        !seq!["is"@].contains("total"@),
    ensures
        spec_translate(
            FilterOutputView {
                tokens: seq![TokenView::Word(w), TokenView::Number(a), TokenView::Word(word), TokenView::Number(b)],
                signals: seq!["is"@],
            },
        ) == Ok::<_, ErrorView>(
            seq![EquationView {
                lhs: ExprView::Variable(w),
                rhs: binary_view(op, ExprView::Number(a), ExprView::Number(b)),
            }],
        ),
{
    let ts = seq![TokenView::Word(w), TokenView::Number(a), TokenView::Word(word), TokenView::Number(b)];
    assert(first_word_pos(ts, 0) == Some(0nat));
    assert(skip_punct(ts, 1) == 1);
    assert(skip_punct(ts, 2) == 2);
    assert(skip_punct(ts, 3) == 3);
    assert(spec_two_word_op(ts, 2) is None);
    assert(spec_parse_expr(ts, 1) == ParseOutcome::Parsed(
        binary_view(op, ExprView::Number(a), ExprView::Number(b)),
        3,
    ));
}

} // verus!
