//! The filter: drops grammatical noise, keeps signal words aside.
use vstd::prelude::*;
use crate::text::{str_equals, lowered, to_lowercase};
use crate::types::{Token, TokenView};

verus! {

/// Pure noise — carries no algebraic meaning, discarded completely.
pub open spec fn is_noise_word(w: Seq<char>) -> bool {
    ||| w == "a"@
    ||| w == "an"@
    ||| w == "the"@
    ||| w == "was"@
    ||| w == "were"@
    ||| w == "if"@
    ||| w == "of"@
    ||| w == "and"@
    ||| w == "then"@
    ||| w == "each"@
    ||| w == "some"@
    ||| w == "there"@
    ||| w == "find"@
    ||| w == "how"@
    ||| w == "many"@
    ||| w == "what"@
}

/// Signal words — grammatical noise that carries meaning for the translator
/// (assignment or summation cue).
pub open spec fn is_signal_word(w: Seq<char>) -> bool {
    w == "is"@ || w == "are"@ || w == "total"@
}

fn noise_word(w: &str) -> (b: bool)
    ensures
        b == is_noise_word(w@),
{
    str_equals(w, "a") || str_equals(w, "an") || str_equals(w, "the") || str_equals(w, "was")
        || str_equals(w, "were") || str_equals(w, "if") || str_equals(w, "of") || str_equals(w, "and")
        || str_equals(w, "then") || str_equals(w, "each") || str_equals(w, "some") || str_equals(
        w,
        "there",
    ) || str_equals(w, "find") || str_equals(w, "how") || str_equals(w, "many") || str_equals(
        w,
        "what",
    )
}

fn signal_word(w: &str) -> (b: bool)
    ensures
        b == is_signal_word(w@),
{
    str_equals(w, "is") || str_equals(w, "are") || str_equals(w, "total")
}

/// Result of the filter stage.
///
/// - `tokens`  — the cleaned token stream with all noise/signal words removed.
/// - `signals` — the signal words that were stripped (in order, with
///               duplicates, so the translator knows how many assignment
///               cues appeared).
#[derive(Debug, Clone, PartialEq)]
pub struct FilterOutput {
    pub tokens: Vec<Token>,
    pub signals: Vec<String>,
}

#[verifier::ext_equal]
pub struct FilterOutputView {
    pub tokens: Seq<TokenView>,
    pub signals: Seq<Seq<char>>,
}

impl DeepView for FilterOutput {
    type V = FilterOutputView;

    open spec fn deep_view(&self) -> FilterOutputView {
        FilterOutputView { tokens: self.tokens.deep_view(), signals: self.signals.deep_view() }
    }
}

/// The filter applied to a token sequence: words are compared in lower case;
/// signal words move, lower-cased, to the signal list, noise words vanish,
/// every other token stays, all in order.
pub open spec fn spec_filter(ts: Seq<TokenView>) -> FilterOutputView
    decreases ts.len(),
{
    if ts.len() == 0 {
        FilterOutputView { tokens: seq![], signals: seq![] }
    } else {
        let prev = spec_filter(ts.drop_last());
        match ts.last() {
            TokenView::Word(w) => if is_signal_word(lowered(w)) {
                FilterOutputView { tokens: prev.tokens, signals: prev.signals.push(lowered(w)) }
            } else if is_noise_word(lowered(w)) {
                prev
            } else {
                FilterOutputView { tokens: prev.tokens.push(ts.last()), signals: prev.signals }
            },
            _ => FilterOutputView { tokens: prev.tokens.push(ts.last()), signals: prev.signals },
        }
    }
}

/// Filters a `Vec<Token>` produced by the lexer.
///
/// - Pure noise words are silently dropped.
/// - Signal words (`is`, `are`, `total`) are removed from the token stream
///   but collected, lower-cased, into `FilterOutput::signals`.
/// - Words are compared in lower case, so `The` is noise like `the`.
/// - Numbers, Punctuation, and Operator tokens pass through unchanged.
/// - Non-noise/non-signal `Word` tokens pass through unchanged.
pub fn filter(tokens: Vec<Token>) -> (out: FilterOutput)
    ensures
        out.deep_view() == spec_filter(tokens.deep_view()),
{
    let mut clean: Vec<Token> = Vec::new();
    let mut signals: Vec<String> = Vec::new();
    let ghost ts = tokens.deep_view();
    let mut i: usize = 0;
    assert(clean.deep_view() =~= seq![]);
    assert(signals.deep_view() =~= seq![]);
    assert(ts.subrange(0, 0) =~= seq![]);
    while i < tokens.len()
        invariant
            i <= tokens@.len(),
            ts == tokens.deep_view(),
            spec_filter(ts.subrange(0, i as int)) == (FilterOutputView {
                tokens: clean.deep_view(),
                signals: signals.deep_view(),
            }),
        decreases tokens@.len() - i,
    {
        let token = &tokens[i];
        assert(ts.subrange(0, i + 1).drop_last() =~= ts.subrange(0, i as int));
        assert(ts.subrange(0, i + 1).last() == token.deep_view());
        let ghost c0 = clean.deep_view();
        let ghost s0 = signals.deep_view();
        match token {
            Token::Word(w) => {
                let lower = to_lowercase(w.as_str());
                if signal_word(lower.as_str()) {
                    signals.push(lower);
                    assert(signals.deep_view() =~= s0.push(lowered(w@)));
                } else if noise_word(lower.as_str()) {
                } else {
                    clean.push(token.duplicate());
                    assert(clean.deep_view() =~= c0.push(token.deep_view()));
                }
            },
            _ => {
                clean.push(token.duplicate());
                assert(clean.deep_view() =~= c0.push(token.deep_view()));
            },
        }
        i = i + 1;
    }
    assert(ts.subrange(0, tokens@.len() as int) =~= ts);
    FilterOutput { tokens: clean, signals }
}


// ---------------------------------------------------------------------------
// Laws
// ---------------------------------------------------------------------------

/// The filter works token by token, in order: filtering two pieces of a
/// stream and putting the results together is filtering the whole stream.
pub proof fn law_filter_concatenates(a: Seq<TokenView>, b: Seq<TokenView>)
    ensures
        spec_filter(a + b) == (FilterOutputView {
            tokens: spec_filter(a).tokens + spec_filter(b).tokens,
            signals: spec_filter(a).signals + spec_filter(b).signals,
        }),
    decreases b.len(),
{
    if b.len() == 0 {
        assert(a + b =~= a);
        assert(spec_filter(a).tokens + seq![] =~= spec_filter(a).tokens);
        assert(spec_filter(a).signals + seq![] =~= spec_filter(a).signals);
    } else {
        assert((a + b).drop_last() =~= a + b.drop_last());
        assert((a + b).last() == b.last());
        law_filter_concatenates(a, b.drop_last());
        let fa = spec_filter(a);
        let fb = spec_filter(b.drop_last());
        assert((fa.tokens + fb.tokens).push(b.last()) =~= fa.tokens + fb.tokens.push(b.last()));
        if let TokenView::Word(w) = b.last() {
            let l = lowered(w);
            assert((fa.signals + fb.signals).push(l) =~= fa.signals + fb.signals.push(l));
        }
    }
}

/// What the filter keeps: no kept word is noise or a signal in lower case,
/// and every signal is one of the signal words.
pub proof fn law_filter_output_clean(ts: Seq<TokenView>)
    ensures
        forall|i: int|
            0 <= i < spec_filter(ts).tokens.len() ==> (#[trigger] spec_filter(ts).tokens[i] matches TokenView::Word(w)
                ==> !is_noise_word(lowered(w)) && !is_signal_word(lowered(w))),
        forall|i: int| 0 <= i < spec_filter(ts).signals.len() ==> is_signal_word(#[trigger] spec_filter(ts).signals[i]),
    decreases ts.len(),
{
    if ts.len() > 0 {
        law_filter_output_clean(ts.drop_last());
    }
}

} // verus!
