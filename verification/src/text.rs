//! Characters and strings: classification, comparison and building.
use vstd::prelude::*;

verus! {

/// `String::push` appends one character.
pub assume_specification[ String::push ](string: &mut String, ch: char)
    ensures
        final(string)@ == old(string)@.push(ch),
;

/// Whether a character has the Unicode `White_Space` property: tab, line
/// feed, vertical tab, form feed, carriage return, space, next line,
/// no-break space, ogham space mark, the spaces U+2000 to U+200A, line and
/// paragraph separators, narrow no-break space, medium mathematical space
/// and ideographic space.
pub open spec fn is_white_space(c: char) -> bool {
    ||| ('\u{9}' <= c && c <= '\u{d}')
    ||| c == ' '
    ||| c == '\u{85}'
    ||| c == '\u{a0}'
    ||| c == '\u{1680}'
    ||| ('\u{2000}' <= c && c <= '\u{200a}')
    ||| c == '\u{2028}'
    ||| c == '\u{2029}'
    ||| c == '\u{202f}'
    ||| c == '\u{205f}'
    ||| c == '\u{3000}'
}

/// Whether a character has the Unicode `White_Space` property
/// (what `char::is_whitespace` reports).
pub(crate) fn char_is_whitespace(c: char) -> (b: bool)
    ensures
        b == is_white_space(c),
{
    ('\u{9}' <= c && c <= '\u{d}') || c == ' ' || c == '\u{85}' || c == '\u{a0}' || c == '\u{1680}' || (
    '\u{2000}' <= c && c <= '\u{200a}') || c == '\u{2028}' || c == '\u{2029}' || c == '\u{202f}' || c
        == '\u{205f}' || c == '\u{3000}'
}

/// An ASCII character: below U+0080.
pub open spec fn is_ascii_char(c: char) -> bool {
    c < '\u{80}'
}

/// An ASCII letter.
pub open spec fn is_ascii_letter(c: char) -> bool {
    ('a' <= c && c <= 'z') || ('A' <= c && c <= 'Z')
}

/// The ASCII lower-case form of a character: `A` to `Z` become `a` to `z`.
pub open spec fn ascii_lower(c: char) -> char {
    if 'A' <= c && c <= 'Z' {
        ((c as u32) + 32) as char
    } else {
        c
    }
}

/// Whether a character has the Unicode `Alphabetic` property. Among ASCII
/// characters exactly the letters have it (see `char_is_alphabetic`).
pub uninterp spec fn is_alphabetic_char(c: char) -> bool;

/// The Unicode lower-case mapping of a whole string. On ASCII text it maps
/// `A` to `Z` to `a` to `z` and keeps everything else (see `to_lowercase`).
pub uninterp spec fn lowercase_of(s: Seq<char>) -> Seq<char>;

/// Whether a character is a letter (has the Unicode `Alphabetic`
/// property): for ASCII characters, exactly `a` to `z` and `A` to `Z`.
pub open spec fn is_letter(c: char) -> bool {
    if is_ascii_char(c) {
        is_ascii_letter(c)
    } else {
        is_alphabetic_char(c)
    }
}

/// Whether every character of the text is ASCII.
pub open spec fn all_ascii(s: Seq<char>) -> bool {
    forall|i: int| 0 <= i < s.len() ==> is_ascii_char(#[trigger] s[i])
}

/// The lower-case form of a text: on ASCII text, `A` to `Z` become `a` to
/// `z`, character for character; other text by the Unicode mapping.
pub open spec fn lowered(s: Seq<char>) -> Seq<char> {
    if all_ascii(s) {
        s.map_values(|c: char| ascii_lower(c))
    } else {
        lowercase_of(s)
    }
}

/// Calls `char::is_alphabetic`, which reports the Unicode `Alphabetic`
/// property. The property is left to the name `is_alphabetic_char`, but for
/// the ASCII characters it is stated: exactly the letters have it (digits,
/// punctuation, symbols, white space and control characters do not).
#[verifier::external_body]
pub(crate) fn char_is_alphabetic(c: char) -> (b: bool)
    ensures
        b == is_alphabetic_char(c),
        is_ascii_char(c) ==> (b == is_ascii_letter(c)),
        b == is_letter(c),
{
    c.is_alphabetic()
}

/// Calls `str::to_lowercase`; its result depends on the string alone and is
/// named `lowercase_of`. The Unicode mapping itself is not stated, except
/// on ASCII text, where it is the ASCII lower-casing, character for
/// character.
#[verifier::external_body]
pub(crate) fn to_lowercase(s: &str) -> (r: String)
    ensures
        r@ == lowercase_of(s@),
        (forall|i: int| 0 <= i < s@.len() ==> is_ascii_char(#[trigger] s@[i])) ==> r@ == s@.map_values(
            |c: char| ascii_lower(c),
        ),
        r@ == lowered(s@),
{
    s.to_lowercase()
}

/// `char::is_ascii_digit`: the characters `'0'` to `'9'`.
pub open spec fn is_ascii_digit(c: char) -> bool {
    '0' <= c && c <= '9'
}

pub fn char_is_ascii_digit(c: char) -> (b: bool)
    ensures
        b == is_ascii_digit(c),
{
    '0' <= c && c <= '9'
}

/// The numeric value of an ASCII digit.
pub open spec fn digit_value(c: char) -> nat {
    (c as int - '0' as int) as nat
}

/// The character of a decimal digit.
pub open spec fn spec_digit_char(d: nat) -> char {
    if d == 0 {
        '0'
    } else if d == 1 {
        '1'
    } else if d == 2 {
        '2'
    } else if d == 3 {
        '3'
    } else if d == 4 {
        '4'
    } else if d == 5 {
        '5'
    } else if d == 6 {
        '6'
    } else if d == 7 {
        '7'
    } else if d == 8 {
        '8'
    } else {
        '9'
    }
}

/// The decimal digits of a natural number, without leading zeros.
pub open spec fn spec_nat_digits(n: nat) -> Seq<char>
    decreases n,
{
    if n < 10 {
        seq![spec_digit_char(n)]
    } else {
        spec_nat_digits(n / 10).push(spec_digit_char(n % 10))
    }
}

pub fn digit_char(d: u64) -> (c: char)
    requires
        d < 10,
    ensures
        c == spec_digit_char(d as nat),
{
    if d == 0 {
        '0'
    } else if d == 1 {
        '1'
    } else if d == 2 {
        '2'
    } else if d == 3 {
        '3'
    } else if d == 4 {
        '4'
    } else if d == 5 {
        '5'
    } else if d == 6 {
        '6'
    } else if d == 7 {
        '7'
    } else if d == 8 {
        '8'
    } else {
        '9'
    }
}

/// Appends the decimal digits of `n`.
pub fn push_nat_digits(s: &mut String, n: u64)
    ensures
        final(s)@ == old(s)@ + spec_nat_digits(n as nat),
    decreases n,
{
    if n < 10 {
        s.push(digit_char(n));
    } else {
        push_nat_digits(s, n / 10);
        s.push(digit_char(n % 10));
    }
}

/// Appends a string slice.
pub fn push_str(s: &mut String, t: &str)
    ensures
        final(s)@ == old(s)@ + t@,
{
    s.append(t);
}

/// Whether two string slices hold the same characters.
pub fn str_equals(a: &str, b: &str) -> (r: bool)
    ensures
        r == (a@ == b@),
{
    let n = a.unicode_len();
    let m = b.unicode_len();
    if n != m {
        return false;
    }
    let mut i: usize = 0;
    while i < n
        invariant
            n == a@.len(),
            m == b@.len(),
            n == m,
            i <= n,
            forall|j: int| 0 <= j < i ==> a@[j] == b@[j],
        decreases n - i,
    {
        if a.get_char(i) != b.get_char(i) {
            return false;
        }
        i = i + 1;
    }
    assert(a@ =~= b@);
    true
}

/// The characters of a string slice.
pub fn chars_of(s: &str) -> (v: Vec<char>)
    ensures
        v@ == s@,
{
    let n = s.unicode_len();
    let mut v: Vec<char> = Vec::new();
    let mut i: usize = 0;
    while i < n
        invariant
            n == s@.len(),
            i <= n,
            v@ == s@.subrange(0, i as int),
        decreases n - i,
    {
        v.push(s.get_char(i));
        i = i + 1;
    }
    assert(v@ =~= s@);
    v
}

/// A string holding `cs[from..to]`.
pub fn string_from_chars(cs: &Vec<char>, from: usize, to: usize) -> (r: String)
    requires
        from <= to <= cs@.len(),
    ensures
        r@ == cs@.subrange(from as int, to as int),
{
    let mut r = String::new();
    let mut i = from;
    while i < to
        invariant
            from <= i <= to <= cs@.len(),
            r@ == cs@.subrange(from as int, i as int),
        decreases to - i,
    {
        r.push(cs[i]);
        assert(cs@.subrange(from as int, i + 1) =~= cs@.subrange(from as int, i as int).push(cs@[i as int]));
        i = i + 1;
    }
    r
}

/// A copy of `cs[from..to]`.
pub fn chars_range(cs: &Vec<char>, from: usize, to: usize) -> (r: Vec<char>)
    requires
        from <= to <= cs@.len(),
    ensures
        r@ == cs@.subrange(from as int, to as int),
{
    let mut r: Vec<char> = Vec::new();
    let mut i = from;
    while i < to
        invariant
            from <= i <= to <= cs@.len(),
            r@ == cs@.subrange(from as int, i as int),
        decreases to - i,
    {
        r.push(cs[i]);
        assert(cs@.subrange(from as int, i + 1) =~= cs@.subrange(from as int, i as int).push(cs@[i as int]));
        i = i + 1;
    }
    r
}

/// Whether a string's first character is `c`.
pub fn starts_with_char(s: &str, c: char) -> (b: bool)
    ensures
        b == (s@.len() > 0 && s@[0] == c),
{
    if s.unicode_len() == 0 {
        false
    } else {
        s.get_char(0) == c
    }
}


/// The string without its leading white space.
pub open spec fn trim_start(s: Seq<char>) -> Seq<char>
    decreases s.len(),
{
    if s.len() > 0 && is_white_space(s[0]) {
        trim_start(s.drop_first())
    } else {
        s
    }
}

/// The string without its trailing white space.
pub open spec fn trim_end(s: Seq<char>) -> Seq<char>
    decreases s.len(),
{
    if s.len() > 0 && is_white_space(s.last()) {
        trim_end(s.drop_last())
    } else {
        s
    }
}

/// The string without leading and trailing white space (`str::trim`).
pub open spec fn spec_trim(s: Seq<char>) -> Seq<char> {
    trim_end(trim_start(s))
}

/// The string without leading and trailing white space.
#[verifier::spinoff_prover]
pub fn trim(s: &str) -> (r: String)
    ensures
        r@ == spec_trim(s@),
{
    let cs = chars_of(s);
    let ghost sv = s@;
    let mut start: usize = 0;
    assert(sv.skip(0) =~= sv);
    while start < cs.len() && char_is_whitespace(cs[start])
        invariant
            start <= cs@.len(),
            cs@ == sv,
            trim_start(sv) == trim_start(sv.skip(start as int)),
        decreases cs@.len() - start,
    {
        assert(sv.skip(start as int).drop_first() =~= sv.skip(start + 1));
        start = start + 1;
    }
    let ghost t = sv.skip(start as int);
    assert(trim_start(sv) == t);
    let mut end: usize = cs.len();
    assert(t.take(t.len() as int) =~= t);
    while end > start && char_is_whitespace(cs[end - 1])
        invariant
            start <= end <= cs@.len(),
            cs@ == sv,
            t == sv.skip(start as int),
            trim_end(t) == trim_end(t.take(end - start)),
        decreases end,
    {
        assert(t.take(end - start).drop_last() =~= t.take(end - start - 1));
        assert(t.take(end - start).last() == cs@[end - 1]);
        end = end - 1;
    }
    assert(t.take(end - start) =~= sv.subrange(start as int, end as int));
    string_from_chars(&cs, start, end)
}


proof fn lemma_nat_digits_len(n: nat)
    ensures
        spec_nat_digits(n).len() >= 1,
        n >= 10 ==> spec_nat_digits(n).len() >= 2,
    decreases n,
{
    if n >= 10 {
        lemma_nat_digits_len(n / 10);
    }
}

proof fn lemma_digit_char_injective(a: nat, b: nat)
    requires
        a < 10,
        b < 10,
        spec_digit_char(a) == spec_digit_char(b),
    ensures
        a == b,
{
}

/// Different numbers are written with different digits.
pub proof fn law_nat_digits_injective(a: nat, b: nat)
    requires
        spec_nat_digits(a) == spec_nat_digits(b),
    ensures
        a == b,
    decreases a,
{
    lemma_nat_digits_len(a);
    lemma_nat_digits_len(b);
    if a < 10 && b < 10 {
        let da = spec_nat_digits(a);
        let db = spec_nat_digits(b);
        assert(da == seq![spec_digit_char(a)]);
        assert(db == seq![spec_digit_char(b)]);
        assert(da[0] == spec_digit_char(a));
        assert(db[0] == spec_digit_char(b));
        assert(da[0] == db[0]);
        lemma_digit_char_injective(a, b);
    } else if a >= 10 && b >= 10 {
        let da = spec_nat_digits(a);
        let db = spec_nat_digits(b);
        assert(da.last() == db.last());
        assert(da.drop_last() =~= spec_nat_digits(a / 10));
        assert(db.drop_last() =~= spec_nat_digits(b / 10));
        assert(a % 10 < 10 && b % 10 < 10);
        lemma_digit_char_injective(a % 10, b % 10);
        law_nat_digits_injective(a / 10, b / 10);
    } else {
        assert(spec_nat_digits(a).len() != spec_nat_digits(b).len());
    }
}

} // verus!
