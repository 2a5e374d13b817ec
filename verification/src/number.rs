//! Exact rational numbers: the values that word problems compute with.
//!
//! A value is a fraction whose numerator and denominator, in lowest terms,
//! fit in 64 bits. That is the range of numbers this library handles:
//! a literal outside it is not read as a number (the pipeline reports it
//! as too large to compute exactly), and an operation whose
//! exact result falls outside it has no value (the solver then reports
//! that a number is too large to compute exactly). Inside it every result
//! is exact, with no rounding.
use vstd::prelude::*;
use vstd::arithmetic::div_mod::*;
use vstd::arithmetic::mul::*;
use crate::text::{spec_digit_char, spec_nat_digits, digit_char, push_nat_digits, digit_value, is_ascii_digit};

verus! {

/// Greatest common divisor by Euclid's algorithm.
pub open spec fn gcd(a: nat, b: nat) -> nat
    decreases b,
{
    if b == 0 {
        a
    } else {
        gcd(b, a % b)
    }
}

pub open spec fn abs(x: int) -> nat {
    if x < 0 {
        (-x) as nat
    } else {
        x as nat
    }
}

/// Both arguments are multiples of their gcd, and the gcd is positive when
/// one of them is.
pub proof fn lemma_gcd_divides(a: nat, b: nat)
    ensures
        gcd(a, b) > 0 ==> a % gcd(a, b) == 0 && b % gcd(a, b) == 0,
        (a > 0 || b > 0) ==> gcd(a, b) > 0,
    decreases b,
{
    if b == 0 {
        if a > 0 {
            lemma_mod_self_0(a as int);
        }
        lemma_mod_of_zero(a);
    } else {
        lemma_gcd_divides(b, a % b);
        let g = gcd(b, a % b);
        if g > 0 {
            let r = a % b;
            let q = a / b;
            lemma_fundamental_div_mod(a as int, b as int);
            lemma_fundamental_div_mod(b as int, g as int);
            lemma_fundamental_div_mod(r as int, g as int);
            let kb = b / g;
            let kr = r / g;
            assert(a == q * b + r);
            assert(b == g * kb);
            assert(r == g * kr);
            assert(a == (q * kb + kr) * g) by (nonlinear_arith)
                requires a == q * b + r, b == g * kb, r == g * kr;
            lemma_mod_multiples_basic((q * kb + kr) as int, g as int);
        }
    }
}

proof fn lemma_mod_of_zero(a: nat)
    ensures a > 0 ==> 0nat % a == 0,
{
    if a > 0 {
        lemma_small_mod(0, a);
    }
}

/// The rational number `num / den` in lowest terms, or `None` when a part of
/// the reduced fraction does not fit in 64 bits.
pub closed spec fn spec_normalize(n: int, d: int) -> Option<Rational> {
    let g = gcd(abs(n), abs(d));
    let an = abs(n) / g;
    let ad = abs(d) / g;
    let rn: int = if (n < 0) != (d < 0) {
        -an
    } else {
        an as int
    };
    if i64::MIN <= rn <= i64::MAX && 0 < ad <= i64::MAX {
        Some(Rational { num: rn as i64, den: ad as i64 })
    } else {
        None
    }
}

/// Coefficients `(x, y)` with `x * a + y * b == gcd(a, b)`.
pub proof fn lemma_bezout(a: nat, b: nat) -> (r: (int, int))
    ensures
        r.0 * a + r.1 * b == gcd(a, b),
    decreases b,
{
    if b == 0 {
        (1, 0)
    } else {
        let (x, y) = lemma_bezout(b, a % b);
        let q = (a / b) as int;
        lemma_fundamental_div_mod(a as int, b as int);
        let r = (a % b) as int;
        assert(y * a + (x - y * q) * b == x * b + y * r) by (nonlinear_arith)
            requires a == b * q + r;
        (y, x - y * q)
    }
}

/// A fraction is in lowest terms: positive denominator, no common factor.
pub open spec fn in_lowest_terms(q: Rational) -> bool {
    q.denom() > 0 && gcd(abs(q.numer()), q.denom() as nat) == 1
}

proof fn lemma_abs_negated(a: nat)
    ensures
        abs(-(a as int)) == a,
        abs(a as int) == a,
{
}

/// Every number and one have no common factor.
proof fn lemma_gcd_one(a: nat)
    ensures
        gcd(a, 1) == 1,
{
    assert(a % 1 == 0) by (nonlinear_arith);
    assert(gcd(1, 0) == 1);
}

/// A positive integer whose multiple is one is one.
proof fn lemma_unit(h: int, m: int)
    requires
        h > 0,
        h * m == 1,
    ensures
        h == 1,
{
    assert(m > 0) by (nonlinear_arith)
        requires h > 0, h * m == 1;
    assert(h <= h * m) by (nonlinear_arith)
        requires h > 0, m > 0;
}

/// Dividing two numbers by their gcd leaves no common factor.
proof fn lemma_reduced_coprime(a: nat, b: nat)
    requires
        b > 0,
    ensures
        gcd(a / gcd(a, b), b / gcd(a, b)) == 1,
{
    let g = gcd(a, b);
    lemma_gcd_divides(a, b);
    lemma_fundamental_div_mod(a as int, g as int);
    lemma_fundamental_div_mod(b as int, g as int);
    let a1 = a / g;
    let b1 = b / g;
    let (x, y) = lemma_bezout(a, b);
    assert(g * (x * a1 + y * b1) == g * 1) by (nonlinear_arith)
        requires x * a + y * b == g, a == g * a1, b == g * b1;
    lemma_cancel_positive(x * a1 + y * b1, 1, g as int);
    assert(b1 > 0) by (nonlinear_arith)
        requires b == g * b1, b > 0, g > 0, b1 >= 0;
    let h = gcd(a1, b1);
    lemma_gcd_divides(a1, b1);
    lemma_fundamental_div_mod(a1 as int, h as int);
    lemma_fundamental_div_mod(b1 as int, h as int);
    let a2 = a1 / h;
    let b2 = b1 / h;
    assert(h * (x * a2 + y * b2) == 1) by (nonlinear_arith)
        requires x * a1 + y * b1 == 1, a1 == h * a2, b1 == h * b2;
    lemma_unit(h as int, x * a2 + y * b2);
}

proof fn lemma_cancel_positive(x: int, y: int, k: int)
    requires
        k > 0,
        k * x == k * y,
    ensures
        x == y,
{
    assert(k * (x - y) == 0) by (nonlinear_arith)
        requires k * x == k * y;
    assert(x - y == 0) by (nonlinear_arith)
        requires k * (x - y) == 0, k > 0;
}

/// Fractions are kept in one form: two fractions in lowest terms with the
/// same value are the same fraction.
pub proof fn law_lowest_terms_unique(p: Rational, q: Rational)
    requires
        in_lowest_terms(p),
        in_lowest_terms(q),
        same_value(p, q),
    ensures
        p == q,
{
    let (pn, pd, qn, qd) = (p.numer(), p.denom(), q.numer(), q.denom());
    let (ap, aq) = (abs(pn) as int, abs(qn) as int);
    assert(ap * qd == aq * pd) by (nonlinear_arith)
        requires
            pn * qd == qn * pd,
            pd > 0,
            qd > 0,
            ap == (if pn < 0 { -pn } else { pn }),
            aq == (if qn < 0 { -qn } else { qn }),
    ;
    let (x, y) = lemma_bezout(abs(pn), pd as nat);
    let (u, v) = lemma_bezout(abs(qn), qd as nat);
    // qd == pd * (x * aq + y * qd) and pd == qd * (u * ap + v * pd).
    assert(pd * (x * aq + y * qd) == qd) by (nonlinear_arith)
        requires x * ap + y * pd == 1, ap * qd == aq * pd;
    assert(qd * (u * ap + v * pd) == pd) by (nonlinear_arith)
        requires u * aq + v * qd == 1, ap * qd == aq * pd;
    assert(pd <= qd) by (nonlinear_arith)
        requires pd * (x * aq + y * qd) == qd, pd > 0, qd > 0;
    assert(qd <= pd) by (nonlinear_arith)
        requires qd * (u * ap + v * pd) == pd, pd > 0, qd > 0;
    assert(pd * pn == pd * qn) by (nonlinear_arith)
        requires pn * qd == qn * pd, pd == qd;
    lemma_cancel_positive(pn, qn, pd);
    assert(p.num == q.num && p.den == q.den);
}

/// A reduced fraction has the value of the fraction it reduces, and is in
/// lowest terms.
pub proof fn lemma_normalize_value(n: int, d: int)
    requires
        d != 0,
        spec_normalize(n, d) is Some,
    ensures
        denotes(spec_normalize(n, d)->0, n, d),
{
    let g = gcd(abs(n), abs(d));
    lemma_gcd_divides(abs(n), abs(d));
    let an = abs(n) / g;
    let ad = abs(d) / g;
    lemma_fundamental_div_mod(abs(n) as int, g as int);
    lemma_fundamental_div_mod(abs(d) as int, g as int);
    assert(abs(n) == g * an);
    assert(abs(d) == g * ad);
    let q = spec_normalize(n, d)->0;
    assert(q.denom() == ad);
    if ad == 0 {
        assert(g * ad == 0) by (nonlinear_arith)
            requires ad == 0;
    }
    let rn = q.numer();
    if n >= 0 && d > 0 {
        assert(rn == an);
        assert(rn * d == n * ad) by (nonlinear_arith)
            requires rn == an, n == g * an, d == g * ad;
    } else if n < 0 && d > 0 {
        assert(rn == -an);
        assert(rn * d == n * ad) by (nonlinear_arith)
            requires rn == -an, -n == g * an, d == g * ad;
    } else if n >= 0 && d < 0 {
        assert(rn == -an);
        assert(rn * d == n * ad) by (nonlinear_arith)
            requires rn == -an, n == g * an, -d == g * ad;
    } else {
        assert(rn == an);
        assert(rn * d == n * ad) by (nonlinear_arith)
            requires rn == an, -n == g * an, -d == g * ad;
    }
    // No common factor is left.
    lemma_reduced_coprime(abs(n), abs(d));
    lemma_abs_negated(an);
    assert(abs(rn) == an);
}

/// `q` is the fraction `n / d` in lowest terms.
pub open spec fn denotes(q: Rational, n: int, d: int) -> bool {
    in_lowest_terms(q) && q.numer() * d == n * q.denom()
}

/// The value of a sum, a difference, a product and a quotient.
pub proof fn lemma_operation_values(a: Rational, b: Rational)
    requires
        a.denom() > 0,
        b.denom() > 0,
    ensures
        spec_add(a, b) is Some ==> denotes(
            spec_add(a, b)->0,
            a.numer() * b.denom() + b.numer() * a.denom(),
            a.denom() * b.denom(),
        ),
        spec_sub(a, b) is Some ==> denotes(
            spec_sub(a, b)->0,
            a.numer() * b.denom() - b.numer() * a.denom(),
            a.denom() * b.denom(),
        ),
        spec_mul(a, b) is Some ==> denotes(spec_mul(a, b)->0, a.numer() * b.numer(), a.denom() * b.denom()),
        b.numer() != 0 && spec_div(a, b) is Some ==> denotes(
            spec_div(a, b)->0,
            a.numer() * b.denom(),
            a.denom() * b.numer(),
        ),
{
    assert(a.denom() * b.denom() > 0) by (nonlinear_arith)
        requires a.denom() > 0, b.denom() > 0;
    if spec_add(a, b) is Some {
        lemma_normalize_value(a.numer() * b.denom() + b.numer() * a.denom(), a.denom() * b.denom());
    }
    if spec_sub(a, b) is Some {
        lemma_normalize_value(a.numer() * b.denom() - b.numer() * a.denom(), a.denom() * b.denom());
    }
    if spec_mul(a, b) is Some {
        lemma_normalize_value(a.numer() * b.numer(), a.denom() * b.denom());
    }
    if b.numer() != 0 && spec_div(a, b) is Some {
        assert(a.denom() * b.numer() != 0) by (nonlinear_arith)
            requires a.denom() > 0, b.numer() != 0;
        lemma_normalize_value(a.numer() * b.denom(), a.denom() * b.numer());
    }
}

/// An exact fraction, kept in lowest terms with a positive denominator.
#[derive(Debug, Clone, Copy, PartialEq, Eq, Structural)]
pub struct Rational {
    num: i64,
    den: i64,
}

pub open spec fn spec_add(a: Rational, b: Rational) -> Option<Rational> {
    spec_normalize(a.numer() * b.denom() + b.numer() * a.denom(), a.denom() * b.denom())
}

pub open spec fn spec_sub(a: Rational, b: Rational) -> Option<Rational> {
    spec_normalize(a.numer() * b.denom() - b.numer() * a.denom(), a.denom() * b.denom())
}

pub open spec fn spec_mul(a: Rational, b: Rational) -> Option<Rational> {
    spec_normalize(a.numer() * b.numer(), a.denom() * b.denom())
}

pub open spec fn spec_div(a: Rational, b: Rational) -> Option<Rational> {
    spec_normalize(a.numer() * b.denom(), a.denom() * b.numer())
}

/// Two fractions denote the same number.
pub open spec fn same_value(a: Rational, b: Rational) -> bool {
    a.numer() * b.denom() == b.numer() * a.denom()
}

/// The integer `n` as a fraction.
pub closed spec fn spec_integer(n: int) -> Rational {
    Rational { num: n as i64, den: 1 }
}

pub proof fn lemma_spec_integer(n: int)
    requires
        i64::MIN <= n <= i64::MAX,
    ensures
        spec_integer(n).numer() == n,
        spec_integer(n).denom() == 1,
{
}

impl Rational {
    #[verifier::type_invariant]
    pub closed spec fn inv(self) -> bool {
        self.den > 0 && gcd(abs(self.num as int), self.den as nat) == 1
    }

    pub closed spec fn numer(self) -> int {
        self.num as int
    }

    pub closed spec fn denom(self) -> int {
        self.den as int
    }

    pub open spec fn is_integer_value(self, n: int) -> bool {
        self.numer() == n && self.denom() == 1
    }

    /// What the invariant of every executable value gives: it is in lowest
    /// terms.
    pub proof fn lemma_inv(q: Rational)
        requires
            q.inv(),
        ensures
            in_lowest_terms(q),
    {
    }

    /// The integer `n`.
    pub fn from_integer(n: i64) -> (r: Rational)
        ensures
            r == spec_integer(n as int),
            r.numer() == n,
            r.denom() == 1,
    {
        proof {
            lemma_gcd_one(abs(n as int));
        }
        Rational { num: n, den: 1 }
    }

    /// The fraction `n / d` in lowest terms; `None` when `d` is zero or the
    /// reduced fraction does not fit in 64 bits.
    pub fn ratio(n: i64, d: i64) -> (r: Option<Rational>)
        ensures
            r == (if d == 0 {
                None
            } else {
                spec_normalize(n as int, d as int)
            }),
    {
        if d == 0 {
            None
        } else {
            normalize(n as i128, d as i128)
        }
    }

    pub fn numerator(&self) -> (n: i64)
        ensures
            n == self.numer(),
    {
        self.num
    }

    pub fn denominator(&self) -> (d: i64)
        ensures
            d == self.denom(),
            d > 0,
    {
        proof {
            use_type_invariant(self);
        }
        self.den
    }

    pub fn is_zero(&self) -> (b: bool)
        ensures
            b == (self.numer() == 0),
    {
        self.num == 0
    }

    pub fn add(&self, other: &Rational) -> (r: Option<Rational>)
        ensures
            r == spec_add(*self, *other),
    {
        proof {
            use_type_invariant(self);
            use_type_invariant(other);
            lemma_scaled_bounds(self.num as int, other.den as int);
            lemma_scaled_bounds(other.num as int, self.den as int);
            lemma_scaled_bounds(self.den as int, other.den as int);
        }
        let n = (self.num as i128) * (other.den as i128) + (other.num as i128) * (self.den as i128);
        let d = (self.den as i128) * (other.den as i128);
        proof {
            assert(d > 0) by (nonlinear_arith)
                requires d == (self.den as int) * (other.den as int), self.den > 0, other.den > 0;
        }
        normalize(n, d)
    }

    pub fn sub(&self, other: &Rational) -> (r: Option<Rational>)
        ensures
            r == spec_sub(*self, *other),
    {
        proof {
            use_type_invariant(self);
            use_type_invariant(other);
            lemma_scaled_bounds(self.num as int, other.den as int);
            lemma_scaled_bounds(other.num as int, self.den as int);
            lemma_scaled_bounds(self.den as int, other.den as int);
        }
        let n = (self.num as i128) * (other.den as i128) - (other.num as i128) * (self.den as i128);
        let d = (self.den as i128) * (other.den as i128);
        proof {
            assert(d > 0) by (nonlinear_arith)
                requires d == (self.den as int) * (other.den as int), self.den > 0, other.den > 0;
        }
        normalize(n, d)
    }

    pub fn mul(&self, other: &Rational) -> (r: Option<Rational>)
        ensures
            r == spec_mul(*self, *other),
    {
        proof {
            use_type_invariant(self);
            use_type_invariant(other);
            lemma_product_bounds(self.num as int, other.num as int);
            lemma_product_bounds(self.den as int, other.den as int);
        }
        let n = (self.num as i128) * (other.num as i128);
        let d = (self.den as i128) * (other.den as i128);
        proof {
            assert(d > 0) by (nonlinear_arith)
                requires d == (self.den as int) * (other.den as int), self.den > 0, other.den > 0;
        }
        normalize(n, d)
    }

    pub fn div(&self, other: &Rational) -> (r: Option<Rational>)
        requires
            other.numer() != 0,
        ensures
            r == spec_div(*self, *other),
    {
        proof {
            use_type_invariant(self);
            use_type_invariant(other);
            lemma_product_bounds(self.num as int, other.den as int);
            lemma_product_bounds(self.den as int, other.num as int);
        }
        let n = (self.num as i128) * (other.den as i128);
        let d = (self.den as i128) * (other.num as i128);
        proof {
            assert(d != 0) by (nonlinear_arith)
                requires d == (self.den as int) * (other.num as int), self.den > 0, other.num != 0;
        }
        normalize(n, d)
    }
}

/// A 64-bit integer times a positive 64-bit integer: twice that still fits
/// in 128 bits.
proof fn lemma_scaled_bounds(x: int, y: int)
    requires
        i64::MIN <= x <= i64::MAX,
        0 < y <= i64::MAX,
    ensures
        -0x3fff_ffff_ffff_ffff_8000_0000_0000_0000 <= x * y <= 0x3fff_ffff_ffff_ffff_8000_0000_0000_0000,
{
    assert(-0x3fff_ffff_ffff_ffff_8000_0000_0000_0000 <= x * y <= 0x3fff_ffff_ffff_ffff_8000_0000_0000_0000)
        by (nonlinear_arith)
        requires
            -0x8000_0000_0000_0000 <= x <= 0x7fff_ffff_ffff_ffff,
            0 < y <= 0x7fff_ffff_ffff_ffff;
}

/// Products of two 64-bit integers stay well inside the 128-bit range.
proof fn lemma_product_bounds(x: int, y: int)
    requires
        i64::MIN <= x <= i64::MAX,
        i64::MIN <= y <= i64::MAX,
    ensures
        -0x4000_0000_0000_0000_0000_0000_0000_0000 <= x * y <= 0x4000_0000_0000_0000_0000_0000_0000_0000,
{
    assert(-0x4000_0000_0000_0000_0000_0000_0000_0000 <= x * y <= 0x4000_0000_0000_0000_0000_0000_0000_0000)
        by (nonlinear_arith)
        requires
            -0x8000_0000_0000_0000 <= x <= 0x7fff_ffff_ffff_ffff,
            -0x8000_0000_0000_0000 <= y <= 0x7fff_ffff_ffff_ffff;
}

fn gcd_u128(a: u128, b: u128) -> (g: u128)
    ensures
        g == gcd(a as nat, b as nat),
{
    let mut x = a;
    let mut y = b;
    while y != 0
        invariant
            gcd(x as nat, y as nat) == gcd(a as nat, b as nat),
        decreases y,
    {
        let t = x % y;
        x = y;
        y = t;
    }
    x
}

/// Reduces `n / d` to lowest terms with a positive denominator.
fn normalize(n: i128, d: i128) -> (r: Option<Rational>)
    requires
        d != 0,
        -0x7fff_ffff_ffff_ffff_ffff_ffff_ffff_ffff <= n,
        -0x7fff_ffff_ffff_ffff_ffff_ffff_ffff_ffff <= d,
    ensures
        r == spec_normalize(n as int, d as int),
{
    let an: u128 = if n < 0 { (-n) as u128 } else { n as u128 };
    let ad: u128 = if d < 0 { (-d) as u128 } else { d as u128 };
    assert(an == abs(n as int));
    assert(ad == abs(d as int));
    let g = gcd_u128(an, ad);
    proof {
        lemma_gcd_divides(an as nat, ad as nat);
    }
    let qn = an / g;
    let qd = ad / g;
    proof {
        lemma_reduced_coprime(an as nat, ad as nat);
    }
    let neg = (n < 0) != (d < 0);
    if qn <= 0x8000_0000_0000_0000 && 0 < qd && qd <= 0x7fff_ffff_ffff_ffff {
        if neg {
            let rn: i128 = -(qn as i128);
            Some(Rational { num: rn as i64, den: qd as i64 })
        } else if qn <= 0x7fff_ffff_ffff_ffff {
            Some(Rational { num: qn as i64, den: qd as i64 })
        } else {
            None
        }
    } else {
        None
    }
}

/// How many digits after the decimal point a printed number keeps.
pub const FRACTION_DIGITS: u64 = 16;

/// The first `k` decimal digits of the fraction `rem / den` (with `rem < den`).
pub open spec fn spec_fraction_digits(rem: nat, den: nat, k: nat) -> Seq<char>
    decreases k,
{
    if k == 0 {
        seq![]
    } else {
        seq![spec_digit_char((rem * 10) / den)] + spec_fraction_digits((rem * 10) % den, den, (k - 1) as nat)
    }
}

/// A digit string without its trailing zeros.
pub open spec fn spec_strip_trailing_zeros(s: Seq<char>) -> Seq<char>
    decreases s.len(),
{
    if s.len() > 0 && s.last() == '0' {
        spec_strip_trailing_zeros(s.drop_last())
    } else {
        s
    }
}

/// How a number is printed: whole numbers without a decimal point, other
/// numbers with up to `FRACTION_DIGITS` digits after the point (the rest cut
/// off, trailing zeros dropped), and a minus sign before a non-zero printed
/// negative value.
pub open spec fn spec_render(q: Rational) -> Seq<char> {
    let a = abs(q.numer());
    let d = q.denom() as nat;
    let ip = a / d;
    let fd = spec_strip_trailing_zeros(spec_fraction_digits(a % d, d, FRACTION_DIGITS as nat));
    let sign: Seq<char> = if q.numer() < 0 && !(ip == 0 && fd.len() == 0) {
        seq!['-']
    } else {
        seq![]
    };
    let frac: Seq<char> = if fd.len() > 0 {
        seq!['.'] + fd
    } else {
        seq![]
    };
    sign + spec_nat_digits(ip) + frac
}

impl Rational {
    /// Appends the printed form of the number.
    pub fn push_rendered(&self, s: &mut String)
        ensures
            final(s)@ == old(s)@ + spec_render(*self),
    {
        proof {
            use_type_invariant(self);
        }
        let a: u64 = if self.num < 0 {
            (-(self.num as i128)) as u64
        } else {
            self.num as u64
        };
        let d: u64 = self.den as u64;
        assert(a == abs(self.numer()));
        let ip = a / d;
        let fr = a % d;
        let mut digits: Vec<char> = Vec::new();
        let mut rem: u64 = fr;
        let mut k: u64 = 0;
        while k < FRACTION_DIGITS
            invariant
                k <= FRACTION_DIGITS,
                d == self.denom(),
                d > 0,
                rem < d,
                digits@ + spec_fraction_digits(rem as nat, d as nat, (FRACTION_DIGITS - k) as nat)
                    == spec_fraction_digits(fr as nat, d as nat, FRACTION_DIGITS as nat),
            decreases FRACTION_DIGITS - k,
        {
            let r10: u128 = (rem as u128) * 10;
            let q128 = r10 / (d as u128);
            assert(q128 < 10) by (nonlinear_arith)
                requires r10 == rem * 10, rem < d, d > 0, q128 == (r10 as int) / (d as int);
            let dg = q128 as u64;
            let next = (r10 % (d as u128)) as u64;
            let ghost old_digits = digits@;
            digits.push(digit_char(dg));
            proof {
                let kk = (FRACTION_DIGITS - k) as nat;
                assert(((rem as nat) * 10) / (d as nat) == dg);
                assert(((rem as nat) * 10) % (d as nat) == next);
                assert(spec_fraction_digits(rem as nat, d as nat, kk)
                    == seq![spec_digit_char(dg as nat)] + spec_fraction_digits(next as nat, d as nat, (kk - 1) as nat));
                assert(old_digits + spec_fraction_digits(rem as nat, d as nat, (FRACTION_DIGITS - k) as nat)
                    =~= digits@ + spec_fraction_digits(next as nat, d as nat, (FRACTION_DIGITS - (k + 1)) as nat));
            }
            rem = next;
            k = k + 1;
        }
        assert(digits@ =~= spec_fraction_digits(fr as nat, d as nat, FRACTION_DIGITS as nat));
        let ghost all_digits = digits@;
        while digits.len() > 0 && digits[digits.len() - 1] == '0'
            invariant
                spec_strip_trailing_zeros(digits@) == spec_strip_trailing_zeros(all_digits),
            decreases digits.len(),
        {
            let ghost before = digits@;
            digits.pop();
            assert(digits@ =~= before.drop_last());
        }
        assert(spec_strip_trailing_zeros(digits@) == digits@);
        let neg = self.num < 0 && !(ip == 0 && digits.len() == 0);
        let ghost s0 = s@;
        if neg {
            s.push('-');
        }
        push_nat_digits(s, ip);
        if digits.len() > 0 {
            s.push('.');
            let mut i: usize = 0;
            let ghost s1 = s@;
            while i < digits.len()
                invariant
                    i <= digits@.len(),
                    s@ == s1 + digits@.subrange(0, i as int),
                decreases digits@.len() - i,
            {
                s.push(digits[i]);
                assert(digits@.subrange(0, i + 1) =~= digits@.subrange(0, i as int).push(digits@[i as int]));
                i = i + 1;
            }
            assert(digits@.subrange(0, digits@.len() as int) =~= digits@);
        }
        assert(s@ =~= s0 + spec_render(*self));
    }

    /// The printed form of the number.
    pub fn to_decimal_string(&self) -> (r: String)
        ensures
            r@ == spec_render(*self),
    {
        let mut r = String::new();
        self.push_rendered(&mut r);
        assert(r@ =~= spec_render(*self));
        r
    }
}

pub open spec fn pow10(k: nat) -> nat
    decreases k,
{
    if k == 0 {
        1
    } else {
        10 * pow10((k - 1) as nat)
    }
}

/// What reading a run of digits and dots left to right collects: the number
/// of dots, the value of all digits read as one integer, and the number of
/// digits after the first dot.
pub open spec fn decimal_scan(s: Seq<char>) -> (nat, nat, nat)
    decreases s.len(),
{
    if s.len() == 0 {
        (0, 0, 0)
    } else {
        let (dots, m, scale) = decimal_scan(s.drop_last());
        let c = s.last();
        if c == '.' {
            (dots + 1, m, scale)
        } else {
            (dots, m * 10 + digit_value(c), if dots > 0 { scale + 1 } else { scale })
        }
    }
}

/// A run of ASCII digits and dots read as a decimal number: `None` when it
/// has more than one dot, or when its digits or its power of ten do not fit
/// in a signed 128-bit integer, or when the reduced fraction does not fit in
/// 64 bits.
pub open spec fn spec_parse_decimal(s: Seq<char>) -> Option<Rational> {
    let (dots, m, scale) = decimal_scan(s);
    if dots > 1 {
        None
    } else if m <= i128::MAX && pow10(scale) <= i128::MAX {
        spec_normalize(m as int, pow10(scale) as int)
    } else {
        None
    }
}

proof fn lemma_pow10_positive(k: nat)
    ensures
        pow10(k) >= 1,
    decreases k,
{
    if k > 0 {
        lemma_pow10_positive((k - 1) as nat);
    }
}

/// A run of digits and dots that reads as a decimal number (at most one
/// dot) but whose exact value lies outside the 64-bit fractions.
pub open spec fn too_large_literal(s: Seq<char>) -> bool {
    decimal_scan(s).0 <= 1 && spec_parse_decimal(s) is None
}

/// Whether a run of ASCII digits and dots reads as a decimal number whose
/// exact value does not fit the 64-bit fractions.
pub fn is_too_large_literal(s: &Vec<char>) -> (b: bool)
    requires
        forall|i: int| 0 <= i < s@.len() ==> is_ascii_digit(#[trigger] s@[i]) || s@[i] == '.',
    ensures
        b == too_large_literal(s@),
{
    let mut dots: usize = 0;
    let mut i: usize = 0;
    while i < s.len()
        invariant
            i <= s@.len(),
            dots == decimal_scan(s@.subrange(0, i as int)).0,
            dots <= i,
        decreases s@.len() - i,
    {
        assert(s@.subrange(0, i + 1).drop_last() =~= s@.subrange(0, i as int));
        if s[i] == '.' {
            dots = dots + 1;
        }
        i = i + 1;
    }
    assert(s@.subrange(0, s@.len() as int) =~= s@);
    dots <= 1 && parse_decimal(s).is_none()
}

/// Reads a run of ASCII digits and dots as an exact decimal number.
pub fn parse_decimal(s: &Vec<char>) -> (r: Option<Rational>)
    requires
        forall|i: int| 0 <= i < s@.len() ==> is_ascii_digit(#[trigger] s@[i]) || s@[i] == '.',
    ensures
        r == spec_parse_decimal(s@),
{
    let mut dots: usize = 0;
    let mut m: i128 = 0;
    let mut p: i128 = 1;
    let mut m_overflow = false;
    let mut p_overflow = false;
    let mut i: usize = 0;
    while i < s.len()
        invariant
            i <= s@.len(),
            forall|j: int| 0 <= j < s@.len() ==> is_ascii_digit(#[trigger] s@[j]) || s@[j] == '.',
            dots == decimal_scan(s@.subrange(0, i as int)).0,
            dots <= i,
            !m_overflow ==> m == decimal_scan(s@.subrange(0, i as int)).1,
            m_overflow ==> decimal_scan(s@.subrange(0, i as int)).1 > i128::MAX,
            !p_overflow ==> p == pow10(decimal_scan(s@.subrange(0, i as int)).2),
            p_overflow ==> pow10(decimal_scan(s@.subrange(0, i as int)).2) > i128::MAX,
            m >= 0,
            p >= 1,
        decreases s@.len() - i,
    {
        let c = s[i];
        let ghost prev = decimal_scan(s@.subrange(0, i as int));
        assert(s@.subrange(0, i + 1).drop_last() =~= s@.subrange(0, i as int));
        if c == '.' {
            dots = dots + 1;
        } else {
            let dv: i128 = (c as u32 - '0' as u32) as i128;
            assert(0 <= dv <= 9);
            if !m_overflow {
                match m.checked_mul(10) {
                    Some(m10) => match m10.checked_add(dv) {
                        Some(next) => {
                            m = next;
                        },
                        None => {
                            m_overflow = true;
                        },
                    },
                    None => {
                        m_overflow = true;
                        assert(prev.1 * 10 + digit_value(c) > i128::MAX);
                    },
                }
            } else {
                assert(prev.1 * 10 + digit_value(c) > i128::MAX);
            }
            if dots > 0 {
                proof {
                    lemma_pow10_positive(prev.2);
                }
                if !p_overflow {
                    match p.checked_mul(10) {
                        Some(p10) => {
                            p = p10;
                        },
                        None => {
                            p_overflow = true;
                        },
                    }
                } else {
                    assert(pow10(prev.2 + 1) == 10 * pow10(prev.2));
                }
            }
        }
        i = i + 1;
    }
    assert(s@.subrange(0, s@.len() as int) =~= s@);
    if dots > 1 {
        None
    } else if m_overflow || p_overflow {
        None
    } else {
        proof {
            lemma_pow10_positive(decimal_scan(s@).2);
        }
        normalize(m, p)
    }
}


proof fn lemma_zero_fraction_digits(d: nat, k: nat)
    requires
        d > 0,
    ensures
        forall|i: int| 0 <= i < spec_fraction_digits(0, d, k).len() ==> #[trigger] spec_fraction_digits(0, d, k)[i] == '0',
    decreases k,
{
    if k > 0 {
        lemma_zero_fraction_digits(d, (k - 1) as nat);
        assert((0nat * 10) / d == 0) by (nonlinear_arith)
            requires d > 0;
        assert((0nat * 10) % d == 0) by (nonlinear_arith)
            requires d > 0;
        let rest = spec_fraction_digits(0, d, (k - 1) as nat);
        let all = spec_fraction_digits(0, d, k);
        assert(all == seq!['0'] + rest);
        assert forall|i: int| 0 <= i < all.len() implies #[trigger] all[i] == '0' by {
            if i > 0 {
                assert(all[i] == rest[i - 1]);
            }
        }
    }
}

proof fn lemma_strip_zeros(s: Seq<char>)
    requires
        forall|i: int| 0 <= i < s.len() ==> #[trigger] s[i] == '0',
    ensures
        spec_strip_trailing_zeros(s) == Seq::<char>::empty(),
    decreases s.len(),
{
    if s.len() > 0 {
        assert(s.last() == s[s.len() - 1]);
        assert forall|i: int| 0 <= i < s.drop_last().len() implies #[trigger] s.drop_last()[i] == '0' by {
            assert(s.drop_last()[i] == s[i]);
        }
        lemma_strip_zeros(s.drop_last());
    } else {
        assert(s =~= Seq::<char>::empty());
    }
}

/// Whole numbers print as their digits, with a minus sign when negative,
/// and no decimal point.
pub proof fn law_whole_numbers_print_plainly(q: Rational)
    requires
        q.denom() == 1,
    ensures
        spec_render(q) == (if q.numer() < 0 {
            seq!['-']
        } else {
            seq![]
        }) + spec_nat_digits(abs(q.numer())),
{
    let a = abs(q.numer());
    assert(a / 1 == a && a % 1 == 0) by (nonlinear_arith);
    lemma_zero_fraction_digits(1, FRACTION_DIGITS as nat);
    lemma_strip_zeros(spec_fraction_digits(0, 1, FRACTION_DIGITS as nat));
}

// ---------------------------------------------------------------------------
// Reading a printed number back
// ---------------------------------------------------------------------------

/// Whether every character is an ASCII digit.
pub open spec fn all_digits(s: Seq<char>) -> bool {
    forall|i: int| 0 <= i < s.len() ==> is_ascii_digit(#[trigger] s[i])
}

/// The printed form without its minus sign.
pub open spec fn unsigned_part(s: Seq<char>) -> Seq<char> {
    if s.len() > 0 && s[0] == '-' {
        s.drop_first()
    } else {
        s
    }
}

proof fn lemma_digit_char_value(k: nat)
    requires
        k < 10,
    ensures
        is_ascii_digit(spec_digit_char(k)),
        digit_value(spec_digit_char(k)) == k,
{
}

proof fn lemma_scan_nat_digits(n: nat)
    ensures
        decimal_scan(spec_nat_digits(n)) == (0nat, n, 0nat),
        all_digits(spec_nat_digits(n)),
        spec_nat_digits(n).len() > 0,
    decreases n,
{
    let s = spec_nat_digits(n);
    assert(decimal_scan(Seq::<char>::empty()) == (0nat, 0nat, 0nat));
    if n < 10 {
        lemma_digit_char_value(n);
        assert(s.drop_last() =~= Seq::<char>::empty());
        assert(s.last() == spec_digit_char(n));
        assert(spec_digit_char(n) != '.');
        assert(decimal_scan(s) == (0nat, 0nat * 10 + digit_value(spec_digit_char(n)), 0nat));
    } else {
        lemma_scan_nat_digits(n / 10);
        lemma_digit_char_value(n % 10);
        assert(s.drop_last() =~= spec_nat_digits(n / 10));
        assert(s.last() == spec_digit_char(n % 10));
        assert(spec_digit_char(n % 10) != '.');
        assert(decimal_scan(s) == (0nat, (n / 10) * 10 + digit_value(spec_digit_char(n % 10)), 0nat));
        assert forall|i: int| 0 <= i < s.len() implies is_ascii_digit(#[trigger] s[i]) by {
            if i < s.len() - 1 {
                assert(s[i] == spec_nat_digits(n / 10)[i]);
            }
        }
    }
}

/// Reading digits after what was read so far.
proof fn lemma_scan_append_digits(s: Seq<char>, t: Seq<char>)
    requires
        all_digits(t),
    ensures
        decimal_scan(t) == (0nat, decimal_scan(t).1, 0nat),
        decimal_scan(s + t) == (
            decimal_scan(s).0,
            decimal_scan(s).1 * pow10(t.len()) + decimal_scan(t).1,
            if decimal_scan(s).0 > 0 {
                decimal_scan(s).2 + t.len()
            } else {
                decimal_scan(s).2
            },
        ),
    decreases t.len(),
{
    if t.len() == 0 {
        assert(s + t =~= s);
        assert(decimal_scan(t) == (0nat, 0nat, 0nat));
        assert(pow10(0) == 1);
    } else {
        let t1 = t.drop_last();
        assert(all_digits(t1)) by {
            assert forall|i: int| 0 <= i < t1.len() implies is_ascii_digit(#[trigger] t1[i]) by {
                assert(t1[i] == t[i]);
            }
        }
        lemma_scan_append_digits(s, t1);
        assert((s + t).drop_last() =~= s + t1);
        assert((s + t).last() == t.last());
        assert(is_ascii_digit(t[t.len() - 1]));
        let m = decimal_scan(s).1;
        let v1 = decimal_scan(t1).1;
        let p1 = pow10(t1.len());
        let c = t.last();
        assert(c != '.');
        assert(decimal_scan(t) == (0nat, v1 * 10 + digit_value(c), 0nat));
        assert(decimal_scan(s + t) == (
            decimal_scan(s + t1).0,
            decimal_scan(s + t1).1 * 10 + digit_value(c),
            if decimal_scan(s + t1).0 > 0 { decimal_scan(s + t1).2 + 1 } else { decimal_scan(s + t1).2 },
        ));
        assert(pow10(t.len()) == 10 * p1);
        assert((m * p1 + v1) * 10 == m * (10 * p1) + v1 * 10) by (nonlinear_arith);
    }
}

proof fn lemma_pow10_add(a: nat, b: nat)
    ensures
        pow10(a + b) == pow10(a) * pow10(b),
    decreases a,
{
    if a > 0 {
        let a1 = (a - 1) as nat;
        lemma_pow10_add(a1, b);
        let x = pow10(a1);
        let y = pow10(b);
        assert(pow10(a) == 10 * x);
        assert(a + b == (a1 + b) + 1);
        assert(pow10(a + b) == 10 * pow10(a1 + b));
        assert(10 * (x * y) == (10 * x) * y) by (nonlinear_arith);
    } else {
        assert(pow10(a) == 1);
        assert(a + b == b);
    }
}

/// The first `k` digits of `r / d` are its value times `10^k`, cut down.
proof fn lemma_fraction_value(r: nat, d: nat, k: nat)
    requires
        r < d,
    ensures
        all_digits(spec_fraction_digits(r, d, k)),
        spec_fraction_digits(r, d, k).len() == k,
        decimal_scan(spec_fraction_digits(r, d, k)).1 * d <= r * pow10(k),
        r * pow10(k) < decimal_scan(spec_fraction_digits(r, d, k)).1 * d + d,
    decreases k,
{
    let f = spec_fraction_digits(r, d, k);
    if k == 0 {
        assert(f =~= Seq::<char>::empty());
        assert(decimal_scan(f) == (0nat, 0nat, 0nat));
        assert(pow10(0) == 1);
        assert(r * pow10(0) == r && 0 * d == 0) by (nonlinear_arith) requires pow10(0) == 1;
    } else {
        let q = (r * 10) / d;
        let r1 = (r * 10) % d;
        assert(q < 10 && r * 10 == q * d + r1 && r1 < d) by (nonlinear_arith)
            requires r < d, q == (r * 10) / d, r1 == (r * 10) % d;
        let k1 = (k - 1) as nat;
        lemma_fraction_value(r1, d, k1);
        let f1 = spec_fraction_digits(r1, d, k1);
        lemma_digit_char_value(q);
        let head = seq![spec_digit_char(q)];
        assert(f == head + f1);
        assert(all_digits(head));
        assert(head.drop_last() =~= Seq::<char>::empty());
        assert(head.last() == spec_digit_char(q));
        assert(spec_digit_char(q) != '.');
        assert(decimal_scan(Seq::<char>::empty()) == (0nat, 0nat, 0nat));
        assert(decimal_scan(head) == (0nat, 0nat * 10 + digit_value(spec_digit_char(q)), 0nat));
        assert(decimal_scan(head) == (0nat, q, 0nat));
        lemma_scan_append_digits(head, f1);
        assert forall|i: int| 0 <= i < f.len() implies is_ascii_digit(#[trigger] f[i]) by {
            if i > 0 {
                assert(f[i] == f1[i - 1]);
            }
        }
        let v1 = decimal_scan(f1).1;
        let p1 = pow10(k1);
        assert(pow10(k) == 10 * p1);
        assert(decimal_scan(f).1 == q * p1 + v1);
        assert(r * (10 * p1) == q * d * p1 + r1 * p1) by (nonlinear_arith)
            requires r * 10 == q * d + r1;
        assert((q * p1 + v1) * d == q * d * p1 + v1 * d) by (nonlinear_arith);
        assert(r * pow10(k) == q * d * p1 + r1 * p1);
        assert(decimal_scan(f).1 * d == q * d * p1 + v1 * d);
        assert(v1 * d <= r1 * p1 && r1 * p1 < v1 * d + d);
    }
}

/// Dropping trailing zeros keeps the value, scaled by the dropped places.
proof fn lemma_strip_value(s: Seq<char>)
    requires
        all_digits(s),
    ensures
        all_digits(spec_strip_trailing_zeros(s)),
        spec_strip_trailing_zeros(s).len() <= s.len(),
        decimal_scan(s).1 == decimal_scan(spec_strip_trailing_zeros(s)).1 * pow10(
            (s.len() - spec_strip_trailing_zeros(s).len()) as nat,
        ),
        spec_strip_trailing_zeros(s).len() > 0 ==> decimal_scan(spec_strip_trailing_zeros(s)).1 > 0,
    decreases s.len(),
{
    let t = spec_strip_trailing_zeros(s);
    let s1 = s.drop_last();
    if s.len() > 0 {
        assert(all_digits(s1)) by {
            assert forall|i: int| 0 <= i < s1.len() implies is_ascii_digit(#[trigger] s1[i]) by {
                assert(s1[i] == s[i]);
            }
        }
        assert(is_ascii_digit(s[s.len() - 1]));
        lemma_scan_append_digits(s1, Seq::<char>::empty());
    }
    if s.len() > 0 && s.last() == '0' {
        lemma_strip_value(s1);
        assert(t == spec_strip_trailing_zeros(s1));
        assert(digit_value(s.last()) == 0);
        assert(decimal_scan(s).1 == decimal_scan(s1).1 * 10 + digit_value(s.last()));
        let v = decimal_scan(t).1;
        let e = (s1.len() - t.len()) as nat;
        assert(decimal_scan(s).1 == decimal_scan(s1).1 * 10);
        assert(pow10(e + 1) == 10 * pow10(e));
        assert((s.len() - t.len()) as nat == e + 1);
        assert(v * pow10(e) * 10 == v * (10 * pow10(e))) by (nonlinear_arith);
    } else {
        assert(t == s);
        assert(pow10(0) == 1);
        assert((s.len() - t.len()) as nat == 0);
        assert(decimal_scan(t).1 * 1 == decimal_scan(t).1);
        if s.len() == 0 {
            assert(decimal_scan(s) == (0nat, 0nat, 0nat));
        }
        if s.len() > 0 {
            assert(decimal_scan(s).1 == decimal_scan(s1).1 * 10 + digit_value(s.last()));
            assert(digit_value(s.last()) > 0);
        }
    }
}

/// A printed number, read back, is the number cut after at most
/// `FRACTION_DIGITS` places: its digits and at most one point, with a minus
/// sign exactly when the number is negative and its printed value is not
/// zero; the value read back `m / 10^p` is at most the magnitude `|n| / d`
/// and less than `10^-FRACTION_DIGITS` below it. So only places beyond the
/// sixteenth are lost, and nothing is dropped from inside the digits.
pub proof fn law_render_reads_back(q: Rational)
    requires
        q.denom() > 0,
    ensures
        ({
            let s = spec_render(q);
            let body = unsigned_part(s);
            let (dots, m, p) = decimal_scan(body);
            let a = abs(q.numer());
            let d = q.denom() as nat;
            let f = pow10(FRACTION_DIGITS as nat);
            &&& body.len() > 0
            &&& forall|i: int| 0 <= i < body.len() ==> is_ascii_digit(#[trigger] body[i]) || body[i] == '.'
            &&& dots <= 1
            &&& (s.len() > 0 && s[0] == '-') <==> (q.numer() < 0 && m > 0)
            &&& m * d <= a * pow10(p)
            &&& a * pow10(p) * f < m * d * f + d * pow10(p)
        }),
{
    let s = spec_render(q);
    let a = abs(q.numer());
    let d = q.denom() as nat;
    let ip = a / d;
    let r = a % d;
    assert(a == ip * d + r && r < d) by (nonlinear_arith)
        requires d > 0, ip == a / d, r == a % d;
    let big = spec_fraction_digits(r, d, FRACTION_DIGITS as nat);
    let fd = spec_strip_trailing_zeros(big);
    let f = pow10(FRACTION_DIGITS as nat);
    lemma_fraction_value(r, d, FRACTION_DIGITS as nat);
    lemma_strip_value(big);
    lemma_scan_nat_digits(ip);
    let digits = spec_nat_digits(ip);
    let vb = decimal_scan(big).1;
    let vf = decimal_scan(fd).1;
    let l = fd.len();
    let e = (FRACTION_DIGITS - l) as nat;
    assert(vb == vf * pow10(e));
    lemma_pow10_add(e, l);
    assert(e + l == FRACTION_DIGITS as nat);
    assert(f == pow10(e) * pow10(l));
    let neg = q.numer() < 0 && !(ip == 0 && fd.len() == 0);
    let sign: Seq<char> = if neg {
        seq!['-']
    } else {
        seq![]
    };
    let frac: Seq<char> = if fd.len() > 0 {
        seq!['.'] + fd
    } else {
        seq![]
    };
    let body = digits + frac;
    assert(s == sign + body);
    assert(body[0] == digits[0]);
    assert(is_ascii_digit(digits[0]));
    assert(unsigned_part(s) == body) by {
        if neg {
            assert(s.drop_first() =~= body);
        } else {
            assert(s =~= body);
        }
    }
    if fd.len() == 0 {
        assert(body =~= digits);
        assert(fd =~= Seq::<char>::empty());
        assert(decimal_scan(fd) == (0nat, 0nat, 0nat));
        assert(vf == 0);
        assert(vf * pow10(e) == 0) by (nonlinear_arith) requires vf == 0;
        assert(vb == 0);
        assert(vb * d == 0) by (nonlinear_arith) requires vb == 0;
        assert(pow10(0) == 1);
        assert(r * f < d);
        assert(ip * d <= a * 1);
        assert(a * 1 * f == ip * d * f + r * f) by (nonlinear_arith)
            requires a == ip * d + r;
        assert(a * pow10(0) * f < ip * d * f + d * pow10(0));
    } else {
        let pre = digits + seq!['.'];
        assert(pre.drop_last() =~= digits);
        assert(decimal_scan(pre) == (1nat, ip, 0nat));
        lemma_scan_append_digits(pre, fd);
        assert(body =~= pre + fd);
        let pl = pow10(l);
        let m = ip * pl + vf;
        assert(decimal_scan(body) == (1nat, m, l));
        assert(vf > 0);
        assert forall|i: int| 0 <= i < body.len() implies is_ascii_digit(#[trigger] body[i]) || body[i] == '.' by {
            if i < digits.len() {
                assert(body[i] == digits[i]);
            } else if i > digits.len() {
                assert(body[i] == fd[i - digits.len() - 1]);
            }
        }
        let pe = pow10(e);
        lemma_pow10_positive(e);
        lemma_pow10_positive(l);
        // From the sixteen digits: vb * d <= r * f < vb * d + d, with vb = vf * pe and f = pe * pl.
        assert(vb * d <= r * f);
        assert(r * f < vb * d + d);
        assert(vf * pe * d <= r * (pe * pl));
        assert(r * (pe * pl) < vf * pe * d + d);
        assert(vf * d <= r * pl) by (nonlinear_arith)
            requires vf * pe * d <= r * (pe * pl), pe >= 1;
        assert(m * d <= a * pl) by (nonlinear_arith)
            requires m == ip * pl + vf, a == ip * d + r, vf * d <= r * pl;
        assert(a * pl * f == ip * d * pl * f + r * pl * f) by (nonlinear_arith)
            requires a == ip * d + r;
        assert(m * d * f == ip * d * pl * f + vf * d * f) by (nonlinear_arith)
            requires m == ip * pl + vf;
        assert(r * pl * f < vf * d * f + d * pl) by (nonlinear_arith)
            requires r * (pe * pl) < vf * pe * d + d, f == pe * pl, pl >= 1;
        assert(a * pl * f < m * d * f + d * pl);
    }
    assert(all_digits(digits));
    assert forall|i: int| 0 <= i < body.len() implies is_ascii_digit(#[trigger] body[i]) || body[i] == '.' by {
        if i < digits.len() {
            assert(body[i] == digits[i]);
        } else if i > digits.len() {
            assert(body[i] == fd[i - digits.len() - 1]);
        }
    }
}

} // verus!
