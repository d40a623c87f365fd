//! Exact rational numbers over 64-bit integers: a fraction kept in lowest
//! terms with a positive denominator, so that equal values are equal field
//! for field and repeated row reduction never drifts. An arithmetic result
//! is representable exactly when its reduced numerator and denominator fit
//! the underlying integer type; intermediate work runs in 128 bits, where
//! no product of two 64-bit values can overflow.

use vstd::arithmetic::div_mod::{
    lemma_div_basics_2, lemma_div_basics_4, lemma_div_by_self, lemma_div_of0,
    lemma_fundamental_div_mod, lemma_fundamental_div_mod_converse, lemma_mod_self_0,
    lemma_small_mod,
};
use vstd::prelude::*;

use crate::element::{dec_digits, int_text, push_i64_text, push_u64_text, tok_ok, tok_val, Element};

verus! {

/// A fraction `num / den` in lowest terms: `den >= 1` and the two parts
/// share no divisor but 1. Constructors and arithmetic keep this shape,
/// so equality of values is equality of fields.
#[derive(PartialEq, Eq, Structural, Clone, Copy, Debug)]
pub struct Rational {
    pub num: i64,
    pub den: i64,
}

/// The absolute value of an integer, as a natural number.
pub open spec fn nat_abs(x: int) -> nat {
    if x >= 0 {
        x as nat
    } else {
        (-x) as nat
    }
}

/// Euclid's greatest common divisor; `gcd(a, 0) == a`.
pub open spec fn gcd(a: nat, b: nat) -> nat
    decreases b,
{
    if b == 0 {
        a
    } else {
        gcd(b, a % b)
    }
}

/// If `d` divides `x` and `y`, it divides `q * x + y`.
proof fn lemma_mod_zero_combo(d: int, x: int, y: int, q: int)
    requires
        d > 0,
        x % d == 0,
        y % d == 0,
    ensures
        (q * x + y) % d == 0,
{
    lemma_fundamental_div_mod(x, d);
    lemma_fundamental_div_mod(y, d);
    let k = q * (x / d) + y / d;
    assert(q * x + y == k * d) by (nonlinear_arith)
        requires
            x == d * (x / d),
            y == d * (y / d),
            k == q * (x / d) + y / d,
    ;
    lemma_fundamental_div_mod_converse(q * x + y, d, k, 0);
}

/// The greatest common divisor of two numbers that are not both zero is
/// positive and divides both.
pub proof fn lemma_gcd_divides(a: nat, b: nat)
    ensures
        (a > 0 || b > 0) ==> gcd(a, b) > 0,
        gcd(a, b) > 0 ==> a % gcd(a, b) == 0 && b % gcd(a, b) == 0,
    decreases b,
{
    if b == 0 {
        if a > 0 {
            lemma_mod_self_0(a as int);
            lemma_small_mod(0, a);
        }
    } else {
        lemma_gcd_divides(b, a % b);
        let g = gcd(b, a % b);
        lemma_fundamental_div_mod(a as int, b as int);
        lemma_mod_zero_combo(g as int, b as int, (a % b) as int, a as int / b as int);
        assert((a as int / b as int) * (b as int) + (a % b) as int == a as int)
            by (nonlinear_arith)
            requires
                a as int == (b as int) * (a as int / b as int) + (a % b) as int,
        ;
    }
}

/// Any common divisor of `a` and `b` divides their greatest common
/// divisor.
pub proof fn lemma_gcd_greatest(a: nat, b: nat, d: nat)
    requires
        d > 0,
        a % d == 0,
        b % d == 0,
    ensures
        gcd(a, b) % d == 0,
    decreases b,
{
    if b != 0 {
        lemma_fundamental_div_mod(a as int, b as int);
        lemma_mod_zero_combo(d as int, b as int, a as int, -(a as int / b as int));
        assert((-(a as int / b as int)) * (b as int) + a as int == (a % b) as int)
            by (nonlinear_arith)
            requires
                a as int == (b as int) * (a as int / b as int) + (a % b) as int,
        ;
        lemma_gcd_greatest(b, a % b, d);
    }
}

/// Dividing two numbers by their greatest common divisor leaves numbers
/// with no common divisor but 1.
pub proof fn lemma_gcd_quotients_coprime(a: nat, b: nat)
    requires
        b > 0,
    ensures
        gcd(a / gcd(a, b), b / gcd(a, b)) == 1,
{
    let g = gcd(a, b);
    lemma_gcd_divides(a, b);
    let a2 = a / g;
    let b2 = b / g;
    lemma_fundamental_div_mod(b as int, g as int);
    assert(b2 > 0) by (nonlinear_arith)
        requires
            b as int == g as int * b2 as int,
            b > 0,
            g > 0,
    ;
    let g2 = gcd(a2, b2);
    lemma_gcd_divides(a2, b2);
    lemma_fundamental_div_mod(a as int, g as int);
    lemma_fundamental_div_mod(a2 as int, g2 as int);
    lemma_fundamental_div_mod(b2 as int, g2 as int);
    assert((g * g2) as int > 0) by (nonlinear_arith)
        requires
            g > 0,
            g2 > 0,
    ;
    assert(a as int == (a2 as int / g2 as int) * ((g * g2) as int) + 0) by (nonlinear_arith)
        requires
            a as int == g as int * a2 as int,
            a2 as int == g2 as int * (a2 as int / g2 as int),
    ;
    assert(b as int == (b2 as int / g2 as int) * ((g * g2) as int) + 0) by (nonlinear_arith)
        requires
            b as int == g as int * b2 as int,
            b2 as int == g2 as int * (b2 as int / g2 as int),
    ;
    lemma_fundamental_div_mod_converse(a as int, (g * g2) as int, a2 as int / g2 as int, 0);
    lemma_fundamental_div_mod_converse(b as int, (g * g2) as int, b2 as int / g2 as int, 0);
    lemma_gcd_greatest(a, b, g * g2);
    if g2 > 1 {
        assert(g < g * g2) by (nonlinear_arith)
            requires
                g > 0,
                g2 > 1,
        ;
        lemma_small_mod(g, g * g2);
    }
}

/// An exact division of a non-negative number distributes over negation.
proof fn lemma_div_neg_exact(a: int, g: int)
    requires
        a >= 0,
        g >= 1,
        a % g == 0,
    ensures
        (-a) / g == -(a / g),
{
    lemma_fundamental_div_mod(a, g);
    assert(-a == (-(a / g)) * g + 0) by (nonlinear_arith)
        requires
            a == g * (a / g),
    ;
    lemma_fundamental_div_mod_converse(-a, g, -(a / g), 0);
}

/// The numerator of `n / d` in lowest terms.
pub open spec fn norm_num(n: int, d: int) -> int {
    n / (gcd(nat_abs(n), nat_abs(d)) as int)
}

/// The denominator of `n / d` in lowest terms.
pub open spec fn norm_den(n: int, d: int) -> int {
    d / (gcd(nat_abs(n), nat_abs(d)) as int)
}

/// Whether `n / d` in lowest terms fits the 64-bit fields.
pub open spec fn fits_i64(n: int, d: int) -> bool {
    i64::MIN <= norm_num(n, d) <= i64::MAX && norm_den(n, d) <= i64::MAX
}

/// An integer squeezed into an `i64` field; out-of-range values, which
/// every caller excludes, collapse to 0.
pub open spec fn clip_i64(x: int) -> i64 {
    if i64::MIN <= x <= i64::MAX {
        x as i64
    } else {
        0
    }
}

/// The fraction `n / d` in lowest terms, as a `Rational`.
pub open spec fn reduced_fraction(n: int, d: int) -> Rational {
    Rational { num: clip_i64(norm_num(n, d)), den: clip_i64(norm_den(n, d)) }
}

/// Whether the pair `n / d` already is a fraction in lowest terms.
pub open spec fn is_reduced(n: int, d: int) -> bool {
    d >= 1 && gcd(nat_abs(n), d as nat) == 1
}

/// What building a rational from a numerator and a denominator yields: a
/// zero denominator or reduced parts beyond 64 bits yield nothing; any
/// other pair yields its sign-normalized lowest-terms fraction.
pub open spec fn new_spec(n: int, d: int) -> Option<Rational> {
    if d == 0 {
        None
    } else {
        let n0 = if d < 0 {
            -n
        } else {
            n
        };
        let d0 = nat_abs(d) as int;
        if fits_i64(n0, d0) {
            Some(reduced_fraction(n0, d0))
        } else {
            None
        }
    }
}

/// The position of the first `/` in `t`, or -1 if there is none.
pub open spec fn first_slash_at(t: Seq<char>) -> int
    decreases t.len(),
{
    if t.len() == 0 {
        -1
    } else if t[0] == '/' {
        0
    } else if first_slash_at(t.skip(1)) < 0 {
        -1
    } else {
        first_slash_at(t.skip(1)) + 1
    }
}

/// The index of a `/` with none before it is the first.
proof fn lemma_first_slash_found(t: Seq<char>, i: int)
    requires
        0 <= i < t.len(),
        t[i] == '/',
        forall|k: int| 0 <= k < i ==> t[k] != '/',
    ensures
        first_slash_at(t) == i,
    decreases i,
{
    if i > 0 {
        assert(t[0] != '/');
        assert(t.skip(1)[i - 1] == t[i]);
        assert(forall|k: int| 0 <= k < i - 1 ==> t.skip(1)[k] == t[k + 1]);
        lemma_first_slash_found(t.skip(1), i - 1);
    }
}

/// A string without a `/` has no first one.
proof fn lemma_first_slash_none(t: Seq<char>)
    requires
        forall|k: int| 0 <= k < t.len() ==> t[k] != '/',
    ensures
        first_slash_at(t) == -1,
    decreases t.len(),
{
    if t.len() > 0 {
        assert(forall|k: int| 0 <= k < t.skip(1).len() ==> t.skip(1)[k] == t[k + 1]);
        lemma_first_slash_none(t.skip(1));
    }
}

/// What parsing a string yields: a bare optionally minus-signed run of
/// digits is a whole number; two such runs around the first `/` are a
/// numerator and a denominator; each run must fit a 64-bit integer, and
/// the pair must name a representable rational. Everything else yields
/// nothing.
pub open spec fn parse_result(t: Seq<char>) -> Option<Rational> {
    if first_slash_at(t) < 0 {
        if tok_ok(t) && i64::MIN <= tok_val(t) <= i64::MAX {
            new_spec(tok_val(t), 1)
        } else {
            None
        }
    } else {
        let i = first_slash_at(t);
        let a = t.subrange(0, i);
        let b = t.subrange(i + 1, t.len() as int);
        if tok_ok(a) && i64::MIN <= tok_val(a) <= i64::MAX && tok_ok(b) && i64::MIN <= tok_val(b)
            <= i64::MAX {
            new_spec(tok_val(a), tok_val(b))
        } else {
            None
        }
    }
}

/// Reducing a fraction with a positive denominator yields a fraction in
/// lowest terms, with the reduced parts unchanged by the field clip.
pub proof fn lemma_reduced_fraction_valid(n: int, d: int)
    requires
        d >= 1,
        fits_i64(n, d),
    ensures
        1 <= norm_den(n, d),
        reduced_fraction(n, d).num == norm_num(n, d),
        reduced_fraction(n, d).den == norm_den(n, d),
        is_reduced(norm_num(n, d), norm_den(n, d)),
        reduced_fraction(n, d).valid(),
{
    let g = gcd(nat_abs(n), d as nat);
    lemma_gcd_divides(nat_abs(n), d as nat);
    lemma_fundamental_div_mod(d, g as int);
    assert(norm_den(n, d) >= 1) by (nonlinear_arith)
        requires
            d == g as int * norm_den(n, d),
            d >= 1,
            g >= 1,
    ;
    lemma_gcd_quotients_coprime(nat_abs(n), d as nat);
    lemma_fundamental_div_mod(nat_abs(n) as int, g as int);
    if n >= 0 {
        lemma_div_basics_4(n, g as int);
        assert(nat_abs(norm_num(n, d)) == nat_abs(n) / g);
    } else {
        lemma_div_neg_exact(nat_abs(n) as int, g as int);
        assert(norm_num(n, d) == -((nat_abs(n) / g) as int));
        assert(nat_abs(norm_num(n, d)) == nat_abs(n) / g);
    }
}

/// Reducing a fraction already in lowest terms changes nothing.
proof fn lemma_reduced_of_reduced(n: int, d: int)
    requires
        is_reduced(n, d),
        i64::MIN <= n <= i64::MAX,
        d <= i64::MAX,
    ensures
        fits_i64(n, d),
        reduced_fraction(n, d) == (Rational { num: n as i64, den: d as i64 }),
{
    assert(nat_abs(d) == d as nat);
    lemma_div_basics_2(n);
    lemma_div_basics_2(d);
}

/// The product of two factors from the 64-bit range stays far inside the
/// 128-bit range.
proof fn lemma_prod_i64_bounds(x: i128, y: i128)
    requires
        i64::MIN <= x <= i64::MAX,
        i64::MIN <= y <= i64::MAX,
    ensures
        -0x4000_0000_0000_0000_0000_0000_0000_0000 <= x * y
            <= 0x4000_0000_0000_0000_0000_0000_0000_0000,
{
    assert(-0x4000_0000_0000_0000_0000_0000_0000_0000 <= x * y
        <= 0x4000_0000_0000_0000_0000_0000_0000_0000) by (nonlinear_arith)
        requires
            -0x8000_0000_0000_0000 <= x <= 0x7FFF_FFFF_FFFF_FFFF,
            -0x8000_0000_0000_0000 <= y <= 0x7FFF_FFFF_FFFF_FFFF,
    ;
}

/// The product of a numerator and a positive denominator is small enough
/// that even the sum of two such products stays inside the 128-bit range.
proof fn lemma_num_den_prod_bounds(x: i128, y: i128)
    requires
        i64::MIN <= x <= i64::MAX,
        1 <= y <= i64::MAX,
    ensures
        -0x3FFF_FFFF_FFFF_FFFF_8000_0000_0000_0000 <= x * y
            <= 0x3FFF_FFFF_FFFF_FFFF_8000_0000_0000_0000,
{
    assert(-0x3FFF_FFFF_FFFF_FFFF_8000_0000_0000_0000 <= x * y
        <= 0x3FFF_FFFF_FFFF_FFFF_8000_0000_0000_0000) by (nonlinear_arith)
        requires
            -0x8000_0000_0000_0000 <= x <= 0x7FFF_FFFF_FFFF_FFFF,
            1 <= y <= 0x7FFF_FFFF_FFFF_FFFF,
    ;
}

impl Rational {
    /// The greatest common divisor, by Euclid's algorithm.
    fn gcd_u128(a0: u128, b0: u128) -> (g: u128)
        ensures
            g as nat == gcd(a0 as nat, b0 as nat),
    {
        let mut a = a0;
        let mut b = b0;
        while b != 0
            invariant
                gcd(a as nat, b as nat) == gcd(a0 as nat, b0 as nat),
            decreases b,
        {
            let t = a % b;
            a = b;
            b = t;
        }
        a
    }

    /// Reduces `n / d` to lowest terms; yields nothing exactly when the
    /// reduced parts do not fit the 64-bit fields.
    fn reduce_checked(n: i128, d: i128) -> (r: Option<Rational>)
        requires
            1 <= d,
            i128::MIN < n,
        ensures
            (r is Some) <==> fits_i64(n as int, d as int),
            r matches Some(q) ==> q == reduced_fraction(n as int, d as int) && q.valid(),
    {
        let neg = n < 0;
        let na: u128 = if neg {
            (-n) as u128
        } else {
            n as u128
        };
        let g: u128 = Self::gcd_u128(na, d as u128);
        proof {
            assert(na as nat == nat_abs(n as int));
            assert(nat_abs(d as int) == d as nat);
            lemma_gcd_divides(na as nat, d as nat);
        }
        let q: u128 = na / g;
        let dq: u128 = (d as u128) / g;
        proof {
            lemma_fundamental_div_mod(na as int, g as int);
            lemma_fundamental_div_mod(d as int, g as int);
            assert(q as int <= na as int && 1 <= dq as int <= d as int) by (nonlinear_arith)
                requires
                    na as int == g as int * (q as int),
                    d as int == g as int * (dq as int),
                    g as int >= 1,
                    q as int >= 0,
                    dq as int >= 0,
                    d as int >= 1,
            ;
            if neg {
                lemma_div_neg_exact(na as int, g as int);
                assert(norm_num(n as int, d as int) == -(q as int));
            } else {
                assert(norm_num(n as int, d as int) == q as int);
            }
            assert(norm_den(n as int, d as int) == dq as int);
        }
        let fits_num = if neg {
            q <= 0x8000_0000_0000_0000u128
        } else {
            q <= i64::MAX as u128
        };
        if fits_num && dq <= i64::MAX as u128 {
            let rn: i128 = if neg {
                -(q as i128)
            } else {
                q as i128
            };
            proof {
                lemma_reduced_fraction_valid(n as int, d as int);
            }
            Some(Rational { num: rn as i64, den: dq as i64 })
        } else {
            None
        }
    }

    /// The fraction `num / den`, reduced to lowest terms with a positive
    /// denominator. Yields nothing exactly when `den` is zero or the
    /// reduced parts do not fit 64 bits.
    pub fn new(num: i64, den: i64) -> (r: Option<Rational>)
        ensures
            r == new_spec(num as int, den as int),
            r matches Some(q) ==> q.valid(),
    {
        if den == 0 {
            return None;
        }
        let mut n: i128 = num as i128;
        let mut d: i128 = den as i128;
        if d < 0 {
            n = -n;
            d = -d;
        }
        Self::reduce_checked(n, d)
    }

    /// Parses text as a rational: an optionally minus-signed run of
    /// digits, or two such runs separated by `/`. Yields nothing exactly
    /// when the text has another shape, a part does not fit a 64-bit
    /// integer, the denominator is zero, or the reduced fraction does not
    /// fit 64 bits.
    pub fn parse(s: &str) -> (r: Option<Rational>)
        ensures
            r == parse_result(s@),
            r matches Some(q) ==> q.valid(),
    {
        let n = s.unicode_len();
        let mut i: usize = 0;
        let mut found = false;
        while i < n && !found
            invariant
                n == s@.len(),
                i <= n,
                found ==> i < n && s@[i as int] == '/',
                forall|k: int| 0 <= k < i ==> s@[k] != '/',
            decreases n - i, (if found { 0int } else { 1int }),
        {
            if s.get_char(i) == '/' {
                found = true;
            } else {
                i += 1;
            }
        }
        if found {
            proof {
                lemma_first_slash_found(s@, i as int);
            }
            let left = crate::element::parse_signed_token(s, 0, i);
            let right = crate::element::parse_signed_token(s, i + 1, n);
            match (left, right) {
                (Some(va), Some(vb)) => Rational::new(va, vb),
                _ => None,
            }
        } else {
            proof {
                lemma_first_slash_none(s@);
                assert(s@.subrange(0, n as int) =~= s@);
            }
            match crate::element::parse_signed_token(s, 0, n) {
                Some(v) => Rational::new(v, 1),
                None => None,
            }
        }
    }

    /// The whole number `n`, as a rational.
    pub fn from_int(n: i64) -> (r: Rational)
        ensures
            r.num == n,
            r.den == 1,
            r.valid(),
    {
        proof {
            lemma_one_coprime(nat_abs(n as int));
        }
        Rational { num: n, den: 1 }
    }
}

/// Every number is coprime with 1.
proof fn lemma_one_coprime(a: nat)
    ensures
        gcd(a, 1) == 1,
{
    reveal_with_fuel(gcd, 3);
    lemma_small_mod(0, 1);
    assert(a % 1 == 0) by (nonlinear_arith);
}

/// The error of parsing text that names no representable rational.
#[derive(PartialEq, Eq, Structural, Clone, Copy, Debug)]
pub struct ParseRationalError;

impl core::str::FromStr for Rational {
    type Err = ParseRationalError;

    fn from_str(s: &str) -> Result<Self, Self::Err> {
        match Rational::parse(s) {
            Some(q) => Ok(q),
            None => Err(ParseRationalError),
        }
    }
}

impl Element for Rational {
    open spec fn valid(self) -> bool {
        is_reduced(self.num as int, self.den as int)
    }

    open spec fn add_spec(a: Self, b: Self) -> Self {
        reduced_fraction(a.num * b.den + b.num * a.den, a.den * b.den)
    }

    open spec fn mul_spec(a: Self, b: Self) -> Self {
        reduced_fraction(a.num * b.num, a.den * b.den)
    }

    open spec fn sub_spec(a: Self, b: Self) -> Self {
        reduced_fraction(a.num * b.den - b.num * a.den, a.den * b.den)
    }

    open spec fn add_ok(a: Self, b: Self) -> bool {
        fits_i64(a.num * b.den + b.num * a.den, a.den * b.den)
    }

    open spec fn mul_ok(a: Self, b: Self) -> bool {
        fits_i64(a.num * b.num, a.den * b.den)
    }

    open spec fn sub_ok(a: Self, b: Self) -> bool {
        fits_i64(a.num * b.den - b.num * a.den, a.den * b.den)
    }

    open spec fn zero_spec() -> Self {
        Rational { num: 0, den: 1 }
    }

    open spec fn one_spec() -> Self {
        Rational { num: 1, den: 1 }
    }

    open spec fn text_spec(self) -> Seq<char> {
        if self.den == 1 {
            int_text(self.num as int)
        } else {
            int_text(self.num as int) + seq!['/'] + dec_digits(self.den as nat)
        }
    }

    fn to_text(&self) -> (s: String) {
        let mut out = String::new();
        push_i64_text(&mut out, self.num);
        if self.den != 1 {
            proof {
                reveal_strlit("/");
            }
            let ghost mid = out@;
            out.append("/");
            proof {
                assert(out@ =~= mid + seq!['/']);
            }
            push_u64_text(&mut out, self.den as u64);
            proof {
                assert(out@ =~= self.text_spec());
            }
        }
        out
    }

    fn zero() -> (r: Self) {
        proof {
            lemma_one_coprime(0);
        }
        Rational { num: 0, den: 1 }
    }

    fn one() -> (r: Self) {
        proof {
            lemma_one_coprime(1);
        }
        Rational { num: 1, den: 1 }
    }

    fn can_add(self, other: Self) -> (r: bool) {
        let sn = self.num as i128;
        let sd = self.den as i128;
        let bn = other.num as i128;
        let bd = other.den as i128;
        proof {
            lemma_num_den_prod_bounds(sn, bd);
            lemma_num_den_prod_bounds(bn, sd);
            lemma_prod_i64_bounds(sd, bd);
            assert(sd * bd >= 1) by (nonlinear_arith)
                requires
                    sd >= 1,
                    bd >= 1,
            ;
        }
        Self::reduce_checked(sn * bd + bn * sd, sd * bd).is_some()
    }

    fn can_mul(self, other: Self) -> (r: bool) {
        let sn = self.num as i128;
        let sd = self.den as i128;
        let bn = other.num as i128;
        let bd = other.den as i128;
        proof {
            lemma_prod_i64_bounds(sn, bn);
            lemma_prod_i64_bounds(sd, bd);
            assert(sd * bd >= 1) by (nonlinear_arith)
                requires
                    sd >= 1,
                    bd >= 1,
            ;
        }
        Self::reduce_checked(sn * bn, sd * bd).is_some()
    }

    fn can_sub(self, other: Self) -> (r: bool) {
        let sn = self.num as i128;
        let sd = self.den as i128;
        let bn = other.num as i128;
        let bd = other.den as i128;
        proof {
            lemma_num_den_prod_bounds(sn, bd);
            lemma_num_den_prod_bounds(bn, sd);
            lemma_prod_i64_bounds(sd, bd);
            assert(sd * bd >= 1) by (nonlinear_arith)
                requires
                    sd >= 1,
                    bd >= 1,
            ;
        }
        Self::reduce_checked(sn * bd - bn * sd, sd * bd).is_some()
    }

    fn add(self, other: Self) -> (r: Self) {
        let sn = self.num as i128;
        let sd = self.den as i128;
        let bn = other.num as i128;
        let bd = other.den as i128;
        proof {
            lemma_num_den_prod_bounds(sn, bd);
            lemma_num_den_prod_bounds(bn, sd);
            lemma_prod_i64_bounds(sd, bd);
            assert(sd * bd >= 1) by (nonlinear_arith)
                requires
                    sd >= 1,
                    bd >= 1,
            ;
        }
        let n = sn * bd + bn * sd;
        let d = sd * bd;
        match Self::reduce_checked(n, d) {
            Some(q) => q,
            // the guard `add_ok` admits only inputs whose reduced sum fits
            None => Rational { num: 0, den: 1 },
        }
    }

    fn mul(self, other: Self) -> (r: Self) {
        let sn = self.num as i128;
        let sd = self.den as i128;
        let bn = other.num as i128;
        let bd = other.den as i128;
        proof {
            lemma_prod_i64_bounds(sn, bn);
            lemma_prod_i64_bounds(sd, bd);
            assert(sd * bd >= 1) by (nonlinear_arith)
                requires
                    sd >= 1,
                    bd >= 1,
            ;
        }
        let n = sn * bn;
        let d = sd * bd;
        match Self::reduce_checked(n, d) {
            Some(q) => q,
            // the guard `mul_ok` admits only inputs whose reduced product fits
            None => Rational { num: 0, den: 1 },
        }
    }

    fn sub(self, other: Self) -> (r: Self) {
        let sn = self.num as i128;
        let sd = self.den as i128;
        let bn = other.num as i128;
        let bd = other.den as i128;
        proof {
            lemma_num_den_prod_bounds(sn, bd);
            lemma_num_den_prod_bounds(bn, sd);
            lemma_prod_i64_bounds(sd, bd);
            assert(sd * bd >= 1) by (nonlinear_arith)
                requires
                    sd >= 1,
                    bd >= 1,
            ;
        }
        let n = sn * bd - bn * sd;
        let d = sd * bd;
        match Self::reduce_checked(n, d) {
            Some(q) => q,
            // the guard `sub_ok` admits only inputs whose reduced difference fits
            None => Rational { num: 0, den: 1 },
        }
    }

    proof fn law_identities_valid() {
        lemma_one_coprime(0);
        lemma_one_coprime(1);
    }

    proof fn law_mul_one(x: Self) {
        assert(1 * x.num == x.num && 1 * x.den == x.den);
        lemma_reduced_of_reduced(x.num as int, x.den as int);
    }

    proof fn law_mul_zero(x: Self) {
        reveal_with_fuel(gcd, 3);
        lemma_small_mod(0, x.den as nat);
        assert(0 * x.num == 0 && 1 * x.den == x.den);
        assert(gcd(nat_abs(0), nat_abs(x.den as int)) == x.den as nat);
        lemma_div_of0(x.den as int);
        lemma_div_by_self(x.den as int);
        lemma_one_coprime(0);
    }

    proof fn law_add_zero(x: Self) {
        assert(0 * x.den + x.num * 1 == x.num && 1 * x.den == x.den);
        lemma_reduced_of_reduced(x.num as int, x.den as int);
    }

    proof fn law_add_comm(a: Self, b: Self) {
        assert(a.den as int * (b.den as int) == b.den as int * (a.den as int))
            by (nonlinear_arith);
    }
}

} // verus!
