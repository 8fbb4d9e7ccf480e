//! Rational numbers over `isize`, kept in normalized form.
use vstd::prelude::*;
use vstd::arithmetic::div_mod::{lemma_fundamental_div_mod, lemma_mod_multiples_basic};

verus! {

/// Greatest common divisor by Euclid's algorithm.
pub open spec fn spec_gcd(a: nat, b: nat) -> nat
    decreases b,
{
    if b == 0 {
        a
    } else {
        spec_gcd(b, a % b)
    }
}

/// Absolute value.
pub open spec fn abs(x: int) -> int {
    if x < 0 {
        -x
    } else {
        x
    }
}

/// `x` is a multiple of `d` (for `d > 0`).
pub open spec fn divides(d: int, x: int) -> bool {
    d > 0 && x % d == 0
}

/// The normalized pair for `num / den`: zero becomes `(0, 0)`; otherwise the sign moves to the
/// numerator and both are divided by their greatest common divisor.
pub open spec fn normalize_spec(num: int, den: int) -> (int, int) {
    if num == 0 {
        (0, 0)
    } else {
        let n = if den < 0 {
            -num
        } else {
            num
        };
        let d = if den < 0 {
            -den
        } else {
            den
        };
        let g = spec_gcd(abs(n) as nat, abs(d) as nat) as int;
        (if n < 0 {
            -(abs(n) / g)
        } else {
            abs(n) / g
        }, d / g)
    }
}

/// Rational number represented by two `isize`s, numerator and denominator.
///
/// A normalized rational has a non-negative denominator and a numerator and denominator that
/// are coprime; as a corner case, 0 is represented by `Rational { numerator: 0, denominator: 0 }`.
#[derive(Debug, Clone, Copy, PartialEq, Eq, Structural)]
pub struct Rational {
    /// Numerator.
    pub numerator: isize,
    /// Denominator.
    pub denominator: isize,
}

/// The pair of a rational.
pub open spec fn pair(r: Rational) -> (int, int) {
    (r.numerator as int, r.denominator as int)
}

/// Whether a rational is in normalized form.
pub open spec fn is_normalized(r: Rational) -> bool {
    (r.numerator == 0 && r.denominator == 0) || (r.numerator != 0 && r.denominator > 0
        && spec_gcd(abs(r.numerator as int) as nat, abs(r.denominator as int) as nat) == 1)
}

/// No component is `isize::MIN`, so that signs can be flipped.
pub open spec fn no_min(r: Rational) -> bool {
    r.numerator != isize::MIN && r.denominator != isize::MIN
}

/// A rational built from a normalized pair.
pub open spec fn from_pair(p: (int, int)) -> Rational {
    Rational { numerator: p.0 as isize, denominator: p.1 as isize }
}

/// `a + b` as the exec code computes it: a zero-denominator operand stands for zero.
pub open spec fn spec_add(a: Rational, b: Rational) -> Rational {
    if a.denominator == 0 {
        b
    } else if b.denominator == 0 {
        a
    } else {
        from_pair(
            normalize_spec(
                a.numerator * b.denominator + b.numerator * a.denominator,
                a.denominator * b.denominator,
            ),
        )
    }
}

/// `a * b`.
pub open spec fn spec_mul(a: Rational, b: Rational) -> Rational {
    if a.denominator == 0 || b.denominator == 0 {
        zero_spec()
    } else {
        from_pair(normalize_spec(a.numerator * b.numerator, a.denominator * b.denominator))
    }
}

/// `a - b`.
pub open spec fn spec_sub(a: Rational, b: Rational) -> Rational {
    if a.denominator == 0 {
        from_pair(normalize_spec(-b.numerator, b.denominator as int))
    } else if b.denominator == 0 {
        a
    } else {
        from_pair(
            normalize_spec(
                a.numerator * b.denominator - b.numerator * a.denominator,
                a.denominator * b.denominator,
            ),
        )
    }
}

/// `a / b`.
pub open spec fn spec_div(a: Rational, b: Rational) -> Rational {
    if a.denominator == 0 || b.denominator == 0 {
        zero_spec()
    } else {
        from_pair(normalize_spec(a.numerator * b.denominator, a.denominator * b.numerator))
    }
}

/// Zero.
pub open spec fn zero_spec() -> Rational {
    Rational { numerator: 0, denominator: 0 }
}

/// One.
pub open spec fn one_spec() -> Rational {
    Rational { numerator: 1, denominator: 1 }
}

/// Minus one.
pub open spec fn minus_one_spec() -> Rational {
    Rational { numerator: -1isize, denominator: 1 }
}

/// The products of the operands fit in `isize`, so that the operations do not overflow.
pub open spec fn products_fit(a: Rational, b: Rational) -> bool {
    let (an, ad, bn, bd) = (
        a.numerator as int,
        a.denominator as int,
        b.numerator as int,
        b.denominator as int,
    );
    &&& isize::MIN < an * bd < isize::MAX
    &&& isize::MIN < bn * ad < isize::MAX
    &&& isize::MIN < an * bn < isize::MAX
    &&& isize::MIN < ad * bd < isize::MAX
    &&& isize::MIN < ad * bn < isize::MAX
    &&& isize::MIN < an * bd + bn * ad < isize::MAX
    &&& isize::MIN < an * bd - bn * ad < isize::MAX
    &&& no_min(a)
    &&& no_min(b)
}

/// Greatest common divisor of two non-negative numbers by Euclid's algorithm.
fn gcd(a: isize, b: isize) -> (r: isize)
    requires
        a >= 0,
        b >= 0,
    ensures
        r == spec_gcd(a as nat, b as nat),
        r >= 0,
{
    let ghost a0 = a;
    let ghost b0 = b;
    let mut a = a;
    let mut b = b;
    while b != 0
        invariant
            a >= 0,
            b >= 0,
            spec_gcd(a as nat, b as nat) == spec_gcd(a0 as nat, b0 as nat),
        decreases b,
    {
        let t = b;
        b = a % b;
        a = t;
    }
    assert(spec_gcd(a as nat, 0) == a);
    a
}

impl Rational {
    /// Creates a new rational number, as given (no normalization).
    pub fn new(numerator: isize, denominator: isize) -> (r: Self)
        ensures
            r.numerator == numerator,
            r.denominator == denominator,
    {
        Self { numerator, denominator }
    }

    /// Zero, `Rational { numerator: 0, denominator: 0 }`.
    pub fn zero() -> (r: Self)
        ensures
            r == zero_spec(),
    {
        Rational::new(0, 0)
    }

    /// One.
    pub fn one() -> (r: Self)
        ensures
            r == one_spec(),
    {
        Rational::new(1, 1)
    }

    /// Minus one.
    pub fn minus_one() -> (r: Self)
        ensures
            r == minus_one_spec(),
    {
        Rational::new(-1, 1)
    }

    /// Normalizes the fraction: zero becomes `(0, 0)`; otherwise the denominator is made
    /// non-negative and numerator and denominator are divided by their greatest common divisor.
    pub fn normalize(num: isize, den: isize) -> (r: Self)
        requires
            num != isize::MIN,
            den != isize::MIN,
        ensures
            pair(r) == normalize_spec(num as int, den as int),
            num != 0 ==> r.numerator != 0 && r.denominator >= 0,
            num != 0 && den != 0 ==> is_normalized(r) && r.numerator * den == num
                * r.denominator,
    {
        if num == 0 {
            return Rational { numerator: 0, denominator: 0 };
        }
        let (n, d) = if den < 0 {
            (-num, -den)
        } else {
            (num, den)
        };
        let an: isize = if n < 0 {
            -n
        } else {
            n
        };
        let common = gcd(an, d);
        proof {
            lemma_gcd_divides(an as nat, d as nat);
        }
        let q = an / common;
        let numerator = if n < 0 {
            -q
        } else {
            q
        };
        let denominator = d / common;
        proof {
            lemma_quotient_nonzero(an as int, common as int);
            if den != 0 {
                lemma_quotient_nonzero(d as int, common as int);
                lemma_normalized_coprime(an as nat, d as nat);
                assert(abs(numerator as int) == q);
                lemma_cross_product(n as int, d as int, common as int);
                assert(numerator * d == n * denominator);
                if den < 0 {
                    assert(numerator * den == num * denominator) by (nonlinear_arith)
                        requires
                            numerator * d == n * denominator,
                            n == -num,
                            d == -den,
                    ;
                }
            }
        }
        Rational { numerator, denominator }
    }

    /// `self + rhs`; a zero-denominator operand stands for zero.
    pub fn add(self, rhs: Self) -> (r: Self)
        requires
            products_fit(self, rhs),
        ensures
            r == spec_add(self, rhs),
    {
        if self.denominator == 0 {
            return rhs;
        } else if rhs.denominator == 0 {
            return self;
        }
        let num = self.numerator * rhs.denominator + rhs.numerator * self.denominator;
        let den = self.denominator * rhs.denominator;
        Rational::normalize(num, den)
    }

    /// `self * rhs`.
    pub fn mul(self, rhs: Self) -> (r: Self)
        requires
            products_fit(self, rhs),
        ensures
            r == spec_mul(self, rhs),
    {
        if self.denominator == 0 || rhs.denominator == 0 {
            return Rational::zero();
        }
        let num = self.numerator * rhs.numerator;
        let den = self.denominator * rhs.denominator;
        Rational::normalize(num, den)
    }

    /// `self - rhs`.
    pub fn sub(self, rhs: Self) -> (r: Self)
        requires
            products_fit(self, rhs),
        ensures
            r == spec_sub(self, rhs),
    {
        if self.denominator == 0 {
            return Rational::normalize(-rhs.numerator, rhs.denominator);
        } else if rhs.denominator == 0 {
            return self;
        }
        let num = self.numerator * rhs.denominator - rhs.numerator * self.denominator;
        let den = self.denominator * rhs.denominator;
        Rational::normalize(num, den)
    }

    /// `self / rhs`: multiplication by the reciprocal of `rhs`.
    pub fn div(self, rhs: Self) -> (r: Self)
        requires
            products_fit(self, rhs),
        ensures
            r == spec_div(self, rhs),
    {
        if self.denominator == 0 || rhs.denominator == 0 {
            return Rational::zero();
        }
        let num = self.numerator * rhs.denominator;
        let den = self.denominator * rhs.numerator;
        Rational::normalize(num, den)
    }
}

/// `x * q + y` is a multiple of `g` when `x` and `y` are.
pub proof fn lemma_mod_zero_lin(x: int, y: int, q: int, g: int)
    requires
        g > 0,
        x % g == 0,
        y % g == 0,
    ensures
        (x * q + y) % g == 0,
{
    lemma_fundamental_div_mod(x, g);
    lemma_fundamental_div_mod(y, g);
    let k = (x / g) * q + y / g;
    assert(x * q + y == g * k) by (nonlinear_arith)
        requires
            x == g * (x / g),
            y == g * (y / g),
            k == (x / g) * q + y / g,
    ;
    lemma_mod_multiples_basic(k, g);
    assert(g * k == k * g) by (nonlinear_arith);
}

/// The greatest common divisor of two numbers, not both zero, is positive and divides both.
pub proof fn lemma_gcd_divides(a: nat, b: nat)
    requires
        a > 0 || b > 0,
    ensures
        spec_gcd(a, b) > 0,
        divides(spec_gcd(a, b) as int, a as int),
        divides(spec_gcd(a, b) as int, b as int),
    decreases b,
{
    if b > 0 {
        let r = a % b;
        lemma_gcd_divides(b, r);
        let g = spec_gcd(a, b) as int;
        lemma_fundamental_div_mod(a as int, b as int);
        lemma_mod_zero_lin(b as int, r as int, (a / b) as int, g);
        assert(a == b * (a / b) + r);
        assert(b * (a / b) == (b as int) * ((a / b) as int));
    }
}

/// Every common divisor of `a` and `b` divides their greatest common divisor.
pub proof fn lemma_gcd_greatest(a: nat, b: nat, d: int)
    requires
        divides(d, a as int),
        divides(d, b as int),
    ensures
        divides(d, spec_gcd(a, b) as int),
    decreases b,
{
    if b > 0 {
        let r = a % b;
        lemma_fundamental_div_mod(a as int, b as int);
        assert(r == (b as int) * (-((a / b) as int)) + a as int) by (nonlinear_arith)
            requires
                a == b * (a / b) + r,
        ;
        lemma_mod_zero_lin(b as int, a as int, -((a / b) as int), d);
        lemma_gcd_greatest(b, r, d);
    }
}

/// Dividing by the greatest common divisor leaves coprime numbers.
pub proof fn lemma_normalized_coprime(a: nat, b: nat)
    requires
        a > 0,
    ensures
        spec_gcd(a / spec_gcd(a, b), b / spec_gcd(a, b)) == 1,
{
    lemma_gcd_divides(a, b);
    let g = spec_gcd(a, b) as int;
    let a1 = a as int / g;
    let b1 = b as int / g;
    lemma_fundamental_div_mod(a as int, g);
    lemma_fundamental_div_mod(b as int, g);
    assert(a1 > 0) by (nonlinear_arith)
        requires
            a == g * a1,
            a > 0,
            g > 0,
    ;
    lemma_gcd_divides(a1 as nat, b1 as nat);
    let h = spec_gcd(a1 as nat, b1 as nat) as int;
    lemma_fundamental_div_mod(a1, h);
    lemma_fundamental_div_mod(b1, h);
    let gh = g * h;
    assert(gh > 0) by (nonlinear_arith)
        requires
            g > 0,
            h > 0,
            gh == g * h,
    ;
    assert(a == gh * (a1 / h)) by (nonlinear_arith)
        requires
            a == g * a1,
            a1 == h * (a1 / h),
            gh == g * h,
    ;
    assert(b == gh * (b1 / h)) by (nonlinear_arith)
        requires
            b == g * b1,
            b1 == h * (b1 / h),
            gh == g * h,
    ;
    lemma_mod_multiples_basic(a1 / h, gh);
    lemma_mod_multiples_basic(b1 / h, gh);
    assert((a1 / h) * gh == gh * (a1 / h)) by (nonlinear_arith);
    assert((b1 / h) * gh == gh * (b1 / h)) by (nonlinear_arith);
    lemma_gcd_greatest(a, b, gh);
    lemma_fundamental_div_mod(g, gh);
    let m = g / gh;
    assert(h == 1) by (nonlinear_arith)
        requires
            g == gh * m,
            gh == g * h,
            g > 0,
            h > 0,
    ;
}

/// Dividing a non-zero number by a positive divisor of it leaves a non-zero quotient.
pub proof fn lemma_quotient_nonzero(a: int, g: int)
    requires
        a > 0,
        divides(g, a),
    ensures
        a / g > 0,
        a / g <= a,
{
    lemma_fundamental_div_mod(a, g);
    assert(a / g > 0 && a / g <= a) by (nonlinear_arith)
        requires
            a == g * (a / g),
            a > 0,
            g > 0,
    ;
}

/// Dividing `n / d` by a common divisor keeps the value: `(n/g) * d == n * (d/g)`, where the
/// numerator is divided by magnitude and its sign restored.
pub proof fn lemma_cross_product(n: int, d: int, g: int)
    requires
        divides(g, abs(n)),
        divides(g, d),
        d >= 0,
    ensures
        (if n < 0 {
            -(abs(n) / g)
        } else {
            abs(n) / g
        }) * d == n * (d / g),
{
    let an = abs(n);
    lemma_fundamental_div_mod(an, g);
    lemma_fundamental_div_mod(d, g);
    assert((an / g) * d == an * (d / g)) by (nonlinear_arith)
        requires
            an == g * (an / g),
            d == g * (d / g),
    ;
    if n < 0 {
        assert(-(an / g) * d == n * (d / g)) by (nonlinear_arith)
            requires
                (an / g) * d == an * (d / g),
                an == -n,
        ;
    }
}

/// The numerator of a rational's value.
pub open spec fn value_num(r: Rational) -> int {
    r.numerator as int
}

/// The denominator of a rational's value: zero's `(0, 0)` reads as `0 / 1`.
pub open spec fn value_den(r: Rational) -> int {
    if r.denominator == 0 {
        1
    } else {
        r.denominator as int
    }
}

/// `r` stands for the fraction `n / d` (`d != 0`): the two fractions are equal.
pub open spec fn has_value(r: Rational, n: int, d: int) -> bool {
    value_num(r) * d == n * value_den(r)
}

/// The normalized pair of `num / den` is `(0, 0)` for a zero numerator, and otherwise a
/// coprime pair with a positive denominator, no larger than the inputs, of the same value.
pub proof fn lemma_normalize_value(num: int, den: int)
    requires
        den != 0,
        isize::MIN < num <= isize::MAX,
        isize::MIN < den <= isize::MAX,
    ensures
        num == 0 ==> normalize_spec(num, den) == (0int, 0int),
        num != 0 ==> {
            let p = normalize_spec(num, den);
            &&& p.1 > 0
            &&& p.0 != 0
            &&& p.0 * den == num * p.1
            &&& abs(p.0) <= abs(num)
            &&& p.1 <= abs(den)
            &&& spec_gcd(abs(p.0) as nat, abs(p.1) as nat) == 1
        },
{
    if num != 0 {
        let n = if den < 0 { -num } else { num };
        let d = if den < 0 { -den } else { den };
        let an = abs(n);
        lemma_gcd_divides(an as nat, d as nat);
        let g = spec_gcd(an as nat, d as nat) as int;
        lemma_quotient_nonzero(an, g);
        lemma_quotient_nonzero(d, g);
        lemma_normalized_coprime(an as nat, d as nat);
        lemma_cross_product(n, d, g);
        let p = normalize_spec(num, den);
        assert(p.0 == (if n < 0 { -(an / g) } else { an / g }));
        assert(p.1 == d / g);
        assert(abs(p.0) == an / g);
        assert(p.0 * d == n * p.1);
        if den < 0 {
            assert(p.0 * den == num * p.1) by (nonlinear_arith)
                requires
                    p.0 * d == n * p.1,
                    n == -num,
                    d == -den,
            ;
        }
    }
}

/// The rational built from a normalized pair that fits `isize` holds that pair.
proof fn lemma_from_pair(num: int, den: int)
    requires
        den != 0,
        isize::MIN < num <= isize::MAX,
        isize::MIN < den <= isize::MAX,
    ensures
        pair(from_pair(normalize_spec(num, den))) == normalize_spec(num, den),
        is_normalized(from_pair(normalize_spec(num, den))),
        has_value(from_pair(normalize_spec(num, den)), num, den),
{
    lemma_normalize_value(num, den);
    let p = normalize_spec(num, den);
    if num == 0 {
        assert(p == (0int, 0int));
    } else {
        assert(abs(num) <= isize::MAX && abs(den) <= isize::MAX);
        assert(isize::MIN < p.0 <= isize::MAX);
        assert(0 < p.1 <= isize::MAX);
        let r = from_pair(p);
        assert(r.numerator as int == p.0 && r.denominator as int == p.1);
        assert(abs(r.numerator as int) == abs(p.0));
    }
}

/// Addition adds values: for normalized operands whose products fit, the sum is normalized and
/// stands for `a + b`; in particular zero (`(0, 0)`) is an identity on either side.
pub proof fn lemma_add_value(a: Rational, b: Rational)
    requires
        is_normalized(a),
        is_normalized(b),
        products_fit(a, b),
    ensures
        is_normalized(spec_add(a, b)),
        has_value(
            spec_add(a, b),
            value_num(a) * value_den(b) + value_num(b) * value_den(a),
            value_den(a) * value_den(b),
        ),
        a == zero_spec() ==> spec_add(a, b) == b,
        b == zero_spec() ==> spec_add(a, b) == a,
{
    let (an, ad, bn, bd) = (value_num(a), value_den(a), value_num(b), value_den(b));
    if a.denominator == 0 {
        assert(an == 0 && ad == 1);
        assert(bn * (ad * bd) == (an * bd + bn * ad) * bd) by (nonlinear_arith)
            requires
                an == 0,
                ad == 1,
        ;
    } else if b.denominator == 0 {
        assert(bn == 0 && bd == 1);
        assert(an * (ad * bd) == (an * bd + bn * ad) * ad) by (nonlinear_arith)
            requires
                bn == 0,
                bd == 1,
        ;
    } else {
        assert(ad * bd > 0) by (nonlinear_arith)
            requires
                ad > 0,
                bd > 0,
        ;
        lemma_from_pair(an * bd + bn * ad, ad * bd);
    }
}

/// Subtraction subtracts values: for normalized operands whose products fit, the difference is
/// normalized and stands for `a - b`.
pub proof fn lemma_sub_value(a: Rational, b: Rational)
    requires
        is_normalized(a),
        is_normalized(b),
        products_fit(a, b),
    ensures
        is_normalized(spec_sub(a, b)),
        has_value(
            spec_sub(a, b),
            value_num(a) * value_den(b) - value_num(b) * value_den(a),
            value_den(a) * value_den(b),
        ),
        b == zero_spec() ==> spec_sub(a, b) == a,
{
    let (an, ad, bn, bd) = (value_num(a), value_den(a), value_num(b), value_den(b));
    if a.denominator == 0 {
        assert(an == 0 && ad == 1);
        if b.denominator == 0 {
            assert(normalize_spec(-bn, 0) == (0int, 0int));
            assert(bn == 0);
        } else {
            lemma_from_pair(-bn, bd);
            assert((-bn) * (ad * bd) == (an * bd - bn * ad) * bd) by (nonlinear_arith)
                requires
                    an == 0,
                    ad == 1,
            ;
            let r = spec_sub(a, b);
            assert(value_num(r) * bd == (-bn) * value_den(r));
            assert(value_num(r) * (ad * bd) == (an * bd - bn * ad) * value_den(r)) by (nonlinear_arith)
                requires
                    value_num(r) * bd == (-bn) * value_den(r),
                    an == 0,
                    ad == 1,
            ;
        }
    } else if b.denominator == 0 {
        assert(bn == 0 && bd == 1);
        assert(an * (ad * bd) == (an * bd - bn * ad) * ad) by (nonlinear_arith)
            requires
                bn == 0,
                bd == 1,
        ;
    } else {
        assert(ad * bd > 0) by (nonlinear_arith)
            requires
                ad > 0,
                bd > 0,
        ;
        lemma_from_pair(an * bd - bn * ad, ad * bd);
    }
}

/// Multiplication multiplies values: for normalized operands whose products fit, the product
/// is normalized and stands for `a * b`.
pub proof fn lemma_mul_value(a: Rational, b: Rational)
    requires
        is_normalized(a),
        is_normalized(b),
        products_fit(a, b),
    ensures
        is_normalized(spec_mul(a, b)),
        has_value(spec_mul(a, b), value_num(a) * value_num(b), value_den(a) * value_den(b)),
{
    let (an, ad, bn, bd) = (value_num(a), value_den(a), value_num(b), value_den(b));
    if a.denominator == 0 || b.denominator == 0 {
        assert(an == 0 || bn == 0);
        assert(an * bn == 0) by (nonlinear_arith)
            requires
                an == 0 || bn == 0,
        ;
    } else {
        assert(ad * bd > 0) by (nonlinear_arith)
            requires
                ad > 0,
                bd > 0,
        ;
        lemma_from_pair(an * bn, ad * bd);
    }
}

/// Division divides values: for normalized operands whose products fit and a non-zero divisor,
/// the quotient is normalized and stands for `a / b`.
pub proof fn lemma_div_value(a: Rational, b: Rational)
    requires
        is_normalized(a),
        is_normalized(b),
        products_fit(a, b),
        b != zero_spec(),
    ensures
        is_normalized(spec_div(a, b)),
        has_value(spec_div(a, b), value_num(a) * value_den(b), value_den(a) * value_num(b)),
{
    let (an, ad, bn, bd) = (value_num(a), value_den(a), value_num(b), value_den(b));
    assert(b.denominator != 0 && bn != 0);
    if a.denominator == 0 {
        assert(an == 0);
        assert(an * bd == 0) by (nonlinear_arith)
            requires
                an == 0,
        ;
    } else {
        assert(ad * bn != 0) by (nonlinear_arith)
            requires
                ad > 0,
                bn != 0,
        ;
        lemma_from_pair(an * bd, ad * bn);
    }
}

} // verus!
