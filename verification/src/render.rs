//! Writing numbers and functions as text: decimal and hexadecimal numbers, rationals, and the
//! functions of symbolic differentiation.
use vstd::prelude::*;
use crate::text::{push_char, chars_to_string};
use crate::rational::{Rational, zero_spec, one_spec, minus_one_spec};
use crate::symbolic::{SingletonPolynomial, Exp, Trignometric, BaseFuncs, ComplexFuncs};
use crate::bigint::BigInt;

verus! {

/// The character of the digit `d` (below 16), lower-case for the letters.
pub open spec fn digit_char(d: nat) -> char {
    if d < 10 {
        (48 + d) as char
    } else {
        (87 + d) as char
    }
}

/// The decimal digits of `n`, without leading zeros (`0` is written `"0"`).
pub open spec fn digits(n: nat) -> Seq<char>
    decreases n,
{
    if n < 10 {
        seq![digit_char(n)]
    } else {
        digits(n / 10).push(digit_char(n % 10))
    }
}

/// `x` in decimal, with a minus sign when it is negative.
pub open spec fn decimal(x: int) -> Seq<char> {
    if x < 0 {
        seq!['-'] + digits((-x) as nat)
    } else {
        digits(x as nat)
    }
}

/// `w` as eight lower-case hexadecimal digits, leading zeros included.
pub open spec fn hex8(w: u32) -> Seq<char> {
    Seq::new(8, |i: int| digit_char(((w as nat) / pow16((7 - i) as nat)) % 16))
}

/// `16` to the power `k`.
pub open spec fn pow16(k: nat) -> nat
    decreases k,
{
    if k == 0 {
        1
    } else {
        16 * pow16((k - 1) as nat)
    }
}

/// The character of the digit `d`.
fn digit(d: u8) -> (c: char)
    requires
        d < 16,
    ensures
        c == digit_char(d as nat),
{
    if d < 10 {
        (48 + d) as char
    } else {
        (87 + d) as char
    }
}

/// Writes `x` in decimal.
pub fn decimal_string(x: isize) -> (s: String)
    ensures
        s@ == decimal(x as int),
{
    let negative = x < 0;
    let mut n: u128 = if negative {
        (-(x as i128)) as u128
    } else {
        x as u128
    };
    let ghost m = n as nat;
    let mut rev: Vec<char> = Vec::new();
    // The digits of `n`, last digit first; `done` holds the digits already written.
    let ghost mut done: Seq<char> = Seq::empty();
    loop
        invariant_except_break
            digits(m) == digits(n as nat) + done,
        invariant
            rev@ == done.reverse(),
        ensures
            digits(m) == done,
        decreases n,
    {
        let d = (n % 10) as u8;
        let c = digit(d);
        rev.push(c);
        if n < 10 {
            proof {
                assert(digits(n as nat) == seq![c]);
                assert(rev@ == (seq![c] + done).reverse());
                done = seq![c] + done;
            }
            break;
        }
        proof {
            assert(digits(n as nat) == digits((n / 10) as nat).push(c));
            assert(digits((n / 10) as nat).push(c) + done == digits((n / 10) as nat) + (seq![c] + done));
            assert(rev@ == (seq![c] + done).reverse());
            done = seq![c] + done;
        }
        n = n / 10;
    }
    let mut out: Vec<char> = Vec::new();
    if negative {
        out.push('-');
    }
    let ghost start = out@;
    let mut i = rev.len();
    while i > 0
        invariant
            i <= rev@.len(),
            rev@ == done.reverse(),
            out@ == start + done.take(done.len() - i),
            done.len() == rev@.len(),
        decreases i,
    {
        i = i - 1;
        out.push(rev[i]);
        assert(done.take(done.len() - i) == done.take(done.len() - (i + 1)).push(done[done.len() - (i + 1)]));
    }
    assert(done.take(done.len() as int) == done);
    assert(digits(m) == done);
    chars_to_string(&out)
}

/// Writes `w` as eight lower-case hexadecimal digits.
pub fn hex_string(w: u32) -> (s: String)
    ensures
        s@ == hex8(w),
{
    let mut out: Vec<char> = Vec::new();
    let mut i: usize = 0;
    while i < 8
        invariant
            i <= 8,
            out@ == hex8(w).take(i as int),
        decreases 8 - i,
    {
        let shift = (7 - i) * 4;
        let d = ((w >> shift) & 15) as u8;
        proof {
            lemma_hex_digit(w, (7 - i) as nat);
        }
        let c = digit(d);
        out.push(c);
        assert(hex8(w).take(i + 1) == hex8(w).take(i as int).push(hex8(w)[i as int]));
        i = i + 1;
    }
    chars_to_string(&out)
}

proof fn lemma_hex_digit(w: u32, k: nat)
    requires
        k < 8,
    ensures
        ((w >> (k * 4)) & 15) as nat == ((w as nat) / pow16(k)) % 16,
{
    assert(pow16(0) == 1);
    assert(pow16(1) == 16);
    assert(pow16(2) == 256);
    assert(pow16(3) == 4096);
    assert(pow16(4) == 65536);
    assert(pow16(5) == 1048576);
    assert(pow16(6) == 16777216);
    assert(pow16(7) == 268435456);
    if k == 0 {
        assert(((w >> 0u32) & 15) == (w / 1) % 16) by (bit_vector);
    } else if k == 1 {
        assert(((w >> 4u32) & 15) == (w / 16) % 16) by (bit_vector);
    } else if k == 2 {
        assert(((w >> 8u32) & 15) == (w / 256) % 16) by (bit_vector);
    } else if k == 3 {
        assert(((w >> 12u32) & 15) == (w / 4096) % 16) by (bit_vector);
    } else if k == 4 {
        assert(((w >> 16u32) & 15) == (w / 65536) % 16) by (bit_vector);
    } else if k == 5 {
        assert(((w >> 20u32) & 15) == (w / 1048576) % 16) by (bit_vector);
    } else if k == 6 {
        assert(((w >> 24u32) & 15) == (w / 16777216) % 16) by (bit_vector);
    } else {
        assert(((w >> 28u32) & 15) == (w / 268435456) % 16) by (bit_vector);
    }
}


/// Appends the characters of `s` to `out`.
fn push_all(out: &mut Vec<char>, s: &Vec<char>)
    ensures
        final(out)@ == old(out)@ + s@,
{
    let mut i: usize = 0;
    while i < s.len()
        invariant
            i <= s@.len(),
            out@ == old(out)@ + s@.take(i as int),
        decreases s.len() - i,
    {
        out.push(s[i]);
        assert(s@.take(i + 1) == s@.take(i as int).push(s@[i as int]));
        i = i + 1;
    }
    assert(s@.take(s@.len() as int) == s@);
}

/// Appends the characters of `s` to `out`.
fn push_string(out: &mut Vec<char>, s: &String)
    ensures
        final(out)@ == old(out)@ + s@,
{
    let v = crate::text::str_chars(s.as_str());
    push_all(out, &v);
}

/// Things that can be written as text.
pub trait Render {
    /// The text.
    spec fn rendered(&self) -> Seq<char>;

    /// Writes the text.
    fn to_string(&self) -> (s: String)
        ensures
            s@ == self.rendered(),
    ;
}

impl Render for Rational {
    /// `0` for zero, the numerator alone for a denominator of one, and `n/d` otherwise.
    open spec fn rendered(&self) -> Seq<char> {
        if *self == zero_spec() {
            seq!['0']
        } else if self.denominator == 1 {
            decimal(self.numerator as int)
        } else {
            decimal(self.numerator as int) + seq!['/'] + decimal(self.denominator as int)
        }
    }

    fn to_string(&self) -> (s: String) {
        if self.numerator == 0 && self.denominator == 0 {
            let v = vec!['0'];
            return chars_to_string(&v);
        }
        if self.denominator == 1 {
            return decimal_string(self.numerator);
        }
        let mut out: Vec<char> = Vec::new();
        push_string(&mut out, &decimal_string(self.numerator));
        out.push('/');
        push_string(&mut out, &decimal_string(self.denominator));
        chars_to_string(&out)
    }
}

/// `(text)`.
pub open spec fn parenthesized(t: Seq<char>) -> Seq<char> {
    seq!['('] + t + seq![')']
}

impl Render for SingletonPolynomial {
    /// A constant as a rational; `c·x^p` as `0` when `c` is zero, as `c` when `p` is zero, and
    /// otherwise as the coefficient (nothing for one, `-` for minus one, `(c)` otherwise)
    /// followed by `x` for a power of one and `x^(p)` otherwise.
    open spec fn rendered(&self) -> Seq<char> {
        match *self {
            SingletonPolynomial::Const(r) => r.rendered(),
            SingletonPolynomial::Polynomial { coeff, power } => {
                if coeff == zero_spec() {
                    seq!['0']
                } else if power == zero_spec() {
                    coeff.rendered()
                } else {
                    let c = if coeff == one_spec() {
                        Seq::empty()
                    } else if coeff == minus_one_spec() {
                        seq!['-']
                    } else {
                        parenthesized(coeff.rendered())
                    };
                    let v = if power == one_spec() {
                        seq!['x']
                    } else {
                        seq!['x', '^'] + parenthesized(power.rendered())
                    };
                    c + v
                }
            },
        }
    }

    fn to_string(&self) -> (s: String) {
        match self {
            SingletonPolynomial::Const(r) => r.to_string(),
            SingletonPolynomial::Polynomial { coeff, power } => {
                if *coeff == Rational::zero() {
                    let v = vec!['0'];
                    return chars_to_string(&v);
                }
                if *power == Rational::zero() {
                    return coeff.to_string();
                }
                let mut out: Vec<char> = Vec::new();
                if *coeff == Rational::one() {
                } else if *coeff == Rational::minus_one() {
                    out.push('-');
                } else {
                    out.push('(');
                    push_string(&mut out, &coeff.to_string());
                    out.push(')');
                }
                out.push('x');
                if *power != Rational::one() {
                    out.push('^');
                    out.push('(');
                    push_string(&mut out, &power.to_string());
                    out.push(')');
                }
                proof {
                    let c = if *coeff == one_spec() {
                        Seq::<char>::empty()
                    } else if *coeff == minus_one_spec() {
                        seq!['-']
                    } else {
                        parenthesized(coeff.rendered())
                    };
                    let v = if *power == one_spec() {
                        seq!['x']
                    } else {
                        seq!['x', '^'] + parenthesized(power.rendered())
                    };
                    assert(out@ == c + v);
                }
                chars_to_string(&out)
            },
        }
    }
}

impl Render for Exp {
    open spec fn rendered(&self) -> Seq<char> {
        seq!['e', 'x', 'p', '(', 'x', ')']
    }

    fn to_string(&self) -> (s: String) {
        let v = vec!['e', 'x', 'p', '(', 'x', ')'];
        chars_to_string(&v)
    }
}

/// The name of a trigonometric function with its argument: `sin(x)` or `cos(x)`.
pub open spec fn trig_name(t: Trignometric) -> Seq<char> {
    match t {
        Trignometric::Sine { .. } => seq!['s', 'i', 'n', '(', 'x', ')'],
        Trignometric::Cosine { .. } => seq!['c', 'o', 's', '(', 'x', ')'],
    }
}

impl Render for Trignometric {
    /// `0` for a zero coefficient; otherwise the function, after `-` for a coefficient of minus
    /// one and after `(c)` for a coefficient other than one.
    open spec fn rendered(&self) -> Seq<char> {
        let coeff = match *self {
            Trignometric::Sine { coeff } => coeff,
            Trignometric::Cosine { coeff } => coeff,
        };
        if coeff == zero_spec() {
            seq!['0']
        } else if coeff == one_spec() {
            trig_name(*self)
        } else if coeff == minus_one_spec() {
            seq!['-'] + trig_name(*self)
        } else {
            parenthesized(coeff.rendered()) + trig_name(*self)
        }
    }

    fn to_string(&self) -> (s: String) {
        let (name, coeff) = match self {
            Trignometric::Sine { coeff } => (vec!['s', 'i', 'n', '(', 'x', ')'], coeff),
            Trignometric::Cosine { coeff } => (vec!['c', 'o', 's', '(', 'x', ')'], coeff),
        };
        let mut out: Vec<char> = Vec::new();
        if *coeff == Rational::zero() {
            out.push('0');
            return chars_to_string(&out);
        }
        if *coeff == Rational::one() {
        } else if *coeff == Rational::minus_one() {
            out.push('-');
        } else {
            out.push('(');
            push_string(&mut out, &coeff.to_string());
            out.push(')');
        }
        push_all(&mut out, &name);
        chars_to_string(&out)
    }
}

impl Render for BaseFuncs {
    open spec fn rendered(&self) -> Seq<char> {
        match *self {
            BaseFuncs::Const(r) => r.rendered(),
            BaseFuncs::Poly(p) => p.rendered(),
            BaseFuncs::Exp(e) => e.rendered(),
            BaseFuncs::Trig(t) => t.rendered(),
        }
    }

    fn to_string(&self) -> (s: String) {
        match self {
            BaseFuncs::Const(r) => r.to_string(),
            BaseFuncs::Poly(p) => p.to_string(),
            BaseFuncs::Exp(e) => e.to_string(),
            BaseFuncs::Trig(t) => t.to_string(),
        }
    }
}

/// `(l op r)`.
pub open spec fn binary(l: Seq<char>, op: char, r: Seq<char>) -> Seq<char> {
    seq!['('] + l + seq![' ', op, ' '] + r + seq![')']
}

/// The text of a complex function: a basic function as itself, and an operation as
/// `(l op r)` with `op` one of `+`, `-`, `*`, `/` and `∘` (composition).
pub open spec fn complex_rendered<F: Render>(c: ComplexFuncs<F>) -> Seq<char>
    decreases c,
{
    match c {
        ComplexFuncs::Func(f) => f.rendered(),
        ComplexFuncs::Add(l, r) => binary(complex_rendered(*l), '+', complex_rendered(*r)),
        ComplexFuncs::Sub(l, r) => binary(complex_rendered(*l), '-', complex_rendered(*r)),
        ComplexFuncs::Mul(l, r) => binary(complex_rendered(*l), '*', complex_rendered(*r)),
        ComplexFuncs::Div(l, r) => binary(complex_rendered(*l), '/', complex_rendered(*r)),
        ComplexFuncs::Comp(l, r) => binary(complex_rendered(*l), '∘', complex_rendered(*r)),
    }
}

/// Writes `(l op r)`.
fn binary_string(l: String, op: char, r: String) -> (s: String)
    ensures
        s@ == binary(l@, op, r@),
{
    let mut out: Vec<char> = Vec::new();
    out.push('(');
    push_string(&mut out, &l);
    out.push(' ');
    out.push(op);
    out.push(' ');
    push_string(&mut out, &r);
    out.push(')');
    chars_to_string(&out)
}

impl<F: Render> Render for ComplexFuncs<F> {
    open spec fn rendered(&self) -> Seq<char> {
        complex_rendered(*self)
    }

    fn to_string(&self) -> (s: String)
        decreases self,
    {
        match self {
            ComplexFuncs::Func(f) => f.to_string(),
            ComplexFuncs::Add(l, r) => binary_string((**l).to_string(), '+', (**r).to_string()),
            ComplexFuncs::Sub(l, r) => binary_string((**l).to_string(), '-', (**r).to_string()),
            ComplexFuncs::Mul(l, r) => binary_string((**l).to_string(), '*', (**r).to_string()),
            ComplexFuncs::Div(l, r) => binary_string((**l).to_string(), '/', (**r).to_string()),
            ComplexFuncs::Comp(l, r) => binary_string((**l).to_string(), '∘', (**r).to_string()),
        }
    }
}


/// The words, each as eight hexadecimal digits, one after the other.
pub open spec fn hex_words(words: Seq<u32>) -> Seq<char>
    decreases words.len(),
{
    if words.len() == 0 {
        Seq::empty()
    } else {
        hex_words(words.drop_last()) + hex8(words.last())
    }
}

impl Render for BigInt {
    /// The words of the carrier, most significant first, each as eight hexadecimal digits.
    open spec fn rendered(&self) -> Seq<char> {
        hex_words(self.carrier@)
    }

    fn to_string(&self) -> (s: String) {
        let mut out: Vec<char> = Vec::new();
        let n = self.carrier.len();
        let mut i: usize = 0;
        assert(self.carrier@.take(0) == Seq::<u32>::empty());
        while i < n
            invariant
                n == self.carrier@.len(),
                i <= n,
                out@ == hex_words(self.carrier@.take(i as int)),
            decreases n - i,
        {
            let h = hex_string(self.carrier[i]);
            push_string(&mut out, &h);
            assert(self.carrier@.take(i + 1).drop_last() == self.carrier@.take(i as int));
            i = i + 1;
        }
        assert(self.carrier@.take(n as int) == self.carrier@);
        chars_to_string(&out)
    }
}

} // verus!
