//! Symbolic differentiation with rational coefficients.
use vstd::prelude::*;
use crate::adaptors::faithful_clone;
use crate::rational::{
    Rational,
    zero_spec,
    one_spec,
    spec_mul,
    spec_sub,
    products_fit,
    is_normalized,
    has_value,
    value_num,
    value_den,
    spec_gcd,
    lemma_sub_value,
    lemma_mul_value,
};

verus! {

/// Differentiable functions.
///
/// For simplicity, we only consider infinitely differentiable functions. Since the derivative
/// has type `Self`, the trait can only be implemented for types closed under differentiation.
pub trait Differentiable: Sized + Clone {
    /// When differentiating `self` stays within machine integers.
    spec fn diff_req(&self) -> bool;

    /// The derivative of `self`.
    spec fn spec_diff(&self) -> Self;

    /// Differentiate.
    fn diff(&self) -> (r: Self)
        requires
            self.diff_req(),
        ensures
            r == self.spec_diff(),
    ;
}

impl Differentiable for Rational {
    /// A constant has derivative zero.
    open spec fn diff_req(&self) -> bool {
        true
    }

    open spec fn spec_diff(&self) -> Self {
        zero_spec()
    }

    fn diff(&self) -> (r: Self) {
        Rational::zero()
    }
}

/// Singleton polynomial: a single term. The `Const` variant makes the type closed under
/// differentiation.
#[derive(Debug, Clone, Copy, PartialEq, Eq, Structural)]
pub enum SingletonPolynomial {
    /// Constant polynomial.
    Const(Rational),
    /// Non-const polynomial `coeff * x^power`.
    Polynomial {
        /// Coefficient of polynomial. Must be non-zero.
        coeff: Rational,
        /// Power of polynomial. Must be non-zero.
        power: Rational,
    },
}

impl SingletonPolynomial {
    /// Creates a new const polynomial.
    pub fn new_c(r: Rational) -> (p: Self)
        ensures
            p == SingletonPolynomial::Const(r),
    {
        SingletonPolynomial::Const(r)
    }

    /// Creates a new polynomial `coeff * x^power`.
    pub fn new_poly(coeff: Rational, power: Rational) -> (p: Self)
        ensures
            p == (SingletonPolynomial::Polynomial { coeff, power }),
    {
        SingletonPolynomial::Polynomial { coeff, power }
    }
}

impl Differentiable for SingletonPolynomial {
    /// The power rule stays within `isize`.
    open spec fn diff_req(&self) -> bool {
        match *self {
            SingletonPolynomial::Const(_) => true,
            SingletonPolynomial::Polynomial { coeff, power } => products_fit(coeff, power)
                && products_fit(power, one_spec()),
        }
    }

    /// Power rule: `(c x^p)' = (c p) x^(p - 1)`, which is a constant when `p - 1 = 0`.
    open spec fn spec_diff(&self) -> Self {
        match *self {
            SingletonPolynomial::Const(_) => SingletonPolynomial::Const(zero_spec()),
            SingletonPolynomial::Polynomial { coeff, power } => {
                let new_coeff = spec_mul(coeff, power);
                let new_power = spec_sub(power, one_spec());
                if new_power.numerator == 0 {
                    SingletonPolynomial::Const(new_coeff)
                } else {
                    SingletonPolynomial::Polynomial { coeff: new_coeff, power: new_power }
                }
            },
        }
    }

    fn diff(&self) -> (r: Self) {
        match self {
            SingletonPolynomial::Const(_) => SingletonPolynomial::Const(Rational::zero()),
            SingletonPolynomial::Polynomial { coeff, power } => {
                let new_coeff = coeff.mul(*power);
                let new_power = power.sub(Rational::one());
                if new_power.numerator == 0 {
                    SingletonPolynomial::Const(new_coeff)
                } else {
                    SingletonPolynomial::Polynomial { coeff: new_coeff, power: new_power }
                }
            },
        }
    }
}

/// Exponential function (`e^x`).
#[derive(Debug, Clone, Copy, PartialEq, Eq, Structural)]
pub struct Exp;

impl Exp {
    /// Creates a new exponential function.
    pub fn new() -> (r: Self)
        ensures
            r == Exp,
    {
        Exp {  }
    }
}

impl Default for Exp {
    fn default() -> (r: Self)
        ensures
            r == Exp,
    {
        Self::new()
    }
}

impl Differentiable for Exp {
    /// `(e^x)' = e^x`.
    open spec fn diff_req(&self) -> bool {
        true
    }

    open spec fn spec_diff(&self) -> Self {
        *self
    }

    fn diff(&self) -> (r: Self) {
        *self
    }
}

/// Trigonometric functions, carrying their coefficients to be closed under differentiation.
#[derive(Debug, Clone, Copy, PartialEq, Eq, Structural)]
pub enum Trignometric {
    /// Sine function.
    Sine {
        /// Coefficient
        coeff: Rational,
    },
    /// Cosine function.
    Cosine {
        /// Coefficient
        coeff: Rational,
    },
}

impl Trignometric {
    /// Creates a new sine function.
    pub fn new_sine(coeff: Rational) -> (r: Self)
        ensures
            r == (Trignometric::Sine { coeff }),
    {
        Trignometric::Sine { coeff }
    }

    /// Creates a new cosine function.
    pub fn new_cosine(coeff: Rational) -> (r: Self)
        ensures
            r == (Trignometric::Cosine { coeff }),
    {
        Trignometric::Cosine { coeff }
    }
}

impl Differentiable for Trignometric {
    /// Negating the coefficient of a cosine stays within `isize`.
    open spec fn diff_req(&self) -> bool {
        match *self {
            Trignometric::Sine { .. } => true,
            Trignometric::Cosine { coeff } => products_fit(zero_spec(), coeff),
        }
    }

    /// `(c sin x)' = c cos x` and `(c cos x)' = (0 - c) sin x`.
    open spec fn spec_diff(&self) -> Self {
        match *self {
            Trignometric::Sine { coeff } => Trignometric::Cosine { coeff },
            Trignometric::Cosine { coeff } => Trignometric::Sine {
                coeff: spec_sub(zero_spec(), coeff),
            },
        }
    }

    fn diff(&self) -> (r: Self) {
        match self {
            Trignometric::Sine { coeff } => Trignometric::new_cosine(*coeff),
            Trignometric::Cosine { coeff } => {
                Trignometric::new_sine(Rational::zero().sub(*coeff))
            },
        }
    }
}

/// Basic functions.
#[derive(Debug, Clone, Copy, PartialEq, Eq, Structural)]
pub enum BaseFuncs {
    /// Constant
    Const(Rational),
    /// Polynomial
    Poly(SingletonPolynomial),
    /// Exponential
    Exp(Exp),
    /// Trigonometric
    Trig(Trignometric),
}

impl Differentiable for BaseFuncs {
    open spec fn diff_req(&self) -> bool {
        match *self {
            BaseFuncs::Const(c) => c.diff_req(),
            BaseFuncs::Poly(p) => p.diff_req(),
            BaseFuncs::Exp(e) => e.diff_req(),
            BaseFuncs::Trig(t) => t.diff_req(),
        }
    }

    /// Each kind is differentiated by its own rule.
    open spec fn spec_diff(&self) -> Self {
        match *self {
            BaseFuncs::Const(c) => BaseFuncs::Const(c.spec_diff()),
            BaseFuncs::Poly(p) => BaseFuncs::Poly(p.spec_diff()),
            BaseFuncs::Exp(e) => BaseFuncs::Exp(e.spec_diff()),
            BaseFuncs::Trig(t) => BaseFuncs::Trig(t.spec_diff()),
        }
    }

    fn diff(&self) -> (r: Self) {
        match self {
            BaseFuncs::Const(c) => BaseFuncs::Const(c.diff()),
            BaseFuncs::Poly(p) => BaseFuncs::Poly(p.diff()),
            BaseFuncs::Exp(e) => BaseFuncs::Exp(e.diff()),
            BaseFuncs::Trig(t) => BaseFuncs::Trig(t.diff()),
        }
    }
}

/// Complex functions built from basic functions `F`.
#[derive(Debug, PartialEq, Eq)]
pub enum ComplexFuncs<F> {
    /// Basic functions
    Func(F),
    /// Addition
    Add(Box<ComplexFuncs<F>>, Box<ComplexFuncs<F>>),
    /// Subtraction
    Sub(Box<ComplexFuncs<F>>, Box<ComplexFuncs<F>>),
    /// Multiplication
    Mul(Box<ComplexFuncs<F>>, Box<ComplexFuncs<F>>),
    /// Division
    Div(Box<ComplexFuncs<F>>, Box<ComplexFuncs<F>>),
    /// Composition `f ∘ g`
    Comp(Box<ComplexFuncs<F>>, Box<ComplexFuncs<F>>),
}

/// Every basic function inside `c` can be differentiated within machine integers.
pub open spec fn complex_diff_req<F: Differentiable>(c: ComplexFuncs<F>) -> bool
    decreases c,
{
    match c {
        ComplexFuncs::Func(f) => f.diff_req(),
        ComplexFuncs::Add(f, g) => complex_diff_req(*f) && complex_diff_req(*g),
        ComplexFuncs::Sub(f, g) => complex_diff_req(*f) && complex_diff_req(*g),
        ComplexFuncs::Mul(f, g) => complex_diff_req(*f) && complex_diff_req(*g),
        ComplexFuncs::Div(f, g) => complex_diff_req(*f) && complex_diff_req(*g),
        ComplexFuncs::Comp(f, g) => complex_diff_req(*f) && complex_diff_req(*g),
    }
}

/// The elementary rules of differentiation: sum and difference rules, product rule
/// `(fg)' = f'g + fg'`, quotient rule `(f/g)' = (f'g - fg') / (g g)` and chain rule
/// `(f ∘ g)' = (f' ∘ g) g'`.
pub open spec fn complex_diff<F: Differentiable>(c: ComplexFuncs<F>) -> ComplexFuncs<F>
    decreases c,
{
    match c {
        ComplexFuncs::Func(f) => ComplexFuncs::Func(f.spec_diff()),
        ComplexFuncs::Add(f, g) => ComplexFuncs::Add(
            Box::new(complex_diff(*f)),
            Box::new(complex_diff(*g)),
        ),
        ComplexFuncs::Sub(f, g) => ComplexFuncs::Sub(
            Box::new(complex_diff(*f)),
            Box::new(complex_diff(*g)),
        ),
        ComplexFuncs::Mul(f, g) => ComplexFuncs::Add(
            Box::new(ComplexFuncs::Mul(Box::new(complex_diff(*f)), g)),
            Box::new(ComplexFuncs::Mul(f, Box::new(complex_diff(*g)))),
        ),
        ComplexFuncs::Div(f, g) => ComplexFuncs::Div(
            Box::new(
                ComplexFuncs::Sub(
                    Box::new(ComplexFuncs::Mul(Box::new(complex_diff(*f)), g)),
                    Box::new(ComplexFuncs::Mul(f, Box::new(complex_diff(*g)))),
                ),
            ),
            Box::new(ComplexFuncs::Mul(g, g)),
        ),
        ComplexFuncs::Comp(f, g) => ComplexFuncs::Mul(
            Box::new(ComplexFuncs::Comp(Box::new(complex_diff(*f)), g)),
            Box::new(complex_diff(*g)),
        ),
    }
}

/// Cloning the basic functions of this module gives equal values, as differentiating a tree
/// of them requires.
pub proof fn lemma_basic_clones_faithful()
    ensures
        faithful_clone::<BaseFuncs>(),
        faithful_clone::<SingletonPolynomial>(),
        faithful_clone::<Trignometric>(),
        faithful_clone::<Exp>(),
        faithful_clone::<Rational>(),
{
}

impl<F: Clone> ComplexFuncs<F> {
    /// A copy of the whole expression tree, each basic function cloned. When cloning gives an
    /// equal value, the copy equals the tree.
    pub fn duplicate(&self) -> (r: Self)
        ensures
            faithful_clone::<F>() ==> r == *self,
        decreases self,
    {
        match self {
            ComplexFuncs::Func(f) => {
                let c = f.clone();
                assert(vstd::pervasive::strictly_cloned(*f, c));
                ComplexFuncs::Func(c)
            },
            ComplexFuncs::Add(f, g) => ComplexFuncs::Add(
                Box::new(f.duplicate()),
                Box::new(g.duplicate()),
            ),
            ComplexFuncs::Sub(f, g) => ComplexFuncs::Sub(
                Box::new(f.duplicate()),
                Box::new(g.duplicate()),
            ),
            ComplexFuncs::Mul(f, g) => ComplexFuncs::Mul(
                Box::new(f.duplicate()),
                Box::new(g.duplicate()),
            ),
            ComplexFuncs::Div(f, g) => ComplexFuncs::Div(
                Box::new(f.duplicate()),
                Box::new(g.duplicate()),
            ),
            ComplexFuncs::Comp(f, g) => ComplexFuncs::Comp(
                Box::new(f.duplicate()),
                Box::new(g.duplicate()),
            ),
        }
    }
}

impl<F: Clone> Clone for ComplexFuncs<F> {
    fn clone(&self) -> (r: Self)
        ensures
            faithful_clone::<F>() ==> r == *self,
    {
        self.duplicate()
    }
}

impl<F: Differentiable> ComplexFuncs<F> {
    /// Differentiates the expression tree by the elementary rules. The parts of the tree that
    /// the rules repeat are cloned, so cloning a basic function must give an equal one.
    pub fn diff_tree(&self) -> (r: Self)
        requires
            complex_diff_req(*self),
            faithful_clone::<F>(),
        ensures
            r == complex_diff(*self),
        decreases self,
    {
        match self {
            ComplexFuncs::Func(f) => ComplexFuncs::Func(f.diff()),
            ComplexFuncs::Add(f, g) => ComplexFuncs::Add(
                Box::new(f.diff_tree()),
                Box::new(g.diff_tree()),
            ),
            ComplexFuncs::Sub(f, g) => ComplexFuncs::Sub(
                Box::new(f.diff_tree()),
                Box::new(g.diff_tree()),
            ),
            ComplexFuncs::Mul(f, g) => {
                let left_side = ComplexFuncs::Mul(Box::new(f.diff_tree()), Box::new(g.duplicate()));
                let right_side = ComplexFuncs::Mul(Box::new(f.duplicate()), Box::new(g.diff_tree()));
                ComplexFuncs::Add(Box::new(left_side), Box::new(right_side))
            },
            ComplexFuncs::Div(f, g) => {
                let top_left = ComplexFuncs::Mul(Box::new(f.diff_tree()), Box::new(g.duplicate()));
                let top_right = ComplexFuncs::Mul(Box::new(f.duplicate()), Box::new(g.diff_tree()));
                let numerator = ComplexFuncs::Sub(Box::new(top_left), Box::new(top_right));
                let denominator = ComplexFuncs::Mul(Box::new(g.duplicate()), Box::new(g.duplicate()));
                ComplexFuncs::Div(Box::new(numerator), Box::new(denominator))
            },
            ComplexFuncs::Comp(f, g) => {
                let outer_diff = ComplexFuncs::Comp(Box::new(f.diff_tree()), Box::new(g.duplicate()));
                let inner_diff = g.diff_tree();
                ComplexFuncs::Mul(Box::new(outer_diff), Box::new(inner_diff))
            },
        }
    }
}

impl<F: Differentiable> Differentiable for ComplexFuncs<F> {
    open spec fn diff_req(&self) -> bool {
        complex_diff_req(*self) && faithful_clone::<F>()
    }

    open spec fn spec_diff(&self) -> Self {
        complex_diff(*self)
    }

    fn diff(&self) -> (r: Self) {
        self.diff_tree()
    }
}

impl<F: Differentiable> Differentiable for Box<F> {
    open spec fn diff_req(&self) -> bool {
        (**self).diff_req()
    }

    open spec fn spec_diff(&self) -> Self {
        Box::new((**self).spec_diff())
    }

    fn diff(&self) -> (r: Self) {
        Box::new((**self).diff())
    }
}

/// The elementary rules of differentiation, for any basic functions `h` and trees `f`, `g`:
/// a basic function is differentiated by its own rule; `(f + g)' = f' + g'`;
/// `(f - g)' = f' - g'`; the product rule `(fg)' = f'g + fg'`; the quotient rule
/// `(f/g)' = (f'g - fg') / (g g)`; and the chain rule `(f ∘ g)' = (f' ∘ g) g'`.
pub proof fn lemma_differentiation_rules<F: Differentiable>(
    h: F,
    f: ComplexFuncs<F>,
    g: ComplexFuncs<F>,
)
    ensures
        complex_diff(ComplexFuncs::Func(h)) == ComplexFuncs::Func(h.spec_diff()),
        complex_diff(ComplexFuncs::Add(Box::new(f), Box::new(g))) == ComplexFuncs::Add(
            Box::new(complex_diff(f)),
            Box::new(complex_diff(g)),
        ),
        complex_diff(ComplexFuncs::Sub(Box::new(f), Box::new(g))) == ComplexFuncs::Sub(
            Box::new(complex_diff(f)),
            Box::new(complex_diff(g)),
        ),
        complex_diff(ComplexFuncs::Mul(Box::new(f), Box::new(g))) == ComplexFuncs::Add(
            Box::new(ComplexFuncs::Mul(Box::new(complex_diff(f)), Box::new(g))),
            Box::new(ComplexFuncs::Mul(Box::new(f), Box::new(complex_diff(g)))),
        ),
        complex_diff(ComplexFuncs::Div(Box::new(f), Box::new(g))) == ComplexFuncs::Div(
            Box::new(
                ComplexFuncs::Sub(
                    Box::new(ComplexFuncs::Mul(Box::new(complex_diff(f)), Box::new(g))),
                    Box::new(ComplexFuncs::Mul(Box::new(f), Box::new(complex_diff(g)))),
                ),
            ),
            Box::new(ComplexFuncs::Mul(Box::new(g), Box::new(g))),
        ),
        complex_diff(ComplexFuncs::Comp(Box::new(f), Box::new(g))) == ComplexFuncs::Mul(
            Box::new(ComplexFuncs::Comp(Box::new(complex_diff(f)), Box::new(g))),
            Box::new(complex_diff(g)),
        ),
{
}

/// The derivatives of the basic functions, by value: a constant has derivative zero; `e^x` is
/// its own derivative; `(c sin x)' = c cos x`; `(c cos x)' = -c sin x`; and the power rule
/// `(c x^p)' = (c p) x^(p - 1)`, a constant `c p` when `p = 1`.
pub proof fn lemma_basic_derivatives(c: Rational, p: Rational, e: Exp)
    requires
        is_normalized(c),
        is_normalized(p),
        products_fit(c, p),
        products_fit(p, one_spec()),
        products_fit(zero_spec(), c),
    ensures
        c.spec_diff() == zero_spec(),
        e.spec_diff() == e,
        (Trignometric::Sine { coeff: c }).spec_diff() == (Trignometric::Cosine { coeff: c }),
        (Trignometric::Cosine { coeff: c }).spec_diff() matches Trignometric::Sine { coeff: d }
            && is_normalized(d) && has_value(d, -value_num(c), value_den(c)),
        ({
            let r = (SingletonPolynomial::Polynomial { coeff: c, power: p }).spec_diff();
            let power_left = spec_sub(p, one_spec());
            &&& is_normalized(power_left)
            &&& has_value(power_left, value_num(p) - value_den(p), value_den(p))
            &&& has_value(spec_mul(c, p), value_num(c) * value_num(p), value_den(c) * value_den(p))
            &&& power_left.numerator == 0 ==> r == SingletonPolynomial::Const(spec_mul(c, p))
            &&& power_left.numerator != 0 ==> r == (SingletonPolynomial::Polynomial {
                coeff: spec_mul(c, p),
                power: power_left,
            })
        }),
{
    let z = zero_spec();
    assert(is_normalized(z));
    assert(is_normalized(one_spec())) by {
        assert(spec_gcd(1, 1) == spec_gcd(1, 0));
    }
    lemma_sub_value(z, c);
    let d = spec_sub(z, c);
    assert(value_num(z) == 0 && value_den(z) == 1);
    assert(value_num(d) * (1 * value_den(c)) == (0 * value_den(c) - value_num(c) * 1) * value_den(d));
    assert(value_num(d) * value_den(c) == -value_num(c) * value_den(d)) by (nonlinear_arith)
        requires
            value_num(d) * (1 * value_den(c)) == (0 * value_den(c) - value_num(c) * 1) * value_den(d),
    ;
    lemma_sub_value(p, one_spec());
    let q = spec_sub(p, one_spec());
    assert(value_num(one_spec()) == 1 && value_den(one_spec()) == 1);
    assert(value_num(q) * value_den(p) == (value_num(p) - value_den(p)) * value_den(q)) by (nonlinear_arith)
        requires
            value_num(q) * (value_den(p) * 1) == (value_num(p) * 1 - 1 * value_den(p)) * value_den(q),
    ;
    lemma_mul_value(c, p);
}

} // verus!
