use cs_course::rational::Rational;
use cs_course::symbolic::{
    Differentiable, SingletonPolynomial, Exp, Trignometric, BaseFuncs, ComplexFuncs,
};
use cs_course::render::Render;
use cs_course::semiring::{Semiring, from_usize};
use cs_course::polynomial::Polynomial;

fn r(n: isize, d: isize) -> Rational {
    Rational::new(n, d)
}

#[test]
fn power_rule() {
    let p = SingletonPolynomial::new_poly(r(3, 1), r(2, 1));
    assert_eq!(p.diff(), SingletonPolynomial::new_poly(r(6, 1), r(1, 1)));
    let q = SingletonPolynomial::new_poly(r(1, 1), r(1, 1));
    assert_eq!(q.diff(), SingletonPolynomial::new_c(r(1, 1)));
    assert_eq!(SingletonPolynomial::new_c(r(5, 1)).diff(), SingletonPolynomial::new_c(Rational::zero()));
    let h = SingletonPolynomial::new_poly(r(2, 1), r(1, 2));
    assert_eq!(h.diff(), SingletonPolynomial::new_poly(r(1, 1), r(-1, 2)));
}

#[test]
fn rational_is_constant() {
    assert_eq!(r(7, 3).diff(), Rational::zero());
}

#[test]
fn exp_and_trig() {
    assert_eq!(Exp::new().diff(), Exp::new());
    assert_eq!(Exp::default(), Exp::new());
    assert_eq!(Trignometric::new_sine(r(2, 1)).diff(), Trignometric::new_cosine(r(2, 1)));
    assert_eq!(Trignometric::new_cosine(r(2, 1)).diff(), Trignometric::new_sine(r(-2, 1)));
}

#[test]
fn base_funcs() {
    assert_eq!(BaseFuncs::Exp(Exp::new()).diff(), BaseFuncs::Exp(Exp::new()));
    assert_eq!(BaseFuncs::Const(r(1, 1)).diff(), BaseFuncs::Const(Rational::zero()));
}

#[test]
fn product_rule_tree() {
    let f = ComplexFuncs::Func(BaseFuncs::Exp(Exp::new()));
    let g = ComplexFuncs::Func(BaseFuncs::Trig(Trignometric::new_sine(r(1, 1))));
    let prod = ComplexFuncs::Mul(Box::new(f.clone()), Box::new(g.clone()));
    let expected = ComplexFuncs::Add(
        Box::new(ComplexFuncs::Mul(
            Box::new(ComplexFuncs::Func(BaseFuncs::Exp(Exp::new()))),
            Box::new(g.clone()),
        )),
        Box::new(ComplexFuncs::Mul(
            Box::new(f.clone()),
            Box::new(ComplexFuncs::Func(BaseFuncs::Trig(Trignometric::new_cosine(r(1, 1))))),
        )),
    );
    assert_eq!(prod.diff(), expected);
}

#[test]
fn chain_rule_tree() {
    let f = ComplexFuncs::Func(BaseFuncs::Exp(Exp::new()));
    let g = ComplexFuncs::Func(BaseFuncs::Poly(SingletonPolynomial::new_poly(r(1, 1), r(2, 1))));
    let comp = ComplexFuncs::Comp(Box::new(f.clone()), Box::new(g.clone()));
    let expected = ComplexFuncs::Mul(
        Box::new(ComplexFuncs::Comp(Box::new(f.clone()), Box::new(g.clone()))),
        Box::new(ComplexFuncs::Func(BaseFuncs::Poly(SingletonPolynomial::new_poly(
            r(2, 1),
            r(1, 1),
        )))),
    );
    assert_eq!(comp.diff(), expected);
}

#[test]
fn display_functions() {
    assert_eq!(SingletonPolynomial::new_poly(r(-1, 1), r(3, 1)).to_string(), "-x^(3)".to_string());
    assert_eq!(SingletonPolynomial::new_poly(r(1, 1), r(1, 2)).to_string(), "x^(1/2)".to_string());
    assert_eq!(SingletonPolynomial::new_poly(r(6, 1), r(1, 1)).to_string(), "(6)x".to_string());
    assert_eq!(SingletonPolynomial::new_poly(r(5, 2), Rational::zero()).to_string(), "5/2".to_string());
    assert_eq!(SingletonPolynomial::new_c(r(4, 1)).to_string(), "4".to_string());
    assert_eq!(Exp::new().to_string(), "exp(x)".to_string());
    assert_eq!(Trignometric::new_sine(r(1, 1)).to_string(), "sin(x)".to_string());
    assert_eq!(Trignometric::new_cosine(r(-1, 1)).to_string(), "-cos(x)".to_string());
    assert_eq!(Trignometric::new_sine(r(2, 3)).to_string(), "(2/3)sin(x)".to_string());
    assert_eq!(Trignometric::new_sine(Rational::zero()).to_string(), "0".to_string());
    let e = ComplexFuncs::Func(BaseFuncs::Exp(Exp::new()));
    let s = ComplexFuncs::Func(BaseFuncs::Trig(Trignometric::new_sine(r(1, 1))));
    assert_eq!(
        ComplexFuncs::Add(Box::new(e.clone()), Box::new(s.clone())).to_string(),
        "(exp(x) + sin(x))".to_string()
    );
    assert_eq!(
        ComplexFuncs::Comp(Box::new(e.clone()), Box::new(s.clone())).to_string(),
        "(exp(x) ∘ sin(x))".to_string()
    );
    assert_eq!(
        ComplexFuncs::Div(Box::new(e), Box::new(s)).to_string(),
        "(exp(x) / sin(x))".to_string()
    );
}

#[test]
fn semiring_integers() {
    assert_eq!(<u64 as Semiring>::zero(), 0);
    assert_eq!(<u64 as Semiring>::one(), 1);
    assert_eq!(Semiring::add(&3u64, &4u64), 7);
    assert_eq!(Semiring::mul(&3i64, &-4i64), -12);
    assert_eq!(from_usize::<u64>(5), 5);
    assert_eq!(from_usize::<i64>(0), 0);
}

#[test]
fn polynomial_eval_and_ops() {
    let x = Polynomial::<u64>::x();
    assert_eq!(x.eval(7), 7);
    let one = <Polynomial<u64> as Semiring>::one();
    let x_plus_1 = Semiring::add(&x, &one);
    assert_eq!(x_plus_1.eval(3), 4);
    let sq = Semiring::mul(&x_plus_1, &x_plus_1);
    assert_eq!(sq.eval(3), 16);
    assert_eq!(sq.eval(0), 1);
    let t = Polynomial::term(5u64, 3);
    assert_eq!(t.eval(2), 40);
    assert_eq!(Polynomial::from(9u64).eval(100), 9);
    assert!(<Polynomial<u64> as Semiring>::zero().is_zero());
    assert!(!x.is_zero());
}

#[test]
fn polynomial_parse() {
    let p = Polynomial::<u64>::from_str("x^2 + 5x + 6").unwrap();
    assert_eq!(p.eval(2), 20);
    assert_eq!(p.eval(0), 6);
    let q = Polynomial::<i64>::from_str("3x^3 + x + 2").unwrap();
    assert_eq!(q.eval(-1), -2);
    let c = Polynomial::<u64>::from_str("7").unwrap();
    assert_eq!(c.eval(10), 7);
}

#[test]
fn polynomial_of_polynomials() {
    let x = Polynomial::<u64>::x();
    let outer = Polynomial::<Polynomial<u64>>::term(x, 2);
    let value = outer.eval(Polynomial::from(3u64));
    assert_eq!(value.eval(5), 45);
}

#[test]
fn polynomial_eval_respects_sum_and_product() {
    let p = Polynomial::<i64>::from_str("3x^3 + x + 2").unwrap();
    let q = Polynomial::<i64>::from_str("x^2 + 5x + 6").unwrap();
    let minus_x = Polynomial::term(-1i64, 1);
    for v in [-3i64, -1, 0, 2, 5] {
        assert_eq!(Semiring::add(&p, &q).eval(v), p.eval(v) + q.eval(v));
        assert_eq!(Semiring::mul(&p, &q).eval(v), p.eval(v) * q.eval(v));
        assert_eq!(Semiring::add(&q, &minus_x).eval(v), q.eval(v) - v);
    }
    assert_eq!(<Polynomial<i64> as Semiring>::one().eval(9), 1);
    assert_eq!(Polynomial::<i64>::x().eval(9), 9);
    assert_eq!(Polynomial::term(4i64, 2).eval(-3), 36);
}

#[test]
fn polynomial_addition_cancels_and_commutes() {
    let x = Polynomial::<i64>::x();
    let minus_x = Polynomial::term(-1i64, 1);
    assert!(Semiring::add(&x, &minus_x).is_zero());
    let p = Polynomial::<i64>::from_str("3x^3 + x + 2").unwrap();
    let q = Polynomial::<i64>::from_str("x^2 + 5x + 6").unwrap();
    let pq = Semiring::add(&p, &q);
    let qp = Semiring::add(&q, &p);
    for v in [-2i64, 0, 1, 4] {
        assert_eq!(pq.eval(v), qp.eval(v));
    }
}

#[test]
fn polynomial_checked_parse() {
    let p = Polynomial::<u64>::try_from_str("x^2 + 5x + 6").unwrap();
    assert_eq!(p.eval(2), 20);
    let q: Polynomial<i64> = "3x^3 + x + 2".parse().unwrap();
    assert_eq!(q.eval(-1), -2);
    assert!(Polynomial::<u64>::try_from_str("x^2 + y").is_none());
    assert!(Polynomial::<u64>::try_from_str("3x^").is_none());
    assert!(Polynomial::<u64>::try_from_str("").is_none());
    assert!(Polynomial::<u64>::try_from_str("x^99999999999999999999").is_none());
    assert!("2 + ".parse::<Polynomial<u64>>().is_err());
    assert_eq!(Polynomial::<u64>::try_from_str("+4x").unwrap().eval(3), 12);
}

#[test]
fn semiring_addition_check() {
    assert!(Semiring::can_add(&3u64, &4u64));
    assert!(!Semiring::can_add(&u64::MAX, &1u64));
    assert!(!Semiring::can_add(&i64::MIN, &-1i64));
    let big = Polynomial::term(u64::MAX, 2);
    let one_x2 = Polynomial::term(1u64, 2);
    let x = Polynomial::<u64>::x();
    assert!(!Semiring::can_add(&big, &one_x2));
    assert!(Semiring::can_add(&big, &x));
}
