//! Laws of polynomial addition, multiplication and evaluation, over the term lists that
//! `Polynomial` views itself as.
use vstd::prelude::*;
use crate::semiring::{
    Semiring,
    commutative_semiring_laws,
    zero_right_identity,
    add_comm_assoc,
    lemma_laws_addition,
    lemma_u64_laws,
    lemma_add_comm,
    lemma_add_assoc,
    lemma_add_zero,
    lemma_mul_comm,
    lemma_mul_assoc,
    lemma_mul_one_zero,
    lemma_distrib,
    lemma_i64_laws,
};
use crate::polynomial::{
    lemma_sorted_update,
    mul_all_ok,
    mul_row_ok,
    powers_sorted,
    poly_add,
    insert_coeff,
    mul_row,
    mul_all,
    power_spec,
    eval_fold,
};

verus! {

/// The coefficient of `x^n` in a term list: that of the first term of power `n`, or zero when
/// there is none.
pub open spec fn coef<C: Semiring>(s: Seq<(u64, C::V)>, n: u64) -> C::V
    decreases s.len(),
{
    if s.len() == 0 {
        C::zero_spec()
    } else if s[0].0 == n {
        s[0].1
    } else {
        coef::<C>(s.drop_first(), n)
    }
}

/// No term of the list holds a zero coefficient.
pub open spec fn zero_free<C: Semiring>(s: Seq<(u64, C::V)>) -> bool {
    forall|i: int| 0 <= i < s.len() ==> #[trigger] s[i].1 != C::zero_spec()
}

/// A term list in canonical form: powers strictly increase and no coefficient is zero.
pub open spec fn canonical<C: Semiring>(s: Seq<(u64, C::V)>) -> bool {
    powers_sorted(s) && zero_free::<C>(s)
}

/// Every power of the list is at least `lo`.
pub open spec fn powers_from<V>(s: Seq<(u64, V)>, lo: int) -> bool {
    forall|i: int| 0 <= i < s.len() ==> lo <= #[trigger] s[i].0
}

/// The tail of a sorted list is sorted, and its powers exceed the first one.
proof fn lemma_sorted_rest<V>(s: Seq<(u64, V)>)
    requires
        powers_sorted(s),
        s.len() > 0,
    ensures
        powers_sorted(s.drop_first()),
        powers_from(s.drop_first(), s[0].0 + 1),
{
    let t = s.drop_first();
    assert forall|i: int| 0 <= i < t.len() implies s[0].0 + 1 <= #[trigger] t[i].0 by {
        assert(t[i] == s[i + 1]);
    }
    assert forall|i: int, j: int| 0 <= i < j < t.len() implies #[trigger] t[i].0
        < #[trigger] t[j].0 by {
        assert(t[i] == s[i + 1] && t[j] == s[j + 1]);
    }
}

/// A power below every power of the list has coefficient zero.
proof fn lemma_coef_absent<C: Semiring>(s: Seq<(u64, C::V)>, n: u64)
    requires
        powers_from(s, n + 1),
    ensures
        coef::<C>(s, n) == C::zero_spec(),
    decreases s.len(),
{
    if s.len() > 0 {
        let t = s.drop_first();
        assert forall|i: int| 0 <= i < t.len() implies n + 1 <= #[trigger] t[i].0 by {
            assert(t[i] == s[i + 1]);
        }
        assert(s[0].0 >= n + 1);
        lemma_coef_absent::<C>(t, n);
    }
}

/// The powers of a sum lie among those of its operands.
proof fn lemma_poly_add_from<C: Semiring>(a: Seq<(u64, C::V)>, b: Seq<(u64, C::V)>, lo: int)
    requires
        powers_from(a, lo),
        powers_from(b, lo),
    ensures
        powers_from(poly_add::<C>(a, b), lo),
    decreases a.len() + b.len(),
{
    if b.len() == 0 {
    } else {
        let b1 = b.drop_first();
        assert forall|i: int| 0 <= i < b1.len() implies lo <= #[trigger] b1[i].0 by {
            assert(b1[i] == b[i + 1]);
        }
        if a.len() == 0 || b[0].0 < a[0].0 {
            lemma_poly_add_from::<C>(a, b1, lo);
            assert(lo <= b[0].0);
        } else {
            let a1 = a.drop_first();
            assert forall|i: int| 0 <= i < a1.len() implies lo <= #[trigger] a1[i].0 by {
                assert(a1[i] == a[i + 1]);
            }
            assert(lo <= a[0].0);
            if a[0].0 < b[0].0 {
                lemma_poly_add_from::<C>(a1, b, lo);
            } else {
                lemma_poly_add_from::<C>(a1, b1, lo);
            }
        }
    }
}

/// Prepending a term below every power of a sorted list keeps it sorted.
proof fn lemma_sorted_cons<V>(e: (u64, V), s: Seq<(u64, V)>)
    requires
        powers_sorted(s),
        powers_from(s, e.0 + 1),
    ensures
        powers_sorted(seq![e] + s),
{
    let t = seq![e] + s;
    assert forall|i: int, j: int| 0 <= i < j < t.len() implies #[trigger] t[i].0
        < #[trigger] t[j].0 by {
        assert(t[j] == s[j - 1]);
        if i > 0 {
            assert(t[i] == s[i - 1]);
        }
    }
}

/// Coefficient-wise addition: the sum of two sorted term lists is sorted, holds at each power
/// the sum of the two coefficients there, and holds no zero coefficient when neither operand
/// does.
pub proof fn lemma_poly_add_coefficients<C: Semiring>(a: Seq<(u64, C::V)>, b: Seq<(u64, C::V)>)
    requires
        zero_right_identity::<C>(),
        powers_sorted(a),
        powers_sorted(b),
    ensures
        powers_sorted(poly_add::<C>(a, b)),
        zero_free::<C>(a) && zero_free::<C>(b) ==> zero_free::<C>(poly_add::<C>(a, b)),
        forall|n: u64|
            #[trigger] coef::<C>(poly_add::<C>(a, b), n) == C::add_spec(
                coef::<C>(a, n),
                coef::<C>(b, n),
            ),
    decreases a.len() + b.len(),
{
    let r = poly_add::<C>(a, b);
    if b.len() == 0 {
        assert forall|n: u64| #[trigger] coef::<C>(r, n) == C::add_spec(
            coef::<C>(a, n),
            coef::<C>(b, n),
        ) by {
            assert(C::add_spec(coef::<C>(a, n), C::zero_spec()) == coef::<C>(a, n));
        }
    } else if a.len() == 0 || b[0].0 < a[0].0 {
        let b1 = b.drop_first();
        lemma_sorted_rest(b);
        lemma_poly_add_coefficients::<C>(a, b1);
        let c = C::add_spec(C::zero_spec(), b[0].1);
        let rest = poly_add::<C>(a, b1);
        assert(powers_from(a, b[0].0 + 1)) by {
            if a.len() > 0 {
                lemma_sorted_rest(a);
                assert forall|i: int| 0 <= i < a.len() implies b[0].0 + 1 <= #[trigger] a[i].0 by {
                    if i > 0 {
                        assert(a.drop_first()[i - 1] == a[i]);
                    }
                }
            }
        }
        lemma_poly_add_from::<C>(a, b1, b[0].0 + 1);
        if c != C::zero_spec() {
            lemma_sorted_cons((b[0].0, c), rest);
        }
        assert forall|n: u64| #[trigger] coef::<C>(r, n) == C::add_spec(
            coef::<C>(a, n),
            coef::<C>(b, n),
        ) by {
            assert(coef::<C>(rest, n) == C::add_spec(coef::<C>(a, n), coef::<C>(b1, n)));
            if n == b[0].0 {
                lemma_coef_absent::<C>(a, n);
                lemma_coef_absent::<C>(b1, n);
                lemma_coef_absent::<C>(rest, n);
                assert(C::add_spec(C::zero_spec(), C::zero_spec()) == C::zero_spec());
            } else if c != C::zero_spec() {
                assert((seq![(b[0].0, c)] + rest).drop_first() == rest);
            }
        }
        if zero_free::<C>(a) && zero_free::<C>(b) {
            assert(zero_free::<C>(b1)) by {
                assert forall|i: int| 0 <= i < b1.len() implies #[trigger] b1[i].1
                    != C::zero_spec() by {
                    assert(b1[i] == b[i + 1]);
                }
            }
            if c != C::zero_spec() {
                let t = seq![(b[0].0, c)] + rest;
                assert forall|i: int| 0 <= i < t.len() implies #[trigger] t[i].1
                    != C::zero_spec() by {
                    if i > 0 {
                        assert(t[i] == rest[i - 1]);
                    }
                }
            }
        }
    } else if a[0].0 < b[0].0 {
        let a1 = a.drop_first();
        lemma_sorted_rest(a);
        lemma_poly_add_coefficients::<C>(a1, b);
        let rest = poly_add::<C>(a1, b);
        assert(powers_from(b, a[0].0 + 1)) by {
            lemma_sorted_rest(b);
            assert forall|i: int| 0 <= i < b.len() implies a[0].0 + 1 <= #[trigger] b[i].0 by {
                if i > 0 {
                    assert(b.drop_first()[i - 1] == b[i]);
                }
            }
        }
        lemma_poly_add_from::<C>(a1, b, a[0].0 + 1);
        lemma_sorted_cons(a[0], rest);
        assert forall|n: u64| #[trigger] coef::<C>(r, n) == C::add_spec(
            coef::<C>(a, n),
            coef::<C>(b, n),
        ) by {
            assert(coef::<C>(rest, n) == C::add_spec(coef::<C>(a1, n), coef::<C>(b, n)));
            if n == a[0].0 {
                lemma_coef_absent::<C>(b, n);
                assert(C::add_spec(a[0].1, C::zero_spec()) == a[0].1);
            } else {
                assert((seq![a[0]] + rest).drop_first() == rest);
            }
        }
        if zero_free::<C>(a) && zero_free::<C>(b) {
            assert(zero_free::<C>(a1)) by {
                assert forall|i: int| 0 <= i < a1.len() implies #[trigger] a1[i].1
                    != C::zero_spec() by {
                    assert(a1[i] == a[i + 1]);
                }
            }
            let t = seq![a[0]] + rest;
            assert forall|i: int| 0 <= i < t.len() implies #[trigger] t[i].1 != C::zero_spec() by {
                if i > 0 {
                    assert(t[i] == rest[i - 1]);
                } else {
                    assert(a[0].1 != C::zero_spec());
                }
            }
        }
    } else {
        let a1 = a.drop_first();
        let b1 = b.drop_first();
        lemma_sorted_rest(a);
        lemma_sorted_rest(b);
        lemma_poly_add_coefficients::<C>(a1, b1);
        let c = C::add_spec(a[0].1, b[0].1);
        let rest = poly_add::<C>(a1, b1);
        assert(b[0].0 == a[0].0);
        lemma_poly_add_from::<C>(a1, b1, a[0].0 + 1);
        if c != C::zero_spec() {
            lemma_sorted_cons((a[0].0, c), rest);
        }
        assert forall|n: u64| #[trigger] coef::<C>(r, n) == C::add_spec(
            coef::<C>(a, n),
            coef::<C>(b, n),
        ) by {
            assert(coef::<C>(rest, n) == C::add_spec(coef::<C>(a1, n), coef::<C>(b1, n)));
            if n == a[0].0 {
                lemma_coef_absent::<C>(a1, n);
                lemma_coef_absent::<C>(b1, n);
                lemma_coef_absent::<C>(rest, n);
                assert(C::add_spec(C::zero_spec(), C::zero_spec()) == C::zero_spec());
            } else if c != C::zero_spec() {
                assert((seq![(a[0].0, c)] + rest).drop_first() == rest);
            }
        }
        if zero_free::<C>(a) && zero_free::<C>(b) {
            assert(zero_free::<C>(a1) && zero_free::<C>(b1)) by {
                assert forall|i: int| 0 <= i < a1.len() implies #[trigger] a1[i].1
                    != C::zero_spec() by {
                    assert(a1[i] == a[i + 1]);
                }
                assert forall|i: int| 0 <= i < b1.len() implies #[trigger] b1[i].1
                    != C::zero_spec() by {
                    assert(b1[i] == b[i + 1]);
                }
            }
            if c != C::zero_spec() {
                let t = seq![(a[0].0, c)] + rest;
                assert forall|i: int| 0 <= i < t.len() implies #[trigger] t[i].1
                    != C::zero_spec() by {
                    if i > 0 {
                        assert(t[i] == rest[i - 1]);
                    }
                }
            }
        }
    }
}

/// Two canonical term lists with the same coefficient at every power are equal.
pub proof fn lemma_canonical_unique<C: Semiring>(s: Seq<(u64, C::V)>, t: Seq<(u64, C::V)>)
    requires
        canonical::<C>(s),
        canonical::<C>(t),
        forall|n: u64| #[trigger] coef::<C>(s, n) == coef::<C>(t, n),
    ensures
        s == t,
    decreases s.len() + t.len(),
{
    if s.len() == 0 && t.len() == 0 {
    } else if s.len() == 0 {
        assert(coef::<C>(t, t[0].0) == t[0].1);
        assert(coef::<C>(s, t[0].0) == C::zero_spec());
    } else if t.len() == 0 {
        assert(coef::<C>(s, s[0].0) == s[0].1);
        assert(coef::<C>(t, s[0].0) == C::zero_spec());
    } else {
        lemma_sorted_rest(s);
        lemma_sorted_rest(t);
        let s1 = s.drop_first();
        let t1 = t.drop_first();
        if s[0].0 < t[0].0 {
            assert(coef::<C>(s, s[0].0) == s[0].1);
            assert(powers_from(t, s[0].0 + 1)) by {
                assert forall|i: int| 0 <= i < t.len() implies s[0].0 + 1 <= #[trigger] t[i].0 by {
                    if i > 0 {
                        assert(t1[i - 1] == t[i]);
                    }
                }
            }
            lemma_coef_absent::<C>(t, s[0].0);
            assert(coef::<C>(s, s[0].0) == coef::<C>(t, s[0].0));
        } else if t[0].0 < s[0].0 {
            assert(coef::<C>(t, t[0].0) == t[0].1);
            assert(powers_from(s, t[0].0 + 1)) by {
                assert forall|i: int| 0 <= i < s.len() implies t[0].0 + 1 <= #[trigger] s[i].0 by {
                    if i > 0 {
                        assert(s1[i - 1] == s[i]);
                    }
                }
            }
            lemma_coef_absent::<C>(s, t[0].0);
            assert(coef::<C>(s, t[0].0) == coef::<C>(t, t[0].0));
        } else {
            assert(coef::<C>(s, s[0].0) == coef::<C>(t, s[0].0));
            assert forall|n: u64| #[trigger] coef::<C>(s1, n) == coef::<C>(t1, n) by {
                if n == s[0].0 {
                    lemma_coef_absent::<C>(s1, n);
                    lemma_coef_absent::<C>(t1, n);
                } else {
                    assert(coef::<C>(s, n) == coef::<C>(t, n));
                }
            }
            assert(zero_free::<C>(s1)) by {
                assert forall|i: int| 0 <= i < s1.len() implies #[trigger] s1[i].1
                    != C::zero_spec() by {
                    assert(s1[i] == s[i + 1]);
                }
            }
            assert(zero_free::<C>(t1)) by {
                assert forall|i: int| 0 <= i < t1.len() implies #[trigger] t1[i].1
                    != C::zero_spec() by {
                    assert(t1[i] == t[i + 1]);
                }
            }
            lemma_canonical_unique::<C>(s1, t1);
            assert(s =~= seq![s[0]] + s1);
            assert(t =~= seq![t[0]] + t1);
        }
    }
}

/// Polynomial addition on canonical term lists keeps them canonical and has the empty list as
/// its identity; it is commutative and associative when the coefficients' addition is.
pub proof fn lemma_poly_add_laws<C: Semiring>(
    a: Seq<(u64, C::V)>,
    b: Seq<(u64, C::V)>,
    c: Seq<(u64, C::V)>,
)
    requires
        zero_right_identity::<C>(),
        canonical::<C>(a),
        canonical::<C>(b),
        canonical::<C>(c),
    ensures
        canonical::<C>(poly_add::<C>(a, b)),
        poly_add::<C>(a, Seq::empty()) == a,
        add_comm_assoc::<C>() ==> poly_add::<C>(a, b) == poly_add::<C>(b, a),
        add_comm_assoc::<C>() ==> poly_add::<C>(poly_add::<C>(a, b), c) == poly_add::<C>(
            a,
            poly_add::<C>(b, c),
        ),
        add_comm_assoc::<C>() ==> poly_add::<C>(Seq::empty(), a) == a,
{
    let e = Seq::<(u64, C::V)>::empty();
    let ab = poly_add::<C>(a, b);
    let ba = poly_add::<C>(b, a);
    let bc = poly_add::<C>(b, c);
    lemma_poly_add_coefficients::<C>(a, b);
    lemma_poly_add_coefficients::<C>(b, a);
    lemma_poly_add_coefficients::<C>(b, c);
    lemma_poly_add_coefficients::<C>(ab, c);
    lemma_poly_add_coefficients::<C>(a, bc);
    lemma_poly_add_coefficients::<C>(e, a);
    if add_comm_assoc::<C>() {
        assert forall|n: u64| #[trigger] coef::<C>(ab, n) == coef::<C>(ba, n) by {
            assert(C::add_spec(coef::<C>(a, n), coef::<C>(b, n)) == C::add_spec(
                coef::<C>(b, n),
                coef::<C>(a, n),
            ));
        }
        lemma_canonical_unique::<C>(ab, ba);
        assert forall|n: u64| #[trigger] coef::<C>(poly_add::<C>(ab, c), n) == coef::<C>(
            poly_add::<C>(a, bc),
            n,
        ) by {
            assert(coef::<C>(ab, n) == C::add_spec(coef::<C>(a, n), coef::<C>(b, n)));
            assert(coef::<C>(bc, n) == C::add_spec(coef::<C>(b, n), coef::<C>(c, n)));
            assert(C::add_spec(C::add_spec(coef::<C>(a, n), coef::<C>(b, n)), coef::<C>(c, n))
                == C::add_spec(coef::<C>(a, n), C::add_spec(coef::<C>(b, n), coef::<C>(c, n))));
        }
        lemma_canonical_unique::<C>(poly_add::<C>(ab, c), poly_add::<C>(a, bc));
        assert forall|n: u64| #[trigger] coef::<C>(poly_add::<C>(e, a), n) == coef::<C>(a, n) by {
            assert(coef::<C>(e, n) == C::zero_spec());
            assert(C::add_spec(C::zero_spec(), coef::<C>(a, n)) == C::add_spec(
                coef::<C>(a, n),
                C::zero_spec(),
            ));
        }
        assert(canonical::<C>(e));
        lemma_canonical_unique::<C>(poly_add::<C>(e, a), a);
    }
}

/// The value of a term list at `x`: the sum of `x^p * c` over its terms `c x^p`.
pub open spec fn eval_sum<C: Semiring>(s: Seq<(u64, C::V)>, x: C::V) -> C::V
    decreases s.len(),
{
    if s.len() == 0 {
        C::zero_spec()
    } else {
        C::add_spec(
            C::mul_spec(power_spec::<C>(x, s[0].0 as nat), s[0].1),
            eval_sum::<C>(s.drop_first(), x),
        )
    }
}

/// Every power of `a` plus every power of `b` fits in `u64`.
pub open spec fn powers_fit<V>(a: Seq<(u64, V)>, b: Seq<(u64, V)>) -> bool {
    forall|i: int, j: int|
        0 <= i < a.len() && 0 <= j < b.len() ==> #[trigger] a[i].0 + #[trigger] b[j].0
            <= u64::MAX
}

/// The value of a list that starts with `e`.
proof fn lemma_eval_cons<C: Semiring>(e: (u64, C::V), s: Seq<(u64, C::V)>, x: C::V)
    ensures
        eval_sum::<C>(seq![e] + s, x) == C::add_spec(
            C::mul_spec(power_spec::<C>(x, e.0 as nat), e.1),
            eval_sum::<C>(s, x),
        ),
{
    assert((seq![e] + s).drop_first() == s);
}

/// `(w + x) + (y + z) == (w + y) + (x + z)`.
proof fn lemma_add_swap<C: Semiring>(w: C::V, x: C::V, y: C::V, z: C::V)
    requires
        commutative_semiring_laws::<C>(),
    ensures
        C::add_spec(C::add_spec(w, x), C::add_spec(y, z)) == C::add_spec(
            C::add_spec(w, y),
            C::add_spec(x, z),
        ),
{
    lemma_add_assoc::<C>(w, x, C::add_spec(y, z));
    lemma_add_assoc::<C>(x, y, z);
    lemma_add_comm::<C>(x, y);
    lemma_add_assoc::<C>(y, x, z);
    lemma_add_assoc::<C>(w, y, C::add_spec(x, z));
}

/// `(a * b) * (c * d) == (a * c) * (b * d)`.
proof fn lemma_mul_swap<C: Semiring>(a: C::V, b: C::V, c: C::V, d: C::V)
    requires
        commutative_semiring_laws::<C>(),
    ensures
        C::mul_spec(C::mul_spec(a, b), C::mul_spec(c, d)) == C::mul_spec(
            C::mul_spec(a, c),
            C::mul_spec(b, d),
        ),
{
    lemma_mul_assoc::<C>(a, b, C::mul_spec(c, d));
    lemma_mul_assoc::<C>(b, c, d);
    lemma_mul_comm::<C>(b, c);
    lemma_mul_assoc::<C>(c, b, d);
    lemma_mul_assoc::<C>(a, c, C::mul_spec(b, d));
}

/// Folding the terms onto `total` adds their value to it.
proof fn lemma_eval_fold_sum<C: Semiring>(total: C::V, s: Seq<(u64, C::V)>, x: C::V)
    requires
        commutative_semiring_laws::<C>(),
    ensures
        eval_fold::<C>(total, s, x) == C::add_spec(total, eval_sum::<C>(s, x)),
    decreases s.len(),
{
    if s.len() == 0 {
        lemma_add_zero::<C>(total);
    } else {
        let m = C::mul_spec(power_spec::<C>(x, s[0].0 as nat), s[0].1);
        lemma_eval_fold_sum::<C>(C::add_spec(total, m), s.drop_first(), x);
        lemma_add_assoc::<C>(total, m, eval_sum::<C>(s.drop_first(), x));
    }
}

/// The value of a sum of term lists is the sum of their values.
proof fn lemma_eval_poly_add<C: Semiring>(a: Seq<(u64, C::V)>, b: Seq<(u64, C::V)>, x: C::V)
    requires
        commutative_semiring_laws::<C>(),
    ensures
        eval_sum::<C>(poly_add::<C>(a, b), x) == C::add_spec(
            eval_sum::<C>(a, x),
            eval_sum::<C>(b, x),
        ),
    decreases a.len() + b.len(),
{
    if b.len() == 0 {
        lemma_add_zero::<C>(eval_sum::<C>(a, x));
    } else if a.len() == 0 || b[0].0 < a[0].0 {
        let b1 = b.drop_first();
        lemma_eval_poly_add::<C>(a, b1, x);
        let pw = power_spec::<C>(x, b[0].0 as nat);
        let mb = C::mul_spec(pw, b[0].1);
        let sa = eval_sum::<C>(a, x);
        let sb1 = eval_sum::<C>(b1, x);
        let c = C::add_spec(C::zero_spec(), b[0].1);
        lemma_add_zero::<C>(b[0].1);
        let rest = poly_add::<C>(a, b1);
        if c == C::zero_spec() {
            lemma_mul_one_zero::<C>(pw);
            lemma_add_zero::<C>(sb1);
        } else {
            lemma_eval_cons::<C>((b[0].0, c), rest, x);
            lemma_add_assoc::<C>(mb, sa, sb1);
            lemma_add_comm::<C>(mb, sa);
            lemma_add_assoc::<C>(sa, mb, sb1);
        }
    } else if a[0].0 < b[0].0 {
        let a1 = a.drop_first();
        lemma_eval_poly_add::<C>(a1, b, x);
        let ma = C::mul_spec(power_spec::<C>(x, a[0].0 as nat), a[0].1);
        lemma_eval_cons::<C>(a[0], poly_add::<C>(a1, b), x);
        lemma_add_assoc::<C>(ma, eval_sum::<C>(a1, x), eval_sum::<C>(b, x));
    } else {
        let a1 = a.drop_first();
        let b1 = b.drop_first();
        lemma_eval_poly_add::<C>(a1, b1, x);
        let pw = power_spec::<C>(x, a[0].0 as nat);
        let ma = C::mul_spec(pw, a[0].1);
        let mb = C::mul_spec(pw, b[0].1);
        let sa1 = eval_sum::<C>(a1, x);
        let sb1 = eval_sum::<C>(b1, x);
        let c = C::add_spec(a[0].1, b[0].1);
        let rest = poly_add::<C>(a1, b1);
        lemma_distrib::<C>(pw, a[0].1, b[0].1);
        lemma_add_swap::<C>(ma, sa1, mb, sb1);
        if c == C::zero_spec() {
            lemma_mul_one_zero::<C>(pw);
            lemma_add_zero::<C>(C::add_spec(sa1, sb1));
        } else {
            lemma_eval_cons::<C>((a[0].0, c), rest, x);
        }
    }
}

/// Adding `c x^p` into a term list adds its value.
proof fn lemma_eval_insert<C: Semiring>(acc: Seq<(u64, C::V)>, p: u64, c: C::V, x: C::V)
    requires
        commutative_semiring_laws::<C>(),
    ensures
        eval_sum::<C>(insert_coeff::<C>(acc, p, c), x) == C::add_spec(
            eval_sum::<C>(acc, x),
            C::mul_spec(power_spec::<C>(x, p as nat), c),
        ),
    decreases acc.len(),
{
    let pw = power_spec::<C>(x, p as nat);
    let mc = C::mul_spec(pw, c);
    let sacc = eval_sum::<C>(acc, x);
    if acc.len() == 0 || acc[0].0 > p {
        let s = C::add_spec(C::zero_spec(), c);
        lemma_add_zero::<C>(c);
        if s == C::zero_spec() {
            lemma_mul_one_zero::<C>(pw);
            lemma_add_zero::<C>(sacc);
        } else {
            lemma_eval_cons::<C>((p, s), acc, x);
            lemma_add_comm::<C>(mc, sacc);
        }
    } else if acc[0].0 == p {
        let a0 = acc[0].1;
        let ma = C::mul_spec(pw, a0);
        let s1 = eval_sum::<C>(acc.drop_first(), x);
        let s = C::add_spec(a0, c);
        lemma_distrib::<C>(pw, a0, c);
        if s == C::zero_spec() {
            lemma_mul_one_zero::<C>(pw);
            lemma_add_comm::<C>(ma, s1);
            lemma_add_assoc::<C>(s1, ma, mc);
            lemma_add_zero::<C>(s1);
        } else {
            let u = acc.update(0, (p, s));
            assert(u.drop_first() =~= acc.drop_first());
            lemma_add_assoc::<C>(ma, s1, mc);
            lemma_add_comm::<C>(s1, mc);
            lemma_add_assoc::<C>(ma, mc, s1);
        }
    } else {
        let a1 = acc.drop_first();
        lemma_eval_insert::<C>(a1, p, c, x);
        let m0 = C::mul_spec(power_spec::<C>(x, acc[0].0 as nat), acc[0].1);
        lemma_eval_cons::<C>(acc[0], insert_coeff::<C>(a1, p, c), x);
        lemma_add_assoc::<C>(m0, eval_sum::<C>(a1, x), mc);
    }
}

/// `x^(p + q) == x^p * x^q`.
proof fn lemma_power_add<C: Semiring>(x: C::V, p: nat, q: nat)
    requires
        commutative_semiring_laws::<C>(),
    ensures
        power_spec::<C>(x, p + q) == C::mul_spec(power_spec::<C>(x, p), power_spec::<C>(x, q)),
    decreases q,
{
    if q == 0 {
        lemma_mul_one_zero::<C>(power_spec::<C>(x, p));
        assert(p + q == p);
    } else {
        lemma_power_add::<C>(x, p, (q - 1) as nat);
        assert((p + q - 1) as nat == p + (q - 1) as nat);
        lemma_mul_assoc::<C>(power_spec::<C>(x, p), power_spec::<C>(x, (q - 1) as nat), x);
    }
}

/// Adding the products of `c1 x^p1` with the terms of `b` adds `c1 x^p1` times the value of
/// `b`.
proof fn lemma_eval_mul_row<C: Semiring>(
    acc: Seq<(u64, C::V)>,
    p1: u64,
    c1: C::V,
    b: Seq<(u64, C::V)>,
    x: C::V,
)
    requires
        commutative_semiring_laws::<C>(),
        forall|k: int| 0 <= k < b.len() ==> p1 + #[trigger] b[k].0 <= u64::MAX,
    ensures
        eval_sum::<C>(mul_row::<C>(acc, p1, c1, b), x) == C::add_spec(
            eval_sum::<C>(acc, x),
            C::mul_spec(C::mul_spec(power_spec::<C>(x, p1 as nat), c1), eval_sum::<C>(b, x)),
        ),
    decreases b.len(),
{
    let p1w = power_spec::<C>(x, p1 as nat);
    let m1 = C::mul_spec(p1w, c1);
    let sacc = eval_sum::<C>(acc, x);
    if b.len() == 0 {
        lemma_mul_one_zero::<C>(m1);
        lemma_add_zero::<C>(sacc);
    } else {
        let q = b[0].0;
        let d = b[0].1;
        let b1 = b.drop_first();
        assert(p1 + q <= u64::MAX);
        let p = (p1 + q) as u64;
        assert(p as nat == p1 as nat + q as nat);
        let acc2 = insert_coeff::<C>(acc, p, C::mul_spec(c1, d));
        assert forall|k: int| 0 <= k < b1.len() implies p1 + #[trigger] b1[k].0 <= u64::MAX by {
            assert(b1[k] == b[k + 1]);
        }
        lemma_eval_mul_row::<C>(acc2, p1, c1, b1, x);
        lemma_eval_insert::<C>(acc, p, C::mul_spec(c1, d), x);
        let pqw = power_spec::<C>(x, q as nat);
        lemma_power_add::<C>(x, p1 as nat, q as nat);
        lemma_mul_swap::<C>(p1w, pqw, c1, d);
        let mq = C::mul_spec(pqw, d);
        let sb1 = eval_sum::<C>(b1, x);
        lemma_distrib::<C>(m1, mq, sb1);
        lemma_add_assoc::<C>(sacc, C::mul_spec(m1, mq), C::mul_spec(m1, sb1));
    }
}

/// Adding the products of every pair of terms of `a` and `b` adds the product of their values.
proof fn lemma_eval_mul_all<C: Semiring>(
    acc: Seq<(u64, C::V)>,
    a: Seq<(u64, C::V)>,
    b: Seq<(u64, C::V)>,
    x: C::V,
)
    requires
        commutative_semiring_laws::<C>(),
        powers_fit(a, b),
    ensures
        eval_sum::<C>(mul_all::<C>(acc, a, b), x) == C::add_spec(
            eval_sum::<C>(acc, x),
            C::mul_spec(eval_sum::<C>(a, x), eval_sum::<C>(b, x)),
        ),
    decreases a.len(),
{
    let sacc = eval_sum::<C>(acc, x);
    let sb = eval_sum::<C>(b, x);
    if a.len() == 0 {
        lemma_mul_one_zero::<C>(sb);
        lemma_add_zero::<C>(sacc);
    } else {
        let a1 = a.drop_first();
        assert forall|k: int| 0 <= k < b.len() implies a[0].0 + #[trigger] b[k].0 <= u64::MAX by {
            assert(a[0].0 + b[k].0 <= u64::MAX);
        }
        assert(powers_fit(a1, b)) by {
            assert forall|i: int, j: int| 0 <= i < a1.len() && 0 <= j < b.len() implies #[trigger] a1[i].0
                + #[trigger] b[j].0 <= u64::MAX by {
                assert(a1[i] == a[i + 1]);
            }
        }
        let acc2 = mul_row::<C>(acc, a[0].0, a[0].1, b);
        lemma_eval_mul_row::<C>(acc, a[0].0, a[0].1, b, x);
        lemma_eval_mul_all::<C>(acc2, a1, b, x);
        let ma = C::mul_spec(power_spec::<C>(x, a[0].0 as nat), a[0].1);
        let sa1 = eval_sum::<C>(a1, x);
        lemma_add_assoc::<C>(sacc, C::mul_spec(ma, sb), C::mul_spec(sa1, sb));
        lemma_distrib::<C>(sb, ma, sa1);
    }
}

/// Evaluation is a homomorphism: the value of a sum of two polynomials is the sum of their
/// values, and, when their powers can be added (as multiplying them requires), the value of
/// their product is the product of their values.
pub proof fn lemma_eval_homomorphism<C: Semiring>(
    a: Seq<(u64, C::V)>,
    b: Seq<(u64, C::V)>,
    x: C::V,
)
    requires
        commutative_semiring_laws::<C>(),
    ensures
        eval_fold::<C>(C::zero_spec(), poly_add::<C>(a, b), x) == C::add_spec(
            eval_fold::<C>(C::zero_spec(), a, x),
            eval_fold::<C>(C::zero_spec(), b, x),
        ),
        powers_fit(a, b) ==> eval_fold::<C>(C::zero_spec(), mul_all::<C>(Seq::empty(), a, b), x)
            == C::mul_spec(eval_fold::<C>(C::zero_spec(), a, x), eval_fold::<C>(C::zero_spec(), b, x)),
{
    let z = C::zero_spec();
    let e = Seq::<(u64, C::V)>::empty();
    lemma_eval_fold_sum::<C>(z, a, x);
    lemma_eval_fold_sum::<C>(z, b, x);
    lemma_eval_fold_sum::<C>(z, poly_add::<C>(a, b), x);
    lemma_add_zero::<C>(eval_sum::<C>(a, x));
    lemma_add_zero::<C>(eval_sum::<C>(b, x));
    lemma_eval_poly_add::<C>(a, b, x);
    lemma_add_zero::<C>(eval_sum::<C>(poly_add::<C>(a, b), x));
    if powers_fit(a, b) {
        lemma_eval_fold_sum::<C>(z, mul_all::<C>(e, a, b), x);
        lemma_eval_mul_all::<C>(e, a, b, x);
        lemma_add_zero::<C>(C::mul_spec(eval_sum::<C>(a, x), eval_sum::<C>(b, x)));
        lemma_add_zero::<C>(eval_sum::<C>(mul_all::<C>(e, a, b), x));
    }
}

/// Whatever multiplying `a` by `b` requires includes that their powers can be added.
pub proof fn lemma_mul_ok_powers_fit<C: Semiring>(
    acc: Seq<(u64, C::V)>,
    a: Seq<(u64, C::V)>,
    b: Seq<(u64, C::V)>,
)
    requires
        mul_all_ok::<C>(acc, a, b),
    ensures
        powers_fit(a, b),
    decreases a.len(),
{
    if a.len() > 0 {
        let a1 = a.drop_first();
        lemma_mul_row_ok_fit::<C>(acc, a[0].0, a[0].1, b);
        lemma_mul_ok_powers_fit::<C>(mul_row::<C>(acc, a[0].0, a[0].1, b), a1, b);
        assert forall|i: int, j: int| 0 <= i < a.len() && 0 <= j < b.len() implies #[trigger] a[i].0
            + #[trigger] b[j].0 <= u64::MAX by {
            if i > 0 {
                assert(a1[i - 1] == a[i]);
                assert(a1[i - 1].0 + b[j].0 <= u64::MAX);
            } else {
                assert(a[0].0 + b[j].0 <= u64::MAX);
            }
        }
    }
}

/// Whatever adding the products of `c1 x^p1` with `b` requires includes that `p1` can be added
/// to each power of `b`.
proof fn lemma_mul_row_ok_fit<C: Semiring>(
    acc: Seq<(u64, C::V)>,
    p1: u64,
    c1: C::V,
    b: Seq<(u64, C::V)>,
)
    requires
        mul_row_ok::<C>(acc, p1, c1, b),
    ensures
        forall|k: int| 0 <= k < b.len() ==> p1 + #[trigger] b[k].0 <= u64::MAX,
    decreases b.len(),
{
    if b.len() > 0 {
        let b1 = b.drop_first();
        lemma_mul_row_ok_fit::<C>(
            insert_coeff::<C>(acc, (p1 + b[0].0) as u64, C::mul_spec(c1, b[0].1)),
            p1,
            c1,
            b1,
        );
        assert forall|k: int| 0 <= k < b.len() implies p1 + #[trigger] b[k].0 <= u64::MAX by {
            if k > 0 {
                assert(b1[k - 1] == b[k]);
            }
        }
    }
}

/// The value of a single term `a x^n` is `x^n * a`; in particular the constant one has value
/// one and the polynomial `x` has value `x`.
pub proof fn lemma_eval_term<C: Semiring>(a: C::V, n: u64, x: C::V)
    requires
        commutative_semiring_laws::<C>(),
    ensures
        eval_fold::<C>(C::zero_spec(), seq![(n, a)], x) == C::mul_spec(
            power_spec::<C>(x, n as nat),
            a,
        ),
        eval_fold::<C>(C::zero_spec(), seq![(0u64, C::one_spec())], x) == C::one_spec(),
        eval_fold::<C>(C::zero_spec(), seq![(1u64, C::one_spec())], x) == x,
{
    let z = C::zero_spec();
    let o = C::one_spec();
    lemma_single_fold::<C>((n, a), x);
    lemma_single_fold::<C>((0u64, o), x);
    lemma_single_fold::<C>((1u64, o), x);
    lemma_add_zero::<C>(C::mul_spec(power_spec::<C>(x, n as nat), a));
    assert(power_spec::<C>(x, 0) == o);
    lemma_mul_one_zero::<C>(o);
    lemma_add_zero::<C>(o);
    assert(power_spec::<C>(x, 1) == C::mul_spec(power_spec::<C>(x, 0), x));
    lemma_mul_one_zero::<C>(x);
    lemma_add_zero::<C>(x);
}

/// Folding a single term onto zero.
proof fn lemma_single_fold<C: Semiring>(e: (u64, C::V), x: C::V)
    ensures
        eval_fold::<C>(C::zero_spec(), seq![e], x) == C::add_spec(
            C::zero_spec(),
            C::mul_spec(power_spec::<C>(x, e.0 as nat), e.1),
        ),
{
    let s = seq![e];
    let t = C::add_spec(C::zero_spec(), C::mul_spec(power_spec::<C>(x, e.0 as nat), e.1));
    assert(s.drop_first() =~= Seq::<(u64, C::V)>::empty());
    assert(eval_fold::<C>(t, s.drop_first(), x) == t);
}

/// For `i64` coefficients, with wrapping arithmetic (which is exact when nothing overflows):
/// the value of a sum of polynomials is the sum of their values, the value of a product (when
/// their powers can be added, as multiplying them requires) is the product of their values,
/// and a term `a x^n` has value `x^n * a`.
pub proof fn lemma_i64_eval_homomorphism(a: Seq<(u64, i64)>, b: Seq<(u64, i64)>, x: i64, c: i64, n: u64)
    ensures
        eval_fold::<i64>(0, poly_add::<i64>(a, b), x) == i64::add_spec(
            eval_fold::<i64>(0, a, x),
            eval_fold::<i64>(0, b, x),
        ),
        powers_fit(a, b) ==> eval_fold::<i64>(0, mul_all::<i64>(Seq::empty(), a, b), x)
            == i64::mul_spec(eval_fold::<i64>(0, a, x), eval_fold::<i64>(0, b, x)),
        eval_fold::<i64>(0, seq![(n, c)], x) == i64::mul_spec(power_spec::<i64>(x, n as nat), c),
        eval_fold::<i64>(0, seq![(0u64, 1i64)], x) == 1,
        eval_fold::<i64>(0, seq![(1u64, 1i64)], x) == x,
{
    lemma_i64_laws();
    lemma_eval_homomorphism::<i64>(a, b, x);
    lemma_eval_term::<i64>(c, n, x);
}

/// For `u64` coefficients, with wrapping arithmetic (which is exact when nothing overflows):
/// the value of a sum of polynomials is the sum of their values, the value of a product (when
/// their powers can be added, as multiplying them requires) is the product of their values,
/// and a term `a x^n` has value `x^n * a`.
pub proof fn lemma_u64_eval_homomorphism(a: Seq<(u64, u64)>, b: Seq<(u64, u64)>, x: u64, c: u64, n: u64)
    ensures
        eval_fold::<u64>(0, poly_add::<u64>(a, b), x) == u64::add_spec(
            eval_fold::<u64>(0, a, x),
            eval_fold::<u64>(0, b, x),
        ),
        powers_fit(a, b) ==> eval_fold::<u64>(0, mul_all::<u64>(Seq::empty(), a, b), x)
            == u64::mul_spec(eval_fold::<u64>(0, a, x), eval_fold::<u64>(0, b, x)),
        eval_fold::<u64>(0, seq![(n, c)], x) == u64::mul_spec(power_spec::<u64>(x, n as nat), c),
        eval_fold::<u64>(0, seq![(0u64, 1u64)], x) == 1,
        eval_fold::<u64>(0, seq![(1u64, 1u64)], x) == x,
{
    lemma_u64_laws();
    lemma_eval_homomorphism::<u64>(a, b, x);
    lemma_eval_term::<u64>(c, n, x);
}

/// For `u64` coefficients, polynomial addition is coefficient-wise, commutative and
/// associative on canonical term lists, and multiplication of canonical term lists whose powers
/// can be added is commutative and distributes over addition.
pub proof fn lemma_u64_poly_laws(a: Seq<(u64, u64)>, b: Seq<(u64, u64)>, c: Seq<(u64, u64)>)
    requires
        canonical::<u64>(a),
        canonical::<u64>(b),
        canonical::<u64>(c),
    ensures
        forall|k: u64|
            #[trigger] coef::<u64>(poly_add::<u64>(a, b), k) == u64::add_spec(
                coef::<u64>(a, k),
                coef::<u64>(b, k),
            ),
        canonical::<u64>(poly_add::<u64>(a, b)),
        poly_add::<u64>(a, b) == poly_add::<u64>(b, a),
        poly_add::<u64>(poly_add::<u64>(a, b), c) == poly_add::<u64>(a, poly_add::<u64>(b, c)),
        poly_add::<u64>(a, Seq::empty()) == a,
        poly_add::<u64>(Seq::empty(), a) == a,
        powers_fit(a, b) ==> mul_all::<u64>(Seq::empty(), a, b) == mul_all::<u64>(
            Seq::empty(),
            b,
            a,
        ),
        powers_fit(a, b) && powers_fit(a, c) ==> mul_all::<u64>(
            Seq::empty(),
            a,
            poly_add::<u64>(b, c),
        ) == poly_add::<u64>(
            mul_all::<u64>(Seq::empty(), a, b),
            mul_all::<u64>(Seq::empty(), a, c),
        ),
{
    lemma_u64_laws();
    lemma_laws_addition::<u64>();
    lemma_poly_add_coefficients::<u64>(a, b);
    lemma_poly_add_laws::<u64>(a, b, c);
    if powers_fit(a, b) {
        lemma_poly_mul_commutative::<u64>(a, b);
    }
    if powers_fit(a, b) && powers_fit(a, c) {
        lemma_poly_mul_distributes::<u64>(a, b, c);
    }
}

/// The coefficient of `x^n` that the products of `c1 x^p1` with the terms of `b` contribute:
/// the sum of `c1 * d` over the terms `d x^q` of `b` with `p1 + q == n`.
pub open spec fn row_coef<C: Semiring>(p1: u64, c1: C::V, b: Seq<(u64, C::V)>, n: u64) -> C::V
    decreases b.len(),
{
    if b.len() == 0 {
        C::zero_spec()
    } else {
        C::add_spec(
            if p1 + b[0].0 == n {
                C::mul_spec(c1, b[0].1)
            } else {
                C::zero_spec()
            },
            row_coef::<C>(p1, c1, b.drop_first(), n),
        )
    }
}

/// The coefficient of `x^n` in the product of `a` and `b`: the sum of `c * d` over the pairs of
/// a term `c x^p` of `a` and a term `d x^q` of `b` with `p + q == n`.
pub open spec fn mul_coef<C: Semiring>(a: Seq<(u64, C::V)>, b: Seq<(u64, C::V)>, n: u64) -> C::V
    decreases a.len(),
{
    if a.len() == 0 {
        C::zero_spec()
    } else {
        C::add_spec(row_coef::<C>(a[0].0, a[0].1, b, n), mul_coef::<C>(a.drop_first(), b, n))
    }
}

/// Adding a term whose power is at least `lo` keeps every power at least `lo`.
proof fn lemma_insert_from<C: Semiring>(acc: Seq<(u64, C::V)>, p: u64, c: C::V, lo: int)
    requires
        powers_from(acc, lo),
        lo <= p,
    ensures
        powers_from(insert_coeff::<C>(acc, p, c), lo),
    decreases acc.len(),
{
    if acc.len() == 0 || acc[0].0 > p {
        let r = insert_coeff::<C>(acc, p, c);
        assert forall|i: int| 0 <= i < r.len() implies lo <= #[trigger] r[i].0 by {
            if r.len() > acc.len() && i > 0 {
                assert(r[i] == acc[i - 1]);
            }
        }
    } else if acc[0].0 == p {
        let r = insert_coeff::<C>(acc, p, c);
        assert forall|i: int| 0 <= i < r.len() implies lo <= #[trigger] r[i].0 by {
            if r.len() < acc.len() {
                assert(r[i] == acc[i + 1]);
            } else if i > 0 {
                assert(r[i] == acc[i]);
            }
        }
    } else {
        let a1 = acc.drop_first();
        assert forall|i: int| 0 <= i < a1.len() implies lo <= #[trigger] a1[i].0 by {
            assert(a1[i] == acc[i + 1]);
        }
        lemma_insert_from::<C>(a1, p, c, lo);
        let rest = insert_coeff::<C>(a1, p, c);
        let r = seq![acc[0]] + rest;
        assert forall|i: int| 0 <= i < r.len() implies lo <= #[trigger] r[i].0 by {
            if i > 0 {
                assert(r[i] == rest[i - 1]);
            }
        }
    }
}

/// Adding `c x^p` into a sorted term list keeps it sorted and adds `c` to the coefficient of
/// `x^p`, leaving the others.
proof fn lemma_insert_coef<C: Semiring>(acc: Seq<(u64, C::V)>, p: u64, c: C::V, n: u64)
    requires
        commutative_semiring_laws::<C>(),
        powers_sorted(acc),
    ensures
        powers_sorted(insert_coeff::<C>(acc, p, c)),
        coef::<C>(insert_coeff::<C>(acc, p, c), n) == if n == p {
            C::add_spec(coef::<C>(acc, n), c)
        } else {
            coef::<C>(acc, n)
        },
    decreases acc.len(),
{
    let r = insert_coeff::<C>(acc, p, c);
    if acc.len() == 0 || acc[0].0 > p {
        let s = C::add_spec(C::zero_spec(), c);
        lemma_add_zero::<C>(c);
        assert(powers_from(acc, p + 1)) by {
            if acc.len() > 0 {
                lemma_sorted_rest(acc);
                assert forall|i: int| 0 <= i < acc.len() implies p + 1 <= #[trigger] acc[i].0 by {
                    if i > 0 {
                        assert(acc.drop_first()[i - 1] == acc[i]);
                    }
                }
            }
        }
        lemma_coef_absent::<C>(acc, p);
        if s != C::zero_spec() {
            lemma_sorted_cons((p, s), acc);
            assert((seq![(p, s)] + acc).drop_first() == acc);
        }
    } else if acc[0].0 == p {
        let a1 = acc.drop_first();
        lemma_sorted_rest(acc);
        let s = C::add_spec(acc[0].1, c);
        if s == C::zero_spec() {
            lemma_coef_absent::<C>(a1, p);
        } else {
            lemma_sorted_update(acc, 0, (p, s));
            assert(r.drop_first() =~= a1);
        }
    } else {
        let a1 = acc.drop_first();
        lemma_sorted_rest(acc);
        lemma_insert_coef::<C>(a1, p, c, n);
        let rest = insert_coeff::<C>(a1, p, c);
        lemma_insert_from::<C>(a1, p, c, acc[0].0 + 1);
        lemma_sorted_cons(acc[0], rest);
        assert((seq![acc[0]] + rest).drop_first() == rest);
    }
}

/// Adding the products of `c1 x^p1` with the terms of `b` into a sorted term list keeps it
/// sorted and adds `row_coef` to each coefficient.
proof fn lemma_mul_row_coef<C: Semiring>(
    acc: Seq<(u64, C::V)>,
    p1: u64,
    c1: C::V,
    b: Seq<(u64, C::V)>,
    n: u64,
)
    requires
        commutative_semiring_laws::<C>(),
        powers_sorted(acc),
        forall|k: int| 0 <= k < b.len() ==> p1 + #[trigger] b[k].0 <= u64::MAX,
    ensures
        powers_sorted(mul_row::<C>(acc, p1, c1, b)),
        coef::<C>(mul_row::<C>(acc, p1, c1, b), n) == C::add_spec(
            coef::<C>(acc, n),
            row_coef::<C>(p1, c1, b, n),
        ),
    decreases b.len(),
{
    if b.len() == 0 {
        lemma_add_zero::<C>(coef::<C>(acc, n));
    } else {
        let q = b[0].0;
        let d = b[0].1;
        let b1 = b.drop_first();
        assert(p1 + q <= u64::MAX);
        let p = (p1 + q) as u64;
        let m = C::mul_spec(c1, d);
        let acc2 = insert_coeff::<C>(acc, p, m);
        assert forall|k: int| 0 <= k < b1.len() implies p1 + #[trigger] b1[k].0 <= u64::MAX by {
            assert(b1[k] == b[k + 1]);
        }
        lemma_insert_coef::<C>(acc, p, m, n);
        lemma_mul_row_coef::<C>(acc2, p1, c1, b1, n);
        let ca = coef::<C>(acc, n);
        let r1 = row_coef::<C>(p1, c1, b1, n);
        if n == p {
            lemma_add_assoc::<C>(ca, m, r1);
        } else {
            lemma_add_zero::<C>(r1);
        }
    }
}

/// Adding the products of every pair of terms of `a` and `b` into a sorted term list keeps it
/// sorted and adds `mul_coef` to each coefficient.
proof fn lemma_mul_all_coef<C: Semiring>(
    acc: Seq<(u64, C::V)>,
    a: Seq<(u64, C::V)>,
    b: Seq<(u64, C::V)>,
    n: u64,
)
    requires
        commutative_semiring_laws::<C>(),
        powers_sorted(acc),
        powers_fit(a, b),
    ensures
        powers_sorted(mul_all::<C>(acc, a, b)),
        coef::<C>(mul_all::<C>(acc, a, b), n) == C::add_spec(
            coef::<C>(acc, n),
            mul_coef::<C>(a, b, n),
        ),
    decreases a.len(),
{
    if a.len() == 0 {
        lemma_add_zero::<C>(coef::<C>(acc, n));
    } else {
        let a1 = a.drop_first();
        assert forall|k: int| 0 <= k < b.len() implies a[0].0 + #[trigger] b[k].0 <= u64::MAX by {
            assert(a[0].0 + b[k].0 <= u64::MAX);
        }
        assert(powers_fit(a1, b)) by {
            assert forall|i: int, j: int| 0 <= i < a1.len() && 0 <= j < b.len() implies #[trigger] a1[i].0
                + #[trigger] b[j].0 <= u64::MAX by {
                assert(a1[i] == a[i + 1]);
            }
        }
        let acc2 = mul_row::<C>(acc, a[0].0, a[0].1, b);
        lemma_mul_row_coef::<C>(acc, a[0].0, a[0].1, b, n);
        lemma_mul_all_coef::<C>(acc2, a1, b, n);
        lemma_add_assoc::<C>(
            coef::<C>(acc, n),
            row_coef::<C>(a[0].0, a[0].1, b, n),
            mul_coef::<C>(a1, b, n),
        );
    }
}

/// The product of two term lists is sorted, and its coefficient of `x^n` is the sum of
/// `c * d` over the pairs of a term `c x^p` of `a` and a term `d x^q` of `b` with `p + q == n`.
pub proof fn lemma_poly_mul_coefficients<C: Semiring>(
    a: Seq<(u64, C::V)>,
    b: Seq<(u64, C::V)>,
    n: u64,
)
    requires
        commutative_semiring_laws::<C>(),
        powers_fit(a, b),
    ensures
        powers_sorted(mul_all::<C>(Seq::empty(), a, b)),
        coef::<C>(mul_all::<C>(Seq::empty(), a, b), n) == mul_coef::<C>(a, b, n),
{
    let e = Seq::<(u64, C::V)>::empty();
    lemma_mul_all_coef::<C>(e, a, b, n);
    lemma_add_zero::<C>(mul_coef::<C>(a, b, n));
}

/// A term added into a list with no zero coefficient leaves none.
proof fn lemma_insert_zero_free<C: Semiring>(acc: Seq<(u64, C::V)>, p: u64, c: C::V)
    requires
        zero_free::<C>(acc),
    ensures
        zero_free::<C>(insert_coeff::<C>(acc, p, c)),
    decreases acc.len(),
{
    let r = insert_coeff::<C>(acc, p, c);
    if acc.len() == 0 || acc[0].0 > p {
        assert forall|i: int| 0 <= i < r.len() implies #[trigger] r[i].1 != C::zero_spec() by {
            if r.len() > acc.len() && i > 0 {
                assert(r[i] == acc[i - 1]);
            }
        }
    } else if acc[0].0 == p {
        assert forall|i: int| 0 <= i < r.len() implies #[trigger] r[i].1 != C::zero_spec() by {
            if r.len() < acc.len() {
                assert(r[i] == acc[i + 1]);
            } else if i > 0 {
                assert(r[i] == acc[i]);
            }
        }
    } else {
        let a1 = acc.drop_first();
        assert forall|i: int| 0 <= i < a1.len() implies #[trigger] a1[i].1 != C::zero_spec() by {
            assert(a1[i] == acc[i + 1]);
        }
        lemma_insert_zero_free::<C>(a1, p, c);
        let rest = insert_coeff::<C>(a1, p, c);
        assert forall|i: int| 0 <= i < r.len() implies #[trigger] r[i].1 != C::zero_spec() by {
            if i > 0 {
                assert(r[i] == rest[i - 1]);
            } else {
                assert(acc[0].1 != C::zero_spec());
            }
        }
    }
}

/// The products added into a list with no zero coefficient leave none.
proof fn lemma_mul_all_zero_free<C: Semiring>(
    acc: Seq<(u64, C::V)>,
    a: Seq<(u64, C::V)>,
    b: Seq<(u64, C::V)>,
)
    requires
        zero_free::<C>(acc),
    ensures
        zero_free::<C>(mul_all::<C>(acc, a, b)),
    decreases a.len(),
{
    if a.len() > 0 {
        lemma_mul_row_zero_free::<C>(acc, a[0].0, a[0].1, b);
        lemma_mul_all_zero_free::<C>(mul_row::<C>(acc, a[0].0, a[0].1, b), a.drop_first(), b);
    }
}

/// The products of one term added into a list with no zero coefficient leave none.
proof fn lemma_mul_row_zero_free<C: Semiring>(
    acc: Seq<(u64, C::V)>,
    p1: u64,
    c1: C::V,
    b: Seq<(u64, C::V)>,
)
    requires
        zero_free::<C>(acc),
    ensures
        zero_free::<C>(mul_row::<C>(acc, p1, c1, b)),
    decreases b.len(),
{
    if b.len() > 0 {
        let acc2 = insert_coeff::<C>(acc, (p1 + b[0].0) as u64, C::mul_spec(c1, b[0].1));
        lemma_insert_zero_free::<C>(acc, (p1 + b[0].0) as u64, C::mul_spec(c1, b[0].1));
        lemma_mul_row_zero_free::<C>(acc2, p1, c1, b.drop_first());
    }
}

/// A product of term lists, built from nothing, is canonical.
proof fn lemma_mul_canonical<C: Semiring>(a: Seq<(u64, C::V)>, b: Seq<(u64, C::V)>)
    requires
        commutative_semiring_laws::<C>(),
        powers_fit(a, b),
    ensures
        canonical::<C>(mul_all::<C>(Seq::empty(), a, b)),
{
    lemma_poly_mul_coefficients::<C>(a, b, 0);
    lemma_mul_all_zero_free::<C>(Seq::empty(), a, b);
}

/// Splitting off the first term of `b`: its products with the terms of `a` come apart from the
/// rest.
proof fn lemma_mul_coef_split<C: Semiring>(a: Seq<(u64, C::V)>, b: Seq<(u64, C::V)>, n: u64)
    requires
        commutative_semiring_laws::<C>(),
        b.len() > 0,
    ensures
        mul_coef::<C>(a, b, n) == C::add_spec(
            row_coef::<C>(b[0].0, b[0].1, a, n),
            mul_coef::<C>(a, b.drop_first(), n),
        ),
    decreases a.len(),
{
    let b1 = b.drop_first();
    if a.len() == 0 {
        lemma_add_zero::<C>(C::zero_spec());
    } else {
        let a1 = a.drop_first();
        lemma_mul_coef_split::<C>(a1, b, n);
        let t = if a[0].0 + b[0].0 == n {
            C::mul_spec(a[0].1, b[0].1)
        } else {
            C::zero_spec()
        };
        let t2 = if b[0].0 + a[0].0 == n {
            C::mul_spec(b[0].1, a[0].1)
        } else {
            C::zero_spec()
        };
        lemma_mul_comm::<C>(a[0].1, b[0].1);
        assert(t == t2);
        lemma_add_swap::<C>(
            t,
            row_coef::<C>(a[0].0, a[0].1, b1, n),
            row_coef::<C>(b[0].0, b[0].1, a1, n),
            mul_coef::<C>(a1, b1, n),
        );
    }
}

/// With nothing on the right, no product contributes.
proof fn lemma_mul_coef_empty<C: Semiring>(a: Seq<(u64, C::V)>, n: u64)
    requires
        commutative_semiring_laws::<C>(),
    ensures
        mul_coef::<C>(a, Seq::empty(), n) == C::zero_spec(),
    decreases a.len(),
{
    if a.len() > 0 {
        lemma_mul_coef_empty::<C>(a.drop_first(), n);
        lemma_add_zero::<C>(C::zero_spec());
    }
}

/// The coefficients of a product do not depend on the order of the factors.
proof fn lemma_mul_coef_comm<C: Semiring>(a: Seq<(u64, C::V)>, b: Seq<(u64, C::V)>, n: u64)
    requires
        commutative_semiring_laws::<C>(),
    ensures
        mul_coef::<C>(a, b, n) == mul_coef::<C>(b, a, n),
    decreases b.len(),
{
    if b.len() == 0 {
        assert(b =~= Seq::<(u64, C::V)>::empty());
        lemma_mul_coef_empty::<C>(a, n);
    } else {
        lemma_mul_coef_split::<C>(a, b, n);
        lemma_mul_coef_comm::<C>(a, b.drop_first(), n);
    }
}

/// Polynomial multiplication is commutative, and its results are canonical.
pub proof fn lemma_poly_mul_commutative<C: Semiring>(a: Seq<(u64, C::V)>, b: Seq<(u64, C::V)>)
    requires
        commutative_semiring_laws::<C>(),
        powers_fit(a, b),
    ensures
        canonical::<C>(mul_all::<C>(Seq::empty(), a, b)),
        mul_all::<C>(Seq::empty(), a, b) == mul_all::<C>(Seq::empty(), b, a),
{
    let e = Seq::<(u64, C::V)>::empty();
    assert(powers_fit(b, a)) by {
        assert forall|i: int, j: int| 0 <= i < b.len() && 0 <= j < a.len() implies #[trigger] b[i].0
            + #[trigger] a[j].0 <= u64::MAX by {
            assert(a[j].0 + b[i].0 <= u64::MAX);
        }
    }
    lemma_mul_canonical::<C>(a, b);
    lemma_mul_canonical::<C>(b, a);
    assert forall|n: u64| #[trigger] coef::<C>(mul_all::<C>(e, a, b), n) == coef::<C>(
        mul_all::<C>(e, b, a),
        n,
    ) by {
        lemma_poly_mul_coefficients::<C>(a, b, n);
        lemma_poly_mul_coefficients::<C>(b, a, n);
        lemma_mul_coef_comm::<C>(a, b, n);
    }
    lemma_canonical_unique::<C>(mul_all::<C>(e, a, b), mul_all::<C>(e, b, a));
}

/// Every power of the list is at most `hi`.
pub open spec fn powers_upto<V>(s: Seq<(u64, V)>, hi: int) -> bool {
    forall|i: int| 0 <= i < s.len() ==> #[trigger] s[i].0 <= hi
}

/// The powers of a sum stay below a bound on those of its operands.
proof fn lemma_poly_add_upto<C: Semiring>(a: Seq<(u64, C::V)>, b: Seq<(u64, C::V)>, hi: int)
    requires
        powers_upto(a, hi),
        powers_upto(b, hi),
    ensures
        powers_upto(poly_add::<C>(a, b), hi),
    decreases a.len() + b.len(),
{
    if b.len() > 0 {
        let b1 = b.drop_first();
        assert forall|i: int| 0 <= i < b1.len() implies #[trigger] b1[i].0 <= hi by {
            assert(b1[i] == b[i + 1]);
        }
        let r = poly_add::<C>(a, b);
        if a.len() == 0 || b[0].0 < a[0].0 {
            lemma_poly_add_upto::<C>(a, b1, hi);
            let rest = poly_add::<C>(a, b1);
            assert forall|i: int| 0 <= i < r.len() implies #[trigger] r[i].0 <= hi by {
                if r.len() > rest.len() && i > 0 {
                    assert(r[i] == rest[i - 1]);
                } else if r.len() == rest.len() {
                    assert(r[i] == rest[i]);
                }
            }
        } else {
            let a1 = a.drop_first();
            assert forall|i: int| 0 <= i < a1.len() implies #[trigger] a1[i].0 <= hi by {
                assert(a1[i] == a[i + 1]);
            }
            let rest = if a[0].0 < b[0].0 {
                poly_add::<C>(a1, b)
            } else {
                poly_add::<C>(a1, b1)
            };
            if a[0].0 < b[0].0 {
                lemma_poly_add_upto::<C>(a1, b, hi);
            } else {
                lemma_poly_add_upto::<C>(a1, b1, hi);
            }
            assert(a[0].0 <= hi);
            assert forall|i: int| 0 <= i < r.len() implies #[trigger] r[i].0 <= hi by {
                if r.len() > rest.len() && i > 0 {
                    assert(r[i] == rest[i - 1]);
                } else if r.len() == rest.len() {
                    assert(r[i] == rest[i]);
                }
            }
        }
    }
}

/// The contribution of `c1 x^p1` times a sorted list to the coefficient of `x^n` is `c1` times
/// the coefficient of `x^(n - p1)` in the list.
proof fn lemma_row_coef_value<C: Semiring>(p1: u64, c1: C::V, b: Seq<(u64, C::V)>, n: u64)
    requires
        commutative_semiring_laws::<C>(),
        powers_sorted(b),
    ensures
        row_coef::<C>(p1, c1, b, n) == if p1 <= n {
            C::mul_spec(c1, coef::<C>(b, (n - p1) as u64))
        } else {
            C::zero_spec()
        },
    decreases b.len(),
{
    if b.len() == 0 {
        lemma_mul_one_zero::<C>(c1);
    } else {
        let b1 = b.drop_first();
        lemma_sorted_rest(b);
        lemma_row_coef_value::<C>(p1, c1, b1, n);
        let r1 = row_coef::<C>(p1, c1, b1, n);
        if p1 + b[0].0 == n {
            lemma_coef_absent::<C>(b1, b[0].0);
            lemma_mul_one_zero::<C>(c1);
            lemma_add_zero::<C>(C::mul_spec(c1, b[0].1));
        } else {
            lemma_add_zero::<C>(r1);
        }
    }
}

/// Multiplying by a sum adds the two products, coefficient by coefficient.
proof fn lemma_mul_coef_distrib<C: Semiring>(
    a: Seq<(u64, C::V)>,
    b: Seq<(u64, C::V)>,
    c: Seq<(u64, C::V)>,
    n: u64,
)
    requires
        commutative_semiring_laws::<C>(),
        powers_sorted(b),
        powers_sorted(c),
    ensures
        mul_coef::<C>(a, poly_add::<C>(b, c), n) == C::add_spec(
            mul_coef::<C>(a, b, n),
            mul_coef::<C>(a, c, n),
        ),
    decreases a.len(),
{
    let bc = poly_add::<C>(b, c);
    lemma_laws_addition::<C>();
    lemma_poly_add_coefficients::<C>(b, c);
    if a.len() == 0 {
        lemma_add_zero::<C>(C::zero_spec());
    } else {
        let a1 = a.drop_first();
        lemma_mul_coef_distrib::<C>(a1, b, c, n);
        let p = a[0].0;
        let c0 = a[0].1;
        lemma_row_coef_value::<C>(p, c0, bc, n);
        lemma_row_coef_value::<C>(p, c0, b, n);
        lemma_row_coef_value::<C>(p, c0, c, n);
        if p <= n {
            let m = (n - p) as u64;
            assert(coef::<C>(bc, m) == C::add_spec(coef::<C>(b, m), coef::<C>(c, m)));
            lemma_distrib::<C>(c0, coef::<C>(b, m), coef::<C>(c, m));
        } else {
            lemma_add_zero::<C>(C::zero_spec());
        }
        lemma_add_swap::<C>(
            row_coef::<C>(p, c0, b, n),
            row_coef::<C>(p, c0, c, n),
            mul_coef::<C>(a1, b, n),
            mul_coef::<C>(a1, c, n),
        );
    }
}

/// Polynomial multiplication distributes over addition, and the constant one is its identity
/// on canonical term lists.
pub proof fn lemma_poly_mul_distributes<C: Semiring>(
    a: Seq<(u64, C::V)>,
    b: Seq<(u64, C::V)>,
    c: Seq<(u64, C::V)>,
)
    requires
        commutative_semiring_laws::<C>(),
        canonical::<C>(b),
        canonical::<C>(c),
        powers_fit(a, b),
        powers_fit(a, c),
    ensures
        mul_all::<C>(Seq::empty(), a, poly_add::<C>(b, c)) == poly_add::<C>(
            mul_all::<C>(Seq::empty(), a, b),
            mul_all::<C>(Seq::empty(), a, c),
        ),
        mul_all::<C>(Seq::empty(), seq![(0u64, C::one_spec())], b) == b,
{
    let e = Seq::<(u64, C::V)>::empty();
    let bc = poly_add::<C>(b, c);
    let ab = mul_all::<C>(e, a, b);
    let ac = mul_all::<C>(e, a, c);
    lemma_laws_addition::<C>();
    lemma_poly_add_coefficients::<C>(b, c);
    assert(powers_fit(a, bc)) by {
        assert forall|i: int, j: int| 0 <= i < a.len() && 0 <= j < bc.len() implies #[trigger] a[i].0
            + #[trigger] bc[j].0 <= u64::MAX by {
            let hi = u64::MAX - a[i].0;
            assert forall|k: int| 0 <= k < b.len() implies #[trigger] b[k].0 <= hi by {
                assert(a[i].0 + b[k].0 <= u64::MAX);
            }
            assert forall|k: int| 0 <= k < c.len() implies #[trigger] c[k].0 <= hi by {
                assert(a[i].0 + c[k].0 <= u64::MAX);
            }
            lemma_poly_add_upto::<C>(b, c, hi);
        }
    }
    lemma_mul_canonical::<C>(a, bc);
    lemma_mul_canonical::<C>(a, b);
    lemma_mul_canonical::<C>(a, c);
    lemma_poly_add_coefficients::<C>(ab, ac);
    assert forall|n: u64| #[trigger] coef::<C>(mul_all::<C>(e, a, bc), n) == coef::<C>(
        poly_add::<C>(ab, ac),
        n,
    ) by {
        lemma_poly_mul_coefficients::<C>(a, bc, n);
        lemma_poly_mul_coefficients::<C>(a, b, n);
        lemma_poly_mul_coefficients::<C>(a, c, n);
        lemma_mul_coef_distrib::<C>(a, b, c, n);
    }
    lemma_canonical_unique::<C>(mul_all::<C>(e, a, bc), poly_add::<C>(ab, ac));
    let one = seq![(0u64, C::one_spec())];
    assert(powers_fit(one, b));
    lemma_mul_canonical::<C>(one, b);
    assert forall|n: u64| #[trigger] coef::<C>(mul_all::<C>(e, one, b), n) == coef::<C>(b, n) by {
        lemma_poly_mul_coefficients::<C>(one, b, n);
        lemma_row_coef_value::<C>(0, C::one_spec(), b, n);
        assert(one.drop_first() =~= e);
        assert(mul_coef::<C>(one.drop_first(), b, n) == C::zero_spec());
        lemma_mul_one_zero::<C>(coef::<C>(b, n));
        lemma_add_zero::<C>(coef::<C>(b, n));
        assert((n - 0) as u64 == n);
    }
    lemma_canonical_unique::<C>(mul_all::<C>(e, one, b), b);
}

/// All three-way sums of a power of `a`, of `b` and of `c` fit in `u64`.
pub open spec fn powers_fit3<V>(a: Seq<(u64, V)>, b: Seq<(u64, V)>, c: Seq<(u64, V)>) -> bool {
    forall|i: int, j: int, k: int|
        0 <= i < a.len() && 0 <= j < b.len() && 0 <= k < c.len() ==> #[trigger] a[i].0
            + #[trigger] b[j].0 + #[trigger] c[k].0 <= u64::MAX
}

/// The contributions to the coefficient of `x^n` of the products of `c1 x^p1 * d x^q`, for the
/// terms `d x^q` of `b`, each multiplied by `c`.
spec fn rowsum<C: Semiring>(
    p1: u64,
    c1: C::V,
    b: Seq<(u64, C::V)>,
    c: Seq<(u64, C::V)>,
    n: u64,
) -> C::V
    decreases b.len(),
{
    if b.len() == 0 {
        C::zero_spec()
    } else {
        C::add_spec(
            row_coef::<C>((p1 + b[0].0) as u64, C::mul_spec(c1, b[0].1), c, n),
            rowsum::<C>(p1, c1, b.drop_first(), c, n),
        )
    }
}

/// `rowsum` over the terms of `a`.
spec fn dsum<C: Semiring>(
    a: Seq<(u64, C::V)>,
    b: Seq<(u64, C::V)>,
    c: Seq<(u64, C::V)>,
    n: u64,
) -> C::V
    decreases a.len(),
{
    if a.len() == 0 {
        C::zero_spec()
    } else {
        C::add_spec(rowsum::<C>(a[0].0, a[0].1, b, c, n), dsum::<C>(a.drop_first(), b, c, n))
    }
}

/// The contribution of one term is additive in its coefficient, and zero for a zero
/// coefficient.
proof fn lemma_row_coef_linear<C: Semiring>(p: u64, x: C::V, y: C::V, c: Seq<(u64, C::V)>, n: u64)
    requires
        commutative_semiring_laws::<C>(),
    ensures
        row_coef::<C>(p, C::add_spec(x, y), c, n) == C::add_spec(
            row_coef::<C>(p, x, c, n),
            row_coef::<C>(p, y, c, n),
        ),
        row_coef::<C>(p, C::zero_spec(), c, n) == C::zero_spec(),
    decreases c.len(),
{
    lemma_add_zero::<C>(C::zero_spec());
    if c.len() > 0 {
        let c1 = c.drop_first();
        lemma_row_coef_linear::<C>(p, x, y, c1, n);
        let e = c[0].1;
        lemma_distrib::<C>(e, x, y);
        lemma_mul_one_zero::<C>(e);
        let tx = if p + c[0].0 == n { C::mul_spec(x, e) } else { C::zero_spec() };
        let ty = if p + c[0].0 == n { C::mul_spec(y, e) } else { C::zero_spec() };
        lemma_add_swap::<C>(tx, row_coef::<C>(p, x, c1, n), ty, row_coef::<C>(p, y, c1, n));
    }
}

/// Adding `v x^p` into a term list adds its contribution to each coefficient of the product
/// with `c`.
proof fn lemma_mul_coef_insert<C: Semiring>(
    acc: Seq<(u64, C::V)>,
    p: u64,
    v: C::V,
    c: Seq<(u64, C::V)>,
    n: u64,
)
    requires
        commutative_semiring_laws::<C>(),
    ensures
        mul_coef::<C>(insert_coeff::<C>(acc, p, v), c, n) == C::add_spec(
            mul_coef::<C>(acc, c, n),
            row_coef::<C>(p, v, c, n),
        ),
    decreases acc.len(),
{
    let m = mul_coef::<C>(acc, c, n);
    let rv = row_coef::<C>(p, v, c, n);
    lemma_row_coef_linear::<C>(p, C::zero_spec(), v, c, n);
    lemma_add_zero::<C>(v);
    if acc.len() == 0 || acc[0].0 > p {
        let s = C::add_spec(C::zero_spec(), v);
        if s == C::zero_spec() {
            lemma_add_zero::<C>(m);
        } else {
            assert((seq![(p, s)] + acc).drop_first() == acc);
            lemma_add_comm::<C>(rv, m);
        }
    } else if acc[0].0 == p {
        let a0 = acc[0].1;
        let s = C::add_spec(a0, v);
        let m1 = mul_coef::<C>(acc.drop_first(), c, n);
        let r0 = row_coef::<C>(p, a0, c, n);
        lemma_row_coef_linear::<C>(p, a0, v, c, n);
        if s == C::zero_spec() {
            lemma_add_comm::<C>(r0, m1);
            lemma_add_assoc::<C>(m1, r0, rv);
            lemma_add_zero::<C>(m1);
        } else {
            let u = acc.update(0, (p, s));
            assert(u.drop_first() =~= acc.drop_first());
            lemma_add_assoc::<C>(r0, m1, rv);
            lemma_add_comm::<C>(m1, rv);
            lemma_add_assoc::<C>(r0, rv, m1);
        }
    } else {
        let a1 = acc.drop_first();
        lemma_mul_coef_insert::<C>(a1, p, v, c, n);
        assert((seq![acc[0]] + insert_coeff::<C>(a1, p, v)).drop_first() == insert_coeff::<C>(
            a1,
            p,
            v,
        ));
        lemma_add_assoc::<C>(row_coef::<C>(acc[0].0, acc[0].1, c, n), mul_coef::<C>(a1, c, n), rv);
    }
}

/// Adding the products of `c1 x^p1` with `b` into a term list adds `rowsum` to each
/// coefficient of its product with `c`.
proof fn lemma_mul_coef_row<C: Semiring>(
    acc: Seq<(u64, C::V)>,
    p1: u64,
    c1: C::V,
    b: Seq<(u64, C::V)>,
    c: Seq<(u64, C::V)>,
    n: u64,
)
    requires
        commutative_semiring_laws::<C>(),
    ensures
        mul_coef::<C>(mul_row::<C>(acc, p1, c1, b), c, n) == C::add_spec(
            mul_coef::<C>(acc, c, n),
            rowsum::<C>(p1, c1, b, c, n),
        ),
    decreases b.len(),
{
    if b.len() == 0 {
        lemma_add_zero::<C>(mul_coef::<C>(acc, c, n));
    } else {
        let p = (p1 + b[0].0) as u64;
        let v = C::mul_spec(c1, b[0].1);
        let acc2 = insert_coeff::<C>(acc, p, v);
        lemma_mul_coef_insert::<C>(acc, p, v, c, n);
        lemma_mul_coef_row::<C>(acc2, p1, c1, b.drop_first(), c, n);
        lemma_add_assoc::<C>(
            mul_coef::<C>(acc, c, n),
            row_coef::<C>(p, v, c, n),
            rowsum::<C>(p1, c1, b.drop_first(), c, n),
        );
    }
}

/// Adding the products of `a` and `b` into a term list adds `dsum` to each coefficient of its
/// product with `c`.
proof fn lemma_mul_coef_all<C: Semiring>(
    acc: Seq<(u64, C::V)>,
    a: Seq<(u64, C::V)>,
    b: Seq<(u64, C::V)>,
    c: Seq<(u64, C::V)>,
    n: u64,
)
    requires
        commutative_semiring_laws::<C>(),
    ensures
        mul_coef::<C>(mul_all::<C>(acc, a, b), c, n) == C::add_spec(
            mul_coef::<C>(acc, c, n),
            dsum::<C>(a, b, c, n),
        ),
    decreases a.len(),
{
    if a.len() == 0 {
        lemma_add_zero::<C>(mul_coef::<C>(acc, c, n));
    } else {
        let acc2 = mul_row::<C>(acc, a[0].0, a[0].1, b);
        lemma_mul_coef_row::<C>(acc, a[0].0, a[0].1, b, c, n);
        lemma_mul_coef_all::<C>(acc2, a.drop_first(), b, c, n);
        lemma_add_assoc::<C>(
            mul_coef::<C>(acc, c, n),
            rowsum::<C>(a[0].0, a[0].1, b, c, n),
            dsum::<C>(a.drop_first(), b, c, n),
        );
    }
}

/// The contribution of `(ci * d) x^(p + q)` is `ci` times that of `d x^q` to the coefficient
/// of `x^(n - p)`.
proof fn lemma_row_shift<C: Semiring>(
    p: u64,
    q: u64,
    ci: C::V,
    d: C::V,
    c: Seq<(u64, C::V)>,
    n: u64,
)
    requires
        commutative_semiring_laws::<C>(),
        p + q <= u64::MAX,
    ensures
        row_coef::<C>((p + q) as u64, C::mul_spec(ci, d), c, n) == if p <= n {
            C::mul_spec(ci, row_coef::<C>(q, d, c, (n - p) as u64))
        } else {
            C::zero_spec()
        },
    decreases c.len(),
{
    lemma_mul_one_zero::<C>(ci);
    lemma_add_zero::<C>(C::zero_spec());
    if c.len() > 0 {
        let c1 = c.drop_first();
        lemma_row_shift::<C>(p, q, ci, d, c1, n);
        let e = c[0].1;
        lemma_mul_assoc::<C>(ci, d, e);
        if p <= n {
            let m = (n - p) as u64;
            let t = if q + c[0].0 == m { C::mul_spec(d, e) } else { C::zero_spec() };
            lemma_distrib::<C>(ci, t, row_coef::<C>(q, d, c1, m));
        }
    }
}

/// `rowsum` is `c1` times the coefficient of `x^(n - p1)` in the product of `b` and `c`.
proof fn lemma_rowsum_value<C: Semiring>(
    p1: u64,
    c1: C::V,
    b: Seq<(u64, C::V)>,
    c: Seq<(u64, C::V)>,
    n: u64,
)
    requires
        commutative_semiring_laws::<C>(),
        forall|k: int| 0 <= k < b.len() ==> p1 + #[trigger] b[k].0 <= u64::MAX,
    ensures
        rowsum::<C>(p1, c1, b, c, n) == if p1 <= n {
            C::mul_spec(c1, mul_coef::<C>(b, c, (n - p1) as u64))
        } else {
            C::zero_spec()
        },
    decreases b.len(),
{
    lemma_mul_one_zero::<C>(c1);
    lemma_add_zero::<C>(C::zero_spec());
    if b.len() > 0 {
        let b1 = b.drop_first();
        assert forall|k: int| 0 <= k < b1.len() implies p1 + #[trigger] b1[k].0 <= u64::MAX by {
            assert(b1[k] == b[k + 1]);
        }
        assert(p1 + b[0].0 <= u64::MAX);
        lemma_rowsum_value::<C>(p1, c1, b1, c, n);
        lemma_row_shift::<C>(p1, b[0].0, c1, b[0].1, c, n);
        if p1 <= n {
            let m = (n - p1) as u64;
            lemma_distrib::<C>(c1, row_coef::<C>(b[0].0, b[0].1, c, m), mul_coef::<C>(b1, c, m));
        }
    }
}

/// `dsum` is the coefficient of `x^n` in the product of `a` with the product of `b` and `c`.
proof fn lemma_dsum_value<C: Semiring>(
    a: Seq<(u64, C::V)>,
    b: Seq<(u64, C::V)>,
    c: Seq<(u64, C::V)>,
    n: u64,
)
    requires
        commutative_semiring_laws::<C>(),
        powers_fit(a, b),
        powers_fit(b, c),
    ensures
        dsum::<C>(a, b, c, n) == mul_coef::<C>(a, mul_all::<C>(Seq::empty(), b, c), n),
    decreases a.len(),
{
    if a.len() > 0 {
        let a1 = a.drop_first();
        let bc = mul_all::<C>(Seq::empty(), b, c);
        assert(powers_fit(a1, b)) by {
            assert forall|i: int, j: int| 0 <= i < a1.len() && 0 <= j < b.len() implies #[trigger] a1[i].0
                + #[trigger] b[j].0 <= u64::MAX by {
                assert(a1[i] == a[i + 1]);
            }
        }
        assert forall|k: int| 0 <= k < b.len() implies a[0].0 + #[trigger] b[k].0 <= u64::MAX by {
            assert(a[0].0 + b[k].0 <= u64::MAX);
        }
        lemma_dsum_value::<C>(a1, b, c, n);
        lemma_rowsum_value::<C>(a[0].0, a[0].1, b, c, n);
        lemma_poly_mul_coefficients::<C>(b, c, 0);
        lemma_row_coef_value::<C>(a[0].0, a[0].1, bc, n);
        if a[0].0 <= n {
            lemma_poly_mul_coefficients::<C>(b, c, (n - a[0].0) as u64);
        }
    }
}

/// Adding products whose powers stay below `hi` keeps every power below `hi`.
proof fn lemma_mul_all_upto<C: Semiring>(
    acc: Seq<(u64, C::V)>,
    a: Seq<(u64, C::V)>,
    b: Seq<(u64, C::V)>,
    hi: int,
)
    requires
        powers_upto(acc, hi),
        forall|i: int, j: int|
            0 <= i < a.len() && 0 <= j < b.len() ==> #[trigger] a[i].0 + #[trigger] b[j].0 <= hi,
        hi <= u64::MAX,
    ensures
        powers_upto(mul_all::<C>(acc, a, b), hi),
    decreases a.len(),
{
    if a.len() > 0 {
        let a1 = a.drop_first();
        assert forall|i: int, j: int| 0 <= i < a1.len() && 0 <= j < b.len() implies #[trigger] a1[i].0
            + #[trigger] b[j].0 <= hi by {
            assert(a1[i] == a[i + 1]);
        }
        assert forall|k: int| 0 <= k < b.len() implies a[0].0 + #[trigger] b[k].0 <= hi by {
            assert(a[0].0 + b[k].0 <= hi);
        }
        lemma_mul_row_upto::<C>(acc, a[0].0, a[0].1, b, hi);
        lemma_mul_all_upto::<C>(mul_row::<C>(acc, a[0].0, a[0].1, b), a1, b, hi);
    }
}

/// Adding the products of one term whose powers stay below `hi` keeps every power below `hi`.
proof fn lemma_mul_row_upto<C: Semiring>(
    acc: Seq<(u64, C::V)>,
    p1: u64,
    c1: C::V,
    b: Seq<(u64, C::V)>,
    hi: int,
)
    requires
        powers_upto(acc, hi),
        forall|k: int| 0 <= k < b.len() ==> p1 + #[trigger] b[k].0 <= hi,
        hi <= u64::MAX,
    ensures
        powers_upto(mul_row::<C>(acc, p1, c1, b), hi),
    decreases b.len(),
{
    if b.len() > 0 {
        let b1 = b.drop_first();
        assert forall|k: int| 0 <= k < b1.len() implies p1 + #[trigger] b1[k].0 <= hi by {
            assert(b1[k] == b[k + 1]);
        }
        assert(p1 + b[0].0 <= hi);
        let p = (p1 + b[0].0) as u64;
        lemma_insert_upto::<C>(acc, p, C::mul_spec(c1, b[0].1), hi);
        lemma_mul_row_upto::<C>(insert_coeff::<C>(acc, p, C::mul_spec(c1, b[0].1)), p1, c1, b1, hi);
    }
}

/// Adding a term whose power is at most `hi` keeps every power at most `hi`.
proof fn lemma_insert_upto<C: Semiring>(acc: Seq<(u64, C::V)>, p: u64, c: C::V, hi: int)
    requires
        powers_upto(acc, hi),
        p <= hi,
    ensures
        powers_upto(insert_coeff::<C>(acc, p, c), hi),
    decreases acc.len(),
{
    let r = insert_coeff::<C>(acc, p, c);
    if acc.len() == 0 || acc[0].0 > p {
        assert forall|i: int| 0 <= i < r.len() implies #[trigger] r[i].0 <= hi by {
            if r.len() > acc.len() && i > 0 {
                assert(r[i] == acc[i - 1]);
            }
        }
    } else if acc[0].0 == p {
        assert forall|i: int| 0 <= i < r.len() implies #[trigger] r[i].0 <= hi by {
            if r.len() < acc.len() {
                assert(r[i] == acc[i + 1]);
            } else if i > 0 {
                assert(r[i] == acc[i]);
            }
        }
    } else {
        let a1 = acc.drop_first();
        assert forall|i: int| 0 <= i < a1.len() implies #[trigger] a1[i].0 <= hi by {
            assert(a1[i] == acc[i + 1]);
        }
        lemma_insert_upto::<C>(a1, p, c, hi);
        let rest = insert_coeff::<C>(a1, p, c);
        assert forall|i: int| 0 <= i < r.len() implies #[trigger] r[i].0 <= hi by {
            if i > 0 {
                assert(r[i] == rest[i - 1]);
            }
        }
    }
}

/// Polynomial multiplication is associative.
pub proof fn lemma_poly_mul_associative<C: Semiring>(
    a: Seq<(u64, C::V)>,
    b: Seq<(u64, C::V)>,
    c: Seq<(u64, C::V)>,
)
    requires
        commutative_semiring_laws::<C>(),
        powers_fit(a, b),
        powers_fit(b, c),
        powers_fit3(a, b, c),
    ensures
        mul_all::<C>(Seq::empty(), mul_all::<C>(Seq::empty(), a, b), c) == mul_all::<C>(
            Seq::empty(),
            a,
            mul_all::<C>(Seq::empty(), b, c),
        ),
{
    let e = Seq::<(u64, C::V)>::empty();
    let ab = mul_all::<C>(e, a, b);
    let bc = mul_all::<C>(e, b, c);
    assert(powers_fit(ab, c)) by {
        assert forall|i: int, k: int| 0 <= i < ab.len() && 0 <= k < c.len() implies #[trigger] ab[i].0
            + #[trigger] c[k].0 <= u64::MAX by {
            let hi = u64::MAX - c[k].0;
            assert forall|x: int, y: int| 0 <= x < a.len() && 0 <= y < b.len() implies #[trigger] a[x].0
                + #[trigger] b[y].0 <= hi by {
                assert(a[x].0 + b[y].0 + c[k].0 <= u64::MAX);
            }
            lemma_mul_all_upto::<C>(e, a, b, hi);
        }
    }
    assert(powers_fit(a, bc)) by {
        assert forall|i: int, k: int| 0 <= i < a.len() && 0 <= k < bc.len() implies #[trigger] a[i].0
            + #[trigger] bc[k].0 <= u64::MAX by {
            let hi = u64::MAX - a[i].0;
            assert forall|x: int, y: int| 0 <= x < b.len() && 0 <= y < c.len() implies #[trigger] b[x].0
                + #[trigger] c[y].0 <= hi by {
                assert(a[i].0 + b[x].0 + c[y].0 <= u64::MAX);
            }
            lemma_mul_all_upto::<C>(e, b, c, hi);
        }
    }
    lemma_mul_canonical::<C>(ab, c);
    lemma_mul_canonical::<C>(a, bc);
    assert forall|n: u64| #[trigger] coef::<C>(mul_all::<C>(e, ab, c), n) == coef::<C>(
        mul_all::<C>(e, a, bc),
        n,
    ) by {
        lemma_poly_mul_coefficients::<C>(ab, c, n);
        lemma_poly_mul_coefficients::<C>(a, bc, n);
        lemma_mul_coef_all::<C>(e, a, b, c, n);
        assert(mul_coef::<C>(e, c, n) == C::zero_spec());
        lemma_add_zero::<C>(dsum::<C>(a, b, c, n));
        lemma_dsum_value::<C>(a, b, c, n);
    }
    lemma_canonical_unique::<C>(mul_all::<C>(e, ab, c), mul_all::<C>(e, a, bc));
}

} // verus!
