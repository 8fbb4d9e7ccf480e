//! Polynomials with coefficients in a semiring.
use vstd::prelude::*;
use crate::semiring::{Semiring, from_usize, from_usize_spec, from_usize_ok};

verus! {

/// The view of a list of `(power, coefficient)` pairs.
pub open spec fn pview<C: View>(v: Seq<(u64, C)>) -> Seq<(u64, C::V)> {
    v.map_values(|e: (u64, C)| (e.0, e.1@))
}

/// The powers of a term list strictly increase.
pub open spec fn powers_sorted<V>(s: Seq<(u64, V)>) -> bool {
    forall|i: int, j: int| 0 <= i < j < s.len() ==> #[trigger] s[i].0 < #[trigger] s[j].0
}

/// The sum of two term lists, merged by increasing power. A term present in both is the sum of
/// the two coefficients; a term only on the right is added to zero; a sum equal to zero is
/// dropped.
pub open spec fn poly_add<C: Semiring>(a: Seq<(u64, C::V)>, b: Seq<(u64, C::V)>) -> Seq<
    (u64, C::V),
>
    decreases a.len() + b.len(),
{
    if b.len() == 0 {
        a
    } else if a.len() == 0 || b[0].0 < a[0].0 {
        let c = C::add_spec(C::zero_spec(), b[0].1);
        let rest = poly_add::<C>(a, b.drop_first());
        if c == C::zero_spec() {
            rest
        } else {
            seq![(b[0].0, c)] + rest
        }
    } else if a[0].0 < b[0].0 {
        seq![a[0]] + poly_add::<C>(a.drop_first(), b)
    } else {
        let c = C::add_spec(a[0].1, b[0].1);
        let rest = poly_add::<C>(a.drop_first(), b.drop_first());
        if c == C::zero_spec() {
            rest
        } else {
            seq![(a[0].0, c)] + rest
        }
    }
}

/// Every coefficient addition made by `poly_add` stays within the representation.
pub open spec fn poly_add_ok<C: Semiring>(a: Seq<(u64, C::V)>, b: Seq<(u64, C::V)>) -> bool
    decreases a.len() + b.len(),
{
    if b.len() == 0 {
        true
    } else if a.len() == 0 || b[0].0 < a[0].0 {
        C::add_ok(C::zero_spec(), b[0].1) && poly_add_ok::<C>(a, b.drop_first())
    } else if a[0].0 < b[0].0 {
        poly_add_ok::<C>(a.drop_first(), b)
    } else {
        C::add_ok(a[0].1, b[0].1) && poly_add_ok::<C>(a.drop_first(), b.drop_first())
    }
}

/// Adds `c x^p` to a sorted term list: the coefficient at power `p` (zero when absent) gets `c`
/// added, and the term is dropped when the sum is zero.
pub open spec fn insert_coeff<C: Semiring>(acc: Seq<(u64, C::V)>, p: u64, c: C::V) -> Seq<
    (u64, C::V),
>
    decreases acc.len(),
{
    if acc.len() == 0 || acc[0].0 > p {
        let s = C::add_spec(C::zero_spec(), c);
        if s == C::zero_spec() {
            acc
        } else {
            seq![(p, s)] + acc
        }
    } else if acc[0].0 == p {
        let s = C::add_spec(acc[0].1, c);
        if s == C::zero_spec() {
            acc.drop_first()
        } else {
            acc.update(0, (p, s))
        }
    } else {
        seq![acc[0]] + insert_coeff::<C>(acc.drop_first(), p, c)
    }
}

/// The addition made by `insert_coeff` stays within the representation.
pub open spec fn insert_ok<C: Semiring>(acc: Seq<(u64, C::V)>, p: u64, c: C::V) -> bool
    decreases acc.len(),
{
    if acc.len() == 0 || acc[0].0 > p {
        C::add_ok(C::zero_spec(), c)
    } else if acc[0].0 == p {
        C::add_ok(acc[0].1, c)
    } else {
        insert_ok::<C>(acc.drop_first(), p, c)
    }
}

/// Adds the products of the term `c1 x^p1` with every term of `b`, in order.
pub open spec fn mul_row<C: Semiring>(
    acc: Seq<(u64, C::V)>,
    p1: u64,
    c1: C::V,
    b: Seq<(u64, C::V)>,
) -> Seq<(u64, C::V)>
    decreases b.len(),
{
    if b.len() == 0 {
        acc
    } else {
        mul_row::<C>(
            insert_coeff::<C>(acc, (p1 + b[0].0) as u64, C::mul_spec(c1, b[0].1)),
            p1,
            c1,
            b.drop_first(),
        )
    }
}

/// The operations of `mul_row` stay within the representation.
pub open spec fn mul_row_ok<C: Semiring>(
    acc: Seq<(u64, C::V)>,
    p1: u64,
    c1: C::V,
    b: Seq<(u64, C::V)>,
) -> bool
    decreases b.len(),
{
    b.len() == 0 || {
        &&& p1 + b[0].0 <= u64::MAX
        &&& C::mul_ok(c1, b[0].1)
        &&& insert_ok::<C>(acc, (p1 + b[0].0) as u64, C::mul_spec(c1, b[0].1))
        &&& mul_row_ok::<C>(
            insert_coeff::<C>(acc, (p1 + b[0].0) as u64, C::mul_spec(c1, b[0].1)),
            p1,
            c1,
            b.drop_first(),
        )
    }
}

/// Adds the products of every term of `a` with every term of `b`, row by row.
pub open spec fn mul_all<C: Semiring>(
    acc: Seq<(u64, C::V)>,
    a: Seq<(u64, C::V)>,
    b: Seq<(u64, C::V)>,
) -> Seq<(u64, C::V)>
    decreases a.len(),
{
    if a.len() == 0 {
        acc
    } else {
        mul_all::<C>(mul_row::<C>(acc, a[0].0, a[0].1, b), a.drop_first(), b)
    }
}

/// The operations of `mul_all` stay within the representation.
pub open spec fn mul_all_ok<C: Semiring>(
    acc: Seq<(u64, C::V)>,
    a: Seq<(u64, C::V)>,
    b: Seq<(u64, C::V)>,
) -> bool
    decreases a.len(),
{
    a.len() == 0 || (mul_row_ok::<C>(acc, a[0].0, a[0].1, b) && mul_all_ok::<C>(
        mul_row::<C>(acc, a[0].0, a[0].1, b),
        a.drop_first(),
        b,
    ))
}

/// `x^n`: `one` multiplied by `x`, `n` times.
pub open spec fn power_spec<C: Semiring>(x: C::V, n: nat) -> C::V
    decreases n,
{
    if n == 0 {
        C::one_spec()
    } else {
        C::mul_spec(power_spec::<C>(x, (n - 1) as nat), x)
    }
}

/// Every multiplication of `power_spec` stays within the representation.
pub open spec fn power_ok<C: Semiring>(x: C::V, n: nat) -> bool
    decreases n,
{
    n == 0 || (power_ok::<C>(x, (n - 1) as nat) && C::mul_ok(
        power_spec::<C>(x, (n - 1) as nat),
        x,
    ))
}

/// Adds `x^p * c` to `total` for every term `c x^p`, in order.
pub open spec fn eval_fold<C: Semiring>(total: C::V, s: Seq<(u64, C::V)>, x: C::V) -> C::V
    decreases s.len(),
{
    if s.len() == 0 {
        total
    } else {
        eval_fold::<C>(
            C::add_spec(total, C::mul_spec(power_spec::<C>(x, s[0].0 as nat), s[0].1)),
            s.drop_first(),
            x,
        )
    }
}

/// The operations of `eval_fold` stay within the representation.
pub open spec fn eval_ok<C: Semiring>(total: C::V, s: Seq<(u64, C::V)>, x: C::V) -> bool
    decreases s.len(),
{
    s.len() == 0 || {
        &&& power_ok::<C>(x, s[0].0 as nat)
        &&& C::mul_ok(power_spec::<C>(x, s[0].0 as nat), s[0].1)
        &&& C::add_ok(total, C::mul_spec(power_spec::<C>(x, s[0].0 as nat), s[0].1))
        &&& eval_ok::<C>(
            C::add_spec(total, C::mul_spec(power_spec::<C>(x, s[0].0 as nat), s[0].1)),
            s.drop_first(),
            x,
        )
    }
}

/// Polynomials with coefficients in `C`, as terms `(power, coefficient)` ordered by increasing
/// power. For example `x^2 + 5x + 6` has the terms `(0, 6), (1, 5), (2, 1)`.
#[derive(Debug)]
pub struct Polynomial<C> {
    coefficients: Vec<(u64, C)>,
}

impl<C: View> View for Polynomial<C> {
    type V = Seq<(u64, C::V)>;

    closed spec fn view(&self) -> Seq<(u64, C::V)> {
        pview(self.coefficients@)
    }
}

impl<C: Semiring> Polynomial<C> {
    /// Powers strictly increase and every coefficient is well formed.
    pub closed spec fn wf_poly(&self) -> bool {
        &&& powers_sorted(self@)
        &&& forall|i: int|
            0 <= i < self.coefficients@.len() ==> (#[trigger] self.coefficients@[i]).1.wf()
    }

    /// A polynomial of a single term `a x^n`.
    fn single(a: C, n: u64) -> (r: Self)
        requires
            a.wf(),
        ensures
            r.wf_poly(),
            r@ == seq![(n, a@)],
    {
        let mut coefficients = Vec::new();
        coefficients.push((n, a));
        let r = Polynomial { coefficients };
        assert(r@ =~= seq![(n, a@)]);
        r
    }

    /// Constructs polynomial `x`.
    pub fn x() -> (r: Self)
        ensures
            r.wf_poly(),
            r@ == seq![(1u64, C::one_spec())],
    {
        Self::single(C::one(), 1)
    }

    /// Constructs polynomial `ax^n`.
    pub fn term(a: C, n: u64) -> (r: Self)
        requires
            a.wf(),
        ensures
            r.wf_poly(),
            r@ == seq![(n, a@)],
    {
        Self::single(a, n)
    }

    /// The constant polynomial `value`.
    pub fn from(value: C) -> (r: Self)
        requires
            value.wf(),
        ensures
            r.wf_poly(),
            r@ == seq![(0u64, value@)],
    {
        Self::single(value, 0)
    }

    /// Evaluates the polynomial at `value`: the sum of `value^n * a` over the terms `a x^n`, in
    /// order of increasing power, where `value^n` is `one` multiplied by `value` `n` times.
    pub fn eval(&self, value: C) -> (r: C)
        requires
            self.wf_poly(),
            value.wf(),
            eval_ok::<C>(C::zero_spec(), self@, value@),
        ensures
            r.wf(),
            r@ == eval_fold::<C>(C::zero_spec(), self@, value@),
    {
        let mut total = C::zero();
        let n = self.coefficients.len();
        let mut k: usize = 0;
        assert(self@.subrange(0, n as int) == self@);
        while k < n
            invariant
                n == self.coefficients@.len(),
                k <= n,
                self.wf_poly(),
                value.wf(),
                total.wf(),
                eval_fold::<C>(total@, self@.subrange(k as int, n as int), value@)
                    == eval_fold::<C>(C::zero_spec(), self@, value@),
                eval_ok::<C>(total@, self@.subrange(k as int, n as int), value@),
            decreases n - k,
        {
            let entry = &self.coefficients[k];
            let power = entry.0;
            let coeff = &entry.1;
            assert(self@[k as int] == (power, coeff@));
            let ghost rest = self@.subrange(k as int, n as int);
            assert(rest[0] == self@[k as int]);
            assert(rest.drop_first() == self@.subrange(k + 1, n as int));
            let mut x_to_n = C::one();
            let mut e: u64 = 0;
            while e < power
                invariant
                    e <= power,
                    value.wf(),
                    x_to_n.wf(),
                    x_to_n@ == power_spec::<C>(value@, e as nat),
                    power_ok::<C>(value@, power as nat),
                decreases power - e,
            {
                proof {
                    lemma_power_ok_prefix::<C>(value@, (e + 1) as nat, power as nat);
                }
                x_to_n = x_to_n.mul(&value);
                e = e + 1;
            }
            let term_val = x_to_n.mul(coeff);
            total = total.add(&term_val);
            k = k + 1;
        }
        assert(self@.subrange(0, n as int) == self@);
        total
    }

    /// The sum of two polynomials, merging the terms by increasing power.
    pub fn add_poly(&self, rhs: &Self) -> (r: Self)
        requires
            self.wf_poly(),
            rhs.wf_poly(),
            poly_add_ok::<C>(self@, rhs@),
        ensures
            r.wf_poly(),
            r@ == poly_add::<C>(self@, rhs@),
    {
        let a = &self.coefficients;
        let b = &rhs.coefficients;
        let la = a.len();
        let lb = b.len();
        let mut result: Vec<(u64, C)> = Vec::new();
        let mut i: usize = 0;
        let mut j: usize = 0;
        assert(self@.subrange(0, la as int) == self@);
        assert(rhs@.subrange(0, lb as int) == rhs@);
        while i < la || j < lb
            invariant
                la == a@.len(),
                lb == b@.len(),
                i <= la,
                j <= lb,
                self.wf_poly(),
                rhs.wf_poly(),
                a == self.coefficients,
                b == rhs.coefficients,
                pview(result@) + poly_add::<C>(
                    self@.subrange(i as int, la as int),
                    rhs@.subrange(j as int, lb as int),
                ) == poly_add::<C>(self@, rhs@),
                poly_add_ok::<C>(
                    self@.subrange(i as int, la as int),
                    rhs@.subrange(j as int, lb as int),
                ),
                powers_sorted(pview(result@)),
                result@.len() > 0 && i < la ==> result@.last().0 < self@[i as int].0,
                result@.len() > 0 && j < lb ==> result@.last().0 < rhs@[j as int].0,
                forall|k: int| 0 <= k < result@.len() ==> (#[trigger] result@[k]).1.wf(),
            decreases la - i + lb - j,
        {
            let ghost sa = self@.subrange(i as int, la as int);
            let ghost sb = rhs@.subrange(j as int, lb as int);
            let ghost old_result = result@;
            proof {
                if i < la {
                    assert(sa[0] == self@[i as int]);
                    assert(sa.drop_first() == self@.subrange(i + 1, la as int));
                }
                if j < lb {
                    assert(sb[0] == rhs@[j as int]);
                    assert(sb.drop_first() == rhs@.subrange(j + 1, lb as int));
                }
            }
            if j == lb {
                let e = &a[i];
                let c = e.1.duplicate();
                result.push((e.0, c));
                proof {
                    lemma_sorted_push(pview(old_result), (e.0, c@));
                    assert(pview(result@) == pview(old_result).push((e.0, c@)));
                }
                i = i + 1;
            } else if i == la || b[j].0 < a[i].0 {
                let e = &b[j];
                let z = C::zero();
                let c = z.add(&e.1);
                if !c.is_zero() {
                    result.push((e.0, c));
                    proof {
                        lemma_sorted_push(pview(old_result), (e.0, c@));
                        assert(pview(result@) == pview(old_result).push((e.0, c@)));
                    }
                }
                j = j + 1;
            } else if a[i].0 < b[j].0 {
                let e = &a[i];
                let c = e.1.duplicate();
                result.push((e.0, c));
                proof {
                    lemma_sorted_push(pview(old_result), (e.0, c@));
                    assert(pview(result@) == pview(old_result).push((e.0, c@)));
                }
                i = i + 1;
            } else {
                let e = &a[i];
                let f = &b[j];
                let c = e.1.add(&f.1);
                if !c.is_zero() {
                    result.push((e.0, c));
                    proof {
                        lemma_sorted_push(pview(old_result), (e.0, c@));
                        assert(pview(result@) == pview(old_result).push((e.0, c@)));
                    }
                }
                i = i + 1;
                j = j + 1;
            }
            proof {
                lemma_sorted_tail(self@, i as nat);
                lemma_sorted_tail(rhs@, j as nat);
            }
        }
        assert(self@.subrange(i as int, la as int) == Seq::<(u64, C::V)>::empty());
        assert(rhs@.subrange(j as int, lb as int) == Seq::<(u64, C::V)>::empty());
        Polynomial { coefficients: result }
    }

    /// Whether every coefficient addition of `add_poly` stays within the representation.
    pub fn can_add_poly(&self, rhs: &Self) -> (r: bool)
        requires
            self.wf_poly(),
            rhs.wf_poly(),
        ensures
            r == poly_add_ok::<C>(self@, rhs@),
    {
        let a = &self.coefficients;
        let b = &rhs.coefficients;
        let la = a.len();
        let lb = b.len();
        let mut i: usize = 0;
        let mut j: usize = 0;
        assert(self@.subrange(0, la as int) == self@);
        assert(rhs@.subrange(0, lb as int) == rhs@);
        while j < lb
            invariant
                la == a@.len(),
                lb == b@.len(),
                i <= la,
                j <= lb,
                self.wf_poly(),
                rhs.wf_poly(),
                a == self.coefficients,
                b == rhs.coefficients,
                poly_add_ok::<C>(
                    self@.subrange(i as int, la as int),
                    rhs@.subrange(j as int, lb as int),
                ) == poly_add_ok::<C>(self@, rhs@),
            decreases la - i + lb - j,
        {
            let ghost sa = self@.subrange(i as int, la as int);
            let ghost sb = rhs@.subrange(j as int, lb as int);
            proof {
                if i < la {
                    assert(sa[0] == self@[i as int]);
                    assert(sa.drop_first() == self@.subrange(i + 1, la as int));
                }
                assert(sb[0] == rhs@[j as int]);
                assert(sb.drop_first() == rhs@.subrange(j + 1, lb as int));
            }
            if i == la || b[j].0 < a[i].0 {
                let z = C::zero();
                if !z.can_add(&b[j].1) {
                    return false;
                }
                j = j + 1;
            } else if a[i].0 < b[j].0 {
                i = i + 1;
            } else {
                if !a[i].1.can_add(&b[j].1) {
                    return false;
                }
                i = i + 1;
                j = j + 1;
            }
        }
        assert(rhs@.subrange(j as int, lb as int) == Seq::<(u64, C::V)>::empty());
        true
    }

    /// The product of two polynomials: the product of every pair of terms is added into the
    /// result, row by row, dropping coefficients that sum to zero.
    pub fn mul_poly(&self, rhs: &Self) -> (r: Self)
        requires
            self.wf_poly(),
            rhs.wf_poly(),
            mul_all_ok::<C>(Seq::empty(), self@, rhs@),
        ensures
            r.wf_poly(),
            r@ == mul_all::<C>(Seq::empty(), self@, rhs@),
    {
        let a = &self.coefficients;
        let b = &rhs.coefficients;
        let la = a.len();
        let lb = b.len();
        let mut result: Vec<(u64, C)> = Vec::new();
        let mut i: usize = 0;
        assert(self@.subrange(0, la as int) == self@);
        assert(rhs@.subrange(0, lb as int) == rhs@);
        assert(pview(result@) == Seq::<(u64, C::V)>::empty());
        while i < la
            invariant
                la == a@.len(),
                lb == b@.len(),
                i <= la,
                self.wf_poly(),
                rhs.wf_poly(),
                a == self.coefficients,
                b == rhs.coefficients,
                mul_all::<C>(pview(result@), self@.subrange(i as int, la as int), rhs@)
                    == mul_all::<C>(Seq::empty(), self@, rhs@),
                mul_all_ok::<C>(pview(result@), self@.subrange(i as int, la as int), rhs@),
                powers_sorted(pview(result@)),
                forall|k: int| 0 <= k < result@.len() ==> (#[trigger] result@[k]).1.wf(),
            decreases la - i,
        {
            let ghost sa = self@.subrange(i as int, la as int);
            assert(sa[0] == self@[i as int]);
            assert(sa.drop_first() == self@.subrange(i + 1, la as int));
            let e = &a[i];
            let p1 = e.0;
            let c1 = &e.1;
            assert(self@[i as int] == (p1, c1@));
            assert(rhs@.subrange(0, lb as int) == rhs@);
            let mut j: usize = 0;
            while j < lb
                invariant
                    la == a@.len(),
                    lb == b@.len(),
                    i < la,
                    j <= lb,
                    self.wf_poly(),
                    rhs.wf_poly(),
                    a == self.coefficients,
                    b == rhs.coefficients,
                    c1.wf(),
                    mul_all::<C>(
                        mul_row::<C>(pview(result@), p1, c1@, rhs@.subrange(j as int, lb as int)),
                        self@.subrange(i + 1, la as int),
                        rhs@,
                    ) == mul_all::<C>(Seq::empty(), self@, rhs@),
                    mul_row_ok::<C>(pview(result@), p1, c1@, rhs@.subrange(j as int, lb as int)),
                    mul_all_ok::<C>(
                        mul_row::<C>(pview(result@), p1, c1@, rhs@.subrange(j as int, lb as int)),
                        self@.subrange(i + 1, la as int),
                        rhs@,
                    ),
                    powers_sorted(pview(result@)),
                    forall|k: int| 0 <= k < result@.len() ==> (#[trigger] result@[k]).1.wf(),
                decreases lb - j,
            {
                let ghost sb = rhs@.subrange(j as int, lb as int);
                assert(sb[0] == rhs@[j as int]);
                assert(sb.drop_first() == rhs@.subrange(j + 1, lb as int));
                let f = &b[j];
                assert(rhs@[j as int] == (f.0, f.1@));
                let p = p1 + f.0;
                let c = c1.mul(&f.1);
                insert_coeff_exec(&mut result, p, c);
                j = j + 1;
            }
            assert(rhs@.subrange(lb as int, lb as int) == Seq::<(u64, C::V)>::empty());
            i = i + 1;
        }
        assert(self@.subrange(la as int, la as int) == Seq::<(u64, C::V)>::empty());
        Polynomial { coefficients: result }
    }

    /// A copy of `self`.
    pub fn duplicate_poly(&self) -> (r: Self)
        requires
            self.wf_poly(),
        ensures
            r.wf_poly(),
            r@ == self@,
    {
        let mut coefficients: Vec<(u64, C)> = Vec::new();
        let n = self.coefficients.len();
        let mut k: usize = 0;
        while k < n
            invariant
                n == self.coefficients@.len(),
                k <= n,
                self.wf_poly(),
                coefficients@.len() == k,
                pview(coefficients@) == self@.take(k as int),
                forall|i: int| 0 <= i < k ==> (#[trigger] coefficients@[i]).1.wf(),
            decreases n - k,
        {
            let entry = &self.coefficients[k];
            let c = entry.1.duplicate();
            coefficients.push((entry.0, c));
            k = k + 1;
            assert(pview(coefficients@) =~= self@.take(k as int));
        }
        let r = Polynomial { coefficients };
        assert(self@.take(n as int) =~= self@);
        r
    }
}

impl<C: Semiring> Semiring for Polynomial<C> {
    open spec fn zero_spec() -> Seq<(u64, C::V)> {
        Seq::empty()
    }

    open spec fn one_spec() -> Seq<(u64, C::V)> {
        seq![(0u64, C::one_spec())]
    }

    open spec fn add_spec(a: Seq<(u64, C::V)>, b: Seq<(u64, C::V)>) -> Seq<(u64, C::V)> {
        poly_add::<C>(a, b)
    }

    open spec fn mul_spec(a: Seq<(u64, C::V)>, b: Seq<(u64, C::V)>) -> Seq<(u64, C::V)> {
        mul_all::<C>(Seq::empty(), a, b)
    }

    open spec fn add_ok(a: Seq<(u64, C::V)>, b: Seq<(u64, C::V)>) -> bool {
        poly_add_ok::<C>(a, b)
    }

    open spec fn mul_ok(a: Seq<(u64, C::V)>, b: Seq<(u64, C::V)>) -> bool {
        mul_all_ok::<C>(Seq::empty(), a, b)
    }

    open spec fn wf(&self) -> bool {
        self.wf_poly()
    }

    fn zero() -> (r: Self) {
        let r = Polynomial { coefficients: Vec::new() };
        assert(r@ =~= Seq::<(u64, C::V)>::empty());
        r
    }

    fn one() -> (r: Self) {
        Self::single(C::one(), 0)
    }

    fn add(&self, rhs: &Self) -> (r: Self) {
        self.add_poly(rhs)
    }

    fn mul(&self, rhs: &Self) -> (r: Self) {
        self.mul_poly(rhs)
    }

    fn is_zero(&self) -> (r: bool) {
        let r = self.coefficients.len() == 0;
        assert(r ==> self@ =~= Seq::<(u64, C::V)>::empty());
        assert(self@.len() == self.coefficients@.len());
        r
    }

    fn can_add(&self, rhs: &Self) -> (r: bool) {
        self.can_add_poly(rhs)
    }

    fn duplicate(&self) -> (r: Self) {
        self.duplicate_poly()
    }
}

/// Adds `c x^p` into the sorted term list `result`, as `insert_coeff` describes.
fn insert_coeff_exec<C: Semiring>(result: &mut Vec<(u64, C)>, p: u64, c: C)
    requires
        powers_sorted(pview(old(result)@)),
        forall|i: int| 0 <= i < old(result)@.len() ==> (#[trigger] old(result)@[i]).1.wf(),
        c.wf(),
        insert_ok::<C>(pview(old(result)@), p, c@),
    ensures
        pview(final(result)@) == insert_coeff::<C>(pview(old(result)@), p, c@),
        powers_sorted(pview(final(result)@)),
        forall|i: int| 0 <= i < final(result)@.len() ==> (#[trigger] final(result)@[i]).1.wf(),
{
    let ghost acc = pview(result@);
    let n = result.len();
    let mut k: usize = 0;
    while k < n && result[k].0 < p
        invariant
            n == result@.len(),
            k <= n,
            acc == pview(result@),
            forall|i: int| 0 <= i < k ==> #[trigger] acc[i].0 < p,
        decreases n - k,
    {
        k = k + 1;
    }
    proof {
        lemma_insert_split::<C>(acc, k as nat, p, c@);
    }
    let ghost rest = acc.skip(k as int);
    if k < n && result[k].0 == p {
        assert(rest[0] == acc[k as int]);
        let s = result[k].1.add(&c);
        if s.is_zero() {
            let _ = result.remove(k);
            proof {
                assert(pview(result@) =~= acc.take(k as int) + rest.drop_first());
                lemma_sorted_remove(acc, k as nat);
                assert(acc.remove(k as int) =~= pview(result@));
            }
        } else {
            let ghost s_view = s@;
            result.set(k, (p, s));
            proof {
                assert(pview(result@) =~= acc.take(k as int) + rest.update(0, (p, s_view)));
                assert(pview(result@) =~= acc.update(k as int, (p, s_view)));
                lemma_sorted_update(acc, k as nat, (p, s_view));
            }
        }
    } else {
        let z = C::zero();
        let s = z.add(&c);
        if !s.is_zero() {
            let ghost s_view = s@;
            result.insert(k, (p, s));
            proof {
                assert(pview(result@) =~= acc.take(k as int) + (seq![(p, s_view)] + rest));
                assert(pview(result@) =~= acc.insert(k as int, (p, s_view)));
                lemma_sorted_insert(acc, k as nat, (p, s_view));
            }
        } else {
            assert(acc.take(k as int) + rest =~= acc);
        }
    }
}

/// Adding into a sorted list can skip the prefix of terms with smaller powers.
pub proof fn lemma_insert_split<C: Semiring>(acc: Seq<(u64, C::V)>, k: nat, p: u64, c: C::V)
    requires
        k <= acc.len(),
        forall|i: int| 0 <= i < k ==> #[trigger] acc[i].0 < p,
    ensures
        insert_coeff::<C>(acc, p, c) == acc.take(k as int) + insert_coeff::<C>(
            acc.skip(k as int),
            p,
            c,
        ),
        insert_ok::<C>(acc, p, c) == insert_ok::<C>(acc.skip(k as int), p, c),
    decreases k,
{
    if k > 0 {
        let t = acc.drop_first();
        assert forall|i: int| 0 <= i < k - 1 implies #[trigger] t[i].0 < p by {
            assert(t[i] == acc[i + 1]);
        }
        lemma_insert_split::<C>(t, (k - 1) as nat, p, c);
        assert(t.skip(k - 1) == acc.skip(k as int));
        assert(acc.take(k as int) == seq![acc[0]] + t.take(k - 1));
        assert(acc[0].0 < p);
    } else {
        assert(acc.take(0) + insert_coeff::<C>(acc, p, c) == insert_coeff::<C>(acc, p, c));
        assert(acc.skip(0) == acc);
    }
}

/// Removing a term keeps a term list sorted.
pub proof fn lemma_sorted_remove<V>(s: Seq<(u64, V)>, k: nat)
    requires
        powers_sorted(s),
        k < s.len(),
    ensures
        powers_sorted(s.remove(k as int)),
{
    let t = s.remove(k as int);
    assert forall|i: int, j: int| 0 <= i < j < t.len() implies #[trigger] t[i].0 < #[trigger] t[j].0 by {
        let i2 = if i < k { i } else { i + 1 };
        let j2 = if j < k { j } else { j + 1 };
        assert(t[i] == s[i2] && t[j] == s[j2]);
    }
}

/// Replacing a term by one of the same power keeps a term list sorted.
pub proof fn lemma_sorted_update<V>(s: Seq<(u64, V)>, k: nat, e: (u64, V))
    requires
        powers_sorted(s),
        k < s.len(),
        e.0 == s[k as int].0,
    ensures
        powers_sorted(s.update(k as int, e)),
{
    let t = s.update(k as int, e);
    assert forall|i: int, j: int| 0 <= i < j < t.len() implies #[trigger] t[i].0 < #[trigger] t[j].0 by {
        assert(t[i].0 == s[i].0 && t[j].0 == s[j].0);
    }
}

/// Inserting a term between a smaller and a larger power keeps a term list sorted.
pub proof fn lemma_sorted_insert<V>(s: Seq<(u64, V)>, k: nat, e: (u64, V))
    requires
        powers_sorted(s),
        k <= s.len(),
        k > 0 ==> s[k - 1].0 < e.0,
        k < s.len() ==> e.0 < s[k as int].0,
    ensures
        powers_sorted(s.insert(k as int, e)),
{
    let t = s.insert(k as int, e);
    assert forall|i: int, j: int| 0 <= i < j < t.len() implies #[trigger] t[i].0 < #[trigger] t[j].0 by {
        if i < k && j < k {
            assert(t[i] == s[i] && t[j] == s[j]);
        } else if i < k && j == k {
            assert(t[i] == s[i]);
            if i < k - 1 {
                assert(s[i].0 < s[k - 1].0);
            }
        } else if i < k {
            assert(t[i] == s[i] && t[j] == s[j - 1]);
        } else if i == k {
            assert(t[j] == s[j - 1]);
            if j - 1 > k {
                assert(s[k as int].0 < s[j - 1].0);
            }
        } else {
            assert(t[i] == s[i - 1] && t[j] == s[j - 1]);
        }
    }
}

/// Appending a term with a larger power than the last keeps a term list sorted.
pub proof fn lemma_sorted_push<V>(s: Seq<(u64, V)>, e: (u64, V))
    requires
        powers_sorted(s),
        s.len() > 0 ==> s.last().0 < e.0,
    ensures
        powers_sorted(s.push(e)),
{
    let t = s.push(e);
    assert forall|i: int, j: int| 0 <= i < j < t.len() implies #[trigger] t[i].0 < #[trigger] t[j].0 by {
        if j == s.len() {
            if i < s.len() - 1 {
                assert(s[i].0 < s[s.len() - 1].0);
            }
        } else {
            assert(t[i] == s[i] && t[j] == s[j]);
        }
    }
}

/// In a sorted term list, the term at `i` has a smaller power than every later term.
pub proof fn lemma_sorted_tail<V>(s: Seq<(u64, V)>, i: nat)
    requires
        powers_sorted(s),
    ensures
        forall|k: int| i < k < s.len() ==> s[i as int].0 < #[trigger] s[k].0,
        i > 0 && i < s.len() ==> s[i - 1].0 < s[i as int].0,
{
}

/// Multiplying by the value `n` times stays fine for fewer multiplications.
pub proof fn lemma_power_ok_prefix<C: Semiring>(x: C::V, m: nat, n: nat)
    requires
        m <= n,
        power_ok::<C>(x, n),
    ensures
        power_ok::<C>(x, m),
    decreases n,
{
    if m < n {
        lemma_power_ok_prefix::<C>(x, m, (n - 1) as nat);
    }
}

} // verus!
