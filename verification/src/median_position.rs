//! The position of the median element of a list ordered by `Ord`.
use vstd::prelude::*;
use vstd::std_specs::cmp::{OrdSpec, PartialOrdSpec, PartialEqSpec};
use core::cmp::Ordering;
use crate::sorting::{insert_by, sort_by, total_preorder, lemma_insert_at, lemma_sort_by};

verus! {

/// `a` comes no later than `b` in the order that `Ord` gives.
pub open spec fn ord_le<T: Ord>() -> spec_fn(T, T) -> bool {
    |a: T, b: T| a.cmp_spec(&b) != Ordering::Greater
}

/// `T`'s `Ord` implementation behaves as a total order, as `Ord`'s documentation asks of it.
pub open spec fn lawful_ord<T: Ord>() -> bool {
    vstd::laws_cmp::obeys_cmp::<T>()
}

/// `a` and `b` are equivalent under `le`: each comes no later than the other.
pub open spec fn equivalent<A>(le: spec_fn(A, A) -> bool, a: A, b: A) -> bool {
    le(a, b) && le(b, a)
}

/// A lawful `Ord` gives a total preorder.
pub proof fn lemma_ord_total<T: Ord>()
    requires
        lawful_ord::<T>(),
    ensures
        total_preorder(ord_le::<T>()),
{
    reveal(vstd::laws_cmp::obeys_partial_cmp_spec_properties);
    reveal(vstd::laws_cmp::obeys_cmp_partial_ord);
    reveal(vstd::laws_cmp::obeys_cmp_ord);
    reveal(vstd::laws_eq::obeys_eq_spec_properties);
    let le = ord_le::<T>();
    assert forall|a: T, b: T| #[trigger] le(a, b) || le(b, a) by {
        assert(a.partial_cmp_spec(&b) == Some(a.cmp_spec(&b)));
        assert(b.partial_cmp_spec(&a) == Some(b.cmp_spec(&a)));
    }
    assert forall|a: T, b: T, c: T| #[trigger] le(a, b) && #[trigger] le(b, c) implies le(a, c) by {
        assert(a.partial_cmp_spec(&b) == Some(a.cmp_spec(&b)));
        assert(b.partial_cmp_spec(&c) == Some(b.cmp_spec(&c)));
        assert(a.partial_cmp_spec(&c) == Some(a.cmp_spec(&c)));
        assert(c.partial_cmp_spec(&a) == Some(c.cmp_spec(&a)));
        assert(b.partial_cmp_spec(&a) == Some(b.cmp_spec(&a)));
        assert(c.partial_cmp_spec(&b) == Some(c.cmp_spec(&b)));
        if a.cmp_spec(&c) == Ordering::Greater {
            assert(c.partial_cmp_spec(&a) == Some(Ordering::Less));
            if a.cmp_spec(&b) == Ordering::Equal {
                assert(a.eq_spec(&b));
                if b.cmp_spec(&c) == Ordering::Equal {
                    assert(b.eq_spec(&c));
                    assert(a.eq_spec(&c));
                } else {
                    assert(b.partial_cmp_spec(&c) == Some(Ordering::Less));
                    assert(c.partial_cmp_spec(&b) == Some(Ordering::Greater));
                    if c.cmp_spec(&a) == Ordering::Less {
                        assert(c.partial_cmp_spec(&a) == Some(Ordering::Less));
                        assert(b.eq_spec(&a));
                        assert(b.partial_cmp_spec(&a) == Some(Ordering::Equal));
                    }
                }
            } else {
                assert(a.partial_cmp_spec(&b) == Some(Ordering::Less));
                if b.cmp_spec(&c) == Ordering::Equal {
                    assert(b.eq_spec(&c));
                    assert(c.eq_spec(&b));
                    assert(c.partial_cmp_spec(&b) == Some(Ordering::Equal));
                } else {
                    assert(b.partial_cmp_spec(&c) == Some(Ordering::Less));
                }
            }
        }
    }
}

/// Whether `a` comes strictly before `b`.
pub(crate) fn ord_lt<T: Ord>(a: &T, b: &T) -> (r: bool)
    requires
        lawful_ord::<T>(),
    ensures
        r == !ord_le::<T>()(*b, *a),
{
    reveal(vstd::laws_cmp::obeys_partial_cmp_spec_properties);
    reveal(vstd::laws_cmp::obeys_cmp_ord);
    assert(a.partial_cmp_spec(b) == Some(a.cmp_spec(b)));
    assert(b.partial_cmp_spec(a) == Some(b.cmp_spec(a)));
    match a.cmp(b) {
        Ordering::Less => true,
        _ => false,
    }
}

/// Whether `a` and `b` are equivalent.
pub(crate) fn ord_equivalent<T: Ord>(a: &T, b: &T) -> (r: bool)
    requires
        lawful_ord::<T>(),
    ensures
        r == equivalent(ord_le::<T>(), *a, *b),
{
    reveal(vstd::laws_cmp::obeys_partial_cmp_spec_properties);
    reveal(vstd::laws_cmp::obeys_cmp_ord);
    assert(a.partial_cmp_spec(b) == Some(a.cmp_spec(b)));
    assert(b.partial_cmp_spec(a) == Some(b.cmp_spec(a)));
    match a.cmp(b) {
        Ordering::Equal => true,
        _ => false,
    }
}


/// The order `le` read through `f`: `a` comes no later than `b` when `f(a)` comes no later
/// than `f(b)`.
pub open spec fn pull_back<A, B>(le: spec_fn(A, A) -> bool, f: spec_fn(B) -> A) -> spec_fn(B, B) -> bool {
    |a: B, b: B| le(f(a), f(b))
}

/// The positions `0, 1, ..., n - 1`.
pub open spec fn positions(n: nat) -> Seq<usize> {
    Seq::new(n, |i: int| i as usize)
}

/// Reading a sequence at a position.
pub open spec fn at<A>(s: Seq<A>) -> spec_fn(usize) -> A {
    |i: usize| s[i as int]
}

/// The median of `s` under `le`: the element at 0-based index `n / 2` once `s` is sorted,
/// that is the `(n + 1) / 2`-th smallest for odd `n` and the `(n / 2) + 1`-th for even `n`.
pub open spec fn median_of<A>(s: Seq<A>, le: spec_fn(A, A) -> bool) -> A {
    sort_by(s, le)[(s.len() / 2) as int]
}

/// Inserting commutes with reading every element through `f`.
pub proof fn lemma_insert_by_map<A, B>(u: Seq<B>, x: B, f: spec_fn(B) -> A, le: spec_fn(A, A) -> bool)
    ensures
        insert_by(u.map_values(f), f(x), le) == insert_by(u, x, pull_back(le, f)).map_values(f),
    decreases u.len(),
{
    let lb = pull_back(le, f);
    if u.len() == 0 {
        assert(u.map_values(f) == Seq::<A>::empty());
        assert(seq![x].map_values(f) == seq![f(x)]);
    } else {
        assert(u.map_values(f)[0] == f(u[0]));
        if le(f(x), f(u[0])) {
            assert((seq![x] + u).map_values(f) == seq![f(x)] + u.map_values(f));
        } else {
            lemma_insert_by_map(u.drop_first(), x, f, le);
            assert(u.map_values(f).drop_first() == u.drop_first().map_values(f));
            assert((seq![u[0]] + insert_by(u.drop_first(), x, lb)).map_values(f) == seq![f(u[0])]
                + insert_by(u.drop_first(), x, lb).map_values(f));
        }
    }
}

/// Sorting commutes with reading every element through `f`: sorting the positions of a
/// sequence by the values they hold, then reading the values, sorts the values.
pub proof fn lemma_sort_by_map<A, B>(t: Seq<B>, f: spec_fn(B) -> A, le: spec_fn(A, A) -> bool)
    ensures
        sort_by(t.map_values(f), le) == sort_by(t, pull_back(le, f)).map_values(f),
    decreases t.len(),
{
    if t.len() == 0 {
        assert(t.map_values(f) == Seq::<A>::empty());
    } else {
        lemma_sort_by_map(t.drop_last(), f, le);
        assert(t.map_values(f).drop_last() == t.drop_last().map_values(f));
        assert(t.map_values(f).last() == f(t.last()));
        lemma_insert_by_map(sort_by(t.drop_last(), pull_back(le, f)), t.last(), f, le);
    }
}

/// The positions of `v`, sorted stably by the values they hold.
pub(crate) fn sort_positions<T: Ord>(v: &Vec<T>) -> (r: Vec<usize>)
    requires
        lawful_ord::<T>(),
    ensures
        r@ == sort_by(positions(v@.len()), pull_back(ord_le::<T>(), at(v@))),
        forall|j: int| 0 <= j < r@.len() ==> #[trigger] r@[j] < v@.len(),
{
    let ghost le = pull_back(ord_le::<T>(), at(v@));
    let mut r: Vec<usize> = Vec::new();
    let n = v.len();
    let mut i: usize = 0;
    assert(positions(n as nat).take(0) == Seq::<usize>::empty());
    while i < n
        invariant
            n == v@.len(),
            i <= n,
            lawful_ord::<T>(),
            le == pull_back(ord_le::<T>(), at(v@)),
            r@ == sort_by(positions(n as nat).take(i as int), le),
            forall|j: int| 0 <= j < r@.len() ==> #[trigger] r@[j] < n,
        decreases n - i,
    {
        let m = r.len();
        let mut k: usize = 0;
        while k < m && ord_lt(&v[r[k]], &v[i])
            invariant
                m == r@.len(),
                k <= m,
                i < n,
                n == v@.len(),
                lawful_ord::<T>(),
                le == pull_back(ord_le::<T>(), at(v@)),
                forall|j: int| 0 <= j < r@.len() ==> #[trigger] r@[j] < n,
                forall|j: int| 0 <= j < k ==> !le(i, #[trigger] r@[j]),
            decreases m - k,
        {
            k = k + 1;
        }
        proof {
            if k < m {
                assert(le(i, r@[k as int]));
            }
            lemma_insert_at(r@, i, le, k as int);
            assert(positions(n as nat).take(i + 1).drop_last() == positions(n as nat).take(i as int));
            assert(positions(n as nat).take(i + 1).last() == i);
        }
        let ghost before = r@;
        r.insert(k, i);
        assert(r@ =~= before.take(k as int) + seq![i] + before.skip(k as int));
        assert forall|j: int| 0 <= j < r@.len() implies #[trigger] r@[j] < n by {
            if j < k {
                assert(r@[j] == before[j]);
            } else if j > k {
                assert(r@[j] == before[j - 1]);
            }
        }
        i = i + 1;
    }
    assert(positions(n as nat).take(n as int) == positions(n as nat));
    r
}

/// Returns the position of the median element of the list (see `median_of`): `None` for an
/// empty list, and otherwise the first position whose element is equivalent to the median.
pub fn position_median<T: Ord>(inner: Vec<T>) -> (r: Option<usize>)
    requires
        lawful_ord::<T>(),
    ensures
        r is None <==> inner@.len() == 0,
        r matches Some(p) ==> p < inner@.len() && equivalent(
            ord_le::<T>(),
            inner@[p as int],
            median_of(inner@, ord_le::<T>()),
        ) && forall|q: int|
            0 <= q < p ==> !equivalent(
                ord_le::<T>(),
                #[trigger] inner@[q],
                median_of(inner@, ord_le::<T>()),
            ),
{
    let len = inner.len();
    if len == 0 {
        return None;
    }
    let order = sort_positions(&inner);
    let ghost s = inner@;
    let ghost le = ord_le::<T>();
    proof {
        lemma_ord_total::<T>();
        lemma_sort_by_map(positions(len as nat), at(s), le);
        assert(positions(len as nat).map_values(at(s)) == s);
        crate::sorting::lemma_sort_by(positions(len as nat), pull_back(le, at(s)));
    }
    let mid = order[len / 2];
    assert(median_of(s, le) == s[mid as int]);
    assert(le(s[mid as int], s[mid as int]));
    let mut i: usize = 0;
    while i < len
        invariant
            len == s.len(),
            s == inner@,
            le == ord_le::<T>(),
            lawful_ord::<T>(),
            mid < len,
            i <= mid,
            median_of(s, le) == s[mid as int],
            equivalent(le, s[mid as int], s[mid as int]),
            forall|q: int| 0 <= q < i ==> !equivalent(le, #[trigger] s[q], s[mid as int]),
        decreases len - i,
    {
        if ord_equivalent(&inner[i], &inner[mid]) {
            return Some(i);
        }
        i = i + 1;
    }
    None
}

} // verus!
