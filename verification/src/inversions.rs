//! The inversions of a list: the pairs of positions whose elements are out of order.
use vstd::prelude::*;
use crate::median_position::{ord_le, lawful_ord, ord_lt};

verus! {

/// `p` comes before `q` in lexicographic order.
pub open spec fn pair_lt(p: (usize, usize), q: (usize, usize)) -> bool {
    p.0 < q.0 || (p.0 == q.0 && p.1 < q.1)
}

/// Positions `i < j` whose elements are out of order under `le`: `s[j]` comes strictly before
/// `s[i]`.
pub open spec fn is_inversion<A>(s: Seq<A>, le: spec_fn(A, A) -> bool, p: (usize, usize)) -> bool {
    p.0 < p.1 < s.len() && !le(s[p.0 as int], s[p.1 as int])
}

/// Returns the pairs `(i, j)` with `i < j` and `inner[i] > inner[j]`, in increasing
/// lexicographic order.
pub fn inversion<T: Ord>(inner: Vec<T>) -> (r: Vec<(usize, usize)>)
    requires
        lawful_ord::<T>(),
    ensures
        forall|a: int, b: int| 0 <= a < b < r@.len() ==> pair_lt(r@[a], r@[b]),
        forall|p: (usize, usize)| r@.contains(p) <==> is_inversion(inner@, ord_le::<T>(), p),
{
    let ghost s = inner@;
    let ghost le = ord_le::<T>();
    let n = inner.len();
    let mut r: Vec<(usize, usize)> = Vec::new();
    let mut i: usize = 0;
    while i < n
        invariant
            n == s.len(),
            s == inner@,
            le == ord_le::<T>(),
            lawful_ord::<T>(),
            i <= n,
            forall|a: int, b: int| 0 <= a < b < r@.len() ==> pair_lt(r@[a], r@[b]),
            forall|a: int| 0 <= a < r@.len() ==> (#[trigger] r@[a]).0 < i,
            forall|p: (usize, usize)| r@.contains(p) <==> is_inversion(s, le, p) && p.0 < i,
        decreases n - i,
    {
        let mut j: usize = i + 1;
        let ghost r0 = r@;
        while j < n
            invariant
                n == s.len(),
                s == inner@,
                le == ord_le::<T>(),
                lawful_ord::<T>(),
                i < n,
                i + 1 <= j <= n,
                r0.len() <= r@.len(),
                forall|a: int| 0 <= a < r0.len() ==> r@[a] == r0[a],
                forall|a: int, b: int| 0 <= a < b < r@.len() ==> pair_lt(r@[a], r@[b]),
                forall|a: int| 0 <= a < r0.len() ==> (#[trigger] r0[a]).0 < i,
                forall|a: int| r0.len() <= a < r@.len() ==> (#[trigger] r@[a]).0 == i && r@[a].1 < j,
                forall|p: (usize, usize)| r0.contains(p) <==> is_inversion(s, le, p) && p.0 < i,
                forall|p: (usize, usize)|
                    r@.contains(p) <==> (is_inversion(s, le, p) && p.0 < i) || (is_inversion(s, le, p)
                        && p.0 == i && p.1 < j),
            decreases n - j,
        {
            let ghost before = r@;
            if ord_lt(&inner[j], &inner[i]) {
                assert forall|a: int| 0 <= a < before.len() implies pair_lt(before[a], (i, j)) by {
                    if a < r0.len() {
                        assert(before[a] == r0[a]);
                    }
                }
                r.push((i, j));
                assert forall|a: int, b: int| 0 <= a < b < r@.len() implies pair_lt(r@[a], r@[b]) by {
                    if b < before.len() {
                        assert(r@[a] == before[a] && r@[b] == before[b]);
                    } else {
                        assert(r@[a] == before[a]);
                    }
                }
                assert forall|p: (usize, usize)|
                    r@.contains(p) <==> (is_inversion(s, le, p) && p.0 < i) || (is_inversion(s, le, p)
                        && p.0 == i && p.1 < j + 1) by {
                    if r@.contains(p) && p != (i, j) {
                        let a = choose|a: int| 0 <= a < r@.len() && r@[a] == p;
                        assert(before[a] == p);
                    }
                    if before.contains(p) {
                        let a = choose|a: int| 0 <= a < before.len() && before[a] == p;
                        assert(r@[a] == p);
                    }
                    if p == (i, j) {
                        assert(r@[before.len() as int] == p);
                    }
                }
            } else {
                assert forall|p: (usize, usize)|
                    r@.contains(p) <==> (is_inversion(s, le, p) && p.0 < i) || (is_inversion(s, le, p)
                        && p.0 == i && p.1 < j + 1) by {
                    if p == (i, j) {
                        assert(!is_inversion(s, le, p));
                    }
                }
            }
            j = j + 1;
        }
        i = i + 1;
        assert forall|a: int| 0 <= a < r@.len() implies (#[trigger] r@[a]).0 < i by {
            if a < r0.len() {
                assert(r@[a] == r0[a]);
            }
        }
    }
    r
}

} // verus!
