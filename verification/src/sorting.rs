//! Sorting by insertion, described over sequences with an ordering given as a spec closure.
use vstd::prelude::*;

verus! {

/// Inserts `x` before the first element `y` of `s` with `le(x, y)`.
pub open spec fn insert_by<A>(s: Seq<A>, x: A, le: spec_fn(A, A) -> bool) -> Seq<A>
    decreases s.len(),
{
    if s.len() == 0 {
        seq![x]
    } else if le(x, s[0]) {
        seq![x] + s
    } else {
        seq![s[0]] + insert_by(s.drop_first(), x, le)
    }
}

/// `s` sorted by `le`: its elements inserted one after the other, in order, into a sorted
/// sequence. Equal elements keep their relative order.
pub open spec fn sort_by<A>(s: Seq<A>, le: spec_fn(A, A) -> bool) -> Seq<A>
    decreases s.len(),
{
    if s.len() == 0 {
        s
    } else {
        insert_by(sort_by(s.drop_last(), le), s.last(), le)
    }
}

/// `le` is a total preorder.
pub open spec fn total_preorder<A>(le: spec_fn(A, A) -> bool) -> bool {
    &&& forall|a: A, b: A| #[trigger] le(a, b) || le(b, a)
    &&& forall|a: A, b: A, c: A| #[trigger] le(a, b) && #[trigger] le(b, c) ==> le(a, c)
}

/// `s` is ordered by `le`.
pub open spec fn sorted_by<A>(s: Seq<A>, le: spec_fn(A, A) -> bool) -> bool {
    forall|i: int, j: int| 0 <= i < j < s.len() ==> le(#[trigger] s[i], #[trigger] s[j])
}

/// The usual order on `isize`.
pub open spec fn isize_le() -> spec_fn(isize, isize) -> bool {
    |a: isize, b: isize| a <= b
}

/// The order on `isize` is a total preorder.
pub proof fn lemma_isize_le_total()
    ensures
        total_preorder(isize_le()),
{
}

/// Inserting after a prefix of elements that come strictly before `x`.
pub proof fn lemma_insert_at<A>(s: Seq<A>, x: A, le: spec_fn(A, A) -> bool, k: int)
    requires
        0 <= k <= s.len(),
        forall|i: int| 0 <= i < k ==> !le(x, #[trigger] s[i]),
        k < s.len() ==> le(x, s[k]),
    ensures
        insert_by(s, x, le) == s.take(k) + seq![x] + s.skip(k),
    decreases k,
{
    if k == 0 {
        if s.len() == 0 {
            assert(s.take(0) + seq![x] + s.skip(0) == seq![x]);
        } else {
            assert(s.take(0) + seq![x] + s.skip(0) == seq![x] + s);
        }
    } else {
        let t = s.drop_first();
        assert forall|i: int| 0 <= i < k - 1 implies !le(x, #[trigger] t[i]) by {
            assert(t[i] == s[i + 1]);
        }
        assert(!le(x, s[0]));
        lemma_insert_at(t, x, le, k - 1);
        assert(s.take(k) + seq![x] + s.skip(k) == seq![s[0]] + (t.take(k - 1) + seq![x] + t.skip(
            k - 1,
        )));
    }
}

/// Inserting into a sorted sequence keeps it sorted and adds `x` to its multiset.
pub proof fn lemma_insert_sorted<A>(s: Seq<A>, x: A, le: spec_fn(A, A) -> bool)
    requires
        total_preorder(le),
        sorted_by(s, le),
    ensures
        sorted_by(insert_by(s, x, le), le),
        insert_by(s, x, le).to_multiset() == s.to_multiset().insert(x),
        insert_by(s, x, le).len() == s.len() + 1,
    decreases s.len(),
{
    broadcast use vstd::seq_lib::group_to_multiset_ensures;

    if s.len() == 0 {
        assert(seq![x] == Seq::<A>::empty().push(x));
    } else if le(x, s[0]) {
        let r = seq![x] + s;
        assert forall|i: int, j: int| 0 <= i < j < r.len() implies le(
            #[trigger] r[i],
            #[trigger] r[j],
        ) by {
            if i == 0 {
                assert(r[j] == s[j - 1]);
                if j > 1 {
                    assert(le(s[0], s[j - 1]));
                }
            } else {
                assert(r[i] == s[i - 1] && r[j] == s[j - 1]);
            }
        }
        assert(r.drop_first() == s);
        assert(r.to_multiset() == s.to_multiset().insert(x)) by {
            vstd::seq_lib::lemma_multiset_commutative(seq![x], s);
            assert(seq![x] == Seq::<A>::empty().push(x));
        }
    } else {
        let t = s.drop_first();
        assert(sorted_by(t, le)) by {
            assert forall|i: int, j: int| 0 <= i < j < t.len() implies le(
                #[trigger] t[i],
                #[trigger] t[j],
            ) by {
                assert(t[i] == s[i + 1] && t[j] == s[j + 1]);
            }
        }
        lemma_insert_sorted(t, x, le);
        let it = insert_by(t, x, le);
        let r = seq![s[0]] + it;
        assert forall|i: int, j: int| 0 <= i < j < r.len() implies le(
            #[trigger] r[i],
            #[trigger] r[j],
        ) by {
            if i == 0 {
                assert(r[j] == it[j - 1]);
                assert(it.to_multiset().contains(it[j - 1]));
                assert(t.to_multiset().insert(x).contains(it[j - 1]));
                if it[j - 1] != x {
                    assert(t.to_multiset().contains(it[j - 1]));
                    let k = choose|k: int| 0 <= k < t.len() && t[k] == it[j - 1];
                    assert(t[k] == s[k + 1]);
                    assert(le(s[0], s[k + 1]));
                }
            } else {
                assert(r[i] == it[i - 1] && r[j] == it[j - 1]);
            }
        }
        assert(r.to_multiset() == s.to_multiset().insert(x)) by {
            vstd::seq_lib::lemma_multiset_commutative(seq![s[0]], it);
            vstd::seq_lib::lemma_multiset_commutative(seq![s[0]], t);
            assert(seq![s[0]] + t == s);
        }
    }
}

/// `sort_by` orders the sequence and keeps its elements: the result is sorted and is a
/// permutation of the input.
pub proof fn lemma_sort_by<A>(s: Seq<A>, le: spec_fn(A, A) -> bool)
    requires
        total_preorder(le),
    ensures
        sorted_by(sort_by(s, le), le),
        sort_by(s, le).to_multiset() == s.to_multiset(),
        sort_by(s, le).len() == s.len(),
    decreases s.len(),
{
    broadcast use vstd::seq_lib::group_to_multiset_ensures;

    if s.len() > 0 {
        lemma_sort_by(s.drop_last(), le);
        lemma_insert_sorted(sort_by(s.drop_last(), le), s.last(), le);
        assert(s.drop_last().push(s.last()) == s);
    }
}

/// Sorts a vector of `isize` in increasing order by insertion.
pub fn sort_isize(v: &Vec<isize>) -> (r: Vec<isize>)
    ensures
        r@ == sort_by(v@, isize_le()),
{
    let mut r: Vec<isize> = Vec::new();
    let n = v.len();
    let mut i: usize = 0;
    assert(v@.take(0) == Seq::<isize>::empty());
    while i < n
        invariant
            n == v@.len(),
            i <= n,
            r@ == sort_by(v@.take(i as int), isize_le()),
        decreases n - i,
    {
        let x = v[i];
        let m = r.len();
        let mut k: usize = 0;
        while k < m && r[k] < x
            invariant
                m == r@.len(),
                k <= m,
                forall|j: int| 0 <= j < k ==> !isize_le()(x, #[trigger] r@[j]),
            decreases m - k,
        {
            assert(!isize_le()(x, r@[k as int]));
            k = k + 1;
        }
        proof {
            if k < m {
                assert(isize_le()(x, r@[k as int]));
            }
            lemma_insert_at(r@, x, isize_le(), k as int);
            assert(v@.take(i + 1).drop_last() == v@.take(i as int));
        }
        let ghost before = r@;
        r.insert(k, x);
        assert(r@ =~= before.take(k as int) + seq![x] + before.skip(k as int));
        i = i + 1;
    }
    assert(v@.take(n as int) == v@);
    r
}

} // verus!
