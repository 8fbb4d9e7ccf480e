//! Median and mode of a list of integers.
use vstd::prelude::*;
use crate::sorting::{sort_by, isize_le, sort_isize, insert_by};
use std::collections::HashMap;
use vstd::std_specs::hash::spec_hash_map_iter;
use vstd::std_specs::iter::IteratorSpec;

verus! {

/// The number of occurrences of `v` in `s`.
pub open spec fn count_of(s: Seq<isize>, v: isize) -> nat
    decreases s.len(),
{
    if s.len() == 0 {
        0
    } else {
        count_of(s.drop_last(), v) + if s.last() == v {
            1nat
        } else {
            0nat
        }
    }
}

/// The median: the `(n/2 + 1)`-th smallest element (0-based index `n/2` of the sorted list),
/// which is the `(n+1)/2`-th smallest for odd `n` and the `(n/2)+1`-th smallest for even `n`.
pub open spec fn median_spec(s: Seq<isize>) -> Option<isize> {
    if s.len() == 0 {
        None
    } else {
        Some(sort_by(s, isize_le())[(s.len() / 2) as int])
    }
}

/// `m` occurs in `s` at least as often as every value, and is the smallest such value.
pub open spec fn is_smallest_mode(s: Seq<isize>, m: isize) -> bool {
    &&& s.contains(m)
    &&& forall|v: isize| s.contains(v) ==> count_of(s, v) <= count_of(s, m)
    &&& forall|v: isize| s.contains(v) && count_of(s, v) == count_of(s, m) ==> m <= v
}

/// Given a list of integers, returns its median (when sorted, the value in the middle
/// position): for `n` elements, the `(n+1)/2`-th smallest when `n` is odd and the `(n/2)+1`-th
/// smallest when `n` is even. Returns `None` if the list is empty.
pub fn median(values: Vec<isize>) -> (r: Option<isize>)
    ensures
        r == median_spec(values@),
{
    if values.len() == 0 {
        return None;
    }
    let v = sort_isize(&values);
    proof {
        crate::sorting::lemma_isize_le_total();
        crate::sorting::lemma_sort_by(values@, isize_le());
    }
    Some(v[v.len() / 2])
}

/// A value occurs in a sequence no more often than the sequence is long.
proof fn lemma_count_bound(s: Seq<isize>, v: isize)
    ensures
        count_of(s, v) <= s.len(),
        count_of(s, v) > 0 <==> s.contains(v),
    decreases s.len(),
{
    if s.len() > 0 {
        lemma_count_bound(s.drop_last(), v);
        if s.drop_last().contains(v) {
            let k = choose|k: int| 0 <= k < s.drop_last().len() && s.drop_last()[k] == v;
            assert(s[k] == v);
        }
        if s.contains(v) && s.last() != v {
            let k = choose|k: int| 0 <= k < s.len() && s[k] == v;
            assert(s.drop_last()[k] == v);
        }
    }
}

/// Counts the occurrences of each value of `values`.
fn count_all(values: &Vec<isize>) -> (counts: HashMap<isize, usize>)
    ensures
        forall|k: isize| #[trigger] counts@.contains_key(k) <==> values@.contains(k),
        forall|k: isize| #[trigger] counts@.contains_key(k) ==> counts@[k] == count_of(values@, k),
{
    broadcast use vstd::std_specs::hash::group_hash_axioms;
    let n = values.len();
    let mut counts: HashMap<isize, usize> = HashMap::new();
    let mut i: usize = 0;
    assert(values@.take(0) =~= Seq::<isize>::empty());
    while i < n
        invariant
            n == values@.len(),
            i <= n,
            forall|k: isize| #[trigger] counts@.contains_key(k) <==> values@.take(i as int).contains(k),
            forall|k: isize|
                #[trigger] counts@.contains_key(k) ==> counts@[k] == count_of(values@.take(i as int), k),
        decreases n - i,
    {
        let v = values[i];
        let ghost pre = values@.take(i as int);
        let ghost post = values@.take(i + 1);
        assert(post.drop_last() == pre);
        assert(post.last() == v);
        let c: usize = match counts.get(&v) {
            Some(c) => *c,
            None => 0,
        };
        proof {
            lemma_count_bound(pre, v);
            if !counts@.contains_key(v) {
                assert(!pre.contains(v));
            }
        }
        assert(c == count_of(pre, v));
        let _ = counts.insert(v, c + 1);
        assert forall|k: isize| #[trigger] counts@.contains_key(k) <==> post.contains(k) by {
            if pre.contains(k) {
                let j = choose|j: int| 0 <= j < pre.len() && pre[j] == k;
                assert(post[j] == k);
            }
            if post.contains(k) && k != v {
                let j = choose|j: int| 0 <= j < post.len() && post[j] == k;
                assert(pre[j] == k);
            }
            if k == v {
                assert(post[i as int] == v);
            }
        }
        i = i + 1;
    }
    assert(values@.take(n as int) == values@);
    counts
}

/// Given a list of integers, returns its smallest mode: among the values that occur most
/// often, the smallest. Returns `None` if the list is empty.
pub fn mode(values: Vec<isize>) -> (r: Option<isize>)
    ensures
        values@.len() == 0 ==> r is None,
        values@.len() > 0 ==> (r matches Some(m) && is_smallest_mode(values@, m)),
{
    broadcast use vstd::std_specs::hash::group_hash_axioms;
    let n = values.len();
    if n == 0 {
        return None;
    }
    let counts = count_all(&values);
    let mut smallest_mode = values[0];
    assert(values@.contains(smallest_mode)) by {
        assert(values@[0] == smallest_mode);
    }
    let mut max_count: usize = match counts.get(&values[0]) {
        Some(c) => *c,
        None => 0,
    };
    for entry in it: counts.iter()
        invariant
            forall|k: isize| #[trigger] counts@.contains_key(k) <==> values@.contains(k),
            forall|k: isize| #[trigger] counts@.contains_key(k) ==> counts@[k] == count_of(values@, k),
            values@.contains(smallest_mode),
            max_count == count_of(values@, smallest_mode),
            it.seq() == spec_hash_map_iter(&counts).remaining(),
            forall|j: int|
                #![trigger it.seq()[j]]
                0 <= j < it.index() ==> count_of(values@, *it.seq()[j].0) <= max_count && (count_of(
                    values@,
                    *it.seq()[j].0,
                ) == max_count ==> smallest_mode <= *it.seq()[j].0),
    {
        let (num, count) = entry;
        let ghost j = it.index();
        assert(it.seq()[j] == entry);
        assert(counts@.contains_key(*num) && counts@[*num] == *count);
        if *count > max_count {
            max_count = *count;
            smallest_mode = *num;
        } else if *count == max_count && *num < smallest_mode {
            smallest_mode = *num;
        }
    }
    assert forall|v: isize| values@.contains(v) implies count_of(values@, v) <= count_of(
        values@,
        smallest_mode,
    ) && (count_of(values@, v) == count_of(values@, smallest_mode) ==> smallest_mode <= v) by {
        let seq = spec_hash_map_iter(&counts).remaining();
        assert(counts@.contains_key(v));
        assert(seq.contains((&v, &counts@[v])));
        let j = choose|j: int| 0 <= j < seq.len() && seq[j] == (&v, &counts@[v]);
        assert(*seq[j].0 == v);
    }
    Some(smallest_mode)
}

/// The number of elements of `s` smaller than `m`.
pub open spec fn count_less(s: Seq<isize>, m: isize) -> nat
    decreases s.len(),
{
    if s.len() == 0 {
        0
    } else {
        (if s[0] < m {
            1nat
        } else {
            0nat
        }) + count_less(s.drop_first(), m)
    }
}

/// The number of elements of `s` at most `m`.
pub open spec fn count_at_most(s: Seq<isize>, m: isize) -> nat
    decreases s.len(),
{
    if s.len() == 0 {
        0
    } else {
        (if s[0] <= m {
            1nat
        } else {
            0nat
        }) + count_at_most(s.drop_first(), m)
    }
}

/// Counting after one more element at the end.
proof fn lemma_count_push(s: Seq<isize>, x: isize, m: isize)
    ensures
        count_less(s.push(x), m) == count_less(s, m) + if x < m { 1nat } else { 0nat },
        count_at_most(s.push(x), m) == count_at_most(s, m) + if x <= m { 1nat } else { 0nat },
    decreases s.len(),
{
    if s.len() == 0 {
        assert(s.push(x)[0] == x);
        assert(s.push(x).drop_first() =~= Seq::<isize>::empty());
        assert(count_less(Seq::<isize>::empty(), m) == 0);
        assert(count_at_most(Seq::<isize>::empty(), m) == 0);
    } else {
        lemma_count_push(s.drop_first(), x, m);
        assert(s.push(x)[0] == s[0]);
        assert(s.push(x).drop_first() =~= s.drop_first().push(x));
    }
}

/// Inserting into a list adds the element to the counts.
proof fn lemma_count_insert(t: Seq<isize>, x: isize, m: isize)
    ensures
        count_less(insert_by(t, x, isize_le()), m) == count_less(t, m) + if x < m { 1nat } else { 0nat },
        count_at_most(insert_by(t, x, isize_le()), m) == count_at_most(t, m) + if x <= m { 1nat } else { 0nat },
    decreases t.len(),
{
    if t.len() == 0 {
        assert(seq![x][0] == x);
        assert(seq![x].drop_first() =~= Seq::<isize>::empty());
        assert(count_less(Seq::<isize>::empty(), m) == 0);
        assert(count_at_most(Seq::<isize>::empty(), m) == 0);
        assert(count_less(t, m) == 0 && count_at_most(t, m) == 0);
    } else if isize_le()(x, t[0]) {
        assert((seq![x] + t)[0] == x);
        assert((seq![x] + t).drop_first() =~= t);
    } else {
        lemma_count_insert(t.drop_first(), x, m);
        let r = seq![t[0]] + insert_by(t.drop_first(), x, isize_le());
        assert(r[0] == t[0]);
        assert(r.drop_first() =~= insert_by(t.drop_first(), x, isize_le()));
    }
}

/// Sorting keeps the counts.
proof fn lemma_count_sort(s: Seq<isize>, m: isize)
    ensures
        count_less(sort_by(s, isize_le()), m) == count_less(s, m),
        count_at_most(sort_by(s, isize_le()), m) == count_at_most(s, m),
    decreases s.len(),
{
    if s.len() > 0 {
        lemma_count_sort(s.drop_last(), m);
        lemma_count_insert(sort_by(s.drop_last(), isize_le()), s.last(), m);
        lemma_count_push(s.drop_last(), s.last(), m);
        assert(s.drop_last().push(s.last()) == s);
    }
}

/// When no element from position `k` on is smaller than `m`, at most `k` are.
proof fn lemma_less_bound(t: Seq<isize>, k: int, m: isize)
    requires
        0 <= k <= t.len(),
        forall|i: int| k <= i < t.len() ==> !(#[trigger] t[i] < m),
    ensures
        count_less(t, m) <= k,
    decreases t.len(),
{
    if t.len() > 0 {
        let t1 = t.drop_first();
        let k1 = if k > 0 { k - 1 } else { 0 };
        assert forall|i: int| k1 <= i < t1.len() implies !(#[trigger] t1[i] < m) by {
            assert(t1[i] == t[i + 1]);
        }
        lemma_less_bound(t1, k1, m);
    }
}

/// When every element up to position `k` is at most `m`, more than `k` are.
proof fn lemma_at_most_bound(t: Seq<isize>, k: int, m: isize)
    requires
        0 <= k < t.len(),
        forall|i: int| 0 <= i <= k ==> #[trigger] t[i] <= m,
    ensures
        count_at_most(t, m) >= k + 1,
    decreases k,
{
    assert(t[0] <= m);
    if k > 0 {
        let t1 = t.drop_first();
        assert forall|i: int| 0 <= i <= k - 1 implies #[trigger] t1[i] <= m by {
            assert(t1[i] == t[i + 1]);
        }
        lemma_at_most_bound(t1, k - 1, m);
    }
}

/// The median of a non-empty list is one of its elements, with at most `n/2` elements smaller
/// than it and more than `n/2` at most it: it is the `(n/2 + 1)`-th smallest element.
pub proof fn lemma_median_order(s: Seq<isize>)
    requires
        s.len() > 0,
    ensures
        median_spec(s) matches Some(m) && s.contains(m) && count_less(s, m) <= s.len() / 2
            && s.len() / 2 < count_at_most(s, m),
{
    broadcast use vstd::seq_lib::group_to_multiset_ensures;

    crate::sorting::lemma_isize_le_total();
    crate::sorting::lemma_sort_by(s, isize_le());
    let t = sort_by(s, isize_le());
    let k = (s.len() / 2) as int;
    let m = t[k];
    lemma_count_sort(s, m);
    assert forall|i: int| k <= i < t.len() implies !(#[trigger] t[i] < m) by {
        if i > k {
            assert(isize_le()(t[k], t[i]));
        }
    }
    lemma_less_bound(t, k, m);
    assert forall|i: int| 0 <= i <= k implies #[trigger] t[i] <= m by {
        if i < k {
            assert(isize_le()(t[i], t[k]));
        }
    }
    lemma_at_most_bound(t, k, m);
    assert(t.contains(m));
    assert(t.to_multiset().contains(m));
}

} // verus!
