//! Small exercises on sequences of numbers and strings.
use vstd::prelude::*;
use crate::text::str_chars;
use std::collections::HashMap;
use vstd::std_specs::hash::spec_hash_map_iter;
use vstd::std_specs::iter::IteratorSpec;

verus! {

/// Every term from the third on is the sum of the two before it.
pub open spec fn fibonacci_like(s: Seq<i64>) -> bool {
    forall|i: int| 2 <= i < s.len() ==> #[trigger] s[i] == s[i - 2] + s[i - 1]
}

/// Returns whether the given sequence is a Fibonacci sequence starting from its first two
/// terms; sequences of at most two terms are.
pub fn is_fibonacci(inner: Vec<i64>) -> (r: bool)
    ensures
        r == fibonacci_like(inner@),
{
    let n = inner.len();
    if n < 2 {
        return true;
    }
    let mut first = inner[0];
    let mut second = inner[1];
    let mut i: usize = 2;
    while i < n
        invariant
            n == inner@.len(),
            2 <= i <= n,
            first == inner@[i - 2],
            second == inner@[i - 1],
            forall|j: int| 2 <= j < i ==> #[trigger] inner@[j] == inner@[j - 2] + inner@[j - 1],
        decreases n - i,
    {
        let item = inner[i];
        match first.checked_add(second) {
            Some(expected) => {
                if expected != item {
                    return false;
                }
                first = second;
                second = expected;
            },
            None => {
                return false;
            },
        }
        i = i + 1;
    }
    true
}

/// The sum of the numbers of `s`.
pub open spec fn seq_sum(s: Seq<i64>) -> int
    decreases s.len(),
{
    if s.len() == 0 {
        0
    } else {
        seq_sum(s.drop_last()) + s.last()
    }
}

/// Every prefix sum of `s` fits in `i64`.
pub open spec fn prefix_sums_fit(s: Seq<i64>) -> bool {
    forall|k: int| 0 <= k <= s.len() ==> i64::MIN <= #[trigger] seq_sum(s.take(k)) <= i64::MAX
}

/// Returns the sum of `f(v)` for all elements `v` of the given list, adding in order. Every
/// possible sequence of results of `f` must keep the running sum within `i64`.
pub fn sigma<T, F: Fn(T) -> i64>(inner: Vec<T>, f: F) -> (r: i64)
    requires
        forall|i: int| 0 <= i < inner@.len() ==> f.requires((#[trigger] inner@[i],)),
        forall|ys: Seq<i64>|
            ys.len() <= inner@.len() && (forall|i: int|
                0 <= i < ys.len() ==> f.ensures((inner@[i],), #[trigger] ys[i]))
                ==> i64::MIN <= #[trigger] seq_sum(ys) <= i64::MAX,
    ensures
        exists|ys: Seq<i64>|
            {
                &&& ys.len() == inner@.len()
                &&& forall|i: int| 0 <= i < ys.len() ==> f.ensures((inner@[i],), #[trigger] ys[i])
                &&& r == seq_sum(ys)
            },
{
    let mut total: i64 = 0;
    let ghost mut ys: Seq<i64> = Seq::empty();
    let ghost elems = inner@;
    for item in it: inner
        invariant
            elems == it.seq(),
            ys.len() == it.index(),
            forall|i: int| 0 <= i < elems.len() ==> f.requires((#[trigger] elems[i],)),
            forall|ys2: Seq<i64>|
                ys2.len() <= elems.len() && (forall|i: int|
                    0 <= i < ys2.len() ==> f.ensures((elems[i],), #[trigger] ys2[i]))
                    ==> i64::MIN <= #[trigger] seq_sum(ys2) <= i64::MAX,
            forall|i: int| 0 <= i < ys.len() ==> f.ensures((elems[i],), #[trigger] ys[i]),
            total == seq_sum(ys),
    {
        let y = f(item);
        proof {
            let ys2 = ys.push(y);
            assert(ys2.drop_last() == ys);
            assert forall|i: int| 0 <= i < ys2.len() implies f.ensures((elems[i],), #[trigger] ys2[i]) by {
                if i < ys.len() {
                    assert(ys2[i] == ys[i]);
                }
            }
            assert(i64::MIN <= seq_sum(ys2) <= i64::MAX);
            ys = ys2;
        }
        total = total + y;
    }
    total
}

/// The first `m` complete rounds of taking one element from each list in turn, where `m` is
/// the length of the shortest list.
pub open spec fn rounds3<T>(a: Seq<T>, b: Seq<T>, c: Seq<T>) -> Seq<T>
    decreases a.len(),
{
    if a.len() == 0 || b.len() == 0 || c.len() == 0 {
        Seq::empty()
    } else {
        seq![a[0], b[0], c[0]] + rounds3(a.drop_first(), b.drop_first(), c.drop_first())
    }
}

/// Alternate elements from three lists until one of them runs out.
pub fn interleave3<T>(list1: Vec<T>, list2: Vec<T>, list3: Vec<T>) -> (r: Vec<T>)
    ensures
        r@ == rounds3(list1@, list2@, list3@),
{
    let mut list1 = list1;
    let mut list2 = list2;
    let mut list3 = list3;
    let mut v: Vec<T> = Vec::new();
    let ghost total = rounds3(list1@, list2@, list3@);
    while list1.len() > 0 && list2.len() > 0 && list3.len() > 0
        invariant
            v@ + rounds3(list1@, list2@, list3@) == total,
        decreases list1@.len(),
    {
        let ghost (a, b, c) = (list1@, list2@, list3@);
        let i1 = list1.remove(0);
        let i2 = list2.remove(0);
        let i3 = list3.remove(0);
        assert(list1@ == a.drop_first() && list2@ == b.drop_first() && list3@ == c.drop_first());
        v.push(i1);
        v.push(i2);
        v.push(i3);
        assert(v@ + rounds3(list1@, list2@, list3@) == total) by {
            assert(rounds3(a, b, c) == seq![i1, i2, i3] + rounds3(list1@, list2@, list3@));
        }
    }
    assert(rounds3(list1@, list2@, list3@) == Seq::<T>::empty());
    v
}

/// The length of the shortest list.
pub open spec fn min_len<T>(lists: Seq<Seq<T>>) -> nat
    decreases lists.len(),
{
    if lists.len() == 0 {
        0
    } else if lists.len() == 1 {
        lists[0].len()
    } else {
        let m = min_len(lists.drop_last());
        if lists.last().len() < m {
            lists.last().len()
        } else {
            m
        }
    }
}

/// The index of the first list that has the length `m`.
pub open spec fn first_with_len<T>(lists: Seq<Seq<T>>, m: nat) -> int {
    choose|j: int| 0 <= j < lists.len() && lists[j].len() == m && forall|i: int| 0 <= i < j ==> #[trigger] lists[i].len() != m
}

/// Taking one element from each list in turn, the first list that has run out stops the
/// process: complete rounds for the shortest length `m`, then the `m`-th element of every list
/// before the first list of length `m`. With no lists at all, there is nothing to take.
pub open spec fn interleaved<T>(lists: Seq<Seq<T>>, r: Seq<T>) -> bool {
    let n = lists.len();
    let m = min_len(lists);
    let j0 = first_with_len(lists, m);
    if n == 0 {
        r.len() == 0
    } else {
        &&& r.len() == m * n + j0
        &&& forall|k: int| 0 <= k < r.len() ==> #[trigger] r[k] == lists[k % n as int][k / n as int]
    }
}

/// The views of a list of vectors.
pub open spec fn lists_view<T>(v: Seq<Vec<T>>) -> Seq<Seq<T>> {
    v.map_values(|r: Vec<T>| r@)
}

/// The shortest length is a lower bound that some list attains.
pub proof fn lemma_min_len<T>(lists: Seq<Seq<T>>)
    requires
        lists.len() > 0,
    ensures
        forall|i: int| 0 <= i < lists.len() ==> min_len(lists) <= #[trigger] lists[i].len(),
        exists|i: int| 0 <= i < lists.len() && #[trigger] lists[i].len() == min_len(lists),
    decreases lists.len(),
{
    if lists.len() > 1 {
        let init = lists.drop_last();
        lemma_min_len(init);
        assert forall|i: int| 0 <= i < lists.len() implies min_len(lists) <= #[trigger] lists[i].len() by {
            if i < init.len() {
                assert(init[i] == lists[i]);
            }
        }
        if lists.last().len() < min_len(init) {
            assert(lists[lists.len() - 1].len() == min_len(lists));
        } else {
            let i = choose|i: int| 0 <= i < init.len() && #[trigger] init[i].len() == min_len(init);
            assert(lists[i] == init[i]);
        }
    } else {
        assert(lists[0].len() == min_len(lists));
    }
}

/// Alternate elements from the lists until one of them runs out. With no lists, the result
/// is empty.
pub fn interleave_n<T>(iters: Vec<Vec<T>>) -> (r: Vec<T>)
    ensures
        interleaved(lists_view(iters@), r@),
{
    let ghost orig = lists_view(iters@);
    let n = iters.len();
    if n == 0 {
        return Vec::new();
    }
    let mut rest = iters;
    let mut v: Vec<T> = Vec::new();
    let mut r: usize = 0;
    let l0 = rest[0].len();
    assert(0 * n == 0) by (nonlinear_arith);
    loop
        invariant
            l0 == orig[0].len(),
            orig == lists_view(iters@),
            n == rest@.len(),
            n == orig.len(),
            n > 0,
            v@.len() == r * n,
            forall|i: int| 0 <= i < n ==> (#[trigger] rest@[i])@ == orig[i].skip(r as int),
            forall|i: int| 0 <= i < n ==> r <= (#[trigger] orig[i]).len(),
            forall|k: int| 0 <= k < v@.len() ==> #[trigger] v@[k] == orig[k % n as int][k / n as int],
        decreases orig[0].len() - r,
    {
        let mut j: usize = 0;
        while j < n
            invariant
                n == rest@.len(),
                n == orig.len(),
                orig == lists_view(iters@),
                n > 0,
                j <= n,
                v@.len() == r * n + j,
                forall|i: int| 0 <= i < n ==> (#[trigger] rest@[i])@ == orig[i].skip(
                    if i < j {
                        r + 1
                    } else {
                        r as int
                    },
                ),
                forall|i: int| 0 <= i < n ==> r <= (#[trigger] orig[i]).len(),
                forall|i: int| 0 <= i < j ==> r < (#[trigger] orig[i]).len(),
                forall|k: int| 0 <= k < v@.len() ==> #[trigger] v@[k] == orig[k % n as int][k / n as int],
            decreases n - j,
        {
            if rest[j].len() == 0 {
                proof {
                    assert(orig[j as int].len() == r);
                    lemma_min_len(orig);
                    let m = min_len(orig);
                    let i0 = choose|i: int| 0 <= i < orig.len() && #[trigger] orig[i].len() == m;
                    assert(m == r);
                    let j0 = first_with_len(orig, m);
                    assert(0 <= j as int && forall|i: int| 0 <= i < j ==> #[trigger] orig[i].len() != m);
                    assert(j0 == j) by {
                        let w = j as int;
                        assert(0 <= w < orig.len() && orig[w].len() == m && forall|i: int| 0 <= i < w ==> #[trigger] orig[i].len() != m);
                        if j0 < w {
                            assert(orig[j0].len() != m);
                        } else if j0 > w {
                            assert(orig[w].len() != m);
                        }
                    }
                    assert(v@.len() == m * n + j0);
                    assert(interleaved(orig, v@));
                }
                return v;
            }
            let mut row = rest.remove(j);
            let x = row.remove(0);
            rest.insert(j, row);
            proof {
                let k = r * n + j;
                vstd::arithmetic::div_mod::lemma_fundamental_div_mod_converse(k as int, n as int, r as int, j as int);
                assert(x == orig[j as int][r as int]);
                assert(orig[j as int].skip(r as int).drop_first() == orig[j as int].skip(r + 1));
            }
            v.push(x);
            j = j + 1;
        }
        assert(r < orig[0].len());
        assert((r + 1) * n == r * n + n) by (nonlinear_arith);
        r = r + 1;
    }
}

/// The number of occurrences of `v` in `s`.
pub open spec fn count_in<T>(s: Seq<T>, v: T) -> nat
    decreases s.len(),
{
    if s.len() == 0 {
        0
    } else {
        count_in(s.drop_last(), v) + if s.last() == v {
            1nat
        } else {
            0nat
        }
    }
}

/// A value occurs in a sequence no more often than the sequence is long, and at least once
/// exactly when the sequence contains it.
proof fn lemma_count_in_bound(s: Seq<usize>, v: usize)
    ensures
        count_in(s, v) <= s.len(),
        count_in(s, v) > 0 <==> s.contains(v),
    decreases s.len(),
{
    if s.len() > 0 {
        lemma_count_in_bound(s.drop_last(), v);
        if s.drop_last().contains(v) {
            let k = choose|k: int| 0 <= k < s.drop_last().len() && s.drop_last()[k] == v;
            assert(s[k] == v);
        }
        if s.contains(v) && s.last() != v {
            let k = choose|k: int| 0 <= k < s.len() && s[k] == v;
            assert(s.drop_last()[k] == v);
        }
    }
}

/// Counts the occurrences of each value of `inner`.
fn count_each(inner: &Vec<usize>) -> (counts: HashMap<usize, usize>)
    ensures
        forall|k: usize| #[trigger] counts@.contains_key(k) <==> inner@.contains(k),
        forall|k: usize| #[trigger] counts@.contains_key(k) ==> counts@[k] == count_in(inner@, k),
{
    broadcast use vstd::std_specs::hash::group_hash_axioms;
    let len = inner.len();
    let mut counts: HashMap<usize, usize> = HashMap::new();
    let mut i: usize = 0;
    assert(inner@.take(0) =~= Seq::<usize>::empty());
    while i < len
        invariant
            len == inner@.len(),
            i <= len,
            forall|k: usize| #[trigger] counts@.contains_key(k) <==> inner@.take(i as int).contains(k),
            forall|k: usize|
                #[trigger] counts@.contains_key(k) ==> counts@[k] == count_in(inner@.take(i as int), k),
        decreases len - i,
    {
        let v = inner[i];
        let ghost pre = inner@.take(i as int);
        let ghost post = inner@.take(i + 1);
        assert(post.drop_last() == pre);
        assert(post.last() == v);
        let c: usize = match counts.get(&v) {
            Some(c) => *c,
            None => 0,
        };
        proof {
            lemma_count_in_bound(pre, v);
            if !counts@.contains_key(v) {
                assert(!pre.contains(v));
            }
        }
        assert(c == count_in(pre, v));
        let _ = counts.insert(v, c + 1);
        assert forall|k: usize| #[trigger] counts@.contains_key(k) <==> post.contains(k) by {
            if pre.contains(k) {
                let j = choose|j: int| 0 <= j < pre.len() && pre[j] == k;
                assert(post[j] == k);
            }
            if post.contains(k) && k != v {
                let j = choose|j: int| 0 <= j < post.len() && post[j] == k;
                assert(pre[j] == k);
            }
            if k == v {
                assert(post[i as int] == v);
            }
        }
        i = i + 1;
    }
    assert(inner@.take(len as int) == inner@);
    counts
}

/// Inserts `x`, which `v` does not hold, into the strictly increasing `v`, keeping it so.
fn insert_sorted(v: &mut Vec<usize>, x: usize)
    requires
        forall|a: int, b: int| 0 <= a < b < old(v)@.len() ==> old(v)@[a] < old(v)@[b],
        !old(v)@.contains(x),
    ensures
        forall|a: int, b: int| 0 <= a < b < final(v)@.len() ==> final(v)@[a] < final(v)@[b],
        forall|y: usize| final(v)@.contains(y) <==> old(v)@.contains(y) || y == x,
{
    let n = v.len();
    let mut p: usize = 0;
    while p < n && v[p] < x
        invariant
            n == v@.len(),
            p <= n,
            forall|a: int| 0 <= a < p ==> #[trigger] v@[a] < x,
        decreases n - p,
    {
        p = p + 1;
    }
    let ghost before = v@;
    if p < n {
        assert(before[p as int] != x);
    }
    v.insert(p, x);
    assert(v@ == before.insert(p as int, x));
    assert forall|a: int, b: int| 0 <= a < b < v@.len() implies v@[a] < v@[b] by {
        if b < p {
            assert(v@[a] == before[a] && v@[b] == before[b]);
        } else if b == p {
            assert(v@[a] == before[a]);
        } else if a < p {
            assert(v@[a] == before[a] && v@[b] == before[b - 1]);
            assert(before[p as int] > x);
            if b - 1 > p {
                assert(before[p as int] < before[b - 1]);
            }
        } else if a == p {
            assert(v@[b] == before[b - 1]);
            assert(before[p as int] > x);
            if b - 1 > p {
                assert(before[p as int] < before[b - 1]);
            }
        } else {
            assert(v@[a] == before[a - 1] && v@[b] == before[b - 1]);
        }
    }
    assert forall|y: usize| v@.contains(y) <==> before.contains(y) || y == x by {
        if before.contains(y) {
            let k = choose|k: int| 0 <= k < before.len() && before[k] == y;
            if k < p {
                assert(v@[k] == y);
            } else {
                assert(v@[k + 1] == y);
            }
        }
        if y == x {
            assert(v@[p as int] == x);
        }
        if v@.contains(y) && y != x {
            let k = choose|k: int| 0 <= k < v@.len() && v@[k] == y;
            if k < p {
                assert(before[k] == y);
            } else {
                assert(before[k - 1] == y);
            }
        }
    }
}

/// Returns, in increasing order, the values that appear exactly `n` times in the list.
pub fn find_count_n(inner: Vec<usize>, n: usize) -> (r: Vec<usize>)
    ensures
        forall|i: int, j: int| 0 <= i < j < r@.len() ==> r@[i] < r@[j],
        forall|x: usize| r@.contains(x) <==> inner@.contains(x) && count_in(inner@, x) == n,
{
    broadcast use vstd::std_specs::hash::group_hash_axioms;
    let counts = count_each(&inner);
    let mut result: Vec<usize> = Vec::new();
    for entry in it: counts.iter()
        invariant
            forall|k: usize| #[trigger] counts@.contains_key(k) <==> inner@.contains(k),
            forall|k: usize| #[trigger] counts@.contains_key(k) ==> counts@[k] == count_in(inner@, k),
            it.seq() == spec_hash_map_iter(&counts).remaining(),
            it.seq().no_duplicates(),
            forall|a: int, b: int| 0 <= a < b < result@.len() ==> result@[a] < result@[b],
            forall|x: usize|
                #[trigger] result@.contains(x) <==> exists|j: int|
                    0 <= j < it.index() && *it.seq()[j].0 == x && *it.seq()[j].1 == n,
    {
        let (key, count) = entry;
        let ghost idx = it.index();
        assert(it.seq()[idx] == entry);
        assert(counts@.contains_key(*key) && counts@[*key] == *count);
        if *count == n {
            proof {
                if result@.contains(*key) {
                    let j = choose|j: int|
                        0 <= j < idx && *it.seq()[j].0 == *key && *it.seq()[j].1 == n;
                    assert(counts@[*it.seq()[j].0] == *it.seq()[j].1);
                    assert(it.seq()[j] == it.seq()[idx]);
                    assert(false);
                }
            }
            let ghost before = result@;
            insert_sorted(&mut result, *key);
            assert forall|x: usize|
                #[trigger] result@.contains(x) <==> exists|j: int|
                    0 <= j < idx + 1 && *it.seq()[j].0 == x && *it.seq()[j].1 == n by {
                if result@.contains(x) && x != *key {
                    assert(before.contains(x));
                }
                if exists|j: int| 0 <= j < idx + 1 && *it.seq()[j].0 == x && *it.seq()[j].1 == n {
                    let j = choose|j: int|
                        0 <= j < idx + 1 && *it.seq()[j].0 == x && *it.seq()[j].1 == n;
                    if j < idx {
                        assert(before.contains(x));
                    }
                }
            }
        } else {
            assert forall|x: usize|
                #[trigger] result@.contains(x) <==> exists|j: int|
                    0 <= j < idx + 1 && *it.seq()[j].0 == x && *it.seq()[j].1 == n by {
                if exists|j: int| 0 <= j < idx + 1 && *it.seq()[j].0 == x && *it.seq()[j].1 == n {
                    let j = choose|j: int|
                        0 <= j < idx + 1 && *it.seq()[j].0 == x && *it.seq()[j].1 == n;
                    assert(j < idx);
                }
            }
        }
    }
    assert forall|x: usize| result@.contains(x) <==> inner@.contains(x) && count_in(inner@, x)
        == n by {
        let seq = spec_hash_map_iter(&counts).remaining();
        if inner@.contains(x) && count_in(inner@, x) == n {
            assert(counts@.contains_key(x));
            assert(seq.contains((&x, &counts@[x])));
            let j = choose|j: int| 0 <= j < seq.len() && seq[j] == (&x, &counts@[x]);
            assert(*seq[j].0 == x && *seq[j].1 == n);
        }
        if result@.contains(x) {
            let j = choose|j: int| 0 <= j < seq.len() && *seq[j].0 == x && *seq[j].1 == n;
            assert(counts@.contains_key(*seq[j].0));
        }
    }
    result
}

/// Sums every row and then the row sums.
pub open spec fn sum_rows(rows: Seq<Seq<i64>>) -> int
    decreases rows.len(),
{
    if rows.len() == 0 {
        0
    } else {
        sum_rows(rows.drop_last()) + seq_sum(rows.last())
    }
}

/// The views of a list of vectors.
pub open spec fn rows_view(v: Seq<Vec<i64>>) -> Seq<Seq<i64>> {
    v.map_values(|r: Vec<i64>| r@)
}

/// Every running sum within each row, and every running sum of the row sums, fits in `i64`.
pub open spec fn two_dimensional_fit(rows: Seq<Seq<i64>>) -> bool {
    &&& forall|i: int| 0 <= i < rows.len() ==> prefix_sums_fit(#[trigger] rows[i])
    &&& forall|k: int| 0 <= k <= rows.len() ==> i64::MIN <= #[trigger] sum_rows(rows.take(k))
        <= i64::MAX
}

/// The sum of the numbers of a list, added in order.
fn sum_list(v: &Vec<i64>) -> (r: i64)
    requires
        prefix_sums_fit(v@),
    ensures
        r == seq_sum(v@),
{
    let mut total: i64 = 0;
    let n = v.len();
    let mut i: usize = 0;
    assert(v@.take(0) == Seq::<i64>::empty());
    while i < n
        invariant
            n == v@.len(),
            i <= n,
            prefix_sums_fit(v@),
            total == seq_sum(v@.take(i as int)),
        decreases n - i,
    {
        assert(v@.take(i + 1).drop_last() == v@.take(i as int));
        assert(i64::MIN <= seq_sum(v@.take(i + 1)) <= i64::MAX);
        total = total + v[i];
        i = i + 1;
    }
    assert(v@.take(n as int) == v@);
    total
}

/// Returns the sum of all elements in a two-dimensional list: each row is summed, then the
/// row sums are added up.
pub fn two_dimensional_sum(inner: Vec<Vec<i64>>) -> (r: i64)
    requires
        two_dimensional_fit(rows_view(inner@)),
    ensures
        r == sum_rows(rows_view(inner@)),
{
    let ghost rows = rows_view(inner@);
    let mut total: i64 = 0;
    let n = inner.len();
    let mut i: usize = 0;
    assert(rows.take(0) == Seq::<Seq<i64>>::empty());
    while i < n
        invariant
            n == inner@.len(),
            rows == rows_view(inner@),
            i <= n,
            two_dimensional_fit(rows),
            total == sum_rows(rows.take(i as int)),
        decreases n - i,
    {
        assert(rows[i as int] == inner@[i as int]@);
        let s = sum_list(&inner[i]);
        assert(rows.take(i + 1).drop_last() == rows.take(i as int));
        assert(i64::MIN <= sum_rows(rows.take(i + 1)) <= i64::MAX);
        total = total + s;
        i = i + 1;
    }
    assert(rows.take(n as int) == rows);
    total
}

/// Returns whether the given string reads the same backward as forward (the empty string
/// does).
pub fn is_palindrome(s: String) -> (r: bool)
    ensures
        r == (s@ == s@.reverse()),
{
    let c = str_chars(s.as_str());
    let n = c.len();
    let mut i: usize = 0;
    while i < n
        invariant
            n == c@.len(),
            c@ == s@,
            i <= n,
            forall|j: int| 0 <= j < i ==> #[trigger] c@[j] == c@[n - 1 - j],
        decreases n - i,
    {
        if c[i] != c[n - 1 - i] {
            assert(s@.reverse()[i as int] == c@[n - 1 - i]);
            return false;
        }
        i = i + 1;
    }
    assert(s@ =~= s@.reverse());
    true
}

} // verus!
