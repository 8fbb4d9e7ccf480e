//! Counting the ways to pick one number from each list so that the picks add up to a target.
use vstd::prelude::*;
use std::collections::HashMap;
use vstd::std_specs::hash::spec_hash_map_iter;
use vstd::std_specs::iter::IteratorSpec;

verus! {

/// The number of ways to pick one element from each of `rows` (an element of the cartesian
/// product) whose sum is `target`. With no rows there is one, empty, pick, whose sum is zero.
pub open spec fn count_choices(rows: Seq<Seq<i64>>, target: int) -> nat
    decreases rows.len(), if rows.len() > 0 {
        rows.last().len() + 1
    } else {
        0
    },
{
    if rows.len() == 0 {
        if target == 0 {
            1
        } else {
            0
        }
    } else {
        ways_with(rows.drop_last(), rows.last(), target)
    }
}

/// The number of ways to reach `target` by picking one element from each of `prefix` and then
/// one from `row`: the ways to reach `target - x` with `prefix`, summed over the picks `x` of
/// `row`.
pub open spec fn ways_with(prefix: Seq<Seq<i64>>, row: Seq<i64>, target: int) -> nat
    decreases prefix.len() + 1, row.len(),
{
    if row.len() == 0 {
        0
    } else {
        ways_with(prefix, row.drop_last(), target) + count_choices(prefix, target - row.last())
    }
}

/// The views of a list of vectors.
pub open spec fn rows_of(v: Seq<Vec<i64>>) -> Seq<Seq<i64>> {
    v.map_values(|r: Vec<i64>| r@)
}

/// What the running computation over the first rows never exceeds: every sum that some pick
/// from the first `k` rows reaches fits in `i64`, and the number of picks reaching any one sum
/// fits in `usize`.
pub open spec fn counts_fit(rows: Seq<Seq<i64>>) -> bool {
    &&& forall|k: int, t: int|
        0 <= k <= rows.len() && #[trigger] count_choices(rows.take(k), t) > 0 ==> i64::MIN <= t
            <= i64::MAX
    &&& forall|k: int, t: int|
        0 <= k <= rows.len() ==> #[trigger] count_choices(rows.take(k), t) <= usize::MAX
}

/// The total count recorded for `key` in a list of (sum, count) entries.
pub open spec fn lookup(list: Seq<(i64, usize)>, key: int) -> nat
    decreases list.len(),
{
    if list.len() == 0 {
        0
    } else {
        lookup(list.drop_last(), key) + if list.last().0 == key {
            list.last().1 as nat
        } else {
            0nat
        }
    }
}

proof fn lemma_lookup_take(list: Seq<(i64, usize)>, a: int, key: int)
    requires
        0 <= a < list.len(),
    ensures
        lookup(list.take(a + 1), key) == lookup(list.take(a), key) + if list[a].0 == key {
            list[a].1 as nat
        } else {
            0nat
        },
{
    assert(list.take(a + 1).drop_last() == list.take(a));
}

proof fn lemma_lookup_take_le(list: Seq<(i64, usize)>, a: int, key: int)
    requires
        0 <= a <= list.len(),
    ensures
        lookup(list.take(a), key) <= lookup(list, key),
    decreases list.len() - a,
{
    if a < list.len() {
        lemma_lookup_take(list, a, key);
        lemma_lookup_take_le(list, a + 1, key);
    } else {
        assert(list.take(a) == list);
    }
}

proof fn lemma_lookup_entry(list: Seq<(i64, usize)>, i: int)
    requires
        0 <= i < list.len(),
    ensures
        list[i].1 <= lookup(list, list[i].0 as int),
    decreases list.len(),
{
    if i < list.len() - 1 {
        lemma_lookup_entry(list.drop_last(), i);
    }
}

proof fn lemma_ways_take(prefix: Seq<Seq<i64>>, row: Seq<i64>, b: int, t: int)
    requires
        0 <= b < row.len(),
    ensures
        ways_with(prefix, row.take(b + 1), t) == ways_with(prefix, row.take(b), t) + count_choices(
            prefix,
            t - row[b],
        ),
{
    assert(row.take(b + 1).drop_last() == row.take(b));
}

proof fn lemma_ways_take_le(prefix: Seq<Seq<i64>>, row: Seq<i64>, b: int, t: int)
    requires
        0 <= b <= row.len(),
    ensures
        ways_with(prefix, row.take(b), t) <= ways_with(prefix, row, t),
    decreases row.len() - b,
{
    if b < row.len() {
        lemma_ways_take(prefix, row, b, t);
        lemma_ways_take_le(prefix, row, b + 1, t);
    } else {
        assert(row.take(b) == row);
    }
}

proof fn lemma_ways_term(prefix: Seq<Seq<i64>>, row: Seq<i64>, b: int, t: int)
    requires
        0 <= b < row.len(),
    ensures
        count_choices(prefix, t - row[b]) <= ways_with(prefix, row, t),
{
    lemma_ways_take(prefix, row, b, t);
    lemma_ways_take_le(prefix, row, b + 1, t);
}

/// The count a map records for `t`: its value there, or zero when it has none.
pub open spec fn count_at(m: Map<i64, usize>, t: int) -> nat {
    if i64::MIN <= t <= i64::MAX && m.contains_key(t as i64) {
        m[t as i64] as nat
    } else {
        0
    }
}

/// A list of entries with distinct keys, holding exactly the entries of `m`, records the same
/// counts as `m`.
proof fn lemma_lookup_entries(list: Seq<(i64, usize)>, m: Map<i64, usize>)
    requires
        forall|i: int, j: int| 0 <= i < j < list.len() ==> #[trigger] list[i].0 != #[trigger] list[j].0,
        forall|i: int| 0 <= i < list.len() ==> #[trigger] m.contains_key(list[i].0) && m[list[i].0] == list[i].1,
        forall|k: i64| #[trigger] m.contains_key(k) ==> exists|i: int| 0 <= i < list.len() && list[i].0 == k,
    ensures
        forall|t: int| #[trigger] lookup(list, t) == count_at(m, t),
    decreases list.len(),
{
    if list.len() == 0 {
        assert forall|t: int| #[trigger] lookup(list, t) == count_at(m, t) by {
            if i64::MIN <= t <= i64::MAX && m.contains_key(t as i64) {
                let i = choose|i: int| 0 <= i < list.len() && list[i].0 == t as i64;
            }
        }
    } else {
        let init = list.drop_last();
        let e = list.last();
        let m2 = m.remove(e.0);
        assert forall|k: i64| #[trigger] m2.contains_key(k) implies exists|i: int|
            0 <= i < init.len() && init[i].0 == k by {
            let i = choose|i: int| 0 <= i < list.len() && list[i].0 == k;
            assert(i != list.len() - 1);
            assert(init[i].0 == k);
        }
        assert forall|i: int| 0 <= i < init.len() implies #[trigger] m2.contains_key(init[i].0)
            && m2[init[i].0] == init[i].1 by {
            assert(init[i] == list[i]);
            assert(list[i].0 != list[list.len() - 1].0);
        }
        assert forall|i: int, j: int| 0 <= i < j < init.len() implies #[trigger] init[i].0
            != #[trigger] init[j].0 by {
            assert(init[i] == list[i] && init[j] == list[j]);
        }
        lemma_lookup_entries(init, m2);
        assert(list[list.len() - 1] == e);
        assert(m.contains_key(list[list.len() - 1].0));
        assert forall|t: int| #[trigger] lookup(list, t) == count_at(m, t) by {
            assert(lookup(init, t) == count_at(m2, t));
            if i64::MIN <= t <= i64::MAX && t as i64 != e.0 {
                assert(m2.contains_key(t as i64) == m.contains_key(t as i64));
                if m.contains_key(t as i64) {
                    assert(m2[t as i64] == m[t as i64]);
                }
            }
        }
    }
}

/// Adds `c` to the count recorded for `key`.
fn add_count(m: &mut HashMap<i64, usize>, key: i64, c: usize)
    requires
        count_at(old(m)@, key as int) + c <= usize::MAX,
        c > 0,
        forall|k: i64| #[trigger] old(m)@.contains_key(k) ==> old(m)@[k] > 0,
    ensures
        forall|t: int|
            #[trigger] count_at(final(m)@, t) == count_at(old(m)@, t) + if t == key {
                c as nat
            } else {
                0nat
            },
        forall|k: i64| #[trigger] final(m)@.contains_key(k) ==> final(m)@[k] > 0,
{
    broadcast use vstd::std_specs::hash::group_hash_axioms;
    let old_count: usize = match m.get(&key) {
        Some(v) => *v,
        None => 0,
    };
    assert(old_count == count_at(old(m)@, key as int));
    let _ = m.insert(key, old_count + c);
}

/// The count recorded for `key`.
fn get_count(m: &HashMap<i64, usize>, key: i64) -> (r: usize)
    ensures
        r == count_at(m@, key as int),
{
    broadcast use vstd::std_specs::hash::group_hash_axioms;
    match m.get(&key) {
        Some(v) => *v,
        None => 0,
    }
}

/// The entries of a map, as a list with distinct keys recording the same counts.
fn entries_of(m: &HashMap<i64, usize>) -> (r: Vec<(i64, usize)>)
    ensures
        forall|t: int| #[trigger] lookup(r@, t) == count_at(m@, t),
        forall|j: int| 0 <= j < r@.len() ==> m@.contains_key(#[trigger] r@[j].0) && m@[r@[j].0] == r@[j].1,
{
    broadcast use vstd::std_specs::hash::group_hash_axioms;
    let mut out: Vec<(i64, usize)> = Vec::new();
    for entry in it: m.iter()
        invariant
            it.seq() == spec_hash_map_iter(m).remaining(),
            it.seq().no_duplicates(),
            out@.len() == it.index(),
            forall|j: int| 0 <= j < it.index() ==> #[trigger] out@[j] == (*it.seq()[j].0, *it.seq()[j].1),
    {
        let (k, v) = entry;
        assert(it.seq()[it.index()] == entry);
        out.push((*k, *v));
    }
    let ghost seq = spec_hash_map_iter(m).remaining();
    proof {
        assert forall|j: int| 0 <= j < out@.len() implies #[trigger] m@.contains_key(out@[j].0)
            && m@[out@[j].0] == out@[j].1 by {
            assert(out@[j] == (*seq[j].0, *seq[j].1));
            assert(m@.contains_key(*seq[j].0));
        }
        assert forall|i: int, j: int| 0 <= i < j < out@.len() implies #[trigger] out@[i].0
            != #[trigger] out@[j].0 by {
            if out@[i].0 == out@[j].0 {
                assert(m@.contains_key(*seq[i].0));
                assert(m@.contains_key(*seq[j].0));
                assert(seq[i] == seq[j]);
            }
        }
        assert forall|k: i64| #[trigger] m@.contains_key(k) implies exists|i: int|
            0 <= i < out@.len() && out@[i].0 == k by {
            assert(seq.contains((&k, &m@[k])));
            let i = choose|i: int| 0 <= i < seq.len() && seq[i] == (&k, &m@[k]);
            assert(out@[i].0 == k);
        }
        lemma_lookup_entries(out@, m@);
    }
    out
}

/// Returns the number of elements of the cartesian product of the lists (one element picked
/// from each list, in order) whose sum equals `n`. With no lists, the only pick is empty and
/// sums to zero.
pub fn sum_is_n(inner: Vec<Vec<i64>>, n: i64) -> (r: usize)
    requires
        counts_fit(rows_of(inner@)),
    ensures
        r == count_choices(rows_of(inner@), n as int),
{
    broadcast use vstd::std_specs::hash::group_hash_axioms;
    let ghost rows = rows_of(inner@);
    let mut current: HashMap<i64, usize> = HashMap::new();
    let _ = current.insert(0, 1);
    proof {
        assert(rows.take(0) == Seq::<Seq<i64>>::empty());
        assert forall|t: int| #[trigger] count_at(current@, t) == count_choices(rows.take(0), t) by {}
    }
    let len = inner.len();
    let mut k: usize = 0;
    while k < len
        invariant
            len == inner@.len(),
            rows == rows_of(inner@),
            counts_fit(rows),
            k <= len,
            forall|t: int| #[trigger] count_at(current@, t) == count_choices(rows.take(k as int), t),
            forall|key: i64| #[trigger] current@.contains_key(key) ==> current@[key] > 0,
        decreases len - k,
    {
        let row = &inner[k];
        let ghost prefix = rows.take(k as int);
        assert(row@ == rows[k as int]);
        assert(rows.take(k + 1).drop_last() == prefix);
        assert(rows.take(k + 1).last() == row@);
        let cur = entries_of(&current);
        assert forall|j: int| 0 <= j < cur@.len() implies #[trigger] cur@[j].1 > 0 by {
            assert(current@.contains_key(cur@[j].0));
        }
        let mut next: HashMap<i64, usize> = HashMap::new();
        let m = row.len();
        let mut b: usize = 0;
        while b < m
            invariant
                len == inner@.len(),
                rows == rows_of(inner@),
                counts_fit(rows),
                k < len,
                prefix == rows.take(k as int),
                rows.take(k + 1).drop_last() == prefix,
                rows.take(k + 1).last() == row@,
                m == row@.len(),
                b <= m,
                forall|t: int| #[trigger] lookup(cur@, t) == count_choices(prefix, t),
                forall|j: int| 0 <= j < cur@.len() ==> #[trigger] cur@[j].1 > 0,
                forall|t: int|
                    #[trigger] count_at(next@, t) == ways_with(prefix, row@.take(b as int), t),
                forall|key: i64| #[trigger] next@.contains_key(key) ==> next@[key] > 0,
            decreases m - b,
        {
            let x = row[b];
            let ghost base = next@;
            let cn = cur.len();
            let mut a: usize = 0;
            assert(cur@.take(0) == Seq::<(i64, usize)>::empty());
            while a < cn
                invariant
                    len == inner@.len(),
                    rows == rows_of(inner@),
                    counts_fit(rows),
                    k < len,
                    prefix == rows.take(k as int),
                    rows.take(k + 1).drop_last() == prefix,
                    rows.take(k + 1).last() == row@,
                    m == row@.len(),
                    b < m,
                    x == row@[b as int],
                    cn == cur@.len(),
                    a <= cn,
                    forall|t: int| #[trigger] lookup(cur@, t) == count_choices(prefix, t),
                    forall|j: int| 0 <= j < cur@.len() ==> #[trigger] cur@[j].1 > 0,
                    forall|t: int|
                        #[trigger] count_at(base, t) == ways_with(prefix, row@.take(b as int), t),
                    forall|t: int|
                        #[trigger] count_at(next@, t) == count_at(base, t) + lookup(
                            cur@.take(a as int),
                            t - x,
                        ),
                    forall|key: i64| #[trigger] next@.contains_key(key) ==> next@[key] > 0,
                decreases cn - a,
            {
                let (s, c) = cur[a];
                let ghost total = s + x;
                proof {
                    lemma_lookup_entry(cur@, a as int);
                    assert(count_choices(prefix, s as int) > 0);
                    lemma_ways_term(prefix, row@, b as int, total);
                    assert(count_choices(rows.take(k + 1), total) > 0);
                    assert(i64::MIN <= total <= i64::MAX);
                    lemma_lookup_take(cur@, a as int, total - x);
                    lemma_lookup_take_le(cur@, a + 1, total - x);
                    lemma_ways_take(prefix, row@, b as int, total);
                    lemma_ways_take_le(prefix, row@, b + 1, total);
                    assert(count_choices(rows.take(k + 1), total) <= usize::MAX);
                }
                add_count(&mut next, s + x, c);
                proof {
                    assert forall|t: int|
                        #[trigger] count_at(next@, t) == count_at(base, t) + lookup(
                            cur@.take(a + 1),
                            t - x,
                        ) by {
                        lemma_lookup_take(cur@, a as int, t - x);
                    }
                }
                a = a + 1;
            }
            proof {
                assert(cur@.take(cn as int) == cur@);
                assert forall|t: int|
                    #[trigger] count_at(next@, t) == ways_with(prefix, row@.take(b + 1), t) by {
                    lemma_ways_take(prefix, row@, b as int, t);
                }
            }
            b = b + 1;
        }
        proof {
            assert(row@.take(m as int) == row@);
            assert forall|t: int| #[trigger] count_at(next@, t) == count_choices(rows.take(k + 1), t) by {
            }
        }
        current = next;
        k = k + 1;
    }
    proof {
        assert(rows.take(len as int) == rows);
    }
    get_count(&current, n)
}

} // verus!
