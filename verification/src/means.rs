//! The integer parts of two averages: the sum of the `k` smallest numbers of a list, and the
//! total score and number of entries of each class.
use vstd::prelude::*;
use crate::sorting::sort_by;
use crate::median_position::{ord_le, lawful_ord, sort_positions, lemma_sort_by_map, positions, at, pull_back};

verus! {

/// The usual order on `i64`.
pub open spec fn i64_le() -> spec_fn(i64, i64) -> bool {
    |a: i64, b: i64| a <= b
}

/// The sum of a sequence of numbers.
pub open spec fn total(s: Seq<i64>) -> int
    decreases s.len(),
{
    if s.len() == 0 {
        0
    } else {
        total(s.drop_last()) + s.last()
    }
}

/// The order `Ord` gives on `i64` is the usual one, and it is lawful.
proof fn lemma_i64_order()
    ensures
        ord_le::<i64>() == i64_le(),
        lawful_ord::<i64>(),
{
    broadcast use vstd::laws_cmp::group_laws_cmp;

    assert(ord_le::<i64>() =~= i64_le());
}

/// Returns the sum of the `k` smallest numbers of `inner` (all of them when there are fewer
/// than `k`) and how many numbers that is.
pub fn k_smallest_sum(inner: Vec<i64>, k: usize) -> (r: (i128, usize))
    ensures
        r.1 == if k <= inner@.len() {
            k
        } else {
            inner@.len() as usize
        },
        r.0 == total(sort_by(inner@, i64_le()).take(r.1 as int)),
{
    proof {
        lemma_i64_order();
    }
    let order = sort_positions(&inner);
    let ghost sorted = sort_by(inner@, i64_le());
    proof {
        lemma_sort_by_map(positions(inner@.len()), at(inner@), i64_le());
        assert(positions(inner@.len()).map_values(at(inner@)) == inner@);
        crate::sorting::lemma_sort_by(positions(inner@.len()), pull_back(i64_le(), at(inner@)));
        assert(sorted == order@.map_values(at(inner@)));
    }
    let count = if k <= inner.len() {
        k
    } else {
        inner.len()
    };
    let mut sum: i128 = 0;
    let mut i: usize = 0;
    assert(sorted.take(0) == Seq::<i64>::empty());
    while i < count
        invariant
            count <= order@.len(),
            order@.len() == inner@.len(),
            sorted == order@.map_values(at(inner@)),
            forall|j: int| 0 <= j < order@.len() ==> #[trigger] order@[j] < inner@.len(),
            i <= count,
            sum == total(sorted.take(i as int)),
            i64::MIN * i <= sum <= i64::MAX * i,
        decreases count - i,
    {
        let x = inner[order[i]];
        assert(sorted[i as int] == x);
        assert(sorted.take(i + 1).drop_last() == sorted.take(i as int));
        sum = sum + x as i128;
        i = i + 1;
    }
    (sum, count)
}

/// The sum of the scores of the entries of class `name`.
pub open spec fn class_sum(items: Seq<(String, i64)>, name: Seq<char>) -> int
    decreases items.len(),
{
    if items.len() == 0 {
        0
    } else {
        class_sum(items.drop_last(), name) + if items.last().0@ == name {
            items.last().1 as int
        } else {
            0
        }
    }
}

/// The number of entries of class `name`.
pub open spec fn class_count(items: Seq<(String, i64)>, name: Seq<char>) -> int
    decreases items.len(),
{
    if items.len() == 0 {
        0
    } else {
        class_count(items.drop_last(), name) + if items.last().0@ == name {
            1int
        } else {
            0
        }
    }
}

/// The classes of the entries, each once, in order of first appearance.
pub open spec fn classes(items: Seq<(String, i64)>) -> Seq<Seq<char>>
    decreases items.len(),
{
    if items.len() == 0 {
        Seq::empty()
    } else if classes(items.drop_last()).contains(items.last().0@) {
        classes(items.drop_last())
    } else {
        classes(items.drop_last()).push(items.last().0@)
    }
}

/// Adding the scores of each class in order, entry by entry, never leaves `i64`.
pub open spec fn class_sums_fit(items: Seq<(String, i64)>) -> bool {
    forall|k: int, name: Seq<char>|
        0 <= k <= items.len() ==> i64::MIN <= #[trigger] class_sum(items.take(k), name) <= i64::MAX
}

/// The names of a list of class totals.
pub open spec fn total_names(rows: Seq<(String, i64, usize)>) -> Seq<Seq<char>> {
    rows.map_values(|r: (String, i64, usize)| r.0@)
}

/// Returns, for each class in order of first appearance, its name, the sum of its scores and
/// its number of entries; `None` when adding up the scores of a class, entry by entry, leaves
/// `i64`.
pub fn class_totals(inner: Vec<(String, i64)>) -> (r: Option<Vec<(String, i64, usize)>>)
    ensures
        r is None <==> !class_sums_fit(inner@),
        r matches Some(rows) ==> {
            &&& total_names(rows@) == classes(inner@)
            &&& forall|i: int|
                0 <= i < rows@.len() ==> #[trigger] rows@[i].1 == class_sum(inner@, rows@[i].0@)
                    && rows@[i].2 == class_count(inner@, rows@[i].0@)
        },
{
    let ghost items = inner@;
    let mut rows: Vec<(String, i64, usize)> = Vec::new();
    let n = inner.len();
    let mut i: usize = 0;
    assert(items.take(0) == Seq::<(String, i64)>::empty());
    while i < n
        invariant
            n == items.len(),
            items == inner@,
            i <= n,
            total_names(rows@) == classes(items.take(i as int)),
            forall|j: int|
                0 <= j < rows@.len() ==> #[trigger] rows@[j].1 == class_sum(items.take(i as int), rows@[j].0@)
                    && rows@[j].2 == class_count(items.take(i as int), rows@[j].0@),
            forall|k: int, name: Seq<char>|
                0 <= k <= i ==> i64::MIN <= #[trigger] class_sum(items.take(k), name) <= i64::MAX,
            forall|name: Seq<char>| 0 <= #[trigger] class_count(items.take(i as int), name) <= i,
            forall|name: Seq<char>|
                !classes(items.take(i as int)).contains(name) ==> #[trigger] class_sum(items.take(i as int), name)
                    == 0 && class_count(items.take(i as int), name) == 0,
        decreases n - i,
    {
        let ghost prefix = items.take(i as int);
        let ghost next = items.take(i + 1);
        assert(next.drop_last() == prefix);
        assert(next.last() == items[i as int]);
        let name = &inner[i].0;
        let score = inner[i].1;
        let m = rows.len();
        let mut j: usize = 0;
        while j < m
            invariant
                m == rows@.len(),
                j <= m,
                forall|t: int| 0 <= t < j ==> rows@[t].0@ != name@,
            ensures
                j <= m,
                forall|t: int| 0 <= t < j ==> rows@[t].0@ != name@,
                j < m ==> rows@[j as int].0@ == name@,
            decreases m - j,
        {
            if rows[j].0 == *name {
                break;
            }
            j = j + 1;
        }
        proof {
            lemma_classes_contains(prefix);
        }
        if j < m {
            let (row_name, s, c) = (rows[j].0.clone(), rows[j].1, rows[j].2);
            match s.checked_add(score) {
                None => {
                    proof {
                        assert(class_sum(next, name@) == class_sum(prefix, name@) + score);
                        assert(!(i64::MIN <= class_sum(items.take(i + 1), name@) <= i64::MAX));
                    }
                    return None;
                },
                Some(new_sum) => {
                    let ghost before = rows@;
                    rows.set(j, (row_name, new_sum, c + 1));
                    proof {
                        assert(total_names(rows@) == total_names(before)) by {
                            assert forall|t: int| 0 <= t < rows@.len() implies total_names(rows@)[t] == total_names(before)[t] by {
                            }
                        }
                        assert(classes(prefix).contains(name@)) by {
                            assert(total_names(before)[j as int] == name@);
                        }
                        assert(classes(next) == classes(prefix));
                        assert forall|t: int| 0 <= t < rows@.len() implies #[trigger] rows@[t].1 == class_sum(next, rows@[t].0@)
                            && rows@[t].2 == class_count(next, rows@[t].0@) by {
                            if t != j {
                                assert(rows@[t] == before[t]);
                                assert(before[t].0@ != name@) by {
                                    lemma_distinct_names(before, prefix, t, j as int);
                                }
                            }
                        }
                        assert forall|k: int, nm: Seq<char>|
                            0 <= k <= i + 1 implies i64::MIN <= #[trigger] class_sum(items.take(k), nm) <= i64::MAX by {
                            if k == i + 1 && nm != name@ {
                                assert(class_sum(next, nm) == class_sum(prefix, nm));
                            }
                        }
                    }
                },
            }
        } else {
            let ghost before = rows@;
            rows.push((name.clone(), score, 1));
            proof {
                assert(!total_names(before).contains(name@)) by {
                    if total_names(before).contains(name@) {
                        let t = choose|t: int| 0 <= t < before.len() && total_names(before)[t] == name@;
                    }
                }
                assert(classes(next) == classes(prefix).push(name@));
                assert(total_names(rows@) == total_names(before).push(name@));
                assert(class_sum(prefix, name@) == 0);
                assert forall|t: int| 0 <= t < rows@.len() implies #[trigger] rows@[t].1 == class_sum(next, rows@[t].0@)
                    && rows@[t].2 == class_count(next, rows@[t].0@) by {
                    if t < before.len() {
                        assert(rows@[t] == before[t]);
                        assert(before[t].0@ != name@) by {
                            assert(total_names(before)[t] == before[t].0@);
                        }
                    }
                }
                assert forall|k: int, nm: Seq<char>|
                    0 <= k <= i + 1 implies i64::MIN <= #[trigger] class_sum(items.take(k), nm) <= i64::MAX by {
                    if k == i + 1 && nm != name@ {
                        assert(class_sum(next, nm) == class_sum(prefix, nm));
                    }
                }
            }
        }
        proof {
            lemma_classes_contains(next);
            assert forall|nm: Seq<char>| 0 <= #[trigger] class_count(next, nm) <= i + 1 by {
                assert(class_count(next, nm) == class_count(prefix, nm) + if next.last().0@ == nm {
                    1int
                } else {
                    0
                });
            }
        }
        i = i + 1;
    }
    assert(items.take(n as int) == items);
    Some(rows)
}

/// A name in the classes of a prefix has been seen; a name not in them has no entries.
proof fn lemma_classes_contains(items: Seq<(String, i64)>)
    ensures
        forall|name: Seq<char>|
            !#[trigger] classes(items).contains(name) ==> class_sum(items, name) == 0 && class_count(items, name) == 0,
    decreases items.len(),
{
    if items.len() > 0 {
        lemma_classes_contains(items.drop_last());
        assert forall|name: Seq<char>|
            !#[trigger] classes(items).contains(name) implies class_sum(items, name) == 0 && class_count(items, name) == 0 by {
            let p = classes(items.drop_last());
            if p.contains(items.last().0@) {
                assert(classes(items) == p);
                if p.contains(name) {
                }
                if items.last().0@ == name {
                }
            } else {
                assert(classes(items) == p.push(items.last().0@));
                if p.contains(name) {
                    let t = choose|t: int| 0 <= t < p.len() && p[t] == name;
                    assert(p.push(items.last().0@)[t] == name);
                }
                if items.last().0@ == name {
                    assert(p.push(items.last().0@)[p.len() as int] == name);
                }
            }
        }
    }
}

/// The classes of a list of entries are distinct.
proof fn lemma_distinct_names(rows: Seq<(String, i64, usize)>, items: Seq<(String, i64)>, a: int, b: int)
    requires
        total_names(rows) == classes(items),
        0 <= a < rows.len(),
        0 <= b < rows.len(),
        a != b,
    ensures
        rows[a].0@ != rows[b].0@,
{
    lemma_classes_distinct(items);
    assert(total_names(rows)[a] == rows[a].0@);
    assert(total_names(rows)[b] == rows[b].0@);
}

/// No class is listed twice.
proof fn lemma_classes_distinct(items: Seq<(String, i64)>)
    ensures
        forall|a: int, b: int|
            0 <= a < b < classes(items).len() ==> classes(items)[a] != classes(items)[b],
    decreases items.len(),
{
    if items.len() > 0 {
        lemma_classes_distinct(items.drop_last());
        let p = classes(items.drop_last());
        if !p.contains(items.last().0@) {
            let c = p.push(items.last().0@);
            assert forall|a: int, b: int| 0 <= a < b < c.len() implies c[a] != c[b] by {
                if b == p.len() {
                    assert(c[a] == p[a]);
                    assert(p.contains(p[a]));
                } else {
                    assert(c[a] == p[a] && c[b] == p[b]);
                }
            }
        }
    }
}

} // verus!
