//! Editing lists in place, and joining two tables on their first column.
use vstd::prelude::*;

verus! {

/// The odd numbers of `s`, in order.
pub open spec fn odd_only(s: Seq<i64>) -> Seq<i64>
    decreases s.len(),
{
    if s.len() == 0 {
        s
    } else if s.last() % 2 != 0 {
        odd_only(s.drop_last()).push(s.last())
    } else {
        odd_only(s.drop_last())
    }
}

/// The odd numbers of a list are its elements `x` with `x % 2 == 1` (for negative numbers too:
/// `-3` is odd), in their order.
pub proof fn lemma_odd_only(s: Seq<i64>)
    ensures
        odd_only(s) == s.filter(|x: i64| x % 2 == 1),
        forall|x: i64| #[trigger] odd_only(s).contains(x) <==> s.contains(x) && x % 2 == 1,
    decreases s.len(),
{
    reveal(Seq::filter);
    if s.len() > 0 {
        lemma_odd_only(s.drop_last());
        assert((s.last() % 2 != 0) == (s.last() % 2 == 1));
    }
    let pred = |x: i64| x % 2 == 1;
    assert(odd_only(s) == s.filter(pred));
    assert forall|x: i64| #[trigger] odd_only(s).contains(x) <==> s.contains(x) && x % 2 == 1 by {
        if s.contains(x) && x % 2 == 1 {
            let i = choose|i: int| 0 <= i < s.len() && s[i] == x;
            s.lemma_filter_contains(pred, i);
        }
        if s.filter(pred).contains(x) {
            s.lemma_filter_contains_rev(pred, x);
            let i = choose|i: int| 0 <= i < s.filter(pred).len() && s.filter(pred)[i] == x;
            s.lemma_filter_pred(pred, i);
        }
    }
}

/// Removes every even number from the list, keeping the order of the others.
pub fn remove_even(inner: &mut Vec<i64>)
    ensures
        final(inner)@ == odd_only(old(inner)@),
{
    let ghost s = inner@;
    let mut out: Vec<i64> = Vec::new();
    let n = inner.len();
    let mut i: usize = 0;
    assert(s.take(0) == Seq::<i64>::empty());
    while i < n
        invariant
            n == s.len(),
            s == inner@,
            i <= n,
            out@ == odd_only(s.take(i as int)),
        decreases n - i,
    {
        let x = inner[i];
        assert(s.take(i + 1).drop_last() == s.take(i as int));
        assert(s.take(i + 1).last() == x);
        if x % 2 != 0 {
            out.push(x);
        }
        i = i + 1;
    }
    assert(s.take(n as int) == s);
    *inner = out;
}

/// The first occurrence of each value of `s`, in order.
pub open spec fn dedup(s: Seq<i64>) -> Seq<i64>
    decreases s.len(),
{
    if s.len() == 0 {
        s
    } else if s.drop_last().contains(s.last()) {
        dedup(s.drop_last())
    } else {
        dedup(s.drop_last()).push(s.last())
    }
}

/// `dedup(s)` holds the values of `s`, each once.
pub proof fn lemma_dedup(s: Seq<i64>)
    ensures
        forall|x: i64| #[trigger] dedup(s).contains(x) <==> s.contains(x),
        forall|i: int, j: int| 0 <= i < j < dedup(s).len() ==> dedup(s)[i] != dedup(s)[j],
    decreases s.len(),
{
    if s.len() > 0 {
        let p = s.drop_last();
        lemma_dedup(p);
        assert forall|x: i64| #[trigger] dedup(s).contains(x) <==> s.contains(x) by {
            if p.contains(x) {
                let i = choose|i: int| 0 <= i < p.len() && p[i] == x;
                assert(s[i] == x);
            }
            if s.contains(x) && x != s.last() {
                let i = choose|i: int| 0 <= i < s.len() && s[i] == x;
                assert(p[i] == x);
            }
            if !p.contains(s.last()) {
                let d = dedup(p).push(s.last());
                if d.contains(x) && x != s.last() {
                    let i = choose|i: int| 0 <= i < d.len() && d[i] == x;
                    assert(dedup(p)[i] == x);
                }
                if dedup(p).contains(x) {
                    let i = choose|i: int| 0 <= i < dedup(p).len() && dedup(p)[i] == x;
                    assert(d[i] == x);
                }
                if x == s.last() {
                    assert(d[dedup(p).len() as int] == x);
                }
            }
        }
        if !p.contains(s.last()) {
            let d = dedup(p).push(s.last());
            assert forall|i: int, j: int| 0 <= i < j < d.len() implies d[i] != d[j] by {
                if j == dedup(p).len() {
                    assert(d[i] == dedup(p)[i]);
                    assert(dedup(p).contains(d[i]));
                } else {
                    assert(d[i] == dedup(p)[i] && d[j] == dedup(p)[j]);
                }
            }
        }
    }
}

/// Removes every occurrence of a value but the first, keeping the order of the others.
pub fn remove_duplicate(inner: &mut Vec<i64>)
    ensures
        final(inner)@ == dedup(old(inner)@),
{
    let ghost s = inner@;
    let mut out: Vec<i64> = Vec::new();
    let n = inner.len();
    let mut i: usize = 0;
    assert(s.take(0) == Seq::<i64>::empty());
    while i < n
        invariant
            n == s.len(),
            s == inner@,
            i <= n,
            out@ == dedup(s.take(i as int)),
        decreases n - i,
    {
        let x = inner[i];
        assert(s.take(i + 1).drop_last() == s.take(i as int));
        assert(s.take(i + 1).last() == x);
        proof {
            lemma_dedup(s.take(i as int));
        }
        let mut seen = false;
        let m = out.len();
        let mut j: usize = 0;
        while j < m
            invariant
                m == out@.len(),
                j <= m,
                seen <==> exists|k: int| 0 <= k < j && out@[k] == x,
            decreases m - j,
        {
            if out[j] == x {
                seen = true;
            }
            j = j + 1;
        }
        assert(seen <==> out@.contains(x));
        if !seen {
            out.push(x);
        }
        i = i + 1;
    }
    assert(s.take(n as int) == s);
    *inner = out;
}

/// The views of the cells of a table.
pub open spec fn table_view(t: Seq<Vec<String>>) -> Seq<Seq<Seq<char>>> {
    t.map_values(|row: Vec<String>| row@.map_values(|cell: String| cell@))
}

/// The rows that `row` forms with the rows of `t2` that share its first cell: all of `row`,
/// followed by the cells of the row of `t2` but its first.
pub open spec fn join_row(row: Seq<Seq<char>>, t2: Seq<Seq<Seq<char>>>) -> Seq<Seq<Seq<char>>>
    decreases t2.len(),
{
    if t2.len() == 0 {
        Seq::empty()
    } else if row[0] == t2.last()[0] {
        join_row(row, t2.drop_last()).push(row + t2.last().drop_first())
    } else {
        join_row(row, t2.drop_last())
    }
}

/// The natural join of two tables on their first column: for each row of `t1` in turn, the
/// rows it forms with the rows of `t2`, in the order of `t2`.
pub open spec fn join(t1: Seq<Seq<Seq<char>>>, t2: Seq<Seq<Seq<char>>>) -> Seq<Seq<Seq<char>>>
    decreases t1.len(),
{
    if t1.len() == 0 {
        Seq::empty()
    } else {
        join(t1.drop_last(), t2) + join_row(t1.last(), t2)
    }
}

/// Every row of the table has a first cell.
pub open spec fn keyed_rows(t: Seq<Vec<String>>) -> bool {
    forall|i: int| 0 <= i < t.len() ==> #[trigger] t[i]@.len() >= 1
}

/// Returns the natural join of two tables using the first column as the join argument: for
/// each pair of a row of `table1` and a row of `table2` with equal first cells, the row of
/// `table1` followed by all cells of the row of `table2` but its first. Pairs come in the
/// order of `table1`, then of `table2`.
pub fn natural_join(table1: Vec<Vec<String>>, table2: Vec<Vec<String>>) -> (r: Vec<Vec<String>>)
    requires
        table1@.len() > 0 && table2@.len() > 0 ==> keyed_rows(table1@) && keyed_rows(table2@),
    ensures
        table_view(r@) == join(table_view(table1@), table_view(table2@)),
{
    let ghost t1 = table_view(table1@);
    let ghost t2 = table_view(table2@);
    let mut out: Vec<Vec<String>> = Vec::new();
    let n1 = table1.len();
    let n2 = table2.len();
    if n2 == 0 {
        proof {
            assert forall|k: int| 0 <= k <= t1.len() implies #[trigger] join(t1.take(k), t2)
                == Seq::<Seq<Seq<char>>>::empty() by {
                lemma_join_empty(t1.take(k), t2);
            }
            assert(t1.take(t1.len() as int) == t1);
            assert(table_view(out@) == Seq::<Seq<Seq<char>>>::empty());
        }
        return out;
    }
    let mut i: usize = 0;
    assert(t1.take(0) == Seq::<Seq<Seq<char>>>::empty());
    assert(table_view(out@) == Seq::<Seq<Seq<char>>>::empty());
    while i < n1
        invariant
            n1 == table1@.len(),
            n2 == table2@.len(),
            n2 > 0,
            t1 == table_view(table1@),
            t2 == table_view(table2@),
            n1 > 0 ==> keyed_rows(table1@) && keyed_rows(table2@),
            i <= n1,
            table_view(out@) == join(t1.take(i as int), t2),
        decreases n1 - i,
    {
        let row1 = &table1[i];
        assert(t1[i as int] == row1@.map_values(|cell: String| cell@));
        let ghost base = table_view(out@);
        let mut j: usize = 0;
        assert(t2.take(0) == Seq::<Seq<Seq<char>>>::empty());
        while j < n2
            invariant
                n1 == table1@.len(),
                n2 == table2@.len(),
                i < n1,
                t1 == table_view(table1@),
                t2 == table_view(table2@),
                keyed_rows(table1@) && keyed_rows(table2@),
                row1@ == table1@[i as int]@,
                t1[i as int] == row1@.map_values(|cell: String| cell@),
                j <= n2,
                table_view(out@) == base + join_row(t1[i as int], t2.take(j as int)),
            decreases n2 - j,
        {
            let row2 = &table2[j];
            assert(row1@.len() >= 1);
            assert(table2@[j as int]@.len() >= 1);
            assert(t2[j as int] == row2@.map_values(|cell: String| cell@));
            assert(t2.take(j + 1).drop_last() == t2.take(j as int));
            assert(t2.take(j + 1).last() == t2[j as int]);
            if row1[0] == row2[0] {
                let new_row = joined_row(row1, row2);
                let ghost before = out@;
                out.push(new_row);
                assert(table_view(out@) =~= table_view(before).push(
                    t1[i as int] + t2[j as int].drop_first(),
                ));
            }
            j = j + 1;
        }
        assert(t2.take(n2 as int) == t2);
        assert(t1.take(i + 1).drop_last() == t1.take(i as int));
        assert(t1.take(i + 1).last() == t1[i as int]);
        i = i + 1;
    }
    assert(t1.take(n1 as int) == t1);
    out
}

/// The cells of `row1`, followed by those of `row2` but its first.
fn joined_row(row1: &Vec<String>, row2: &Vec<String>) -> (r: Vec<String>)
    requires
        row2@.len() >= 1,
    ensures
        r@.map_values(|cell: String| cell@) == row1@.map_values(|cell: String| cell@)
            + row2@.map_values(|cell: String| cell@).drop_first(),
{
    let ghost v1 = row1@.map_values(|cell: String| cell@);
    let ghost v2 = row2@.map_values(|cell: String| cell@);
    let mut out: Vec<String> = Vec::new();
    let mut k: usize = 0;
    while k < row1.len()
        invariant
            k <= row1@.len(),
            v1 == row1@.map_values(|cell: String| cell@),
            out@.len() == k,
            out@.map_values(|cell: String| cell@) == v1.take(k as int),
        decreases row1@.len() - k,
    {
        let c = row1[k].clone();
        let ghost before = out@;
        assert(v1[k as int] == row1@[k as int]@);
        out.push(c);
        assert(out@.map_values(|cell: String| cell@) =~= v1.take(k + 1)) by {
            assert(before.map_values(|cell: String| cell@) == v1.take(k as int));
            assert(out@ == before.push(c));
            assert(c@ == v1[k as int]);
        }
        k = k + 1;
    }
    assert(v1.take(row1@.len() as int) == v1);
    let mut k: usize = 1;
    while k < row2.len()
        invariant
            1 <= k <= row2@.len(),
            v1 == row1@.map_values(|cell: String| cell@),
            v2 == row2@.map_values(|cell: String| cell@),
            out@.len() == v1.len() + k - 1,
            out@.map_values(|cell: String| cell@) == v1 + v2.subrange(1, k as int),
        decreases row2@.len() - k,
    {
        let c = row2[k].clone();
        let ghost before = out@;
        assert(v2[k as int] == row2@[k as int]@);
        out.push(c);
        assert(out@.map_values(|cell: String| cell@) =~= v1 + v2.subrange(1, k + 1)) by {
            assert(before.map_values(|cell: String| cell@) == v1 + v2.subrange(1, k as int));
            assert(out@ == before.push(c));
            assert(c@ == v2[k as int]);
            assert forall|x: int| #![trigger out@[x]] 0 <= x < out@.len() implies out@.map_values(
                |cell: String| cell@,
            )[x] == (v1 + v2.subrange(1, k + 1))[x] by {
                if x < before.len() {
                    assert(before.map_values(|cell: String| cell@)[x] == (v1 + v2.subrange(
                        1,
                        k as int,
                    ))[x]);
                }
            }
        }
        k = k + 1;
    }
    assert(v2.subrange(1, row2@.len() as int) =~= v2.drop_first());
    out
}

/// Joining with an empty second table gives nothing.
proof fn lemma_join_empty(t1: Seq<Seq<Seq<char>>>, t2: Seq<Seq<Seq<char>>>)
    requires
        t2.len() == 0,
    ensures
        join(t1, t2) == Seq::<Seq<Seq<char>>>::empty(),
    decreases t1.len(),
{
    if t1.len() > 0 {
        lemma_join_empty(t1.drop_last(), t2);
    }
}

} // verus!
