//! Iterator-like sequences: substring positions, Fibonacci-like numbers and ranges.
use vstd::prelude::*;
use vstd::std_specs::cmp::PartialEqSpec;
use vstd::std_specs::ops::AddSpec;

verus! {

/// `q` occurs in `b` at position `i`, comparing elements with `==`.
pub open spec fn window_matches<T: PartialEq>(q: Seq<T>, b: Seq<T>, i: int) -> bool {
    &&& 0 <= i
    &&& i + q.len() <= b.len()
    &&& forall|k: int| 0 <= k < q.len() ==> (#[trigger] b[i + k]).eq_spec(&q[k])
}

/// The positions at which `query` occurs in `base`, found one after the other.
#[derive(Debug)]
pub struct FindIter<'s, T> {
    query: &'s [T],
    base: &'s [T],
    curr: usize,
}

impl<'s, T: PartialEq> FindIter<'s, T> {
    /// The pattern searched for.
    pub closed spec fn query(&self) -> Seq<T> {
        self.query@
    }

    /// The sequence searched in.
    pub closed spec fn base(&self) -> Seq<T> {
        self.base@
    }

    /// The position from which the search continues.
    pub closed spec fn curr(&self) -> int {
        self.curr as int
    }

    /// The search position lies within the sequence.
    pub closed spec fn wf(&self) -> bool {
        self.curr <= self.base@.len()
    }

    /// The next position, at or after the current one, at which the pattern occurs. Matches may
    /// overlap: the search continues one past the position found.
    pub fn next(&mut self) -> (r: Option<usize>)
        requires
            old(self).wf(),
            old(self).query().len() > 0,
            T::obeys_eq_spec(),
        ensures
            final(self).wf(),
            final(self).query() == old(self).query(),
            final(self).base() == old(self).base(),
            match r {
                Some(i) => {
                    &&& old(self).curr() <= i
                    &&& window_matches(old(self).query(), old(self).base(), i as int)
                    &&& forall|j: int|
                        old(self).curr() <= j < i ==> !window_matches(
                            old(self).query(),
                            old(self).base(),
                            j,
                        )
                    &&& final(self).curr() == i + 1
                },
                None => {
                    &&& forall|j: int|
                        old(self).curr() <= j ==> !window_matches(
                            old(self).query(),
                            old(self).base(),
                            j,
                        )
                    &&& final(self).curr() == old(self).curr()
                },
            },
    {
        let q = self.query.len();
        let n = self.base.len();
        let mut i = self.curr;
        while q <= n - i
            invariant
                self.query == old(self).query,
                self.base == old(self).base,
                self.curr == old(self).curr,
                q == self.query@.len(),
                n == self.base@.len(),
                q > 0,
                self.curr <= i,
                i <= n,
                T::obeys_eq_spec(),
                forall|j: int| self.curr <= j < i ==> !window_matches(self.query@, self.base@, j),
            decreases n - i,
        {
            let mut k: usize = 0;
            let mut same = true;
            while k < q && same
                invariant
                    q == self.query@.len(),
                    n == self.base@.len(),
                    i + q <= n,
                    k <= q,
                    T::obeys_eq_spec(),
                    same ==> forall|m: int|
                        0 <= m < k ==> (#[trigger] self.base@[i + m]).eq_spec(&self.query@[m]),
                    !same ==> !window_matches(self.query@, self.base@, i as int),
                decreases q - k + if same {
                    1int
                } else {
                    0int
                },
            {
                if !(self.base[i + k] == self.query[k]) {
                    same = false;
                } else {
                    k = k + 1;
                }
            }
            if same {
                self.curr = i + 1;
                return Some(i);
            }
            i = i + 1;
        }
        proof {
            assert forall|j: int| self.curr <= j implies !window_matches(
                self.query@,
                self.base@,
                j,
            ) by {
                if j >= i {
                    assert(q > n - i);
                }
            }
        }
        None
    }
}

/// Returns the positions at which `query` occurs in `base`, in increasing order.
pub fn find<'s, T: PartialEq>(query: &'s [T], base: &'s [T]) -> (r: FindIter<'s, T>)
    ensures
        r.wf(),
        r.query() == query@,
        r.base() == base@,
        r.curr() == 0,
{
    FindIter { query, base, curr: 0 }
}

/// The Fibonacci-like numbers of a type with `+`.
#[derive(Debug)]
pub struct FibIter<T> {
    first: T,
    second: T,
}

impl<T: core::ops::Add<Output = T> + Copy> FibIter<T> {
    /// The two terms kept.
    pub closed spec fn terms(&self) -> (T, T) {
        (self.first, self.second)
    }

    /// Starts the sequence with `first`, `second`.
    pub fn new(first: T, second: T) -> (r: Self)
        ensures
            r.terms() == (first, second),
    {
        FibIter { first, second }
    }

    /// Yields the first term and moves to `(second, first + second)`.
    pub fn next(&mut self) -> (r: Option<T>)
        requires
            T::obeys_add_spec(),
            old(self).terms().0.add_req(old(self).terms().1),
        ensures
            r == Some(old(self).terms().0),
            final(self).terms() == (old(self).terms().1, old(self).terms().0.add_spec(
                old(self).terms().1,
            )),
    {
        let third = self.first + self.second;
        let first = self.first;
        self.first = self.second;
        self.second = third;
        Some(first)
    }
}

/// Returns the generic Fibonacci sequence starting from `first` and `second`, for any type with
/// `+`.
pub fn fib<T: core::ops::Add<Output = T> + Copy>(first: T, second: T) -> (r: FibIter<T>)
    ensures
        r.terms() == (first, second),
{
    FibIter::new(first, second)
}

/// Endpoint of range, inclusive or exclusive.
#[derive(Debug)]
pub enum Endpoint {
    /// Inclusive endpoint
    Inclusive(isize),
    /// Exclusive endpoint
    Exclusive(isize),
}

/// The first value on the side of `e` for a range walked with `step`: an exclusive endpoint
/// moves one step inward (up for a positive step, down otherwise).
pub open spec fn start_value(e: Endpoint, step: isize) -> int {
    match e {
        Endpoint::Inclusive(v) => v as int,
        Endpoint::Exclusive(v) => if step > 0 {
            v + 1
        } else {
            v - 1
        },
    }
}

/// The last value on the side of `e` for a range walked with `step`: an exclusive endpoint
/// moves one step inward (down for a positive step, up otherwise).
pub open spec fn end_value(e: Endpoint, step: isize) -> int {
    match e {
        Endpoint::Inclusive(v) => v as int,
        Endpoint::Exclusive(v) => if step > 0 {
            v - 1
        } else {
            v + 1
        },
    }
}

/// The values from `left` to `right` by `step`.
#[derive(Debug)]
pub struct RangeIter {
    left: isize,
    right: isize,
    step: isize,
    curr: isize,
}

/// Whether `curr` is still within the range: between `left` and `right` in the direction of
/// `step`. A zero step gives no value.
pub open spec fn in_range(left: int, right: int, step: int, curr: int) -> bool {
    (step > 0 && left <= curr <= right) || (step < 0 && right <= curr <= left)
}

impl RangeIter {
    /// The lower end, upper end, step and current value.
    pub closed spec fn state(&self) -> (int, int, int, int) {
        (self.left as int, self.right as int, self.step as int, self.curr as int)
    }

    /// A range from the endpoints by `step`.
    pub fn new(endpoints: (Endpoint, Endpoint), step: isize) -> (r: Self)
        requires
            isize::MIN <= start_value(endpoints.0, step) <= isize::MAX,
            isize::MIN <= end_value(endpoints.1, step) <= isize::MAX,
        ensures
            r.state() == (start_value(endpoints.0, step), end_value(endpoints.1, step), step as int, start_value(endpoints.0, step)),
    {
        let left_val = match endpoints.0 {
            Endpoint::Inclusive(val) => val,
            Endpoint::Exclusive(val) => if step > 0 {
                val + 1
            } else {
                val - 1
            },
        };
        let right_val = match endpoints.1 {
            Endpoint::Inclusive(val) => val,
            Endpoint::Exclusive(val) => if step > 0 {
                val - 1
            } else {
                val + 1
            },
        };
        RangeIter { left: left_val, right: right_val, step, curr: left_val }
    }

    /// The current value when it is still in the range, after which the walk moves on by
    /// `step`; `None` once the walk left the range.
    pub fn next(&mut self) -> (r: Option<isize>)
        requires
            ({
                let (l, rt, s, c) = old(self).state();
                in_range(l, rt, s, c) ==> isize::MIN <= c + s <= isize::MAX
            }),
        ensures
            ({
                let (l, rt, s, c) = old(self).state();
                if in_range(l, rt, s, c) {
                    r == Some(c as isize) && final(self).state() == (l, rt, s, c + s)
                } else {
                    r is None && final(self).state() == old(self).state()
                }
            }),
    {
        if (self.step > 0 && self.curr >= self.left && self.curr <= self.right) || (self.step < 0
            && self.curr >= self.right && self.curr <= self.left) {
            let val = self.curr;
            self.curr = self.curr + self.step;
            return Some(val);
        }
        None
    }
}

/// Returns the values of the range between `left` and `right` walked by `step`.
pub fn range(left: Endpoint, right: Endpoint, step: isize) -> (r: RangeIter)
    requires
        isize::MIN <= start_value(left, step) <= isize::MAX,
        isize::MIN <= end_value(right, step) <= isize::MAX,
    ensures
        r.state() == (start_value(left, step), end_value(right, step), step as int, start_value(left, step)),
{
    RangeIter::new((left, right), step)
}

} // verus!
