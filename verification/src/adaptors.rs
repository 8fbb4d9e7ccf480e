//! A minimal set of iterator adaptors over sources whose remaining items are known to the
//! specification: unique items, chaining, enumeration, zipping and a left fold.
use vstd::prelude::*;

verus! {

/// A source of items handed out one at a time, modelled by the items it has still to give.
pub trait ItemSource: Sized {
    type Item;

    /// The items still to come, in order.
    spec fn remaining(&self) -> Seq<Self::Item>;

    /// What the source needs between calls.
    spec fn valid(&self) -> bool;

    /// Hands out the next item, or `None` once every item has been handed out.
    fn next(&mut self) -> (r: Option<Self::Item>)
        requires
            old(self).valid(),
        ensures
            final(self).valid(),
            match r {
                None => old(self).remaining().len() == 0 && final(self).remaining().len() == 0,
                Some(x) => old(self).remaining().len() > 0 && x == old(self).remaining()[0]
                    && final(self).remaining() == old(self).remaining().drop_first(),
            },
    ;
}

/// The items of a vector, first to last.
pub struct VecSource<T> {
    rev: Vec<T>,
}

impl<T> VecSource<T> {
    /// A source that hands out the items of `items` in order.
    pub fn new(items: Vec<T>) -> (r: Self)
        ensures
            r.remaining() == items@,
            r.valid(),
    {
        let mut items = items;
        let ghost all = items@;
        let mut rev: Vec<T> = Vec::new();
        while items.len() > 0
            invariant
                all == items@ + rev@.reverse(),
            decreases items.len(),
        {
            let ghost before = items@;
            let ghost rbefore = rev@;
            let x = items.pop().unwrap();
            rev.push(x);
            assert(before == items@.push(x));
            assert(rev@.reverse() == seq![x] + rbefore.reverse());
            assert(all == items@ + rev@.reverse());
        }
        assert(items@ + rev@.reverse() == rev@.reverse());
        VecSource { rev }
    }
}

impl<T> ItemSource for VecSource<T> {
    type Item = T;

    closed spec fn remaining(&self) -> Seq<T> {
        self.rev@.reverse()
    }

    closed spec fn valid(&self) -> bool {
        true
    }

    fn next(&mut self) -> (r: Option<T>) {
        let ghost before = self.rev@;
        let r = self.rev.pop();
        proof {
            if before.len() > 0 {
                assert(before == self.rev@.push(r.unwrap()));
                assert(before.reverse() == seq![r.unwrap()] + self.rev@.reverse());
                assert(before.reverse().drop_first() == self.rev@.reverse());
            }
        }
        r
    }
}

/// The items of a first source, then those of a second.
pub struct Chain<I1, I2> {
    it1: I1,
    it2: I2,
}

impl<T, I1: ItemSource<Item = T>, I2: ItemSource<Item = T>> ItemSource for Chain<I1, I2> {
    type Item = T;

    closed spec fn remaining(&self) -> Seq<T> {
        self.it1.remaining() + self.it2.remaining()
    }

    closed spec fn valid(&self) -> bool {
        self.it1.valid() && self.it2.valid()
    }

    fn next(&mut self) -> (r: Option<T>) {
        let ghost r1 = self.it1.remaining();
        let ghost r2 = self.it2.remaining();
        if let Some(item) = self.it1.next() {
            assert((r1 + r2).drop_first() == r1.drop_first() + r2);
            return Some(item);
        }
        if let Some(item) = self.it2.next() {
            assert(self.it1.remaining() + self.it2.remaining() == r2.drop_first());
            assert(r1 + r2 == r2);
            return Some(item);
        }
        None
    }
}

/// The items of a source, each with its position, counting from the position the
/// enumeration started at.
pub struct Enumerate<I> {
    it: I,
    idx: usize,
}

/// The pairs `(start + i, s[i])`.
pub open spec fn numbered<A>(s: Seq<A>, start: int) -> Seq<(usize, A)> {
    Seq::new(s.len(), |i: int| ((start + i) as usize, s[i]))
}

impl<I: ItemSource> ItemSource for Enumerate<I> {
    type Item = (usize, I::Item);

    closed spec fn remaining(&self) -> Seq<(usize, I::Item)> {
        numbered(self.it.remaining(), self.idx as int)
    }

    closed spec fn valid(&self) -> bool {
        self.it.valid() && self.idx + self.it.remaining().len() <= usize::MAX + 1
    }

    fn next(&mut self) -> (r: Option<(usize, I::Item)>) {
        let ghost before = self.it.remaining();
        let ghost start = self.idx;
        if let Some(item) = self.it.next() {
            let i = self.idx;
            if i < usize::MAX {
                self.idx = i + 1;
            }
            assert(numbered(before, start as int).drop_first() =~= numbered(
                before.drop_first(),
                start + 1,
            ));
            return Some((i, item));
        }
        None
    }
}

/// Pairs of items of two sources, taken together until either source runs out.
pub struct Zip<I1, I2> {
    it1: I1,
    it2: I2,
}

/// The pairs `(a[i], b[i])` for the positions that both sequences have.
pub open spec fn zipped<A, B>(a: Seq<A>, b: Seq<B>) -> Seq<(A, B)> {
    Seq::new(if a.len() <= b.len() { a.len() } else { b.len() }, |i: int| (a[i], b[i]))
}

impl<I1: ItemSource, I2: ItemSource> ItemSource for Zip<I1, I2> {
    type Item = (I1::Item, I2::Item);

    closed spec fn remaining(&self) -> Seq<(I1::Item, I2::Item)> {
        zipped(self.it1.remaining(), self.it2.remaining())
    }

    closed spec fn valid(&self) -> bool {
        self.it1.valid() && self.it2.valid()
    }

    fn next(&mut self) -> (r: Option<(I1::Item, I2::Item)>) {
        let ghost r1 = self.it1.remaining();
        let ghost r2 = self.it2.remaining();
        if let Some(item1) = self.it1.next() {
            if let Some(item2) = self.it2.next() {
                assert(zipped(r1, r2).drop_first() =~= zipped(r1.drop_first(), r2.drop_first()));
                return Some((item1, item2));
            }
        }
        None
    }
}

/// The items of `s` that are not in `seen` and did not occur earlier in `s`, in order.
pub open spec fn fresh<A>(s: Seq<A>, seen: Set<A>) -> Seq<A>
    decreases s.len(),
{
    if s.len() == 0 {
        s
    } else if seen.contains(s[0]) {
        fresh(s.drop_first(), seen)
    } else {
        seq![s[0]] + fresh(s.drop_first(), seen.insert(s[0]))
    }
}

/// `fresh(s, seen)` holds, once each and in order of first appearance, exactly the items of `s`
/// that are not in `seen`.
pub proof fn lemma_fresh<A>(s: Seq<A>, seen: Set<A>)
    ensures
        forall|x: A| #[trigger] fresh(s, seen).contains(x) <==> s.contains(x) && !seen.contains(x),
        forall|i: int, j: int| 0 <= i < j < fresh(s, seen).len() ==> fresh(s, seen)[i] != fresh(s, seen)[j],
    decreases s.len(),
{
    if s.len() > 0 {
        let rest = s.drop_first();
        if seen.contains(s[0]) {
            lemma_fresh(rest, seen);
            assert(fresh(s, seen) == fresh(rest, seen));
            assert forall|x: A| #[trigger] fresh(s, seen).contains(x) <==> s.contains(x) && !seen.contains(x) by {
                if rest.contains(x) {
                    let i = choose|i: int| 0 <= i < rest.len() && rest[i] == x;
                    assert(s[i + 1] == x);
                }
                if s.contains(x) && x != s[0] {
                    let i = choose|i: int| 0 <= i < s.len() && s[i] == x;
                    assert(rest[i - 1] == x);
                }
            }
        } else {
            let seen2 = seen.insert(s[0]);
            lemma_fresh(rest, seen2);
            let f = fresh(rest, seen2);
            let r = seq![s[0]] + f;
            assert(fresh(s, seen) == r);
            assert forall|x: A| #[trigger] r.contains(x) <==> s.contains(x) && !seen.contains(x) by {
                if r.contains(x) && x != s[0] {
                    let i = choose|i: int| 0 <= i < r.len() && r[i] == x;
                    assert(f[i - 1] == x);
                    assert(f.contains(x));
                    let k = choose|k: int| 0 <= k < rest.len() && rest[k] == x;
                    assert(s[k + 1] == x);
                }
                if s.contains(x) && !seen.contains(x) && x != s[0] {
                    let i = choose|i: int| 0 <= i < s.len() && s[i] == x;
                    assert(rest[i - 1] == x);
                    assert(f.contains(x));
                    let k = choose|k: int| 0 <= k < f.len() && f[k] == x;
                    assert(r[k + 1] == x);
                }
                if x == s[0] {
                    assert(r[0] == x);
                }
            }
            assert forall|i: int, j: int| 0 <= i < j < r.len() implies r[i] != r[j] by {
                if i == 0 {
                    assert(r[j] == f[j - 1]);
                    assert(f.contains(f[j - 1]));
                } else {
                    assert(r[i] == f[i - 1] && r[j] == f[j - 1]);
                }
            }
        }
    }
}

/// Cloning a value of `A` gives an equal value.
pub open spec fn faithful_clone<A: Clone>() -> bool {
    forall|a: A, b: A| #[trigger] vstd::pervasive::strictly_cloned(a, b) ==> a == b
}

/// `==` on `A` is equality of values, and cloning gives an equal value.
pub open spec fn plain_values<A: PartialEq + Clone>() -> bool {
    &&& vstd::laws_eq::obeys_concrete_eq::<A>()
    &&& faithful_clone::<A>()
}

/// Whether `x` is among the items of `v`.
fn contains_item<A: PartialEq>(v: &Vec<A>, x: &A) -> (r: bool)
    requires
        vstd::laws_eq::obeys_concrete_eq::<A>(),
    ensures
        r == v@.contains(*x),
{
    reveal(vstd::laws_eq::obeys_concrete_eq);
    let n = v.len();
    let mut i: usize = 0;
    while i < n
        invariant
            n == v@.len(),
            i <= n,
            vstd::laws_eq::obeys_concrete_eq::<A>(),
            forall|j: int| 0 <= j < i ==> v@[j] != *x,
        decreases n - i,
    {
        reveal(vstd::laws_eq::obeys_concrete_eq);
        if v[i] == *x {
            return true;
        }
        i = i + 1;
    }
    false
}

/// The items of a source, each handed out the first time it appears only.
pub struct Unique<I: ItemSource> {
    it: I,
    seen: Vec<I::Item>,
}

impl<T: PartialEq + Clone, I: ItemSource<Item = T>> ItemSource for Unique<I> {
    type Item = T;

    closed spec fn remaining(&self) -> Seq<T> {
        fresh(self.it.remaining(), self.seen@.to_set())
    }

    closed spec fn valid(&self) -> bool {
        self.it.valid() && plain_values::<T>()
    }

    fn next(&mut self) -> (r: Option<T>) {
        let ghost seen = self.seen@;
        let ghost goal = fresh(self.it.remaining(), seen.to_set());
        loop
            invariant
                self.it.valid(),
                plain_values::<T>(),
                self.seen@ == seen,
                fresh(self.it.remaining(), seen.to_set()) == goal,
                old(self).remaining() == goal,
            decreases self.it.remaining().len(),
        {
            let ghost rest = self.it.remaining();
            match self.it.next() {
                None => {
                    return None;
                },
                Some(item) => {
                    if !contains_item(&self.seen, &item) {
                        let copy = item.clone();
                        assert(vstd::pervasive::strictly_cloned(item, copy));
                        assert(copy == item);
                        self.seen.push(copy);
                        assert(self.seen@.to_set() == seen.to_set().insert(item)) by {
                            assert(self.seen@ == seen.push(item));
                            assert forall|a: T| self.seen@.to_set().contains(a) <==> seen.to_set().insert(
                                item,
                            ).contains(a) by {
                                if a != item && self.seen@.contains(a) {
                                    let j = choose|j: int| 0 <= j < self.seen@.len() && self.seen@[j] == a;
                                    assert(seen[j] == a);
                                }
                                if seen.contains(a) {
                                    let j = choose|j: int| 0 <= j < seen.len() && seen[j] == a;
                                    assert(self.seen@[j] == a);
                                }
                                if a == item {
                                    assert(self.seen@[seen.len() as int] == a);
                                }
                            }
                        }
                        return Some(item);
                    }
                },
            }
        }
    }
}

/// `r` is a possible result of folding `s` from the left with `f`, starting from `init`.
pub open spec fn folded<A, T, F: Fn(A, T) -> T>(f: F, s: Seq<A>, init: T, r: T) -> bool
    decreases s.len(),
{
    if s.len() == 0 {
        r == init
    } else {
        exists|v: T| #[trigger] f.ensures((s[0], init), v) && folded(f, s.drop_first(), v, r)
    }
}

/// Adaptors available on every item source.
pub trait MyIterTools: ItemSource {
    /// Returns a source that hands out the items of `self`, skipping those handed out before.
    fn my_unique(self) -> (r: Unique<Self>) where Self::Item: PartialEq + Clone
        requires
            self.valid(),
            plain_values::<Self::Item>(),
        ensures
            r.valid(),
            r.remaining() == fresh(self.remaining(), Set::empty()),
    {
        let r = Unique { it: self, seen: Vec::new() };
        assert(r.seen@.to_set() == Set::<Self::Item>::empty());
        r
    }

    /// Returns a source that hands out the items of `self`, then those of `other`.
    fn my_chain<I: ItemSource<Item = Self::Item>>(self, other: I) -> (r: Chain<Self, I>)
        requires
            self.valid(),
            other.valid(),
        ensures
            r.valid(),
            r.remaining() == self.remaining() + other.remaining(),
    {
        Chain { it1: self, it2: other }
    }

    /// Returns a source that hands out the items of `self`, each with its 0-based position.
    fn my_enumerate(self) -> (r: Enumerate<Self>)
        requires
            self.valid(),
            self.remaining().len() <= usize::MAX + 1,
        ensures
            r.valid(),
            r.remaining() == numbered(self.remaining(), 0),
    {
        Enumerate { it: self, idx: 0 }
    }

    /// Returns a source of pairs of items of `self` and `other`, up to the shorter of the two.
    fn my_zip<I: ItemSource>(self, other: I) -> (r: Zip<Self, I>)
        requires
            self.valid(),
            other.valid(),
        ensures
            r.valid(),
            r.remaining() == zipped(self.remaining(), other.remaining()),
    {
        Zip { it1: self, it2: other }
    }

    /// Collects the items of `self`, in order, into a vector.
    fn collect_vec(self) -> (r: Vec<Self::Item>)
        requires
            self.valid(),
        ensures
            r@ == self.remaining(),
    {
        let mut it = self;
        let mut out: Vec<Self::Item> = Vec::new();
        loop
            invariant
                it.valid(),
                out@ + it.remaining() == self.remaining(),
            decreases it.remaining().len(),
        {
            let ghost rest = it.remaining();
            match it.next() {
                None => {
                    assert(out@ + it.remaining() == out@);
                    return out;
                },
                Some(item) => {
                    out.push(item);
                    assert(out@ + it.remaining() == self.remaining()) by {
                        assert(rest == seq![item] + it.remaining());
                        assert(out@ + it.remaining() =~= (out@.drop_last() + rest));
                    }
                },
            }
        }
    }

    /// Folds the items of `self` from the left: starting from `init`, each item is combined
    /// with the value so far by `f(item, value)`.
    fn my_fold<T, F: Fn(Self::Item, T) -> T>(self, init: T, f: F) -> (r: T)
        requires
            self.valid(),
            forall|x: Self::Item, v: T| #[trigger] f.requires((x, v)),
        ensures
            folded(f, self.remaining(), init, r),
    {
        let mut it = self;
        let mut val = init;
        let ghost all = it.remaining();
        loop
            invariant
                it.valid(),
                forall|x: Self::Item, v: T| #[trigger] f.requires((x, v)),
                forall|r: T| folded(f, it.remaining(), val, r) ==> folded(f, all, init, r),
                all == self.remaining(),
            decreases it.remaining().len(),
        {
            let ghost rest = it.remaining();
            let ghost before = val;
            match it.next() {
                None => {
                    assert(folded(f, it.remaining(), val, val));
                    return val;
                },
                Some(item) => {
                    val = f(item, val);
                    assert forall|r: T| folded(f, it.remaining(), val, r) implies folded(f, all, init, r) by {
                        assert(rest[0] == item);
                        assert(folded(f, rest, before, r));
                    }
                },
            }
        }
    }
}

impl<S: ItemSource> MyIterTools for S {

}

} // verus!
