//! The divisors of a number, in increasing order, found up to its square root.
use vstd::prelude::*;
use crate::adaptors::ItemSource;

verus! {

/// The divisors of `n` in `(a, b]`, in increasing order.
pub open spec fn divisors_between(n: nat, a: int, b: int) -> Seq<u64>
    decreases b - a,
{
    if b <= a {
        seq![]
    } else {
        divisors_between(n, a, b - 1) + if n % (b as nat) == 0 {
            seq![b as u64]
        } else {
            seq![]
        }
    }
}

/// All divisors of `n`, in increasing order.
pub open spec fn all_divisors(n: u64) -> Seq<u64> {
    divisors_between(n as nat, 0, n as int)
}

/// `d` divides `n`.
pub open spec fn divides(d: int, n: int) -> bool {
    d > 0 && n % d == 0
}

/// With no divisor in `(a, b]`, there is none to list.
proof fn lemma_none_between(n: nat, a: int, b: int)
    requires
        0 <= a,
        forall|y: int| a < y <= b ==> !#[trigger] divides(y, n as int),
    ensures
        divisors_between(n, a, b) == Seq::<u64>::empty(),
    decreases b - a,
{
    if b > a {
        lemma_none_between(n, a, b - 1);
        assert(!divides(b, n as int));
    }
}

/// The list of divisors in `(a, b]` starts with the smallest one.
proof fn lemma_first_between(n: nat, a: int, d: int, b: int)
    requires
        0 <= a < d <= b,
        divides(d, n as int),
        d <= u64::MAX,
        forall|y: int| a < y < d ==> !#[trigger] divides(y, n as int),
    ensures
        divisors_between(n, a, b) == seq![d as u64] + divisors_between(n, d, b),
    decreases b - a,
{
    if b == d {
        lemma_none_between(n, a, d - 1);
        assert(divisors_between(n, a, d) == divisors_between(n, a, d - 1) + seq![d as u64]);
    } else {
        lemma_first_between(n, a, d, b - 1);
        if n % (b as nat) == 0 {
            assert(divisors_between(n, a, b) == divisors_between(n, a, b - 1) + seq![b as u64]);
            assert(divisors_between(n, d, b) == divisors_between(n, d, b - 1) + seq![b as u64]);
        } else {
            assert(divisors_between(n, a, b) == divisors_between(n, a, b - 1));
            assert(divisors_between(n, d, b) == divisors_between(n, d, b - 1));
        }
    }
}

/// The list holds exactly the divisors in `(a, b]`, in increasing order.
pub proof fn lemma_divisors_between(n: nat, a: int, b: int)
    requires
        0 <= a,
        b <= u64::MAX,
    ensures
        forall|i: int, j: int|
            0 <= i < j < divisors_between(n, a, b).len() ==> #[trigger] divisors_between(n, a, b)[i]
                < #[trigger] divisors_between(n, a, b)[j],
        forall|d: u64|
            #[trigger] divisors_between(n, a, b).contains(d) <==> a < d <= b && divides(d as int, n as int),
        forall|i: int|
            0 <= i < divisors_between(n, a, b).len() ==> a < #[trigger] divisors_between(n, a, b)[i] <= b,
    decreases b - a,
{
    if b > a {
        lemma_divisors_between(n, a, b - 1);
        let prev = divisors_between(n, a, b - 1);
        if n % (b as nat) == 0 {
            assert(divisors_between(n, a, b) == prev.push(b as u64));
            assert forall|d: u64| #[trigger] divisors_between(n, a, b).contains(d) <==> a < d <= b
                && divides(d as int, n as int) by {
                if d == b {
                    assert(prev.push(b as u64)[prev.len() as int] == d);
                }
                if prev.contains(d) {
                    let i = choose|i: int| 0 <= i < prev.len() && prev[i] == d;
                    assert(prev.push(b as u64)[i] == d);
                }
                let pushed = prev.push(b as u64);
                if pushed.contains(d) && d != b {
                    let i = choose|i: int| 0 <= i < pushed.len() && pushed[i] == d;
                    assert(prev[i] == d);
                }
            }
        } else {
            assert(divisors_between(n, a, b) == prev);
        }
    }
}

/// Every element of `all_divisors(n)` is smaller than the next, and `all_divisors(n)` holds
/// exactly the divisors of `n`.
pub proof fn lemma_all_divisors(n: u64)
    requires
        n > 0,
    ensures
        forall|i: int, j: int|
            0 <= i < j < all_divisors(n).len() ==> #[trigger] all_divisors(n)[i]
                < #[trigger] all_divisors(n)[j],
        forall|d: u64| #[trigger] all_divisors(n).contains(d) <==> divides(d as int, n as int),
{
    lemma_divisors_between(n as nat, 0, n as int);
    assert forall|d: u64| divides(d as int, n as int) implies d <= n by {
        if d > n {
            vstd::arithmetic::div_mod::lemma_small_mod(n as nat, d as nat);
        }
    }
}

/// A divisor `d` of a positive `n` times `n / d` is `n`, and `n / d` is a positive divisor.
proof fn lemma_cofactor(n: int, d: int)
    requires
        n > 0,
        divides(d, n),
    ensures
        d * (n / d) == n,
        n / d > 0,
        divides(n / d, n),
        n / (n / d) == d,
        d <= n,
{
    let c = n / d;
    assert(d * c == n) by (nonlinear_arith)
        requires
            c == n / d,
            n % d == 0,
            d > 0,
    ;
    assert(c > 0) by (nonlinear_arith)
        requires
            d * c == n,
            n > 0,
            d > 0,
    ;
    assert(n % c == 0 && n / c == d) by (nonlinear_arith)
        requires
            d * c == n,
            c > 0,
    ;
    assert(d <= n) by (nonlinear_arith)
        requires
            d * c == n,
            c > 0,
            d > 0,
    ;
}

/// The integer square root: the largest `s` with `s * s <= n`.
pub(crate) fn integer_sqrt(n: u64) -> (s: u64)
    ensures
        s * s <= n < (s + 1) * (s + 1),
        s < 0x1_0000_0000,
{
    let mut lo: u64 = 0;
    let mut hi: u64 = 0x1_0000_0000;
    assert(n < hi * hi) by (nonlinear_arith)
        requires
            hi == 0x1_0000_0000,
    ;
    while hi - lo > 1
        invariant
            lo < hi <= 0x1_0000_0000,
            lo * lo <= n,
            n < hi * hi,
        decreases hi - lo,
    {
        let mid = lo + (hi - lo) / 2;
        assert(mid * mid < 0x1_0000_0000_0000_0000) by (nonlinear_arith)
            requires
                mid < 0x1_0000_0000,
        ;
        if mid * mid <= n {
            lo = mid;
        } else {
            hi = mid;
        }
    }
    assert(hi == lo + 1);
    lo
}

/// The divisors of a number, handed out in increasing order: those up to its square root as
/// they are found, and with each of them the matching divisor above the square root, kept
/// for later.
pub struct Divisors {
    n: u64,
    sqrt_n: u64,
    x: u64,
    divisors: Vec<u64>,
    last: Ghost<u64>,
}

impl Divisors {
    /// The state the search keeps between calls.
    closed spec fn wf(&self) -> bool {
        let n = self.n as int;
        let s = self.sqrt_n as int;
        let x = self.x as int;
        let last = self.last@ as int;
        let stack = self.divisors@;
        &&& n > 0
        &&& s * s <= n < (s + 1) * (s + 1)
        &&& 0 <= x <= s
        &&& forall|y: int| last < y <= x ==> !#[trigger] divides(y, n)
        &&& last <= x || last > s
        &&& x < s ==> last <= x
        &&& forall|i: int, j: int| 0 <= i < j < stack.len() ==> #[trigger] stack[i] > #[trigger] stack[j]
        &&& forall|i: int|
            0 <= i < stack.len() ==> #[trigger] stack[i] > s && stack[i] > last && divides(
                stack[i] as int,
                n,
            ) && n / (stack[i] as int) <= x
        &&& forall|d: u64|
            d > s && d > last && divides(d as int, n) && n / (d as int) <= x ==> #[trigger] stack.contains(
                d,
            )
    }
}

/// Returns the divisors of `n` in increasing order. `n` must be positive.
pub fn divisors(n: u64) -> (r: Divisors)
    requires
        n > 0,
    ensures
        r.valid(),
        r.remaining() == all_divisors(n),
{
    let s = integer_sqrt(n);
    let r = Divisors { n, sqrt_n: s, x: 0, divisors: Vec::new(), last: Ghost(0) };
    assert(s >= 1) by (nonlinear_arith)
        requires
            n < (s + 1) * (s + 1),
            n > 0,
    ;
    assert forall|d: u64| d > s && d > 0 && divides(d as int, n as int) implies (n as int) / (d as int) > 0 by {
        lemma_cofactor(n as int, d as int);
    }
    r
}

impl ItemSource for Divisors {
    type Item = u64;

    closed spec fn remaining(&self) -> Seq<u64> {
        divisors_between(self.n as nat, self.last@ as int, self.n as int)
    }

    closed spec fn valid(&self) -> bool {
        self.wf()
    }

    fn next(&mut self) -> (r: Option<u64>) {
        let ghost n = self.n as int;
        let ghost s = self.sqrt_n as int;
        while self.x < self.sqrt_n
            invariant
                self.wf(),
                self.n == old(self).n,
                self.sqrt_n == old(self).sqrt_n,
                self.last == old(self).last,
                n == self.n,
                s == self.sqrt_n,
            decreases self.sqrt_n - self.x,
        {
            self.x = self.x + 1;
            if self.n % self.x == 0 {
                let n_div_x = self.n / self.x;
                let ghost x = self.x as int;
                let ghost q = n_div_x as int;
                assert(x * q == n) by (nonlinear_arith)
                    requires
                        q == n / x,
                        n % x == 0,
                        x > 0,
                ;
                if self.x != n_div_x {
                    proof {
                        assert(q > s) by (nonlinear_arith)
                            requires
                                x * q == n,
                                x <= s,
                                s * s <= n,
                                x != q,
                                x > 0,
                        ;
                        assert forall|i: int| 0 <= i < self.divisors@.len() implies #[trigger] self.divisors@[i]
                            > q by {
                            let d = self.divisors@[i] as int;
                            let c = n / d;
                            lemma_cofactor(n, d);
                            assert(d > q) by (nonlinear_arith)
                                requires
                                    d * c == n,
                                    x * q == n,
                                    c < x,
                                    c > 0,
                                    x > 0,
                                    q > 0,
                                    d > 0,
                            ;
                        }
                        assert(n % q == 0) by (nonlinear_arith)
                            requires
                                x * q == n,
                                q > 0,
                        ;
                        assert(n / q == x) by (nonlinear_arith)
                            requires
                                x * q == n,
                                q > 0,
                        ;
                    }
                    let ghost before = self.divisors@;
                    self.divisors.push(n_div_x);
                    proof {
                        assert forall|d: u64|
                            d > s && d > x && divides(d as int, n) && n / (d as int) <= x implies #[trigger] self.divisors@.contains(
                            d,
                        ) by {
                            if n / (d as int) == x {
                                assert(d == q) by (nonlinear_arith)
                                    requires
                                        n / (d as int) == x,
                                        n % (d as int) == 0,
                                        x * q == n,
                                        d > 0,
                                        x > 0,
                                ;
                                assert(self.divisors@[before.len() as int] == d);
                            } else {
                                assert(before.contains(d));
                                let i = choose|i: int| 0 <= i < before.len() && before[i] == d;
                                assert(self.divisors@[i] == d);
                            }
                        }
                    }
                } else {
                    proof {
                        assert forall|d: u64|
                            d > s && d > x && divides(d as int, n) && n / (d as int) <= x implies #[trigger] self.divisors@.contains(
                            d,
                        ) by {
                            if n / (d as int) == x {
                                assert(d == q) by (nonlinear_arith)
                                    requires
                                        n / (d as int) == x,
                                        n % (d as int) == 0,
                                        x * q == n,
                                        d > 0,
                                        x > 0,
                                ;
                            }
                        }
                    }
                }
                proof {
                    lemma_first_between(n as nat, self.last@ as int, x, n);
                }
                self.last = Ghost(self.x);
                return Some(self.x);
            }
            proof {
                assert forall|d: u64|
                    d > s && d > self.last@ && divides(d as int, n) && n / (d as int) <= self.x implies #[trigger] self.divisors@.contains(
                    d,
                ) by {
                    if n / (d as int) == self.x {
                        let c = n / (d as int);
                        assert(n % c == 0) by (nonlinear_arith)
                            requires
                                c == n / (d as int),
                                n % (d as int) == 0,
                                d > 0,
                                c > 0,
                        ;
                    }
                }
            }
        }
        let ghost stack0 = self.divisors@;
        assert(self.x == self.sqrt_n);
        if self.divisors.len() == 0 {
            proof {
                assert(stack0.len() == 0);
                assert(self.divisors@ == stack0);
                assert forall|y: int| self.last@ < y <= n implies !#[trigger] divides(y, n) by {
                    if divides(y, n) && y > s {
                        let c = n / y;
                        assert(c <= s) by (nonlinear_arith)
                            requires
                                y > s,
                                n < (s + 1) * (s + 1),
                                c == n / y,
                                s >= 0,
                        ;
                        assert(c > 0) by (nonlinear_arith)
                            requires
                                c == n / y,
                                n % y == 0,
                                y > 0,
                                n > 0,
                        ;
                        assert(stack0.contains(y as u64));
                    }
                }
                lemma_none_between(n as nat, self.last@ as int, n);
            }
            return None;
        }
        let d = self.divisors.pop().unwrap();
            proof {
                assert(divides(d as int, n));
                assert forall|y: int| self.last@ < y < d implies !#[trigger] divides(y, n) by {
                    if divides(y, n) && y > s {
                        let c = n / y;
                        assert(c <= s) by (nonlinear_arith)
                            requires
                                y > s,
                                n < (s + 1) * (s + 1),
                                c == n / y,
                                s >= 0,
                        ;
                        assert(stack0.contains(y as u64));
                        let i = choose|i: int| 0 <= i < stack0.len() && stack0[i] == y as u64;
                        if i < stack0.len() - 1 {
                            assert(stack0[i] > stack0[stack0.len() - 1]);
                        }
                    }
                }
                assert(d <= n) by (nonlinear_arith)
                    requires
                        n % (d as int) == 0,
                        d > 0,
                        n > 0,
                ;
                lemma_first_between(n as nat, self.last@ as int, d as int, n);
            }
        self.last = Ghost(d);
        proof {
            assert(self.divisors@ == stack0.drop_last());
            assert(d == stack0[stack0.len() - 1]);
            assert forall|i: int| 0 <= i < self.divisors@.len() implies #[trigger] self.divisors@[i] > d by {
                assert(self.divisors@[i] == stack0[i]);
            }
            assert forall|e: u64|
                e > s && e > d && divides(e as int, n) && n / (e as int) <= self.x implies #[trigger] self.divisors@.contains(
                e,
            ) by {
                assert(stack0.contains(e));
                let i = choose|i: int| 0 <= i < stack0.len() && stack0[i] == e;
                assert(i != stack0.len() - 1);
                assert(self.divisors@[i] == e);
            }
        }
        Some(d)
    }
}

} // verus!
