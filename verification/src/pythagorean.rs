//! Primitive Pythagorean triples, in increasing order of their largest side.
use vstd::prelude::*;
use crate::rational::spec_gcd;

verus! {

/// The bound on the largest side up to which triples are searched: its square must fit in
/// `u64`.
pub const SIDE_BOUND: u64 = 0x1_0000_0000;

/// `(a, b, c)` is a primitive Pythagorean triple: `a² + b² = c²`, `a < b`, and `a` and `b` are
/// coprime.
pub open spec fn primitive(a: int, b: int, c: int) -> bool {
    &&& 0 < a < b
    &&& a * a + b * b == c * c
    &&& spec_gcd(a as nat, b as nat) == 1
}

/// Some primitive triple has largest side `c` and smallest side `a`.
pub open spec fn primitive_at(c: int, a: int) -> bool {
    exists|b: int| primitive(a, b, c)
}

/// `(c1, a1)` comes strictly before `(c2, a2)`: by largest side, then by smallest side.
pub open spec fn key_lt(c1: int, a1: int, c2: int, a2: int) -> bool {
    c1 < c2 || (c1 == c2 && a1 < a2)
}

/// No primitive triple comes strictly after `(c1, a1)` and strictly before `(c2, a2)`.
pub open spec fn none_between(c1: int, a1: int, c2: int, a2: int) -> bool {
    forall|c: int, a: int|
        key_lt(c1, a1, c, a) && key_lt(c, a, c2, a2) ==> !#[trigger] primitive_at(c, a)
}

/// The greatest common divisor of `a` and `b`.
fn gcd(a: u64, b: u64) -> (r: u64)
    ensures
        r == spec_gcd(a as nat, b as nat),
{
    let ghost a0 = a;
    let ghost b0 = b;
    let mut a = a;
    let mut b = b;
    while b != 0
        invariant
            spec_gcd(a as nat, b as nat) == spec_gcd(a0 as nat, b0 as nat),
        decreases b,
    {
        let t = b;
        b = a % b;
        a = t;
    }
    assert(spec_gcd(a as nat, 0) == a);
    a
}

/// A side `b` with `b * b == x` is the largest `s` with `s * s <= x`.
proof fn lemma_square_root_unique(b: int, s: int, x: int)
    requires
        b >= 0,
        s >= 0,
        s * s <= x < (s + 1) * (s + 1),
        b * b == x,
    ensures
        b == s,
{
    if b < s {
        assert(b * b < s * s) by (nonlinear_arith)
            requires
                0 <= b < s,
        ;
    } else if b > s {
        assert((s + 1) * (s + 1) <= b * b) by (nonlinear_arith)
            requires
                0 <= s < b,
        ;
    }
}

/// The generator of primitive triples. It remembers the largest and smallest sides of the last
/// triple it gave, `(0, 0)` before the first.
pub struct Pythagorean {
    c: u64,
    a: u64,
}

impl Pythagorean {
    /// The largest and smallest sides of the last triple given.
    pub closed spec fn last(&self) -> (int, int) {
        (self.c as int, self.a as int)
    }

    /// The sides remembered are those of a triple below the bound, or `(0, 0)`.
    pub closed spec fn wf(&self) -> bool {
        self.a <= self.c < SIDE_BOUND
    }

    /// A generator that has given no triple yet.
    pub fn new() -> (r: Self)
        ensures
            r.wf(),
            r.last() == (0int, 0int),
    {
        Pythagorean { c: 0, a: 0 }
    }

    /// Returns the next primitive triple `(a, b, c)` in increasing order of `c`, then of `a`:
    /// the first one after the last triple given. Returns `None` when no further triple has
    /// `c` below `SIDE_BOUND`.
    pub fn next(&mut self) -> (r: Option<(u64, u64, u64)>)
        requires
            old(self).wf(),
        ensures
            final(self).wf(),
            match r {
                Some((a, b, c)) => {
                    &&& primitive(a as int, b as int, c as int)
                    &&& key_lt(old(self).last().0, old(self).last().1, c as int, a as int)
                    &&& none_between(old(self).last().0, old(self).last().1, c as int, a as int)
                    &&& final(self).last() == (c as int, a as int)
                },
                None => none_between(
                    old(self).last().0,
                    old(self).last().1,
                    SIDE_BOUND as int,
                    0,
                ) && final(self).last() == old(self).last(),
            },
    {
        let ghost c0 = self.c as int;
        let ghost a0 = self.a as int;
        let mut c: u64 = self.c;
        let mut a: u64 = self.a;
        loop
            invariant
                c0 == old(self).c,
                a0 == old(self).a,
                self.c == old(self).c,
                self.a == old(self).a,
                self.a <= self.c < SIDE_BOUND,
                c < SIDE_BOUND,
                a <= c,
                none_between(c0, a0, c as int, a as int + 1),
                key_lt(c0, a0, c as int, a as int + 1) || (c == c0 && a == a0),
            decreases SIDE_BOUND - c, (c as int) - (a as int),
        {
            if a + 1 >= c {
                proof {
                    assert forall|cc: int, aa: int|
                        key_lt(c0, a0, cc, aa) && key_lt(cc, aa, c + 1, 1) implies !#[trigger] primitive_at(
                        cc,
                        aa,
                    ) by {
                        if cc == c && aa > a && primitive_at(cc, aa) {
                            let b = choose|b: int| primitive(aa, b, cc);
                            assert(aa * aa + b * b == cc * cc);
                            assert(b < cc) by (nonlinear_arith)
                                requires
                                    aa * aa + b * b == cc * cc,
                                    aa > 0,
                                    b > 0,
                                    cc >= 0,
                            ;
                        }
                        if cc == c + 1 && aa < 1 && primitive_at(cc, aa) {
                            let b = choose|b: int| primitive(aa, b, cc);
                        }
                    }
                }
                if c + 1 >= SIDE_BOUND {
                    proof {
                        assert forall|cc: int, aa: int|
                            key_lt(c0, a0, cc, aa) && key_lt(cc, aa, SIDE_BOUND as int, 0) implies !#[trigger] primitive_at(
                            cc,
                            aa,
                        ) by {
                            if primitive_at(cc, aa) {
                                assert(key_lt(cc, aa, c + 1, 1));
                            }
                        }
                    }
                    return None;
                }
                c = c + 1;
                a = 0;
            } else {
                let na = a + 1;
                assert(na < c);
                assert(c * c < 0x1_0000_0000_0000_0000) by (nonlinear_arith)
                    requires
                        c < 0x1_0000_0000,
                ;
                assert(na * na < c * c) by (nonlinear_arith)
                    requires
                        0 < na < c,
                ;
                let rest = c * c - na * na;
                let b = crate::divisors::integer_sqrt(rest);
                if b * b == rest && na < b && gcd(na, b) == 1 {
                    proof {
                        assert(primitive(na as int, b as int, c as int));
                    }
                    self.c = c;
                    self.a = na;
                    return Some((na, b, c));
                }
                proof {
                    assert(!primitive_at(c as int, na as int)) by {
                        if primitive_at(c as int, na as int) {
                            let bb = choose|bb: int| primitive(na as int, bb, c as int);
                            lemma_square_root_unique(bb, b as int, rest as int);
                        }
                    }
                    assert forall|cc: int, aa: int|
                        key_lt(c0, a0, cc, aa) && key_lt(cc, aa, c as int, na + 1) implies !#[trigger] primitive_at(
                        cc,
                        aa,
                    ) by {
                        if !(cc == c && aa == na) {
                            assert(key_lt(cc, aa, c as int, a + 1));
                        }
                    }
                }
                a = na;
            }
        }
    }
}

/// Returns the generator of primitive Pythagorean triples `(a, b, c)`, with `a² + b² = c²`,
/// `a < b` and `a`, `b` coprime, in increasing order of `c` (and of `a` for equal `c`).
pub fn pythagorean() -> (r: Pythagorean)
    ensures
        r.wf(),
        r.last() == (0int, 0int),
{
    Pythagorean::new()
}

} // verus!
