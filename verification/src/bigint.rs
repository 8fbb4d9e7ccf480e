//! Big integer with infinite precision, stored in two's complement.
use vstd::prelude::*;

verus! {

/// The base of one carrier word, `2^32`.
pub open spec fn word_base() -> int {
    0x1_0000_0000
}

/// `2^(32 * n)`: the number of values that `n` words can hold.
pub open spec fn pow_words(n: nat) -> int
    decreases n,
{
    if n == 0 {
        1
    } else {
        word_base() * pow_words((n - 1) as nat)
    }
}

/// The unsigned value of a big-endian word sequence (`s[0]` is the most significant word).
pub open spec fn unsigned_value(s: Seq<u32>) -> int
    decreases s.len(),
{
    if s.len() == 0 {
        0
    } else {
        s[0] * pow_words((s.len() - 1) as nat) + unsigned_value(s.drop_first())
    }
}

/// Whether the most significant bit of a word is set.
pub open spec fn is_neg_word(w: u32) -> bool {
    w >= 0x8000_0000
}

/// The signed value of a big-endian word sequence read in two's complement.
pub open spec fn signed_value(s: Seq<u32>) -> int {
    if s.len() > 0 && is_neg_word(s[0]) {
        unsigned_value(s) - pow_words(s.len())
    } else {
        unsigned_value(s)
    }
}

/// A carrier is minimal when no leading word can be removed without changing its value: a
/// leading `0` must be followed by a word with the sign bit set, and a leading `0xffffffff` by a
/// word with the sign bit clear.
pub open spec fn is_minimal(s: Seq<u32>) -> bool {
    s.len() == 1 || (s.len() > 1 && !(s[0] == 0 && !is_neg_word(s[1])) && !(s[0] == 0xffff_ffff
        && is_neg_word(s[1])))
}

/// The padding word that sign-extends a carrier whose leading word is `w`.
pub open spec fn pad_word(w: u32) -> u32 {
    if is_neg_word(w) {
        0xffff_ffff
    } else {
        0
    }
}

/// An signed integer with infinite precision implemented with a "carrier" vector of `u32`s.
///
/// The vector is read in big-endian order as a two's complement number: `carrier[0]` is the most
/// significant word and its top bit is the sign. For example `vec![44, 345, 3]` represents
/// `44 * (2^32)^2 + 345 * 2^32 + 3`, and `vec![u32::MAX - 5, u32::MAX - 7]` represents
/// `-(5 * 2^32 + 8)`. The carrier must be non-empty.
#[derive(Debug, Clone)]
pub struct BigInt {
    /// The carrier for `BigInt`; always non-empty.
    pub carrier: Vec<u32>,
}

impl BigInt {
    /// A `BigInt` is well formed when its carrier is non-empty.
    pub open spec fn wf(&self) -> bool {
        self.carrier@.len() > 0
    }

    /// The integer that this `BigInt` stands for.
    pub open spec fn value(&self) -> int {
        signed_value(self.carrier@)
    }

    /// Create a new `BigInt` from a single word (read in two's complement).
    pub fn new(n: u32) -> (r: Self)
        ensures
            r.wf(),
            r.carrier@ == seq![n],
            r.value() == if is_neg_word(n) {
                n - word_base()
            } else {
                n as int
            },
    {
        let mut carrier = Vec::new();
        carrier.push(n);
        proof {
            assert(carrier@.len() == 1 && carrier@[0] == n);
            assert(carrier@.drop_first() == Seq::<u32>::empty());
            assert(unsigned_value(Seq::<u32>::empty()) == 0);
            assert(pow_words(0) == 1);
            assert(pow_words(1) == word_base() * pow_words(0));
            assert(unsigned_value(carrier@) == n);
        }
        BigInt { carrier }
    }

    /// Creates a new `BigInt` from a `Vec<u32>`; the carrier must be non-empty.
    pub fn new_large(carrier: Vec<u32>) -> (r: Self)
        requires
            carrier@.len() > 0,
        ensures
            r.wf(),
            r.carrier@ == carrier@,
    {
        BigInt { carrier }
    }

    /// Extend `self` with sign words on the most significant side until it holds at least `len`
    /// bits.
    pub fn sign_extension(&self, len: usize) -> (r: Self)
        requires
            self.wf(),
        ensures
            r.wf(),
            r.value() == self.value(),
            r.carrier@.len() * 32 >= len,
            r.carrier@.len() == if self.carrier@.len() * 32 >= len {
                self.carrier@.len() as int
            } else {
                (len + 31) / 32
            },
            r.carrier@.subrange(r.carrier@.len() - self.carrier@.len(), r.carrier@.len() as int)
                == self.carrier@,
            forall|i: int|
                0 <= i < r.carrier@.len() - self.carrier@.len() ==> #[trigger] r.carrier@[i]
                    == pad_word(self.carrier@[0]),
    {
        let words = len / 32 + if len % 32 == 0 {
            0
        } else {
            1
        };
        assert(words == (len + 31) / 32);
        self.extend_words(words)
    }

    /// Extend `self` with sign words on the most significant side until it has at least `words`
    /// words.
    pub fn extend_words(&self, words: usize) -> (r: Self)
        requires
            self.wf(),
        ensures
            r.wf(),
            r.value() == self.value(),
            r.carrier@.len() == if self.carrier@.len() >= words {
                self.carrier@.len() as int
            } else {
                words as int
            },
            r.carrier@.subrange(r.carrier@.len() - self.carrier@.len(), r.carrier@.len() as int)
                == self.carrier@,
            forall|i: int|
                0 <= i < r.carrier@.len() - self.carrier@.len() ==> #[trigger] r.carrier@[i]
                    == pad_word(self.carrier@[0]),
    {
        let old_len = self.carrier.len();
        let pad: u32 = if self.carrier[0] >= 0x8000_0000 {
            0xffff_ffff
        } else {
            0
        };
        let mut carrier: Vec<u32> = Vec::new();
        let mut k: usize = old_len;
        while k < words
            invariant
                old_len <= k <= if old_len < words {
                    words
                } else {
                    old_len
                },
                carrier@.len() == k - old_len,
                forall|i: int| 0 <= i < carrier@.len() ==> #[trigger] carrier@[i] == pad,
            decreases words - k,
        {
            carrier.push(pad);
            k = k + 1;
        }
        let ghost npad = carrier@.len();
        assert(k == if old_len < words {
            words
        } else {
            old_len
        });
        let mut j: usize = 0;
        while j < old_len
            invariant
                old_len == self.carrier@.len(),
                j <= old_len,
                carrier@.len() == npad + j,
                forall|i: int| 0 <= i < npad ==> #[trigger] carrier@[i] == pad,
                carrier@.subrange(npad as int, npad + j) == self.carrier@.take(j as int),
            decreases old_len - j,
        {
            carrier.push(self.carrier[j]);
            j = j + 1;
            assert(carrier@.subrange(npad as int, npad + j) == self.carrier@.take(j as int));
        }
        assert(self.carrier@.take(old_len as int) == self.carrier@);
        proof {
            lemma_pad_prefix(carrier@, npad as nat, self.carrier@);
        }
        BigInt { carrier }
    }

    /// Compute the two's complement of `self`, i.e. the `BigInt` standing for `-self`.
    pub fn two_complement(&self) -> (r: Self)
        requires
            self.wf(),
        ensures
            r.wf(),
            r.value() == -self.value(),
            r.carrier@.len() == if self.value() == -(pow_words(self.carrier@.len()) / 2) {
                self.carrier@.len() + 1int
            } else {
                self.carrier@.len() as int
            },
    {
        let n = self.carrier.len();
        let mut carrier: Vec<u32> = Vec::new();
        let mut i: usize = 0;
        while i < n
            invariant
                n == self.carrier@.len(),
                i <= n,
                carrier@.len() == i,
                forall|j: int| 0 <= j < i ==> #[trigger] carrier@[j] == !self.carrier@[j],
            decreases n - i,
        {
            carrier.push(!self.carrier[i]);
            i = i + 1;
        }
        let ghost inverted = carrier@;
        proof {
            lemma_not_value(self.carrier@, inverted);
        }
        let mut carry: u64 = 1;
        let mut k: usize = n;
        while k > 0
            invariant
                k <= n,
                n == self.carrier@.len(),
                carrier@.len() == n,
                inverted.len() == n,
                carry <= 1,
                carrier@.subrange(0, k as int) == inverted.subrange(0, k as int),
                unsigned_value(carrier@.subrange(k as int, n as int)) + carry * pow_words(
                    (n - k) as nat,
                ) == unsigned_value(inverted.subrange(k as int, n as int)) + 1,
            decreases k,
        {
            let ghost old_carrier = carrier@;
            let sum: u64 = carrier[k - 1] as u64 + carry;
            let low: u32 = (sum % 0x1_0000_0000) as u32;
            let new_carry: u64 = sum / 0x1_0000_0000;
            carrier.set(k - 1, low);
            proof {
                lemma_subrange_first(carrier@, (k - 1) as nat, n as nat);
                lemma_subrange_first(inverted, (k - 1) as nat, n as nat);
                assert(carrier@.subrange(k as int, n as int) == old_carrier.subrange(k as int, n as int));
                lemma_pow_words_succ((n - k) as nat);
                assert(old_carrier[k - 1] == inverted[k - 1]) by {
                    assert(old_carrier.subrange(0, k as int)[k - 1] == old_carrier[k - 1]);
                }
                let p = pow_words((n - k) as nat);
                lemma_carry_step(old_carrier[k - 1] as int, carry as int, low as int, new_carry as int, p);
                assert(carrier@.subrange(0, k - 1) == inverted.subrange(0, k - 1)) by {
                    assert(carrier@.subrange(0, k - 1) == old_carrier.subrange(0, k as int).subrange(0, k - 1));
                    assert(inverted.subrange(0, k - 1) == inverted.subrange(0, k as int).subrange(0, k - 1));
                }
            }
            carry = new_carry;
            k = k - 1;
        }
        assert(carrier@.subrange(0, n as int) == carrier@);
        assert(inverted.subrange(0, n as int) == inverted);
        proof {
            lemma_negation_result(self.carrier@, carrier@, carry as int);
            lemma_negation_length(self.carrier@, carrier@, carry as int);
        }
        let orig_negative = self.carrier[0] >= 0x8000_0000;
        let res_negative = carrier[0] >= 0x8000_0000;
        if orig_negative && res_negative {
            let mut extended: Vec<u32> = Vec::new();
            extended.push(0);
            let mut j: usize = 0;
            while j < n
                invariant
                    n == carrier@.len(),
                    j <= n,
                    extended@.len() == j + 1,
                    extended@[0] == 0,
                    extended@.subrange(1, j + 1) == carrier@.take(j as int),
                decreases n - j,
            {
                extended.push(carrier[j]);
                j = j + 1;
                assert(extended@.subrange(1, j + 1) == carrier@.take(j as int));
            }
            assert(carrier@.take(n as int) == carrier@);
            assert(extended@.drop_first() == carrier@) by {
                assert(extended@.drop_first() == extended@.subrange(1, n + 1));
            }
            proof {
                lemma_pow_words_succ(n as nat);
            }
            BigInt { carrier: extended }
        } else {
            BigInt { carrier }
        }
    }

    /// Truncate a `BigInt` to the minimum length, keeping its value.
    pub fn truncate(&self) -> (r: Self)
        requires
            self.wf(),
        ensures
            r.wf(),
            is_minimal(r.carrier@),
            r.value() == self.value(),
            r.carrier@.len() <= self.carrier@.len(),
    {
        let n = self.carrier.len();
        let mut start: usize = 0;
        assert(self.carrier@.subrange(0, n as int) == self.carrier@);
        while start + 1 < n && redundant_leading_word(self.carrier[start], self.carrier[start + 1])
            invariant
                n == self.carrier@.len(),
                start < n,
                signed_value(self.carrier@.subrange(start as int, n as int)) == self.value(),
            decreases n - start,
        {
            let top = self.carrier[start];
            let next = self.carrier[start + 1];
            let ghost s = self.carrier@.subrange(start as int, n as int);
            assert(s[0] == top && s[1] == next);
            if top == 0 {
                proof {
                    lemma_drop_zero(s);
                    assert(s.drop_first() == self.carrier@.subrange(start + 1, n as int));
                }
                start = start + 1;
            } else {
                proof {
                    lemma_drop_ones(s);
                    assert(s.drop_first() == self.carrier@.subrange(start + 1, n as int));
                }
                start = start + 1;
            }
        }
        let mut carrier: Vec<u32> = Vec::new();
        let mut j: usize = start;
        while j < n
            invariant
                n == self.carrier@.len(),
                start <= j <= n,
                carrier@ == self.carrier@.subrange(start as int, j as int),
            decreases n - j,
        {
            carrier.push(self.carrier[j]);
            j = j + 1;
            assert(carrier@ == self.carrier@.subrange(start as int, j as int));
        }
        assert(carrier@ == self.carrier@.subrange(start as int, n as int));
        BigInt { carrier }
    }

    /// The sum of two `BigInt`s, in minimal form. Both operands are sign-extended to one word
    /// more than the longer of them, added word by word from the least significant side, and
    /// the result is truncated.
    pub fn add_big(&self, rhs: &Self) -> (r: Self)
        requires
            self.wf(),
            rhs.wf(),
            self.carrier@.len() < usize::MAX,
            rhs.carrier@.len() < usize::MAX,
        ensures
            r.wf(),
            is_minimal(r.carrier@),
            r.value() == self.value() + rhs.value(),
    {
        let max_blocks = if self.carrier.len() >= rhs.carrier.len() {
            self.carrier.len()
        } else {
            rhs.carrier.len()
        };
        let m = max_blocks + 1;
        let lhs_ext = self.extend_words(m);
        let rhs_ext = rhs.extend_words(m);
        let a = &lhs_ext.carrier;
        let b = &rhs_ext.carrier;
        let mut result: Vec<u32> = Vec::new();
        let mut i: usize = 0;
        while i < m
            invariant
                result@.len() == i,
                i <= m,
            decreases m - i,
        {
            result.push(0);
            i = i + 1;
        }
        let mut carry: u64 = 0;
        let mut k: usize = m;
        while k > 0
            invariant
                k <= m,
                a@.len() == m,
                b@.len() == m,
                result@.len() == m,
                carry <= 1,
                unsigned_value(result@.subrange(k as int, m as int)) + carry * pow_words(
                    (m - k) as nat,
                ) == unsigned_value(a@.subrange(k as int, m as int)) + unsigned_value(
                    b@.subrange(k as int, m as int),
                ),
            decreases k,
        {
            let ghost old_result = result@;
            let sum: u64 = a[k - 1] as u64 + b[k - 1] as u64 + carry;
            let low: u32 = (sum % 0x1_0000_0000) as u32;
            let new_carry: u64 = sum / 0x1_0000_0000;
            result.set(k - 1, low);
            proof {
                lemma_subrange_first(result@, (k - 1) as nat, m as nat);
                lemma_subrange_first(a@, (k - 1) as nat, m as nat);
                lemma_subrange_first(b@, (k - 1) as nat, m as nat);
                assert(result@.subrange(k as int, m as int) == old_result.subrange(
                    k as int,
                    m as int,
                ));
                lemma_pow_words_succ((m - k) as nat);
                let p = pow_words((m - k) as nat);
                lemma_carry_step(
                    a@[k - 1] + b@[k - 1],
                    carry as int,
                    low as int,
                    new_carry as int,
                    p,
                );
                assert((a@[k - 1] + b@[k - 1]) * p == a@[k - 1] * p + b@[k - 1] * p)
                    by (nonlinear_arith);
            }
            carry = new_carry;
            k = k - 1;
        }
        assert(result@.subrange(0, m as int) == result@);
        assert(a@.subrange(0, m as int) == a@);
        assert(b@.subrange(0, m as int) == b@);
        proof {
            lemma_signed_range(self.carrier@);
            lemma_signed_range(rhs.carrier@);
            lemma_pow_words_mono(self.carrier@.len(), (m - 1) as nat);
            lemma_pow_words_mono(rhs.carrier@.len(), (m - 1) as nat);
            lemma_pow_words_succ((m - 1) as nat);
            lemma_sum_result(a@, b@, result@, carry as int);
        }
        let sum = BigInt { carrier: result };
        sum.truncate()
    }
}


impl vstd::std_specs::ops::AddSpecImpl for BigInt {
    open spec fn obeys_add_spec() -> bool {
        false
    }

    open spec fn add_req(self, rhs: Self) -> bool {
        self.wf() && rhs.wf() && self.carrier@.len() < usize::MAX && rhs.carrier@.len()
            < usize::MAX
    }

    open spec fn add_spec(self, rhs: Self) -> Self {
        self
    }
}

impl core::ops::Add for BigInt {
    type Output = Self;

    /// `self + rhs`, in minimal form.
    fn add(self, rhs: Self) -> (r: Self)
        ensures
            r.wf(),
            is_minimal(r.carrier@),
            r.value() == self.value() + rhs.value(),
    {
        self.add_big(&rhs)
    }
}

impl vstd::std_specs::ops::SubSpecImpl for BigInt {
    open spec fn obeys_sub_spec() -> bool {
        false
    }

    open spec fn sub_req(self, rhs: Self) -> bool {
        self.wf() && rhs.wf() && self.carrier@.len() < usize::MAX && rhs.carrier@.len() + 1
            < usize::MAX
    }

    open spec fn sub_spec(self, rhs: Self) -> Self {
        self
    }
}

impl core::ops::Sub for BigInt {
    type Output = Self;

    /// `self - rhs`, in minimal form: `self` plus the two's complement of `rhs`.
    fn sub(self, rhs: Self) -> (r: Self)
        ensures
            r.wf(),
            is_minimal(r.carrier@),
            r.value() == self.value() - rhs.value(),
    {
        let rhs_neg = rhs.two_complement();
        self.add_big(&rhs_neg)
    }
}

/// Whether the leading word `top` adds nothing in front of `next`: a zero before a non-negative
/// word, or all ones before a negative word.
pub fn redundant_leading_word(top: u32, next: u32) -> (r: bool)
    ensures
        r == ((top == 0 && !is_neg_word(next)) || (top == 0xffff_ffff && is_neg_word(next))),
{
    (top == 0 && next < 0x8000_0000) || (top == 0xffff_ffff && next >= 0x8000_0000)
}

/// `pow_words` is positive.
pub proof fn lemma_pow_words_pos(n: nat)
    ensures
        pow_words(n) > 0,
    decreases n,
{
    if n > 0 {
        lemma_pow_words_pos((n - 1) as nat);
    }
}

/// One more word multiplies the range by `2^32`.
pub proof fn lemma_pow_words_succ(n: nat)
    ensures
        pow_words(n + 1) == word_base() * pow_words(n),
{
    assert(((n + 1) - 1) as nat == n);
}

/// Half the range of `n > 0` words is `2^31 * 2^(32 (n-1))`.
pub proof fn lemma_pow_words_split(n: nat)
    requires
        n > 0,
    ensures
        pow_words(n) == 2 * (0x8000_0000 * pow_words((n - 1) as nat)),
{
}

/// The unsigned value of `n` words lies in `[0, 2^(32 n))`, and the leading word decides the
/// upper half.
pub proof fn lemma_unsigned_range(s: Seq<u32>)
    ensures
        0 <= unsigned_value(s) < pow_words(s.len()),
    decreases s.len(),
{
    if s.len() > 0 {
        lemma_unsigned_range(s.drop_first());
        let p = pow_words((s.len() - 1) as nat);
        lemma_pow_words_pos((s.len() - 1) as nat);
        assert(s[0] * p <= 0xffff_ffff * p) by (nonlinear_arith)
            requires
                s[0] <= 0xffff_ffff,
                p > 0,
        ;
        assert(0 <= s[0] * p) by (nonlinear_arith)
            requires
                s[0] >= 0,
                p > 0,
        ;
    }
}

/// `pow_words` grows with the number of words.
pub proof fn lemma_pow_words_mono(a: nat, b: nat)
    requires
        a <= b,
    ensures
        pow_words(a) <= pow_words(b),
    decreases b,
{
    if a < b {
        lemma_pow_words_mono(a, (b - 1) as nat);
        lemma_pow_words_pos((b - 1) as nat);
    }
}

/// The signed value of a non-empty sequence lies in `[-2^(32n)/2, 2^(32n)/2)`, and differs
/// from the unsigned value by `0` or `2^(32n)`.
pub proof fn lemma_signed_range(s: Seq<u32>)
    requires
        s.len() > 0,
    ensures
        -(pow_words(s.len()) / 2) <= signed_value(s) < pow_words(s.len()) / 2,
        signed_value(s) == unsigned_value(s) || signed_value(s) == unsigned_value(s) - pow_words(
            s.len(),
        ),
{
    lemma_unsigned_range(s);
    lemma_sign_from_unsigned(s);
}

/// Adding two `m`-word sequences whose values fit in `m - 1` words: the `m` low words of the
/// unsigned sum, read in two's complement, give the sum of the values.
pub proof fn lemma_sum_result(a: Seq<u32>, b: Seq<u32>, r: Seq<u32>, carry: int)
    requires
        a.len() > 1,
        b.len() == a.len(),
        r.len() == a.len(),
        0 <= carry <= 1,
        unsigned_value(r) + carry * pow_words(a.len()) == unsigned_value(a) + unsigned_value(b),
        -(pow_words((a.len() - 1) as nat) / 2) <= signed_value(a) < pow_words(
            (a.len() - 1) as nat,
        ) / 2,
        -(pow_words((a.len() - 1) as nat) / 2) <= signed_value(b) < pow_words(
            (a.len() - 1) as nat,
        ) / 2,
        pow_words(a.len()) == word_base() * pow_words((a.len() - 1) as nat),
    ensures
        signed_value(r) == signed_value(a) + signed_value(b),
{
    lemma_signed_range(a);
    lemma_signed_range(b);
    lemma_signed_range(r);
    lemma_pow_words_pos((a.len() - 1) as nat);
}

/// The sign word decides which half of the unsigned range a non-empty sequence lies in.
pub proof fn lemma_sign_from_unsigned(s: Seq<u32>)
    requires
        s.len() > 0,
    ensures
        is_neg_word(s[0]) <==> unsigned_value(s) >= pow_words(s.len()) / 2,
        pow_words(s.len()) % 2 == 0,
{
    let p = pow_words((s.len() - 1) as nat);
    lemma_unsigned_range(s.drop_first());
    lemma_pow_words_pos((s.len() - 1) as nat);
    lemma_pow_words_split(s.len());
    let w = s[0] as int;
    let rest = unsigned_value(s.drop_first());
    if is_neg_word(s[0]) {
        assert(w * p >= 0x8000_0000 * p) by (nonlinear_arith)
            requires
                w >= 0x8000_0000,
                p > 0,
        ;
    } else {
        assert(w * p + p <= 0x8000_0000 * p) by (nonlinear_arith)
            requires
                w < 0x8000_0000,
                p > 0,
        ;
    }
}

/// A sequence made of `k` copies of the sign padding followed by `s` has the value of `s`.
pub proof fn lemma_pad_prefix(t: Seq<u32>, k: nat, s: Seq<u32>)
    requires
        s.len() > 0,
        t.len() == k + s.len(),
        t.subrange(k as int, t.len() as int) == s,
        forall|i: int| 0 <= i < k ==> #[trigger] t[i] == pad_word(s[0]),
    ensures
        signed_value(t) == signed_value(s),
    decreases k,
{
    if k > 0 {
        let t1 = t.drop_first();
        assert(t1.subrange((k - 1) as int, t1.len() as int) == s);
        assert forall|i: int| 0 <= i < k - 1 implies #[trigger] t1[i] == pad_word(s[0]) by {
            assert(t1[i] == t[i + 1]);
        }
        lemma_pad_prefix(t1, (k - 1) as nat, s);
        assert(t[0] == pad_word(s[0]));
        assert(t1[0] == t[1]);
        lemma_sign_from_unsigned(s);
        if k > 1 {
            assert(t1[0] == t[1]);
            lemma_sign_from_unsigned(t1);
        } else {
            assert(t1 == s);
        }
        assert(is_neg_word(t1[0]) == is_neg_word(s[0]));
        assert(t.drop_first() == t1);
        lemma_pow_words_succ(t1.len());
        if is_neg_word(s[0]) {
            lemma_drop_ones(t);
        } else {
            lemma_drop_zero(t);
        }
    } else {
        assert(t == t.subrange(0, t.len() as int));
    }
}

/// Removing a leading zero word in front of a non-negative word keeps the value.
pub proof fn lemma_drop_zero(s: Seq<u32>)
    requires
        s.len() > 1,
        s[0] == 0,
        !is_neg_word(s[1]),
    ensures
        signed_value(s) == signed_value(s.drop_first()),
{
    assert(s.drop_first()[0] == s[1]);
}

/// Removing a leading all-ones word in front of a negative word keeps the value.
pub proof fn lemma_drop_ones(s: Seq<u32>)
    requires
        s.len() > 1,
        s[0] == 0xffff_ffff,
        is_neg_word(s[1]),
    ensures
        signed_value(s) == signed_value(s.drop_first()),
{
    let t = s.drop_first();
    assert(t[0] == s[1]);
    lemma_pow_words_succ(t.len());
    assert(s.len() - 1 == t.len());
}

/// The bitwise complement of every word gives `2^(32 n) - 1 - value`.
pub proof fn lemma_not_value(s: Seq<u32>, t: Seq<u32>)
    requires
        t.len() == s.len(),
        forall|j: int| 0 <= j < s.len() ==> #[trigger] t[j] == !s[j],
    ensures
        unsigned_value(t) == pow_words(s.len()) - 1 - unsigned_value(s),
    decreases s.len(),
{
    if s.len() > 0 {
        let s1 = s.drop_first();
        let t1 = t.drop_first();
        assert forall|j: int| 0 <= j < s1.len() implies #[trigger] t1[j] == !s1[j] by {
            assert(t1[j] == t[j + 1] && s1[j] == s[j + 1]);
        }
        lemma_not_value(s1, t1);
        let a = s[0];
        let b = t[0];
        assert(b == !a);
        assert(b == 0xffff_ffff - a) by (bit_vector)
            requires
                b == !a,
        ;
        let p = pow_words((s.len() - 1) as nat);
        assert(b * p == 0xffff_ffff * p - a * p) by (nonlinear_arith)
            requires
                b == 0xffff_ffff - a,
        ;
    }
}

/// Splitting `sum = low + carry * 2^32` scaled by `p`.
pub proof fn lemma_carry_step(a: int, cin: int, low: int, cout: int, p: int)
    requires
        0 <= a + cin,
        low == (a + cin) % 0x1_0000_0000,
        cout == (a + cin) / 0x1_0000_0000,
    ensures
        low * p + cout * (word_base() * p) == a * p + cin * p,
{
    let sum = a + cin;
    assert(sum == low + cout * 0x1_0000_0000);
    assert(low * p + cout * (0x1_0000_0000 * p) == a * p + cin * p) by (nonlinear_arith)
        requires
            a + cin == low + cout * 0x1_0000_0000,
    ;
}

/// After adding one to the complemented words, reading the words back in two's complement
/// gives the negation of the starting value, except that the most negative value of `n` words
/// needs one more (zero) leading word.
pub proof fn lemma_negation_result(s: Seq<u32>, c: Seq<u32>, carry: int)
    requires
        s.len() > 0,
        c.len() == s.len(),
        0 <= carry <= 1,
        unsigned_value(c) + carry * pow_words(s.len()) == pow_words(s.len()) - unsigned_value(s),
    ensures
        !(is_neg_word(s[0]) && is_neg_word(c[0])) ==> signed_value(c) == -signed_value(s),
        (is_neg_word(s[0]) && is_neg_word(c[0])) ==> unsigned_value(c) == -signed_value(s),
{
    lemma_unsigned_range(s);
    lemma_unsigned_range(c);
    lemma_sign_from_unsigned(s);
    lemma_sign_from_unsigned(c);
}

/// Both the words and their complement plus one read as negative exactly for the most
/// negative value of `n` words, whose negation needs one more word.
pub proof fn lemma_negation_length(s: Seq<u32>, c: Seq<u32>, carry: int)
    requires
        s.len() > 0,
        c.len() == s.len(),
        0 <= carry <= 1,
        unsigned_value(c) + carry * pow_words(s.len()) == pow_words(s.len()) - unsigned_value(s),
    ensures
        (is_neg_word(s[0]) && is_neg_word(c[0])) <==> signed_value(s) == -(pow_words(s.len()) / 2),
{
    lemma_unsigned_range(s);
    lemma_unsigned_range(c);
    lemma_sign_from_unsigned(s);
    lemma_sign_from_unsigned(c);
    lemma_pow_words_pos(s.len());
}

/// Peeling the leading word of a sub-range off its unsigned value.
pub proof fn lemma_subrange_first(s: Seq<u32>, i: nat, n: nat)
    requires
        i < n <= s.len(),
    ensures
        unsigned_value(s.subrange(i as int, n as int)) == s[i as int] * pow_words(
            (n - i - 1) as nat,
        ) + unsigned_value(s.subrange(i + 1 as int, n as int)),
{
    let t = s.subrange(i as int, n as int);
    assert(t.drop_first() == s.subrange(i + 1 as int, n as int));
}


/// Two sequences of the same length with the same unsigned value are equal.
pub proof fn lemma_unsigned_injective(a: Seq<u32>, b: Seq<u32>)
    requires
        a.len() == b.len(),
        unsigned_value(a) == unsigned_value(b),
    ensures
        a == b,
    decreases a.len(),
{
    if a.len() > 0 {
        let p = pow_words((a.len() - 1) as nat);
        let ra = unsigned_value(a.drop_first());
        let rb = unsigned_value(b.drop_first());
        lemma_unsigned_range(a.drop_first());
        lemma_unsigned_range(b.drop_first());
        lemma_pow_words_pos((a.len() - 1) as nat);
        let x = a[0] as int;
        let y = b[0] as int;
        assert(x == y) by (nonlinear_arith)
            requires
                x * p + ra == y * p + rb,
                0 <= ra < p,
                0 <= rb < p,
                p > 0,
        {
            if x < y {
                assert(x * p + p <= y * p);
            } else if x > y {
                assert(y * p + p <= x * p);
            }
        }
        lemma_unsigned_injective(a.drop_first(), b.drop_first());
        assert(a == seq![a[0]] + a.drop_first());
        assert(b == seq![b[0]] + b.drop_first());
    } else {
        assert(a == b);
    }
}

/// The value of a minimal carrier of more than one word does not fit in one word less.
pub proof fn lemma_minimal_needs_all_words(s: Seq<u32>)
    requires
        is_minimal(s),
        s.len() > 1,
    ensures
        !(-(pow_words((s.len() - 1) as nat) / 2) <= signed_value(s) < pow_words(
            (s.len() - 1) as nat,
        ) / 2),
{
    let n = s.len();
    let rest = s.drop_first();
    let p = pow_words((n - 1) as nat);
    lemma_unsigned_range(rest);
    lemma_pow_words_pos((n - 1) as nat);
    lemma_pow_words_succ((n - 1) as nat);
    lemma_sign_from_unsigned(rest);
    assert(rest[0] == s[1]);
    let w = s[0] as int;
    let u = unsigned_value(rest);
    assert(unsigned_value(s) == w * p + u);
    assert(pow_words(n) == 0x1_0000_0000 * p);
    if w == 0 {
        assert(is_neg_word(s[1]));
    } else if w == 0xffff_ffff {
        assert(!is_neg_word(s[1]));
        assert(signed_value(s) == u - p) by (nonlinear_arith)
            requires
                signed_value(s) == w * p + u - 0x1_0000_0000 * p,
                w == 0xffff_ffff,
        ;
    } else if w < 0x8000_0000 {
        assert(w * p >= p) by (nonlinear_arith)
            requires
                w >= 1,
                p > 0,
        ;
    } else {
        assert(w * p - 0x1_0000_0000 * p <= -2 * p) by (nonlinear_arith)
            requires
                w <= 0xffff_fffe,
                p > 0,
        ;
    }
}

/// A value has exactly one minimal carrier: two minimal carriers with the same value are
/// equal. So every `BigInt` that an operation returns truncated is the canonical form of its
/// value.
pub proof fn lemma_minimal_unique(a: Seq<u32>, b: Seq<u32>)
    requires
        is_minimal(a),
        is_minimal(b),
        signed_value(a) == signed_value(b),
    ensures
        a == b,
{
    lemma_signed_range(a);
    lemma_signed_range(b);
    if a.len() < b.len() {
        lemma_pow_words_mono(a.len(), (b.len() - 1) as nat);
        lemma_minimal_needs_all_words(b);
    } else if b.len() < a.len() {
        lemma_pow_words_mono(b.len(), (a.len() - 1) as nat);
        lemma_minimal_needs_all_words(a);
    } else {
        lemma_sign_from_unsigned(a);
        lemma_sign_from_unsigned(b);
        lemma_unsigned_range(a);
        lemma_unsigned_range(b);
        assert(unsigned_value(a) == unsigned_value(b));
        lemma_unsigned_injective(a, b);
    }
}

} // verus!
