//! Semirings, and polynomials with coefficients in a semiring.
use vstd::prelude::*;

verus! {

/// Semiring (see <https://en.wikipedia.org/wiki/Semiring>).
///
/// The operations are described on the view of a value: `zero_spec`, `one_spec`, `add_spec` and
/// `mul_spec` say what `zero`, `one`, `add` and `mul` return, and `add_ok` / `mul_ok` say when an
/// operation stays within the machine representation.
pub trait Semiring: Sized + View {
    /// The view of the additive identity.
    spec fn zero_spec() -> Self::V;

    /// The view of the multiplicative identity.
    spec fn one_spec() -> Self::V;

    /// The view of `a + b`.
    spec fn add_spec(a: Self::V, b: Self::V) -> Self::V;

    /// The view of `a * b`.
    spec fn mul_spec(a: Self::V, b: Self::V) -> Self::V;

    /// Adding `a` and `b` stays within the representation.
    spec fn add_ok(a: Self::V, b: Self::V) -> bool;

    /// Multiplying `a` and `b` stays within the representation.
    spec fn mul_ok(a: Self::V, b: Self::V) -> bool;

    /// The value is well formed.
    spec fn wf(&self) -> bool;

    /// Additive identity.
    fn zero() -> (r: Self)
        ensures
            r.wf(),
            r@ == Self::zero_spec(),
    ;

    /// Multiplicative identity.
    fn one() -> (r: Self)
        ensures
            r.wf(),
            r@ == Self::one_spec(),
    ;

    /// Addition operation.
    fn add(&self, rhs: &Self) -> (r: Self)
        requires
            self.wf(),
            rhs.wf(),
            Self::add_ok(self@, rhs@),
        ensures
            r.wf(),
            r@ == Self::add_spec(self@, rhs@),
    ;

    /// Multiplication operation.
    fn mul(&self, rhs: &Self) -> (r: Self)
        requires
            self.wf(),
            rhs.wf(),
            Self::mul_ok(self@, rhs@),
        ensures
            r.wf(),
            r@ == Self::mul_spec(self@, rhs@),
    ;

    /// Whether `self` equals the additive identity.
    fn is_zero(&self) -> (r: bool)
        requires
            self.wf(),
        ensures
            r == (self@ == Self::zero_spec()),
    ;

    /// Whether `self + rhs` stays within the representation.
    fn can_add(&self, rhs: &Self) -> (r: bool)
        requires
            self.wf(),
            rhs.wf(),
        ensures
            r == Self::add_ok(self@, rhs@),
    ;

    /// A copy of `self`.
    fn duplicate(&self) -> (r: Self)
        requires
            self.wf(),
        ensures
            r.wf(),
            r@ == self@,
    ;
}

/// `n` as a semiring value: `zero` plus `one`, `n` times.
pub open spec fn from_usize_spec<T: Semiring>(n: nat) -> T::V
    decreases n,
{
    if n == 0 {
        T::zero_spec()
    } else {
        T::add_spec(from_usize_spec::<T>((n - 1) as nat), T::one_spec())
    }
}

/// Every addition made while counting up to `n` stays within the representation.
pub open spec fn from_usize_ok<T: Semiring>(n: nat) -> bool
    decreases n,
{
    n == 0 || (from_usize_ok::<T>((n - 1) as nat) && T::add_ok(
        from_usize_spec::<T>((n - 1) as nat),
        T::one_spec(),
    ))
}

/// Converts an integer to a semiring value by adding `one` to `zero` `value` times.
pub fn from_usize<T: Semiring>(value: usize) -> (r: T)
    requires
        from_usize_ok::<T>(value as nat),
    ensures
        r.wf(),
        r@ == from_usize_spec::<T>(value as nat),
{
    let mut result = T::zero();
    let one = T::one();
    let mut i: usize = 0;
    while i < value
        invariant
            i <= value,
            result.wf(),
            one.wf(),
            one@ == T::one_spec(),
            result@ == from_usize_spec::<T>(i as nat),
            from_usize_ok::<T>(value as nat),
        decreases value - i,
    {
        proof {
            lemma_from_usize_ok_prefix::<T>((i + 1) as nat, value as nat);
        }
        result = T::add(&result, &one);
        i = i + 1;
    }
    result
}

/// Counting to `m` is fine when counting to `n >= m` is.
pub proof fn lemma_from_usize_ok_prefix<T: Semiring>(m: nat, n: nat)
    requires
        m <= n,
        from_usize_ok::<T>(n),
    ensures
        from_usize_ok::<T>(m),
    decreases n,
{
    if m < n {
        lemma_from_usize_ok_prefix::<T>(m, (n - 1) as nat);
    }
}

impl Semiring for u64 {
    open spec fn zero_spec() -> u64 {
        0
    }

    open spec fn one_spec() -> u64 {
        1
    }

    open spec fn add_spec(a: u64, b: u64) -> u64 {
        (a + b) as u64
    }

    open spec fn mul_spec(a: u64, b: u64) -> u64 {
        (a * b) as u64
    }

    open spec fn add_ok(a: u64, b: u64) -> bool {
        a + b <= u64::MAX
    }

    open spec fn mul_ok(a: u64, b: u64) -> bool {
        a * b <= u64::MAX
    }

    open spec fn wf(&self) -> bool {
        true
    }

    fn zero() -> (r: u64) {
        0
    }

    fn one() -> (r: u64) {
        1
    }

    fn add(&self, rhs: &u64) -> (r: u64) {
        *self + *rhs
    }

    fn mul(&self, rhs: &u64) -> (r: u64) {
        *self * *rhs
    }

    fn is_zero(&self) -> (r: bool) {
        *self == 0
    }

    fn can_add(&self, rhs: &u64) -> (r: bool) {
        self.checked_add(*rhs).is_some()
    }

    fn duplicate(&self) -> (r: u64) {
        *self
    }
}

impl Semiring for i64 {
    open spec fn zero_spec() -> i64 {
        0
    }

    open spec fn one_spec() -> i64 {
        1
    }

    open spec fn add_spec(a: i64, b: i64) -> i64 {
        (a + b) as i64
    }

    open spec fn mul_spec(a: i64, b: i64) -> i64 {
        (a * b) as i64
    }

    open spec fn add_ok(a: i64, b: i64) -> bool {
        i64::MIN <= a + b <= i64::MAX
    }

    open spec fn mul_ok(a: i64, b: i64) -> bool {
        i64::MIN <= a * b <= i64::MAX
    }

    open spec fn wf(&self) -> bool {
        true
    }

    fn zero() -> (r: i64) {
        0
    }

    fn one() -> (r: i64) {
        1
    }

    fn add(&self, rhs: &i64) -> (r: i64) {
        *self + *rhs
    }

    fn mul(&self, rhs: &i64) -> (r: i64) {
        *self * *rhs
    }

    fn is_zero(&self) -> (r: bool) {
        *self == 0
    }

    fn can_add(&self, rhs: &i64) -> (r: bool) {
        self.checked_add(*rhs).is_some()
    }

    fn duplicate(&self) -> (r: i64) {
        *self
    }
}

/// The laws of a commutative semiring, over the views: addition and multiplication are
/// commutative and associative, zero and one are their identities, zero annihilates, and
/// multiplication distributes over addition.
#[verifier::opaque]
pub open spec fn commutative_semiring_laws<T: Semiring>() -> bool {
    &&& forall|a: T::V, b: T::V| #[trigger] T::add_spec(a, b) == T::add_spec(b, a)
    &&& forall|a: T::V, b: T::V, c: T::V|
        #[trigger] T::add_spec(T::add_spec(a, b), c) == T::add_spec(a, T::add_spec(b, c))
    &&& forall|a: T::V| #[trigger] T::add_spec(a, T::zero_spec()) == a
    &&& forall|a: T::V, b: T::V| #[trigger] T::mul_spec(a, b) == T::mul_spec(b, a)
    &&& forall|a: T::V, b: T::V, c: T::V|
        #[trigger] T::mul_spec(T::mul_spec(a, b), c) == T::mul_spec(a, T::mul_spec(b, c))
    &&& forall|a: T::V| #[trigger] T::mul_spec(a, T::one_spec()) == a
    &&& forall|a: T::V| #[trigger] T::mul_spec(a, T::zero_spec()) == T::zero_spec()
    &&& forall|a: T::V, b: T::V, c: T::V|
        #[trigger] T::mul_spec(a, T::add_spec(b, c)) == T::add_spec(
            T::mul_spec(a, b),
            T::mul_spec(a, c),
        )
}

/// Zero is a right identity of addition: `a + 0 == a`.
pub open spec fn zero_right_identity<T: Semiring>() -> bool {
    forall|a: T::V| #[trigger] T::add_spec(a, T::zero_spec()) == a
}

/// Addition is commutative and associative.
pub open spec fn add_comm_assoc<T: Semiring>() -> bool {
    &&& forall|a: T::V, b: T::V| #[trigger] T::add_spec(a, b) == T::add_spec(b, a)
    &&& forall|a: T::V, b: T::V, c: T::V|
        #[trigger] T::add_spec(T::add_spec(a, b), c) == T::add_spec(a, T::add_spec(b, c))
}

/// The laws of a commutative semiring include those of its addition.
pub proof fn lemma_laws_addition<T: Semiring>()
    requires
        commutative_semiring_laws::<T>(),
    ensures
        zero_right_identity::<T>(),
        add_comm_assoc::<T>(),
{
    reveal(commutative_semiring_laws);
}

/// Addition commutes.
pub proof fn lemma_add_comm<T: Semiring>(a: T::V, b: T::V)
    requires
        commutative_semiring_laws::<T>(),
    ensures
        T::add_spec(a, b) == T::add_spec(b, a),
{
    reveal(commutative_semiring_laws);
}

/// Addition is associative.
pub proof fn lemma_add_assoc<T: Semiring>(a: T::V, b: T::V, c: T::V)
    requires
        commutative_semiring_laws::<T>(),
    ensures
        T::add_spec(T::add_spec(a, b), c) == T::add_spec(a, T::add_spec(b, c)),
{
    reveal(commutative_semiring_laws);
}

/// Zero is the identity of addition, on either side.
pub proof fn lemma_add_zero<T: Semiring>(a: T::V)
    requires
        commutative_semiring_laws::<T>(),
    ensures
        T::add_spec(a, T::zero_spec()) == a,
        T::add_spec(T::zero_spec(), a) == a,
{
    reveal(commutative_semiring_laws);
    assert(T::add_spec(T::zero_spec(), a) == T::add_spec(a, T::zero_spec()));
}

/// Multiplication commutes.
pub proof fn lemma_mul_comm<T: Semiring>(a: T::V, b: T::V)
    requires
        commutative_semiring_laws::<T>(),
    ensures
        T::mul_spec(a, b) == T::mul_spec(b, a),
{
    reveal(commutative_semiring_laws);
}

/// Multiplication is associative.
pub proof fn lemma_mul_assoc<T: Semiring>(a: T::V, b: T::V, c: T::V)
    requires
        commutative_semiring_laws::<T>(),
    ensures
        T::mul_spec(T::mul_spec(a, b), c) == T::mul_spec(a, T::mul_spec(b, c)),
{
    reveal(commutative_semiring_laws);
}

/// One is the identity of multiplication, and zero annihilates, on either side.
pub proof fn lemma_mul_one_zero<T: Semiring>(a: T::V)
    requires
        commutative_semiring_laws::<T>(),
    ensures
        T::mul_spec(a, T::one_spec()) == a,
        T::mul_spec(T::one_spec(), a) == a,
        T::mul_spec(a, T::zero_spec()) == T::zero_spec(),
        T::mul_spec(T::zero_spec(), a) == T::zero_spec(),
{
    reveal(commutative_semiring_laws);
    assert(T::mul_spec(T::one_spec(), a) == T::mul_spec(a, T::one_spec()));
    assert(T::mul_spec(T::zero_spec(), a) == T::mul_spec(a, T::zero_spec()));
}

/// Multiplication distributes over addition, on either side.
pub proof fn lemma_distrib<T: Semiring>(a: T::V, b: T::V, c: T::V)
    requires
        commutative_semiring_laws::<T>(),
    ensures
        T::mul_spec(a, T::add_spec(b, c)) == T::add_spec(T::mul_spec(a, b), T::mul_spec(a, c)),
        T::mul_spec(T::add_spec(b, c), a) == T::add_spec(T::mul_spec(b, a), T::mul_spec(c, a)),
{
    reveal(commutative_semiring_laws);
    assert(T::mul_spec(T::add_spec(b, c), a) == T::mul_spec(a, T::add_spec(b, c)));
    assert(T::mul_spec(b, a) == T::mul_spec(a, b));
    assert(T::mul_spec(c, a) == T::mul_spec(a, c));
}

/// Machine integers of type `i64`, with wrapping addition and multiplication, form a
/// commutative semiring.
pub proof fn lemma_i64_laws()
    ensures
        commutative_semiring_laws::<i64>(),
{
    reveal(commutative_semiring_laws);
    assert forall|a: i64, b: i64| #[trigger] i64::add_spec(a, b) == i64::add_spec(b, a) by {}
    assert forall|a: i64, b: i64, c: i64|
        #[trigger] i64::add_spec(i64::add_spec(a, b), c) == i64::add_spec(
            a,
            i64::add_spec(b, c),
        ) by {
        assert((((a + b) as i64 + c) as i64) == ((a + ((b + c) as i64)) as i64)) by (bit_vector);
    }
    assert forall|a: i64, b: i64| #[trigger] i64::mul_spec(a, b) == i64::mul_spec(b, a) by {
        assert(((a * b) as i64) == ((b * a) as i64)) by (bit_vector);
    }
    assert forall|a: i64, b: i64, c: i64|
        #[trigger] i64::mul_spec(i64::mul_spec(a, b), c) == i64::mul_spec(
            a,
            i64::mul_spec(b, c),
        ) by {
        assert((((a * b) as i64 * c) as i64) == ((a * ((b * c) as i64)) as i64)) by (bit_vector);
    }
    assert forall|a: i64, b: i64, c: i64|
        #[trigger] i64::mul_spec(a, i64::add_spec(b, c)) == i64::add_spec(
            i64::mul_spec(a, b),
            i64::mul_spec(a, c),
        ) by {
        assert(((a * ((b + c) as i64)) as i64) == ((((a * b) as i64) + ((a * c) as i64)) as i64))
            by (bit_vector);
    }
}

/// Machine integers of type `u64`, with wrapping addition and multiplication, form a
/// commutative semiring.
pub proof fn lemma_u64_laws()
    ensures
        commutative_semiring_laws::<u64>(),
{
    reveal(commutative_semiring_laws);
    assert forall|a: u64, b: u64| #[trigger] u64::add_spec(a, b) == u64::add_spec(b, a) by {}
    assert forall|a: u64, b: u64, c: u64|
        #[trigger] u64::add_spec(u64::add_spec(a, b), c) == u64::add_spec(
            a,
            u64::add_spec(b, c),
        ) by {
        assert((((a + b) as u64 + c) as u64) == ((a + ((b + c) as u64)) as u64)) by (bit_vector);
    }
    assert forall|a: u64, b: u64| #[trigger] u64::mul_spec(a, b) == u64::mul_spec(b, a) by {
        assert(((a * b) as u64) == ((b * a) as u64)) by (bit_vector);
    }
    assert forall|a: u64, b: u64, c: u64|
        #[trigger] u64::mul_spec(u64::mul_spec(a, b), c) == u64::mul_spec(
            a,
            u64::mul_spec(b, c),
        ) by {
        assert((((a * b) as u64 * c) as u64) == ((a * ((b * c) as u64)) as u64)) by (bit_vector);
    }
    assert forall|a: u64, b: u64, c: u64|
        #[trigger] u64::mul_spec(a, u64::add_spec(b, c)) == u64::add_spec(
            u64::mul_spec(a, b),
            u64::mul_spec(a, c),
        ) by {
        assert(((a * ((b + c) as u64)) as u64) == ((((a * b) as u64) + ((a * c) as u64)) as u64))
            by (bit_vector);
    }
}

} // verus!
