//! Generators: a state together with a step that yields a value or stops.
use vstd::prelude::*;

verus! {

/// One step of a generator on its state `Self`: it yields a value of type `T` (`Some`) or
/// signals the end (`None`), and updates the state.
pub trait GeneratorStep<T>: Sized {
    /// The step can be taken without overflow.
    spec fn step_ok(&self) -> bool;

    /// What the step yields, and the state after it.
    spec fn step_spec(&self) -> (Option<T>, Self);

    /// Takes the step.
    fn step(&mut self) -> (r: Option<T>)
        requires
            old(self).step_ok(),
        ensures
            (r, *final(self)) == old(self).step_spec(),
    ;
}

/// Generator: call `next()` to get the next value; `None` signals the end.
#[derive(Debug)]
pub struct Generator<T, S> {
    state: S,
    marker: core::marker::PhantomData<T>,
}

impl<T, S: GeneratorStep<T>> Generator<T, S> {
    /// The current state.
    pub closed spec fn state(&self) -> S {
        self.state
    }

    /// A generator starting from `state`.
    pub fn new(state: S) -> (r: Self)
        ensures
            r.state() == state,
    {
        Generator { state, marker: core::marker::PhantomData }
    }

    /// The next value, or `None` when the generator stopped.
    pub fn next(&mut self) -> (r: Option<T>)
        requires
            old(self).state().step_ok(),
        ensures
            (r, final(self).state()) == old(self).state().step_spec(),
    {
        self.state.step()
    }
}

/// The `n`-th term of the Fibonacci-like sequence starting with `a`, `b`.
pub open spec fn fib_term(a: int, b: int, n: nat) -> int
    decreases n,
{
    if n == 0 {
        a
    } else {
        fib_term(b, a + b, (n - 1) as nat)
    }
}

impl GeneratorStep<usize> for (usize, usize) {
    /// The next pair `(b, a + b)` fits in `usize`.
    open spec fn step_ok(&self) -> bool {
        self.0 + self.1 <= usize::MAX
    }

    /// Yields the first component and moves to `(b, a + b)`.
    open spec fn step_spec(&self) -> (Option<usize>, (usize, usize)) {
        (Some(self.0), (self.1, (self.0 + self.1) as usize))
    }

    fn step(&mut self) -> (r: Option<usize>) {
        let current = self.0;
        let next_val = self.0 + self.1;
        self.0 = self.1;
        self.1 = next_val;
        Some(current)
    }
}

/// Returns a generator that yields the Fibonacci-like numbers starting with `first`, `second`.
pub fn fib_generator(first: usize, second: usize) -> (r: Generator<usize, (usize, usize)>)
    ensures
        r.state() == (first, second),
{
    Generator::new((first, second))
}

/// The Collatz successor of `n > 0`: `n / 2` when `n` is even, `3n + 1` when `n` is odd.
pub open spec fn collatz_next(n: int) -> int {
    if n % 2 == 0 {
        n / 2
    } else {
        3 * n + 1
    }
}

impl GeneratorStep<usize> for usize {
    /// `3n + 1` fits in `usize`.
    open spec fn step_ok(&self) -> bool {
        *self % 2 == 1 ==> 3 * *self + 1 <= usize::MAX
    }

    /// State `0` means stopped. Otherwise the current number is yielded; after `1` the
    /// generator stops, and any other number is followed by its Collatz successor.
    open spec fn step_spec(&self) -> (Option<usize>, usize) {
        if *self == 0 {
            (None, 0)
        } else if *self == 1 {
            (Some(1), 0)
        } else {
            (Some(*self), collatz_next(*self as int) as usize)
        }
    }

    fn step(&mut self) -> (r: Option<usize>) {
        if *self == 0 {
            return None;
        }
        let current = *self;
        if current == 1 {
            *self = 0;
        } else if current % 2 == 0 {
            *self = current / 2;
        } else {
            *self = 3 * current + 1;
        }
        Some(current)
    }
}

/// Returns a generator that yields the Collatz sequence from `start` down to `1`.
pub fn collatz_conjecture(start: usize) -> (r: Generator<usize, usize>)
    ensures
        r.state() == start,
{
    Generator::new(start)
}

/// Consecutive terms add up to the next one.
pub proof fn lemma_fib_term_sum(a: int, b: int, n: nat)
    ensures
        fib_term(a, b, n) + fib_term(a, b, n + 1) == fib_term(a, b, n + 2),
    decreases n,
{
    if n == 0 {
        assert(fib_term(a, b, 2) == fib_term(b, a + b, 1));
        assert(fib_term(b, a + b, 1) == fib_term(a + b, b + (a + b), 0));
        assert(fib_term(a, b, 1) == fib_term(b, a + b, 0));
    } else {
        lemma_fib_term_sum(b, a + b, (n - 1) as nat);
        assert(fib_term(a, b, n) == fib_term(b, a + b, (n - 1) as nat));
        assert(fib_term(a, b, n + 1) == fib_term(b, a + b, n));
        assert(fib_term(a, b, n + 2) == fib_term(b, a + b, n + 1));
    }
}

/// The Fibonacci generator started at `(first, second)` yields `fib_term(first, second, n)` as
/// its `n`-th value: from the state holding the `n`-th and `(n+1)`-th terms, a step yields the
/// `n`-th term and moves to the state holding the `(n+1)`-th and `(n+2)`-th terms.
pub proof fn lemma_fib_generator_step(first: int, second: int, n: nat, s: (usize, usize))
    requires
        s.0 == fib_term(first, second, n),
        s.1 == fib_term(first, second, n + 1),
        s.step_ok(),
    ensures
        s.step_spec().0 == Some(s.0),
        s.step_spec().1.0 == fib_term(first, second, n + 1),
        s.step_spec().1.1 == fib_term(first, second, n + 2),
{
    lemma_fib_term_sum(first, second, n);
}

/// Once the Collatz generator yields `1` it stops, and it never yields `0`.
pub proof fn lemma_collatz_stops_after_one(s: usize)
    requires
        s.step_ok(),
    ensures
        s.step_spec().0 == Some(1usize) ==> s.step_spec().1 == 0 && s.step_spec().1.step_spec().0
            is None,
        s.step_spec().0 != Some(0usize),
{
}

} // verus!
