//! Reading a polynomial from text such as `3x^2 + x + 7`.
use vstd::prelude::*;
use crate::semiring::{Semiring, from_usize, from_usize_spec, from_usize_ok};
use crate::polynomial::{Polynomial, poly_add, poly_add_ok};
use crate::text::str_chars;

verus! {

/// `s` starts with the separator `" + "`.
pub open spec fn starts_with_sep(s: Seq<char>) -> bool {
    s.len() >= 3 && s[0] == ' ' && s[1] == '+' && s[2] == ' '
}

/// Splits `s` at every `" + "`, scanning from the left; `cur` is the part read so far.
pub open spec fn split_from(cur: Seq<char>, s: Seq<char>) -> Seq<Seq<char>>
    decreases s.len(),
{
    if s.len() == 0 {
        seq![cur]
    } else if starts_with_sep(s) {
        seq![cur] + split_from(Seq::empty(), s.skip(3))
    } else {
        split_from(cur.push(s[0]), s.drop_first())
    }
}

/// The terms of `s`: the parts between the separators `" + "` (as `str::split`).
pub open spec fn split_terms(s: Seq<char>) -> Seq<Seq<char>> {
    split_from(Seq::empty(), s)
}

/// Whether a character is a decimal digit.
pub open spec fn is_digit(c: char) -> bool {
    '0' <= c <= '9'
}

/// The value of a non-empty run of decimal digits.
pub open spec fn digits_value(s: Seq<char>) -> nat
    decreases s.len(),
{
    if s.len() == 0 {
        0
    } else {
        10 * digits_value(s.drop_last()) + ((s.last() as int) - ('0' as int)) as nat
    }
}

/// The digits of an unsigned number, after an optional leading `+`.
pub open spec fn number_digits(s: Seq<char>) -> Seq<char> {
    if s.len() > 0 && s[0] == '+' {
        s.drop_first()
    } else {
        s
    }
}

/// `s` is an unsigned decimal number (an optional `+` and at least one digit) whose value is at
/// most `max`, as `str::parse` accepts it.
pub open spec fn number_ok(s: Seq<char>, max: nat) -> bool {
    let d = number_digits(s);
    d.len() > 0 && (forall|i: int| 0 <= i < d.len() ==> is_digit(#[trigger] d[i])) && digits_value(
        d,
    ) <= max
}

/// The value of an unsigned decimal number.
pub open spec fn number_value(s: Seq<char>) -> nat {
    digits_value(number_digits(s))
}

/// Index of the first `c` in `s`, if any.
pub open spec fn find_char(s: Seq<char>, c: char) -> Option<int>
    decreases s.len(),
{
    if s.len() == 0 {
        None
    } else if s[0] == c {
        Some(0)
    } else {
        match find_char(s.drop_first(), c) {
            Some(i) => Some(i + 1),
            None => None,
        }
    }
}

/// The text of a term without its trailing `x` (when it has one).
pub open spec fn strip_x(s: Seq<char>) -> Seq<char> {
    s.drop_last()
}

/// The coefficient text `a` of a term `ax` or `ax^n`: the text must end in `x`.
pub open spec fn coeff_ok<C: Semiring>(left: Seq<char>) -> bool {
    left.len() > 0 && left.last() == 'x' && number_ok(strip_x(left), usize::MAX as nat)
        && from_usize_ok::<C>(number_value(strip_x(left)))
}

/// A term is one of `a`, `x`, `ax`, `x^n` and `ax^n`, with numbers that fit their types.
pub open spec fn term_ok<C: Semiring>(t: Seq<char>) -> bool {
    match find_char(t, '^') {
        Some(k) => {
            let left = t.take(k);
            let right = t.skip(k + 1);
            number_ok(right, u64::MAX as nat) && (left == seq!['x'] || coeff_ok::<C>(left))
        },
        None => {
            if find_char(t, 'x') is Some {
                t == seq!['x'] || coeff_ok::<C>(t)
            } else {
                number_ok(t, usize::MAX as nat) && from_usize_ok::<C>(number_value(t))
            }
        },
    }
}

/// The coefficient of a term `x...` or `ax...` whose text before the power is `left`.
pub open spec fn coeff_of<C: Semiring>(left: Seq<char>) -> C::V {
    if left == seq!['x'] {
        C::one_spec()
    } else {
        from_usize_spec::<C>(number_value(strip_x(left)))
    }
}

/// The `(power, coefficient)` pair that a well-formed term stands for.
pub open spec fn term_of<C: Semiring>(t: Seq<char>) -> (u64, C::V) {
    match find_char(t, '^') {
        Some(k) => (number_value(t.skip(k + 1)) as u64, coeff_of::<C>(t.take(k))),
        None => {
            if find_char(t, 'x') is Some {
                (1u64, coeff_of::<C>(t))
            } else {
                (0u64, from_usize_spec::<C>(number_value(t)))
            }
        },
    }
}

/// Adds the terms, in order, to `acc`.
pub open spec fn sum_terms<C: Semiring>(acc: Seq<(u64, C::V)>, terms: Seq<Seq<char>>) -> Seq<
    (u64, C::V),
>
    decreases terms.len(),
{
    if terms.len() == 0 {
        acc
    } else {
        sum_terms::<C>(poly_add::<C>(acc, seq![term_of::<C>(terms[0])]), terms.drop_first())
    }
}

/// Every term is well formed and every addition of `sum_terms` stays within the
/// representation.
pub open spec fn sum_terms_ok<C: Semiring>(acc: Seq<(u64, C::V)>, terms: Seq<Seq<char>>) -> bool
    decreases terms.len(),
{
    terms.len() == 0 || {
        &&& term_ok::<C>(terms[0])
        &&& poly_add_ok::<C>(acc, seq![term_of::<C>(terms[0])])
        &&& sum_terms_ok::<C>(
            poly_add::<C>(acc, seq![term_of::<C>(terms[0])]),
            terms.drop_first(),
        )
    }
}

/// The view of a vector of character vectors.
pub open spec fn parts_view(v: Seq<Vec<char>>) -> Seq<Seq<char>> {
    v.map_values(|p: Vec<char>| p@)
}

/// Splits the characters at every `" + "`.
pub fn split_terms_exec(s: &Vec<char>) -> (r: Vec<Vec<char>>)
    ensures
        parts_view(r@) == split_terms(s@),
{
    let n = s.len();
    let mut parts: Vec<Vec<char>> = Vec::new();
    let mut cur: Vec<char> = Vec::new();
    let mut i: usize = 0;
    assert(s@.skip(0) == s@);
    while i < n
        invariant
            n == s@.len(),
            i <= n,
            parts_view(parts@) + split_from(cur@, s@.skip(i as int)) == split_terms(s@),
        decreases n - i,
    {
        let ghost rest = s@.skip(i as int);
        if n - i >= 3 && s[i] == ' ' && s[i + 1] == '+' && s[i + 2] == ' ' {
            assert(rest[0] == s@[i as int] && rest[1] == s@[i + 1] && rest[2] == s@[i + 2]);
            assert(rest.skip(3) == s@.skip(i + 3));
            let ghost old_parts = parts_view(parts@);
            parts.push(cur);
            assert(parts_view(parts@) == old_parts.push(cur@));
            cur = Vec::new();
            assert(cur@ == Seq::<char>::empty());
            i = i + 3;
        } else {
            assert(rest[0] == s@[i as int]);
            assert(rest.drop_first() == s@.skip(i + 1));
            cur.push(s[i]);
            i = i + 1;
        }
    }
    assert(s@.skip(n as int) == Seq::<char>::empty());
    let ghost old_parts = parts_view(parts@);
    parts.push(cur);
    assert(parts_view(parts@) == old_parts.push(cur@));
    parts
}

/// A prefix of a digit run has a value no larger than the whole run.
pub proof fn lemma_digits_prefix(s: Seq<char>, k: int)
    requires
        0 <= k <= s.len(),
        forall|i: int| 0 <= i < s.len() ==> is_digit(#[trigger] s[i]),
    ensures
        digits_value(s.take(k)) <= digits_value(s),
    decreases s.len() - k,
{
    if k < s.len() {
        let t = s.take(k + 1);
        lemma_digits_prefix(s, k + 1);
        assert(t.drop_last() == s.take(k));
        assert(is_digit(t.last()));
    } else {
        assert(s.take(k) == s);
    }
}

/// Reads the unsigned number `t[lo..hi]` (an optional `+` and digits) whose value is at most
/// `max`.
pub fn parse_number(t: &Vec<char>, lo: usize, hi: usize, max: u64) -> (r: u64)
    requires
        lo <= hi <= t@.len(),
        number_ok(t@.subrange(lo as int, hi as int), max as nat),
    ensures
        r == number_value(t@.subrange(lo as int, hi as int)),
{
    let ghost s = t@.subrange(lo as int, hi as int);
    let mut start = lo;
    if lo < hi && t[lo] == '+' {
        start = lo + 1;
        assert(s[0] == '+');
        assert(s.drop_first() == t@.subrange(start as int, hi as int));
    }
    let ghost d = t@.subrange(start as int, hi as int);
    assert(d == number_digits(s));
    let mut acc: u64 = 0;
    let mut j: usize = start;
    assert(d.take(0) == Seq::<char>::empty());
    while j < hi
        invariant
            start <= j <= hi,
            hi <= t@.len(),
            d == t@.subrange(start as int, hi as int),
            forall|i: int| 0 <= i < d.len() ==> is_digit(#[trigger] d[i]),
            digits_value(d) <= max,
            acc == digits_value(d.take(j - start)),
        decreases hi - j,
    {
        let c = t[j];
        assert(c == d[j - start]);
        let ghost pre = d.take(j - start + 1);
        assert(pre.drop_last() == d.take(j - start));
        assert(pre.last() == c);
        proof {
            lemma_digits_prefix(d, j - start + 1);
        }
        let digit = (c as u32 - '0' as u32) as u64;
        acc = acc * 10 + digit;
        j = j + 1;
    }
    assert(d.take(hi - start) == d);
    acc
}

/// Index of the first `c` in `t`, if any.
pub fn find_char_exec(t: &Vec<char>, c: char) -> (r: Option<usize>)
    ensures
        match find_char(t@, c) {
            Some(k) => r == Some(k as usize),
            None => r is None,
        },
        r matches Some(k) ==> k < t@.len() && t@[k as int] == c && find_char(t@, c) == Some(
            k as int,
        ),
        r is None ==> find_char(t@, c) is None,
{
    let n = t.len();
    let mut i: usize = 0;
    while i < n
        invariant
            n == t@.len(),
            i <= n,
            forall|j: int| 0 <= j < i ==> t@[j] != c,
        decreases n - i,
    {
        if t[i] == c {
            proof {
                lemma_find_char(t@, c, i as int);
            }
            return Some(i);
        }
        i = i + 1;
    }
    proof {
        lemma_find_char(t@, c, n as int);
    }
    None
}

/// `find_char` finds the first occurrence.
pub proof fn lemma_find_char(s: Seq<char>, c: char, i: int)
    requires
        0 <= i <= s.len(),
        forall|j: int| 0 <= j < i ==> s[j] != c,
        i < s.len() ==> s[i] == c,
    ensures
        i < s.len() ==> find_char(s, c) == Some(i),
        i == s.len() ==> find_char(s, c) is None,
    decreases i,
{
    if i > 0 {
        let t = s.drop_first();
        assert forall|j: int| 0 <= j < i - 1 implies t[j] != c by {
            assert(t[j] == s[j + 1]);
        }
        lemma_find_char(t, c, i - 1);
    }
}

/// The coefficient of a term whose text before the power is `left` (`x` or `ax`).
fn parse_coeff<C: Semiring>(t: &Vec<char>, end: usize) -> (r: C)
    requires
        end <= t@.len(),
        t@.take(end as int) == seq!['x'] || coeff_ok::<C>(t@.take(end as int)),
    ensures
        r.wf(),
        r@ == coeff_of::<C>(t@.take(end as int)),
{
    let ghost left = t@.take(end as int);
    if end == 1 && t[0] == 'x' {
        assert(left =~= seq!['x']);
        C::one()
    } else {
        assert(seq!['x'].len() == 1 && seq!['x'][0] == 'x');
        assert(left != seq!['x']);
        assert(strip_x(left) == t@.subrange(0, end - 1));
        let a = parse_number(t, 0, end - 1, usize::MAX as u64);
        from_usize(a as usize)
    }
}

/// The `(power, coefficient)` pair of a well-formed term.
fn parse_term<C: Semiring>(t: &Vec<char>) -> (r: (u64, C))
    requires
        term_ok::<C>(t@),
    ensures
        r.1.wf(),
        (r.0, r.1@) == term_of::<C>(t@),
{
    let n = t.len();
    match find_char_exec(t, '^') {
        Some(k) => {
            assert(t@.skip(k + 1) == t@.subrange(k + 1, n as int));
            let power = parse_number(t, k + 1, n, u64::MAX);
            let c = parse_coeff::<C>(t, k);
            (power, c)
        },
        None => {
            assert(t@.take(n as int) == t@);
            match find_char_exec(t, 'x') {
                Some(_) => {
                    let c = parse_coeff::<C>(t, n);
                    (1, c)
                },
                None => {
                    assert(t@.subrange(0, n as int) == t@);
                    let a = parse_number(t, 0, n, usize::MAX as u64);
                    (0, from_usize(a as usize))
                },
            }
        },
    }
}

impl<C: Semiring> Polynomial<C> {
    /// Parses a polynomial written as terms separated by `" + "`, each of the form `a`, `x`,
    /// `ax`, `x^n` or `ax^n`; the terms are added in order to the zero polynomial.
    pub fn from_str(s: &str) -> (r: Result<Self, ()>)
        requires
            sum_terms_ok::<C>(Seq::empty(), split_terms(s@)),
        ensures
            r matches Ok(p) && p.wf() && p@ == sum_terms::<C>(Seq::empty(), split_terms(s@)),
    {
        let chars = str_chars(s);
        let terms = split_terms_exec(&chars);
        let mut p: Polynomial<C> = Polynomial::zero();
        let n = terms.len();
        let mut i: usize = 0;
        let ghost all = parts_view(terms@);
        assert(all.skip(0) == all);
        while i < n
            invariant
                n == terms@.len(),
                i <= n,
                all == parts_view(terms@),
                all == split_terms(s@),
                p.wf(),
                sum_terms::<C>(p@, all.skip(i as int)) == sum_terms::<C>(Seq::empty(), all),
                sum_terms_ok::<C>(p@, all.skip(i as int)),
            decreases n - i,
        {
            let ghost rest = all.skip(i as int);
            assert(rest[0] == terms@[i as int]@);
            assert(rest.drop_first() == all.skip(i + 1));
            let (power, c) = parse_term::<C>(&terms[i]);
            let t = Polynomial::term(c, power);
            p = p.add(&t);
            i = i + 1;
        }
        assert(all.skip(n as int) == Seq::<Seq<char>>::empty());
        Ok(p)
    }
}

/// Whether `t[lo..hi]` is an unsigned number (an optional `+` and digits) whose value is at
/// most `max`.
pub fn check_number(t: &Vec<char>, lo: usize, hi: usize, max: u64) -> (r: bool)
    requires
        lo <= hi <= t@.len(),
    ensures
        r == number_ok(t@.subrange(lo as int, hi as int), max as nat),
{
    let ghost s = t@.subrange(lo as int, hi as int);
    let mut start = lo;
    if lo < hi && t[lo] == '+' {
        start = lo + 1;
        assert(s[0] == '+');
        assert(s.drop_first() == t@.subrange(start as int, hi as int));
    }
    let ghost d = t@.subrange(start as int, hi as int);
    assert(d == number_digits(s));
    if start == hi {
        return false;
    }
    let mut k: usize = start;
    while k < hi
        invariant
            start <= k <= hi,
            hi <= t@.len(),
            d == t@.subrange(start as int, hi as int),
            lo <= hi,
            d == number_digits(t@.subrange(lo as int, hi as int)),
            forall|i: int| 0 <= i < k - start ==> is_digit(#[trigger] d[i]),
        decreases hi - k,
    {
        assert(t@[k as int] == d[k - start]);
        if !('0' <= t[k] && t[k] <= '9') {
            assert(!is_digit(d[k - start]));
            return false;
        }
        k = k + 1;
    }
    let mut acc: u64 = 0;
    let mut j: usize = start;
    assert(d.take(0) == Seq::<char>::empty());
    while j < hi
        invariant
            start <= j <= hi,
            hi <= t@.len(),
            d == t@.subrange(start as int, hi as int),
            lo <= hi,
            d == number_digits(t@.subrange(lo as int, hi as int)),
            forall|i: int| 0 <= i < d.len() ==> is_digit(#[trigger] d[i]),
            acc == digits_value(d.take(j - start)),
            acc <= max,
        decreases hi - j,
    {
        let c = t[j];
        assert(c == d[j - start]);
        let ghost pre = d.take(j - start + 1);
        assert(pre.drop_last() == d.take(j - start));
        assert(pre.last() == c);
        let digit = (c as u32 - '0' as u32) as u64;
        assert(digit <= 9);
        assert(digit == (c as int) - ('0' as int));
        assert(digits_value(pre) == 10 * acc + digit);
        if digit > max || acc > (max - digit) / 10 {
            proof {
                if digit <= max {
                    assert(acc * 10 + digit > max) by (nonlinear_arith)
                        requires
                            acc > (max - digit) / 10,
                            digit <= max,
                    ;
                }
                lemma_digits_prefix(d, j - start + 1);
            }
            return false;
        }
        assert(acc * 10 + digit <= max) by (nonlinear_arith)
            requires
                acc <= (max - digit) / 10,
                digit <= max,
        ;
        acc = acc * 10 + digit;
        j = j + 1;
    }
    assert(d.take(hi - start) == d);
    true
}

/// `n` as a semiring value, when counting up to it stays within the representation.
pub fn try_from_usize<T: Semiring>(n: usize) -> (r: Option<T>)
    ensures
        r is Some <==> from_usize_ok::<T>(n as nat),
        r matches Some(v) ==> v.wf() && v@ == from_usize_spec::<T>(n as nat),
{
    let mut result = T::zero();
    let one = T::one();
    let mut i: usize = 0;
    while i < n
        invariant
            i <= n,
            result.wf(),
            one.wf(),
            one@ == T::one_spec(),
            result@ == from_usize_spec::<T>(i as nat),
            from_usize_ok::<T>(i as nat),
        decreases n - i,
    {
        if !result.can_add(&one) {
            proof {
                assert(!from_usize_ok::<T>((i + 1) as nat));
                if from_usize_ok::<T>(n as nat) {
                    crate::semiring::lemma_from_usize_ok_prefix::<T>((i + 1) as nat, n as nat);
                }
            }
            return None;
        }
        result = result.add(&one);
        i = i + 1;
    }
    Some(result)
}

/// The coefficient of a term whose text before the power is `left` (`x` or `ax`), when it is
/// well formed.
fn try_parse_coeff<C: Semiring>(t: &Vec<char>, end: usize) -> (r: Option<C>)
    requires
        end <= t@.len(),
    ensures
        r is Some <==> (t@.take(end as int) == seq!['x'] || coeff_ok::<C>(t@.take(end as int))),
        r matches Some(c) ==> c.wf() && c@ == coeff_of::<C>(t@.take(end as int)),
{
    let ghost left = t@.take(end as int);
    if end == 1 && t[0] == 'x' {
        assert(left =~= seq!['x']);
        return Some(C::one());
    }
    assert(seq!['x'].len() == 1 && seq!['x'][0] == 'x');
    assert(left != seq!['x']);
    if end == 0 || t[end - 1] != 'x' {
        return None;
    }
    assert(strip_x(left) == t@.subrange(0, end - 1));
    if !check_number(t, 0, end - 1, usize::MAX as u64) {
        return None;
    }
    let a = parse_number(t, 0, end - 1, usize::MAX as u64);
    try_from_usize::<C>(a as usize)
}

/// The `(power, coefficient)` pair of a term, when it is well formed.
pub fn try_parse_term<C: Semiring>(t: &Vec<char>) -> (r: Option<(u64, C)>)
    ensures
        r is Some <==> term_ok::<C>(t@),
        r matches Some(p) ==> p.1.wf() && (p.0, p.1@) == term_of::<C>(t@),
{
    let n = t.len();
    match find_char_exec(t, '^') {
        Some(k) => {
            assert(t@.skip(k + 1) == t@.subrange(k + 1, n as int));
            if !check_number(t, k + 1, n, u64::MAX) {
                return None;
            }
            let power = parse_number(t, k + 1, n, u64::MAX);
            match try_parse_coeff::<C>(t, k) {
                Some(c) => Some((power, c)),
                None => None,
            }
        },
        None => {
            assert(t@.take(n as int) == t@);
            match find_char_exec(t, 'x') {
                Some(_) => match try_parse_coeff::<C>(t, n) {
                    Some(c) => Some((1, c)),
                    None => None,
                },
                None => {
                    assert(t@.subrange(0, n as int) == t@);
                    if !check_number(t, 0, n, usize::MAX as u64) {
                        return None;
                    }
                    let a = parse_number(t, 0, n, usize::MAX as u64);
                    match try_from_usize::<C>(a as usize) {
                        Some(c) => Some((0, c)),
                        None => None,
                    }
                },
            }
        },
    }
}

impl<C: Semiring> Polynomial<C> {
    /// Parses a polynomial as `from_str` does, returning `None` exactly when the text is not
    /// made of well-formed terms or a number or a sum does not fit the coefficients.
    pub fn try_from_str(s: &str) -> (r: Option<Self>)
        ensures
            r is Some <==> sum_terms_ok::<C>(Seq::empty(), split_terms(s@)),
            r matches Some(p) ==> p.wf() && p@ == sum_terms::<C>(Seq::empty(), split_terms(s@)),
    {
        let chars = str_chars(s);
        let terms = split_terms_exec(&chars);
        let mut p: Polynomial<C> = Polynomial::zero();
        let n = terms.len();
        let mut i: usize = 0;
        let ghost all = parts_view(terms@);
        assert(all.skip(0) == all);
        while i < n
            invariant
                n == terms@.len(),
                i <= n,
                all == parts_view(terms@),
                all == split_terms(s@),
                p.wf(),
                sum_terms::<C>(p@, all.skip(i as int)) == sum_terms::<C>(Seq::empty(), all),
                sum_terms_ok::<C>(p@, all.skip(i as int)) == sum_terms_ok::<C>(
                    Seq::empty(),
                    all,
                ),
            decreases n - i,
        {
            let ghost rest = all.skip(i as int);
            assert(rest[0] == terms@[i as int]@);
            assert(rest.drop_first() == all.skip(i + 1));
            match try_parse_term::<C>(&terms[i]) {
                None => {
                    return None;
                },
                Some((power, c)) => {
                    let t = Polynomial::term(c, power);
                    if !p.can_add(&t) {
                        return None;
                    }
                    p = p.add(&t);
                },
            }
            i = i + 1;
        }
        assert(all.skip(n as int) == Seq::<Seq<char>>::empty());
        Some(p)
    }
}

impl<C: Semiring> core::str::FromStr for Polynomial<C> {
    type Err = ();

    fn from_str(s: &str) -> Result<Self, ()> {
        match Self::try_from_str(s) {
            Some(p) => Ok(p),
            None => Err(()),
        }
    }
}

} // verus!
