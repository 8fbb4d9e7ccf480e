//! The key arithmetic of a split-ordered hash table: keys are ordered by their reversed bits,
//! a bucket starts at the node whose key is the bucket's index reversed, and each bucket is
//! initialized from its parent, the bucket whose index has the highest set bit cleared.
use vstd::prelude::*;

verus! {

/// The largest power of two that is at most `b` (1 for `b <= 1`).
pub open spec fn top_power(b: nat) -> nat
    decreases b,
{
    if b <= 1 {
        1
    } else {
        2 * top_power(b / 2)
    }
}

/// The highest power of two at most `b` is at most `b`, and twice it exceeds `b`.
pub proof fn lemma_top_power(b: nat)
    requires
        b >= 1,
    ensures
        top_power(b) <= b < 2 * top_power(b),
    decreases b,
{
    if b > 1 {
        lemma_top_power(b / 2);
    }
}

/// The parent of bucket `b`: `b` with its highest set bit cleared.
pub fn parent_bucket(b: usize) -> (r: usize)
    requires
        b > 0,
    ensures
        r == b - top_power(b as nat),
        r < top_power(b as nat),
{
    let mut rest = b;
    let mut h: usize = 1;
    while rest > 1
        invariant
            rest >= 1,
            h >= 1,
            h * rest <= b,
            top_power(b as nat) == h * top_power(rest as nat),
        decreases rest,
    {
        assert(h * (rest / 2) * 2 <= h * rest) by (nonlinear_arith)
            requires
                h >= 1,
                rest >= 1,
        ;
        assert(h * 2 <= b) by (nonlinear_arith)
            requires
                h * rest <= b,
                rest >= 2,
                h >= 1,
        ;
        assert(top_power(rest as nat) == 2 * top_power((rest / 2) as nat));
        assert(h * (2 * top_power((rest / 2) as nat)) == (h * 2) * top_power((rest / 2) as nat))
            by (nonlinear_arith);
        assert((h * 2) * (rest / 2) == h * (rest / 2) * 2) by (nonlinear_arith);
        h = h * 2;
        rest = rest / 2;
    }
    assert(top_power(rest as nat) == 1);
    proof {
        lemma_top_power(b as nat);
    }
    b - h
}

/// Bit `k` of `x`.
pub open spec fn bit(x: usize, k: usize) -> bool {
    (x >> k) & 1 == 1
}

/// Shifting in a bit at the bottom moves every other bit up by one.
proof fn lemma_shift_in(r: usize, b: usize, k: usize)
    requires
        b <= 1,
        k + 1 < usize::BITS,
    ensures
        bit(((r << 1usize) | b) as usize, 0) == (b == 1),
        bit(((r << 1usize) | b) as usize, (k + 1) as usize) == bit(r, k),
{
    assert((((r << 1usize) | b) >> 0usize) & 1 == b) by (bit_vector)
        requires
            b <= 1,
    ;
    assert(((((r << 1usize) | b) >> ((k + 1) as usize)) & 1) == ((r >> k) & 1)) by (bit_vector)
        requires
            b <= 1,
            k + 1 < usize::BITS,
    ;
}

/// The key of the node that starts bucket `i`: the bits of `i` in reverse order. For a valid
/// index (highest bit clear) its lowest bit is clear, so it never equals a regular key.
pub fn bucket_key(i: usize) -> (r: usize)
    ensures
        forall|k: usize| k < usize::BITS ==> #[trigger] bit(r, k) == bit(i, (usize::BITS - 1 - k) as usize),
        !bit(i, (usize::BITS - 1) as usize) ==> !bit(r, 0),
{
    let n = usize::BITS as usize;
    let mut r: usize = 0;
    let mut j: usize = 0;
    assert(forall|k: usize| k < usize::BITS ==> !#[trigger] bit(0, k)) by {
        assert forall|k: usize| k < usize::BITS implies !#[trigger] bit(0, k) by {
            assert(((0usize >> k) & 1) == 0) by (bit_vector);
        }
    }
    while j < n
        invariant
            n == usize::BITS,
            j <= n,
            forall|k: usize| k < j ==> #[trigger] bit(r, k) == bit(i, (j - 1 - k) as usize),
            forall|k: usize| j <= k < usize::BITS ==> !#[trigger] bit(r, k),
        decreases n - j,
    {
        let b = (i >> j) & 1;
        assert(b <= 1) by (bit_vector)
            requires
                b == (i >> j) & 1,
        ;
        assert(bit(i, j) == (b == 1));
        let ghost old_r = r;
        r = (r << 1usize) | b;
        assert forall|k: usize| k < j + 1 implies #[trigger] bit(r, k) == bit(i, (j - k) as usize) by {
            if k == 0 {
                lemma_shift_in(old_r, b, 0);
            } else {
                lemma_shift_in(old_r, b, (k - 1) as usize);
            }
        }
        assert forall|k: usize| j + 1 <= k < usize::BITS implies !#[trigger] bit(r, k) by {
            lemma_shift_in(old_r, b, (k - 1) as usize);
        }
        j = j + 1;
    }
    assert(bit(r, 0) == bit(i, (usize::BITS - 1 - 0) as usize));
    r
}

/// The key of a regular node for `key`: its reversed bits with the lowest bit set, so that it
/// comes just after the start of its bucket and never equals the start of a bucket.
pub fn regular_key(key: usize) -> (r: usize)
    ensures
        bit(r, 0),
        forall|k: usize|
            0 < k < usize::BITS ==> #[trigger] bit(r, k) == bit(key, (usize::BITS - 1 - k) as usize),
{
    let b = bucket_key(key);
    let r = b | 1;
    assert forall|k: usize| 0 < k < usize::BITS implies #[trigger] bit(r, k) == bit(b, k) by {
        assert(((b | 1) >> k) & 1 == (b >> k) & 1) by (bit_vector)
            requires
                0 < k < usize::BITS,
        ;
    }
    assert(((b | 1) >> 0usize) & 1 == 1) by (bit_vector);
    r
}

} // verus!
