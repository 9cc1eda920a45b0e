//! Powers of two and the power-of-two sizing rule.

use vstd::prelude::*;
use vstd::arithmetic::power2::{pow2, lemma_pow2_strictly_increases, lemma_pow2_unfold};
use crate::error::FkError;

verus! {

/// `n` is a power of two.
pub open spec fn is_pow2(n: int) -> bool {
    exists|k: nat| pow2(k) == n
}

/// `r` is the smallest power of two that is at least `n`.
pub open spec fn is_next_pow2(n: int, r: int) -> bool {
    is_pow2(r) && n <= r && r < 2 * n
}

/// The largest power of two that a `usize` holds.
pub open spec fn max_usize_pow2() -> int {
    usize::MAX as int / 2 + 1
}

proof fn lemma_pow2_between(k: nat, n: int)
    requires
        k > 0,
        pow2((k - 1) as nat) < n < pow2(k),
    ensures
        !is_pow2(n),
{
    assert forall|j: nat| pow2(j) != n by {
        if j < k {
            if j < k - 1 {
                lemma_pow2_strictly_increases(j, (k - 1) as nat);
            }
        } else if j > k {
            lemma_pow2_strictly_increases(k, j);
        }
    }
}

/// The largest power of two of `usize` is `2^(BITS - 1)`.
proof fn lemma_max_usize_pow2()
    ensures
        usize::BITS >= 1,
        max_usize_pow2() == pow2((usize::BITS - 1) as nat),
{
    vstd::layout::unsigned_int_max_values();
    assert(usize::BITS >= 1) by {
        if usize::BITS == 0 {
            vstd::arithmetic::power2::lemma2_to64();
        }
    }
    lemma_pow2_unfold(usize::BITS as nat);
}

/// Finds the smallest power of two `p >= n` that a `usize` holds, if any:
/// returns `p` and, where none exists, the largest power of two of `usize`.
fn pow2_at_least(n: usize) -> (r: (usize, Ghost<nat>))
    requires
        n >= 1,
    ensures
        r.0 as int == pow2(r.1@),
        r.1@ > 0 ==> pow2((r.1@ - 1) as nat) < n,
        r.0 <= max_usize_pow2(),
        r.0 < n ==> r.0 as int == max_usize_pow2(),
{
    let mut p: usize = 1;
    let ghost mut k: nat = 0;
    proof {
        lemma_max_usize_pow2();
        vstd::arithmetic::power2::lemma2_to64();
    }
    let ghost b: nat = (usize::BITS - 1) as nat;
    while p < n && p <= usize::MAX / 2
        invariant
            p as int == pow2(k),
            p >= 1,
            k > 0 ==> pow2((k - 1) as nat) < n,
            k <= b,
            1 <= n,
            max_usize_pow2() == pow2(b),
        decreases usize::MAX - p,
    {
        proof {
            lemma_pow2_unfold(k + 1);
            if k == b {
                assert(false);
            }
        }
        p = p * 2;
        proof {
            k = k + 1;
        }
    }
    proof {
        if k < b {
            lemma_pow2_strictly_increases(k, b);
        }
        if p < n && k < b {
            lemma_pow2_unfold(k + 1);
            if k + 1 < b {
                lemma_pow2_strictly_increases(k + 1, b);
            }
        }
    }
    (p, Ghost(k))
}

/// Two powers of two less than a factor two apart are equal.
proof fn lemma_pow2_gap(a: int, b: int)
    requires
        is_pow2(a),
        is_pow2(b),
        a <= b < 2 * a,
    ensures
        a == b,
{
    let i = choose|i: nat| pow2(i) == a;
    let j = choose|j: nat| pow2(j) == b;
    lemma_pow2_unfold(i + 1);
    if j < i {
        lemma_pow2_strictly_increases(j, i);
    } else if j > i + 1 {
        lemma_pow2_strictly_increases(i + 1, j);
    }
}

/// A power of two is its own next power of two. Any other positive `n` has as
/// next power of two the least power of two strictly above `n`, which is less
/// than `2n`.
pub proof fn lemma_next_pow2_law(n: int, r: int)
    requires
        n >= 1,
        is_next_pow2(n, r),
    ensures
        is_pow2(n) ==> r == n,
        !is_pow2(n) ==> n < r < 2 * n,
        !is_pow2(n) ==> forall|q: int| is_pow2(q) && q > n ==> r <= q,
{
    if is_pow2(n) {
        lemma_pow2_gap(n, r);
    } else {
        assert forall|q: int| is_pow2(q) && q > n implies r <= q by {
            if q < r {
                lemma_pow2_gap(q, r);
            }
        }
    }
}

/// Whether `x` is a power of two.
pub fn is_pow_2(x: usize) -> (r: bool)
    ensures
        r == is_pow2(x as int),
{
    if x == 0 {
        assert forall|j: nat| pow2(j) != 0 by {
            vstd::arithmetic::power2::lemma_pow2_pos(j);
        }
        return false;
    }
    let (p, Ghost(k)) = pow2_at_least(x);
    if p == x {
        true
    } else {
        proof {
            vstd::arithmetic::power2::lemma2_to64();
            if p > x {
                lemma_pow2_between(k, x as int);
            } else {
                lemma_pow2_unfold(k + 1);
                lemma_pow2_between(k + 1, x as int);
            }
        }
        false
    }
}

/// The smallest power of two that is at least `n`. Zero has none, and above
/// the largest power of two of `usize` none can be held.
pub fn next_pow2(n: usize) -> (r: Result<usize, FkError>)
    ensures
        n == 0 <==> r == Err::<usize, FkError>(FkError::ZeroSize),
        n > max_usize_pow2() <==> r == Err::<usize, FkError>(FkError::TooLarge),
        r is Ok <==> 1 <= n <= max_usize_pow2(),
        r matches Ok(p) ==> is_next_pow2(n as int, p as int),
{
    if n == 0 {
        return Err(FkError::ZeroSize);
    }
    let (p, Ghost(k)) = pow2_at_least(n);
    if p < n {
        return Err(FkError::TooLarge);
    }
    proof {
        vstd::arithmetic::power2::lemma2_to64();
        if k > 0 {
            lemma_pow2_unfold(k);
        }
        assert(is_pow2(p as int));
    }
    Ok(p)
}

} // verus!
