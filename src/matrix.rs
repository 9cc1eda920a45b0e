//! The matrices of this library as mathematical objects: their entries and
//! their products with vectors, written out directly.

use vstd::prelude::*;
use crate::field::modulus;
use vstd::arithmetic::div_mod::{lemma_small_mod, lemma_mod_sub_multiples_vanish};
use crate::fft::{sum, dft, idft, root_of_unity};

verus! {

/// Entry `(i, j)` of the circulant matrix whose first column is `c`.
pub open spec fn circulant_entry(c: Seq<int>, i: int, j: int) -> int {
    c[(i - j) % (c.len() as int)]
}

/// The product of the circulant matrix with first column `c` and `x`,
/// entry by entry, in the field.
pub open spec fn circulant_product(c: Seq<int>, x: Seq<int>) -> Seq<int> {
    Seq::new(
        c.len(),
        |i: int| sum(c.len(), |j: int| circulant_entry(c, i, j) * x[j]) % modulus(),
    )
}

/// Entry `(i, j)` of the upper triangular Toeplitz matrix of `t`: it holds
/// `t[m - 1 - (j - i)]` on and above the diagonal, where `m` is the length of
/// `t`, and zero below.
pub open spec fn toeplitz_entry(t: Seq<int>, i: int, j: int) -> int {
    if j >= i {
        t[t.len() - 1 - (j - i)]
    } else {
        0
    }
}

/// The product of the upper triangular Toeplitz matrix of `t` and `x`, in
/// the field.
pub open spec fn toeplitz_product(t: Seq<int>, x: Seq<int>) -> Seq<int> {
    Seq::new(
        t.len(),
        |i: int| sum(t.len(), |j: int| toeplitz_entry(t, i, j) * x[j]) % modulus(),
    )
}

/// The first column of the circulant matrix of twice the size whose upper
/// left quarter is the Toeplitz matrix of `t`: the last entry of `t` at
/// positions `0` and `m`, zeros at `1..m`, and `t[0..m-1]` at `m+1..2m`.
pub open spec fn embed(t: Seq<int>) -> Seq<int> {
    let m = t.len() as int;
    Seq::new(
        (2 * m) as nat,
        |k: int|
            if k == 0 || k == m {
                t[m - 1]
            } else if k < m {
                0
            } else {
                t[k - m - 1]
            },
    )
}

/// `x` followed by as many zeros.
pub open spec fn pad(x: Seq<int>) -> Seq<int> {
    x + Seq::new(x.len(), |i: int| 0)
}

/// Entrywise product in the field.
pub open spec fn pointwise(a: Seq<int>, b: Seq<int>) -> Seq<int> {
    Seq::new(a.len(), |i: int| (a[i] * b[i]) % modulus())
}

/// What the convolution theorem makes of a circulant product: the inverse
/// transform of the entrywise product of the transforms of `x` and `c`.
pub open spec fn circulant_by_transform(c: Seq<int>, x: Seq<int>) -> Seq<int> {
    let w = root_of_unity(c.len());
    idft(w, pointwise(dft(w, x), dft(w, c)))
}

/// The zero vector of length `n`.
pub open spec fn zeros(n: nat) -> Seq<int> {
    Seq::new(n, |i: int| 0int)
}

pub(crate) proof fn lemma_sum_ext(n: nat, f: spec_fn(int) -> int, g: spec_fn(int) -> int)
    requires
        forall|j: int| 0 <= j < n ==> #[trigger] f(j) == g(j),
    ensures
        sum(n, f) == sum(n, g),
    decreases n,
{
    if n > 0 {
        lemma_sum_ext((n - 1) as nat, f, g);
    }
}

pub(crate) proof fn lemma_sum_zero_tail(n: nat, m: nat, f: spec_fn(int) -> int)
    requires
        m <= n,
        forall|j: int| m <= j < n ==> #[trigger] f(j) == 0,
    ensures
        sum(n, f) == sum(m, f),
    decreases n,
{
    if n > m {
        lemma_sum_zero_tail((n - 1) as nat, m, f);
    }
}

/// A circulant matrix maps the zero vector to the zero vector.
pub proof fn lemma_circulant_zero_vector(c: Seq<int>)
    ensures
        circulant_product(c, zeros(c.len())) == zeros(c.len()),
{
    let n = c.len();
    assert forall|i: int| 0 <= i < n implies #[trigger] circulant_product(c, zeros(n))[i] == 0 by {
        lemma_sum_zero_tail(n, 0, |j: int| circulant_entry(c, i, j) * zeros(n)[j]);
    }
    assert(circulant_product(c, zeros(n)) =~= zeros(n));
}

/// An upper Toeplitz matrix maps the zero vector to the zero vector.
pub proof fn lemma_toeplitz_zero_vector(t: Seq<int>)
    ensures
        toeplitz_product(t, zeros(t.len())) == zeros(t.len()),
{
    let m = t.len();
    assert forall|i: int| 0 <= i < m implies #[trigger] toeplitz_product(t, zeros(m))[i] == 0 by {
        lemma_sum_zero_tail(m, 0, |j: int| toeplitz_entry(t, i, j) * zeros(m)[j]);
    }
    assert(toeplitz_product(t, zeros(m)) =~= zeros(m));
}

/// The circulant embedding of an upper Toeplitz matrix, applied to a vector
/// followed by as many zeros, gives in its first half the product of the
/// Toeplitz matrix and the vector.
pub proof fn lemma_embedding(t: Seq<int>, x: Seq<int>)
    requires
        t.len() >= 1,
        x.len() == t.len(),
    ensures
        circulant_product(embed(t), pad(x)).take(t.len() as int) == toeplitz_product(t, x),
{
    let m = t.len() as int;
    let c = embed(t);
    let px = pad(x);
    assert forall|i: int| 0 <= i < m implies #[trigger] circulant_product(c, px)[i]
        == toeplitz_product(t, x)[i] by {
        let f = |j: int| circulant_entry(c, i, j) * px[j];
        let g = |j: int| toeplitz_entry(t, i, j) * x[j];
        lemma_sum_zero_tail((2 * m) as nat, m as nat, f);
        assert forall|j: int| 0 <= j < m implies #[trigger] f(j) == g(j) by {
            if j <= i {
                lemma_small_mod((i - j) as nat, (2 * m) as nat);
            } else {
                lemma_mod_sub_multiples_vanish(i - j + 2 * m, 2 * m);
                lemma_small_mod((i - j + 2 * m) as nat, (2 * m) as nat);
            }
        }
        lemma_sum_ext(m as nat, f, g);
    }
    assert(circulant_product(c, px).take(m) =~= toeplitz_product(t, x));
}

} // verus!
