//! Circulant and upper Toeplitz matrices, held by one column, and their
//! products with vectors by FFT convolution.

use vstd::prelude::*;
use vstd::arithmetic::power2::{pow2, lemma_pow2_unfold};
use crate::error::FkError;
use crate::fft::{MAX_DOMAIN, domain_fft, domain_ifft};
use crate::field::{Scalar, vals};
use vstd::arithmetic::power::lemma_pow_mod_noop;
use crate::conv::{is_principal_root, lemma_convolution};
use crate::fft::{domain_group_gen, root_of_unity};
use crate::field::modulus;
use crate::matrix::{pointwise, circulant_product, toeplitz_product, embed, pad, lemma_embedding};
use crate::pow2::{is_pow2, is_next_pow2, is_pow_2, next_pow2, max_usize_pow2};

verus! {

/// Twice a power of two is a power of two.
proof fn lemma_double_pow2(m: int)
    requires
        is_pow2(m),
    ensures
        is_pow2(2 * m),
{
    let k = choose|k: nat| pow2(k) == m;
    lemma_pow2_unfold(k + 1);
    assert(pow2(k + 1) == 2 * m);
}

/// The entrywise product of `a` and `b`.
pub fn hadamard(a: &[Scalar], b: &[Scalar]) -> (r: Vec<Scalar>)
    requires
        a@.len() == b@.len(),
    ensures
        vals(r@) == pointwise(vals(a@), vals(b@)),
{
    let mut r: Vec<Scalar> = Vec::new();
    let mut i: usize = 0;
    while i < a.len()
        invariant
            a@.len() == b@.len(),
            i <= a@.len(),
            r@.len() == i,
            forall|k: int| 0 <= k < i ==> #[trigger] r@[k].val() == (a@[k].val() * b@[k].val())
                % crate::field::modulus(),
        decreases a@.len() - i,
    {
        r.push(a[i].mul(&b[i]));
        i = i + 1;
    }
    assert(vals(r@) =~= pointwise(vals(a@), vals(b@)));
    r
}

/// Multiplication by circulant matrices, each given by its first column.
pub struct Circulant;

impl Circulant {
    /// The product of the circulant matrix with first column `repr` and `x`:
    /// both are transformed, multiplied entrywise and transformed back.
    pub fn mul_by_vec(repr: &[Scalar], x: &[Scalar]) -> (r: Result<Vec<Scalar>, FkError>)
        ensures
            !is_pow2(repr@.len() as int) <==> r == Err::<Vec<Scalar>, FkError>(
                FkError::NotPowerOfTwo,
            ),
            is_pow2(repr@.len() as int) && repr@.len() > MAX_DOMAIN <==> r == Err::<
                Vec<Scalar>,
                FkError,
            >(FkError::TooLarge),
            is_pow2(repr@.len() as int) && repr@.len() <= MAX_DOMAIN && x@.len() != repr@.len()
                <==> r == Err::<Vec<Scalar>, FkError>(FkError::DimensionMismatch),
            r is Ok <==> is_pow2(repr@.len() as int) && repr@.len() <= MAX_DOMAIN && x@.len()
                == repr@.len(),
            r matches Ok(v) ==> vals(v@) == circulant_product(vals(repr@), vals(x@)),
    {
        if !is_pow_2(repr.len()) {
            return Err(FkError::NotPowerOfTwo);
        }
        if repr.len() > MAX_DOMAIN {
            return Err(FkError::TooLarge);
        }
        if x.len() != repr.len() {
            return Err(FkError::DimensionMismatch);
        }
        let v = domain_fft(repr);
        let y = domain_fft(x);
        assert(v@.len() == vals(v@).len());
        assert(y@.len() == vals(y@).len());
        let prod = hadamard(y.as_slice(), v.as_slice());
        assert(prod@.len() == vals(prod@).len());
        let r = domain_ifft(prod.as_slice());
        // the generator's order is what ties the transforms to the circulant product
        let _root = domain_group_gen(repr.len());
        proof {
            let n = repr@.len();
            let w = root_of_unity(n);
            let p = modulus();
            lemma_pow_mod_noop(w, n, p);
            lemma_pow_mod_noop(w, n / 2, p);
            assert(is_principal_root(w, n));
            let s = choose|s: nat| pow2(s) == n;
            lemma_convolution(vals(repr@), vals(x@), s);
        }
        Ok(r)
    }
}

/// The index of the last nonzero coefficient among the first `n`, or zero
/// where there is none.
pub open spec fn degree_upto(coeffs: Seq<Scalar>, n: int) -> int
    decreases n,
{
    if n <= 0 {
        0
    } else if coeffs[n - 1].val() != 0 {
        n - 1
    } else {
        degree_upto(coeffs, n - 1)
    }
}

/// The degree of the polynomial with coefficients `coeffs`, constant term
/// first: the index of its last nonzero coefficient, or zero.
pub open spec fn degree(coeffs: Seq<Scalar>) -> int {
    degree_upto(coeffs, coeffs.len() as int)
}

/// An upper triangular Toeplitz matrix held by one row: the coefficients of a
/// polynomial without its constant term, padded with zeros to a power of two.
/// Row `i` holds `repr[m - 1 - (j - i)]` in column `j >= i`.
pub struct UpperToeplitz {
    pub(crate) repr: Vec<Scalar>,
}

impl View for UpperToeplitz {
    type V = Seq<int>;

    closed spec fn view(&self) -> Seq<int> {
        vals(self.repr@)
    }
}

impl UpperToeplitz {
    /// The representation has a power-of-two length.
    pub open spec fn wf(&self) -> bool {
        is_pow2(self@.len() as int)
    }

    /// The matrix of the polynomial with coefficients `coeffs`, constant term
    /// first, of degree `d` (trailing zero coefficients do not count): the
    /// coefficients `f1 .. fd`, followed by zeros up to the smallest power of
    /// two that is at least `d`.
    pub fn from_poly(coeffs: &[Scalar]) -> (r: Result<UpperToeplitz, FkError>)
        ensures
            degree(coeffs@) < 1 <==> r == Err::<UpperToeplitz, FkError>(FkError::ZeroDegree),
            degree(coeffs@) >= 1 && degree(coeffs@) > max_usize_pow2() <==> r == Err::<
                UpperToeplitz,
                FkError,
            >(FkError::TooLarge),
            r is Ok <==> 1 <= degree(coeffs@) <= max_usize_pow2(),
            r matches Ok(t) ==> {
                &&& t.wf()
                &&& is_next_pow2(degree(coeffs@), t@.len() as int)
                &&& t@ == vals(coeffs@.subrange(1, degree(coeffs@) + 1)) + Seq::new(
                    (t@.len() - degree(coeffs@)) as nat,
                    |i: int| 0int,
                )
            },
    {
        let mut len: usize = coeffs.len();
        while len > 0 && coeffs[len - 1].is_zero()
            invariant
                len <= coeffs@.len(),
                degree_upto(coeffs@, len as int) == degree(coeffs@),
            decreases len,
        {
            len = len - 1;
        }
        if len < 2 {
            return Err(FkError::ZeroDegree);
        }
        let d = len - 1;
        assert(degree(coeffs@) == d);
        let target = match next_pow2(d) {
            Ok(t) => t,
            Err(e) => {
                return Err(e);
            },
        };
        let mut repr: Vec<Scalar> = Vec::new();
        let mut i: usize = 1;
        while i <= d
            invariant
                1 <= i <= d + 1,
                d < coeffs@.len(),
                repr@ == coeffs@.subrange(1, i as int),
            decreases d + 1 - i,
        {
            repr.push(coeffs[i]);
            i = i + 1;
            assert(repr@ =~= coeffs@.subrange(1, i as int));
        }
        let ghost body = repr@;
        while repr.len() < target
            invariant
                body.len() == d,
                d <= repr@.len() <= target,
                repr@.subrange(0, d as int) == body,
                forall|k: int| d <= k < repr@.len() ==> #[trigger] repr@[k].val() == 0,
            decreases target - repr@.len(),
        {
            repr.push(Scalar::zero());
            assert(repr@.subrange(0, d as int) =~= body);
        }
        let t = UpperToeplitz { repr };
        assert(t@ =~= vals(coeffs@.subrange(1, d + 1)) + Seq::new(
            (t@.len() - d) as nat,
            |i: int| 0int,
        )) by {
            assert forall|k: int| 0 <= k < d implies #[trigger] t.repr@[k] == body[k] by {
                assert(t.repr@.subrange(0, d as int)[k] == t.repr@[k]);
            }
        }
        Ok(t)
    }

    /// The row that represents this matrix.
    pub fn coefficients(&self) -> (r: &[Scalar])
        ensures
            vals(r@) == self@,
    {
        self.repr.as_slice()
    }

    /// The first column of the circulant matrix of twice the size whose upper
    /// left quarter is this matrix.
    fn to_circulant_repr(&self) -> (r: Vec<Scalar>)
        requires
            self.wf(),
            self@.len() <= MAX_DOMAIN / 2,
        ensures
            vals(r@) == embed(self@),
    {
        let m = self.repr.len();
        proof {
            vstd::arithmetic::power2::lemma_pow2_pos(choose|k: nat| pow2(k) == m);
        }
        let fm = self.repr[m - 1];
        let mut c: Vec<Scalar> = Vec::new();
        c.push(fm);
        while c.len() < m
            invariant
                1 <= c@.len() <= m,
                m == self.repr@.len(),
                c@[0] == fm,
                forall|k: int| 1 <= k < c@.len() ==> #[trigger] c@[k].val() == 0,
            decreases m - c@.len(),
        {
            c.push(Scalar::zero());
        }
        c.push(fm);
        let mut i: usize = 0;
        while i + 1 < m
            invariant
                i + 1 <= m,
                m == self.repr@.len(),
                c@.len() == m + 1 + i,
                c@[0] == fm,
                c@[m as int] == fm,
                forall|k: int| 1 <= k < m ==> #[trigger] c@[k].val() == 0,
                forall|k: int| 0 <= k < i ==> #[trigger] c@[m + 1 + k] == self.repr@[k],
            decreases m - i,
        {
            c.push(self.repr[i]);
            i = i + 1;
        }
        assert(vals(c@) =~= embed(self@)) by {
            assert forall|k: int| m + 1 <= k < 2 * m implies #[trigger] c@[k] == self.repr@[k
                - m - 1] by {
                assert(c@[m + 1 + (k - m - 1)] == self.repr@[k - m - 1]);
            }
        }
        c
    }

    /// The product of this matrix and `x`: the circulant embedding of twice
    /// the size multiplies `x` followed by as many zeros, and the first half of
    /// the result is kept.
    pub fn mul_by_vec(&self, x: &[Scalar]) -> (r: Result<Vec<Scalar>, FkError>)
        requires
            self.wf(),
        ensures
            x@.len() != self@.len() <==> r == Err::<Vec<Scalar>, FkError>(
                FkError::DimensionMismatch,
            ),
            x@.len() == self@.len() && 2 * self@.len() > MAX_DOMAIN <==> r == Err::<
                Vec<Scalar>,
                FkError,
            >(FkError::TooLarge),
            r is Ok <==> x@.len() == self@.len() && 2 * self@.len() <= MAX_DOMAIN,
            r matches Ok(v) ==> vals(v@) == toeplitz_product(self@, vals(x@)),
    {
        let m = self.repr.len();
        if x.len() != m {
            return Err(FkError::DimensionMismatch);
        }
        if m > MAX_DOMAIN / 2 {
            return Err(FkError::TooLarge);
        }
        let circulant_repr = self.to_circulant_repr();
        let mut padded: Vec<Scalar> = Vec::new();
        let mut i: usize = 0;
        while i < m
            invariant
                i <= m,
                m == x@.len(),
                padded@ == x@.subrange(0, i as int),
            decreases m - i,
        {
            padded.push(x[i]);
            i = i + 1;
            assert(padded@ =~= x@.subrange(0, i as int));
        }
        while padded.len() < 2 * m
            invariant
                m <= padded@.len() <= 2 * m,
                m == x@.len(),
                m <= MAX_DOMAIN / 2,
                padded@.subrange(0, m as int) == x@,
                forall|k: int| m <= k < padded@.len() ==> #[trigger] padded@[k].val() == 0,
            decreases 2 * m - padded@.len(),
        {
            padded.push(Scalar::zero());
            assert(padded@.subrange(0, m as int) =~= x@);
        }
        assert(vals(padded@) =~= pad(vals(x@))) by {
            assert forall|k: int| 0 <= k < m implies #[trigger] padded@[k] == x@[k] by {
                assert(padded@.subrange(0, m as int)[k] == padded@[k]);
            }
        }
        proof {
            lemma_double_pow2(m as int);
        }
        assert(circulant_repr@.len() == vals(circulant_repr@).len());
        let full = Circulant::mul_by_vec(circulant_repr.as_slice(), padded.as_slice());
        let full = match full {
            Ok(v) => v,
            Err(e) => {
                return Err(e);
            },
        };
        assert(full@.len() == vals(full@).len());
        let mut res: Vec<Scalar> = Vec::new();
        let mut j: usize = 0;
        while j < m
            invariant
                j <= m,
                m <= full@.len(),
                res@ == full@.subrange(0, j as int),
            decreases m - j,
        {
            res.push(full[j]);
            j = j + 1;
            assert(res@ =~= full@.subrange(0, j as int));
        }
        assert(vals(res@) =~= vals(full@).take(m as int));
        proof {
            vstd::arithmetic::power2::lemma_pow2_pos(choose|k: nat| pow2(k) == self@.len());
            lemma_embedding(self@, vals(x@));
        }
        Ok(res)
    }
}

} // verus!
