//! The discrete Fourier transform over the BN254 scalar field, and the
//! radix-2 evaluation domains of `ark_poly` that compute it.

use vstd::prelude::*;
use vstd::arithmetic::power::pow;
use ark_bn254::Fr;
use ark_ff::PrimeField;
use ark_poly::{EvaluationDomain, GeneralEvaluationDomain};
use crate::field::{Scalar, modulus, vals};
use crate::pow2::is_pow2;
use crate::conv::is_principal_root;

verus! {

/// The largest transform size: the multiplicative group of the BN254 scalar
/// field has 2-adicity 28.
pub const MAX_DOMAIN: usize = 268435456;

/// The sum of `f(j)` over `0 <= j < n`.
pub open spec fn sum(n: nat, f: spec_fn(int) -> int) -> int
    decreases n,
{
    if n == 0 {
        0
    } else {
        sum((n - 1) as nat, f) + f(n - 1)
    }
}

/// The generator of the multiplicative subgroup of order `n` that the
/// evaluation domain of size `n` uses.
pub uninterp spec fn root_of_unity(n: nat) -> int;

/// The multiplicative inverse of `a` modulo the field order.
pub open spec fn field_inv(a: int) -> int {
    choose|b: int| 0 <= b < modulus() && #[trigger] ((a * b) % modulus()) == 1
}

/// The values at `w^0, ..., w^(n-1)` of the polynomial with coefficients `xs`,
/// where `n` is the length of `xs`.
pub open spec fn dft(w: int, xs: Seq<int>) -> Seq<int> {
    Seq::new(
        xs.len(),
        |i: int| sum(xs.len(), |j: int| xs[j] * pow(w, (i * j) as nat)) % modulus(),
    )
}

/// The inverse transform: the coefficients whose values at the powers of `w`
/// are `ys`.
pub open spec fn idft(w: int, ys: Seq<int>) -> Seq<int> {
    Seq::new(
        ys.len(),
        |i: int| (field_inv(ys.len() as int) * dft(field_inv(w), ys)[i]) % modulus(),
    )
}

/// Relies on `GeneralEvaluationDomain::<Fr>::new`, which for a power of two
/// `n <= 2^28` gives the radix-2 domain generated by `Fr::get_root_of_unity(n)`,
/// and on its `fft`, which evaluates at the domain's elements; limbs go through
/// `Fr::from_le_bytes_mod_order` and `Fr::into_bigint`.
#[verifier::external_body]
pub(crate) fn domain_fft(xs: &[Scalar]) -> (r: Vec<Scalar>)
    requires
        is_pow2(xs@.len() as int),
        xs@.len() <= MAX_DOMAIN,
    ensures
        vals(r@) == dft(root_of_unity(xs@.len()), vals(xs@)),
{
    let domain = GeneralEvaluationDomain::<Fr>::new(xs.len()).unwrap();
    let v: Vec<Fr> = xs.iter().map(|s| Fr::from_le_bytes_mod_order(
        &s.limbs.iter().flat_map(|l| l.to_le_bytes()).collect::<Vec<u8>>())).collect();
    domain.fft(&v).iter().map(|e| Scalar { limbs: e.into_bigint().0 }).collect()
}

/// Relies on `GeneralEvaluationDomain::<Fr>::new` as `domain_fft` does, and on
/// its `ifft`, which transforms with the inverse generator and scales by the
/// inverse of the size; limbs go through `Fr::from_le_bytes_mod_order` and
/// `Fr::into_bigint`.
#[verifier::external_body]
pub(crate) fn domain_ifft(ys: &[Scalar]) -> (r: Vec<Scalar>)
    requires
        is_pow2(ys@.len() as int),
        ys@.len() <= MAX_DOMAIN,
    ensures
        vals(r@) == idft(root_of_unity(ys@.len()), vals(ys@)),
{
    let domain = GeneralEvaluationDomain::<Fr>::new(ys.len()).unwrap();
    let v: Vec<Fr> = ys.iter().map(|s| Fr::from_le_bytes_mod_order(
        &s.limbs.iter().flat_map(|l| l.to_le_bytes()).collect::<Vec<u8>>())).collect();
    domain.ifft(&v).iter().map(|e| Scalar { limbs: e.into_bigint().0 }).collect()
}

/// Relies on `GeneralEvaluationDomain::<Fr>::new` and its `group_gen`, which is
/// `Fr::get_root_of_unity(n)`, documented as a root of unity of order `n`:
/// `g^n = 1`, and for `n >= 2`, `g^(n/2)` is the field's one element of order
/// two, `-1`. The limbs come from `Fr::into_bigint`.
#[verifier::external_body]
pub(crate) fn domain_group_gen(n: usize) -> (r: Scalar)
    requires
        is_pow2(n as int),
        n <= MAX_DOMAIN,
    ensures
        r.val() == root_of_unity(n as nat) % modulus(),
        is_principal_root(r.val(), n as nat),
{
    let g = GeneralEvaluationDomain::<Fr>::new(n).unwrap().group_gen();
    Scalar { limbs: g.into_bigint().0 }
}

} // verus!
