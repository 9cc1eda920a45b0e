//! Elements of the BN254 scalar field, held as four little-endian limbs.
//! The arithmetic itself is done by `ark_bn254::Fr`.

use vstd::prelude::*;
use vstd::arithmetic::div_mod::lemma_small_mod;
use ark_bn254::Fr;
use ark_ff::{PrimeField, Zero};

verus! {

/// 2^64, the weight of one limb.
pub open spec fn limb_base() -> int {
    18446744073709551616
}

/// The order of the BN254 scalar field.
pub open spec fn modulus() -> int {
    0x43e1f593f0000001int + limb_base() * (0x2833e84879b97091int + limb_base() * (
    0xb85045b68181585dint + limb_base() * 0x30644e72e131a029int))
}

/// An element of the BN254 scalar field.
#[derive(Clone, Copy, Debug, PartialEq, Eq)]
pub struct Scalar {
    pub(crate) limbs: [u64; 4],
}

/// The integer whose little-endian 64-bit limbs are `l`.
pub open spec fn limbs_int(l: Seq<u64>) -> int {
    l[0] as int + limb_base() * (l[1] as int + limb_base() * (l[2] as int + limb_base()
        * l[3] as int))
}

impl Scalar {
    /// The field element this value stands for, as an integer in `[0, modulus())`.
    pub closed spec fn val(self) -> int {
        limbs_int(self.limbs@) % modulus()
    }

    /// The additive identity.
    pub fn zero() -> (r: Scalar)
        ensures
            r.val() == 0,
    {
        let r = Scalar { limbs: [0, 0, 0, 0] };
        assert(r.limbs@ =~= seq![0u64, 0, 0, 0]);
        proof {
            lemma_small_mod(0, modulus() as nat);
        }
        r
    }

    /// The field element `v mod p`.
    pub fn from_u64(v: u64) -> (r: Scalar)
        ensures
            r.val() == v as int,
    {
        let r = Scalar { limbs: [v, 0, 0, 0] };
        assert(r.limbs@ =~= seq![v, 0, 0, 0]);
        assert(limbs_int(r.limbs@) == v);
        proof {
            lemma_small_mod(v as nat, modulus() as nat);
        }
        r
    }

    /// Field addition.
    pub fn add(&self, other: &Scalar) -> (r: Scalar)
        ensures
            r.val() == (self.val() + other.val()) % modulus(),
    {
        fr_add(self, other)
    }

    /// Whether this is the zero of the field.
    pub fn is_zero(&self) -> (r: bool)
        ensures
            r == (self.val() == 0),
    {
        fr_is_zero(self)
    }

    /// Field multiplication.
    pub fn mul(&self, other: &Scalar) -> (r: Scalar)
        ensures
            r.val() == (self.val() * other.val()) % modulus(),
    {
        fr_mul(self, other)
    }
}

/// The values of a sequence of field elements.
pub open spec fn vals(s: Seq<Scalar>) -> Seq<int> {
    Seq::new(s.len(), |i: int| s[i].val())
}

/// Relies on `Fr::from_le_bytes_mod_order` (reduces the limbs modulo p) and
/// `Fr`'s `Zero::is_zero` (the element is zero).
#[verifier::external_body]
fn fr_is_zero(a: &Scalar) -> (r: bool)
    ensures
        r == (a.val() == 0),
{
    Fr::from_le_bytes_mod_order(&a.limbs.iter().flat_map(|l| l.to_le_bytes()).collect::<Vec<u8>>()).is_zero()
}

/// Relies on `Fr::from_le_bytes_mod_order` (reduces the limbs modulo p), `Fr`'s `+`
/// (addition modulo p) and `Fr::into_bigint` (the canonical limbs of the sum).
#[verifier::external_body]
fn fr_add(a: &Scalar, b: &Scalar) -> (r: Scalar)
    ensures
        r.val() == (a.val() + b.val()) % modulus(),
{
    let x = Fr::from_le_bytes_mod_order(&a.limbs.iter().flat_map(|l| l.to_le_bytes()).collect::<Vec<u8>>());
    let y = Fr::from_le_bytes_mod_order(&b.limbs.iter().flat_map(|l| l.to_le_bytes()).collect::<Vec<u8>>());
    Scalar { limbs: (x + y).into_bigint().0 }
}

/// Relies on `Fr::from_le_bytes_mod_order` (reduces the limbs modulo p), `Fr`'s `*`
/// (multiplication modulo p) and `Fr::into_bigint` (the canonical limbs of the product).
#[verifier::external_body]
fn fr_mul(a: &Scalar, b: &Scalar) -> (r: Scalar)
    ensures
        r.val() == (a.val() * b.val()) % modulus(),
{
    let x = Fr::from_le_bytes_mod_order(&a.limbs.iter().flat_map(|l| l.to_le_bytes()).collect::<Vec<u8>>());
    let y = Fr::from_le_bytes_mod_order(&b.limbs.iter().flat_map(|l| l.to_le_bytes()).collect::<Vec<u8>>());
    Scalar { limbs: (x * y).into_bigint().0 }
}

} // verus!
