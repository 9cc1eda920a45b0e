use fk_toeplitz::error::FkError;
use fk_toeplitz::field::Scalar;
use fk_toeplitz::fk::{Circulant, UpperToeplitz};
use fk_toeplitz::pow2::{is_pow_2, next_pow2};

fn s(v: u64) -> Scalar {
    Scalar::from_u64(v)
}

fn svec(vs: &[u64]) -> Vec<Scalar> {
    vs.iter().map(|v| s(*v)).collect()
}

/// A deterministic stream of large pseudo-random values.
fn pseudo_random(seed: u64, n: usize) -> Vec<Scalar> {
    let mut state = seed.wrapping_mul(6364136223846793005).wrapping_add(1442695040888963407);
    (0..n)
        .map(|_| {
            state = state.wrapping_mul(6364136223846793005).wrapping_add(1442695040888963407);
            let a = s(state);
            state = state.wrapping_mul(6364136223846793005).wrapping_add(1442695040888963407);
            // mix in a product so that values exceed 64 bits
            a.mul(&s(state)).add(&s(state >> 7))
        })
        .collect()
}

fn direct_circulant(c: &[Scalar], x: &[Scalar]) -> Vec<Scalar> {
    let n = c.len();
    (0..n)
        .map(|i| {
            let mut acc = Scalar::zero();
            for j in 0..n {
                acc = acc.add(&c[(i + n - j) % n].mul(&x[j]));
            }
            acc
        })
        .collect()
}

/// Row `i`, column `j >= i` holds `t[m - 1 - (j - i)]`.
fn direct_toeplitz(t: &[Scalar], x: &[Scalar]) -> Vec<Scalar> {
    let m = t.len();
    (0..m)
        .map(|i| {
            let mut acc = Scalar::zero();
            for j in i..m {
                acc = acc.add(&t[m - 1 - (j - i)].mul(&x[j]));
            }
            acc
        })
        .collect()
}

#[test]
fn next_pow2_of_powers_is_identity() {
    for k in 0..63 {
        let n: usize = 1 << k;
        assert_eq!(next_pow2(n), Ok(n));
    }
}

#[test]
fn next_pow2_of_non_powers() {
    assert_eq!(next_pow2(3), Ok(4));
    assert_eq!(next_pow2(5), Ok(8));
    assert_eq!(next_pow2(7), Ok(8));
    assert_eq!(next_pow2(9), Ok(16));
    assert_eq!(next_pow2(1000), Ok(1024));
    for n in 3usize..300 {
        if !is_pow_2(n) {
            let r = next_pow2(n).unwrap();
            assert!(r > n && r < 2 * n && is_pow_2(r));
        }
    }
}

#[test]
fn next_pow2_rejects_zero_and_too_large() {
    assert_eq!(next_pow2(0), Err(FkError::ZeroSize));
    assert_eq!(next_pow2(usize::MAX), Err(FkError::TooLarge));
    assert_eq!(next_pow2(usize::MAX / 2 + 2), Err(FkError::TooLarge));
    assert_eq!(next_pow2(usize::MAX / 2 + 1), Ok(usize::MAX / 2 + 1));
}

#[test]
fn is_pow_2_values() {
    assert!(!is_pow_2(0));
    assert!(is_pow_2(1));
    assert!(is_pow_2(2));
    assert!(!is_pow_2(3));
    assert!(is_pow_2(1024));
    assert!(!is_pow_2(1023));
    assert!(is_pow_2(usize::MAX / 2 + 1));
    assert!(!is_pow_2(usize::MAX));
}

#[test]
fn scalar_arithmetic_is_modular() {
    assert_eq!(s(3).mul(&s(7)), s(21));
    assert_eq!(s(3).add(&s(7)), s(10));
    let big = s(1u64 << 63);
    let two_64 = big.add(&big);
    assert_ne!(two_64, Scalar::zero());
    // 2^64 * 2^64 = 2^128 = 2^63 * 2^65
    assert_eq!(two_64.mul(&two_64), big.mul(&two_64.add(&two_64)));
    assert_eq!(s(5).mul(&Scalar::zero()), Scalar::zero());
}

#[test]
fn circulant_matches_direct_product() {
    for (seed, m) in [1usize, 2, 4, 8, 16].iter().enumerate() {
        let c = pseudo_random(seed as u64 * 2 + 1, *m);
        let x = pseudo_random(seed as u64 * 2 + 2, *m);
        let r = Circulant::mul_by_vec(&c, &x).unwrap();
        assert_eq!(r, direct_circulant(&c, &x));
    }
}

#[test]
fn circulant_small_exact() {
    // first column [1, 2], x = [3, 4]: [[1, 2], [2, 1]] * [3, 4] = [11, 10]
    let r = Circulant::mul_by_vec(&svec(&[1, 2]), &svec(&[3, 4])).unwrap();
    assert_eq!(r, svec(&[11, 10]));
}

#[test]
fn circulant_rejects_bad_lengths() {
    assert_eq!(Circulant::mul_by_vec(&svec(&[1, 2, 3]), &svec(&[1, 2, 3])), Err(FkError::NotPowerOfTwo));
    assert_eq!(Circulant::mul_by_vec(&[], &[]), Err(FkError::NotPowerOfTwo));
    assert_eq!(Circulant::mul_by_vec(&svec(&[1, 2]), &svec(&[1])), Err(FkError::DimensionMismatch));
    assert_eq!(Circulant::mul_by_vec(&svec(&[1, 2]), &svec(&[1, 2, 3, 4])), Err(FkError::DimensionMismatch));
}

#[test]
fn circulant_zero_vector() {
    for m in [1usize, 2, 4, 8] {
        let c = pseudo_random(m as u64, m);
        let r = Circulant::mul_by_vec(&c, &vec![Scalar::zero(); m]).unwrap();
        assert_eq!(r, vec![Scalar::zero(); m]);
    }
}

#[test]
fn from_poly_concrete_representation() {
    let t = UpperToeplitz::from_poly(&svec(&[5, 3, 7, 2])).unwrap();
    assert_eq!(t.coefficients(), svec(&[3, 7, 2, 0]).as_slice());
}

#[test]
fn from_poly_pads_to_power_of_two() {
    let t = UpperToeplitz::from_poly(&svec(&[1, 2])).unwrap();
    assert_eq!(t.coefficients(), svec(&[2]).as_slice());
    let t = UpperToeplitz::from_poly(&svec(&[1, 2, 3])).unwrap();
    assert_eq!(t.coefficients(), svec(&[2, 3]).as_slice());
    let t = UpperToeplitz::from_poly(&svec(&[1, 2, 3, 4, 5, 6])).unwrap();
    assert_eq!(t.coefficients(), svec(&[2, 3, 4, 5, 6, 0, 0, 0]).as_slice());
}

#[test]
fn from_poly_rejects_degree_zero() {
    assert!(matches!(UpperToeplitz::from_poly(&svec(&[5])), Err(FkError::ZeroDegree)));
    assert!(matches!(UpperToeplitz::from_poly(&[]), Err(FkError::ZeroDegree)));
}

#[test]
fn toeplitz_concrete_scenario() {
    let t = UpperToeplitz::from_poly(&svec(&[5, 3, 7, 2])).unwrap();
    let x = svec(&[1, 1, 1, 1]);
    let r = t.mul_by_vec(&x).unwrap();
    // rows of the matrix of [3, 7, 2, 0]: [0 2 7 3], [0 0 2 7], [0 0 0 2], [0 0 0 0]
    assert_eq!(r, svec(&[12, 9, 2, 0]));
    assert_eq!(r, direct_toeplitz(&svec(&[3, 7, 2, 0]), &x));
}

#[test]
fn toeplitz_matches_direct_product() {
    for d in [3usize, 7, 15] {
        let poly = pseudo_random(100 + d as u64, d + 1);
        let t = UpperToeplitz::from_poly(&poly).unwrap();
        let m = t.coefficients().len();
        assert_eq!(m, d.next_power_of_two());
        let x = pseudo_random(200 + d as u64, m);
        let r = t.mul_by_vec(&x).unwrap();
        assert_eq!(r, direct_toeplitz(t.coefficients(), &x));
    }
}

#[test]
fn toeplitz_unpadded_matches_polynomial_formula() {
    // degree 4: no padding, row i column j >= i holds f_{4 - (j - i)}
    let t = UpperToeplitz::from_poly(&svec(&[9, 1, 2, 3, 4])).unwrap();
    let r = t.mul_by_vec(&svec(&[1, 10, 100, 1000])).unwrap();
    assert_eq!(r, svec(&[4 + 30 + 200 + 1000, 40 + 300 + 2000, 400 + 3000, 4000]));
}

#[test]
fn toeplitz_zero_vector() {
    for d in [1usize, 3, 5, 8] {
        let t = UpperToeplitz::from_poly(&pseudo_random(d as u64, d + 1)).unwrap();
        let m = t.coefficients().len();
        assert_eq!(t.mul_by_vec(&vec![Scalar::zero(); m]).unwrap(), vec![Scalar::zero(); m]);
    }
}

#[test]
fn toeplitz_rejects_dimension_mismatch() {
    let t = UpperToeplitz::from_poly(&svec(&[5, 3, 7, 2])).unwrap();
    assert_eq!(t.mul_by_vec(&svec(&[1, 1, 1])), Err(FkError::DimensionMismatch));
    assert_eq!(t.mul_by_vec(&svec(&[1, 1, 1, 1, 1])), Err(FkError::DimensionMismatch));
}

#[test]
fn from_poly_ignores_trailing_zeros() {
    assert!(matches!(UpperToeplitz::from_poly(&svec(&[5, 0])), Err(FkError::ZeroDegree)));
    assert!(matches!(UpperToeplitz::from_poly(&svec(&[0, 0, 0])), Err(FkError::ZeroDegree)));
    let t = UpperToeplitz::from_poly(&svec(&[1, 2, 0, 0])).unwrap();
    assert_eq!(t.coefficients(), svec(&[2]).as_slice());
    let t = UpperToeplitz::from_poly(&svec(&[1, 2, 3, 0])).unwrap();
    assert_eq!(t.coefficients(), svec(&[2, 3]).as_slice());
}

#[test]
fn scalar_is_zero() {
    assert!(Scalar::zero().is_zero());
    assert!(!s(1).is_zero());
    assert!(s(3).mul(&Scalar::zero()).is_zero());
}

#[test]
fn circulant_identity_and_rotation() {
    let x = svec(&[4, 5, 6, 7]);
    assert_eq!(Circulant::mul_by_vec(&svec(&[1, 0, 0, 0]), &x).unwrap(), x);
    assert_eq!(Circulant::mul_by_vec(&svec(&[0, 1, 0, 0]), &x).unwrap(), svec(&[7, 4, 5, 6]));
}

#[test]
fn toeplitz_last_unit_vector_gives_representation() {
    let t = UpperToeplitz::from_poly(&svec(&[1, 2, 3, 4, 5])).unwrap();
    let r = t.mul_by_vec(&svec(&[0, 0, 0, 1])).unwrap();
    assert_eq!(r, svec(&[2, 3, 4, 5]));
}
