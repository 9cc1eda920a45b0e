//! Fast multiplication of vectors by succinctly represented circulant and
//! upper Toeplitz matrices over the BN254 scalar field, via FFT convolution.

pub mod field;
pub mod error;
pub mod pow2;
pub mod fft;
pub mod matrix;
pub mod fk;
pub mod conv;
