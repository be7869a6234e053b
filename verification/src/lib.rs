//! Verified SC2000-style block cipher and an ElGamal-style signature demo.

pub mod bignum;
pub mod bits;
pub mod sc2000;
pub mod signature;
pub mod stream;
