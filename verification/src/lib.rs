//! Shamir secret sharing over GF(2^8).
//!
//! A secret of any length is split into `n` shares so that any `k` of them
//! rebuild it and any `k − 1` say nothing about it. Each byte of the secret
//! is the constant term of its own random polynomial of degree `k − 1` over
//! the AES field (`honest::Gf256`); share `i` holds every polynomial
//! evaluated at `x = i`. Shares are therefore the same length as the secret,
//! and `n` is at most 255.
//!
//! This crate is the arithmetic and nothing else: bytes in, bytes out. It
//! does not authenticate shares (a corrupted share rebuilds a wrong secret
//! without complaint), does not wrap the secret in a zeroizing container
//! for you, and does not decide who holds which share.
//!
//! Randomness comes from any `rand_core::TryCryptoRng`; [`split`] and
//! [`refresh`] use the operating system's.
//!
//! Module layout: [`field`] and [`poly`] hold the mathematics (GF(2^8),
//! polynomials, Lagrange interpolation at zero, with their proofs);
//! [`scheme`] holds split, reconstruct and refresh with their contracts;
//! [`laws`] holds what is proved of them together.

pub mod error;
pub mod field;
pub mod laws;
pub mod poly;
pub mod scheme;
pub mod share;
pub mod text;
pub mod threshold;
mod outside;

pub use error::ShamirError;
pub use scheme::{
    reconstruct, refresh, refresh_with, refresh_with_coefficients, split, split_with,
    split_with_coefficients,
};
pub use share::Share;
pub use threshold::Threshold;

pub use rand_core;
