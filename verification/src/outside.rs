//! The calls into `honest`, `rand_core` and `zeroize`. Verus does not read
//! these bodies; each contract states what the called function does, as its
//! source shows it.

use vstd::prelude::*;
use honest::Gf256;
use rand_core::TryCryptoRng;
use zeroize::Zeroize;
use crate::field::gf_mul;
use crate::poly::{distinct, lagrange_weight, poly_eval};

verus! {

/// `rand_core::OsRng`, declared so that it can stand in signatures.
#[verifier::external_type_specification]
#[verifier::external_body]
pub struct ExOsRng(rand_core::OsRng);

/// `honest::Gf256::mul`: the product in GF(2^8) with the AES polynomial.
/// Claimed: the result is `gf_mul(a, b)`, the reduced polynomial product.
#[verifier::external_body]
pub(crate) fn field_mul(a: u8, b: u8) -> (r: u8)
    ensures
        r == gf_mul(a, b),
{
    Gf256(a).mul(Gf256(b)).0
}

/// `honest::evaluate`: Horner's rule over the coefficients, lowest degree
/// first. Claimed: the result is `poly_eval(coeffs, x)`. The field copy of
/// the coefficients is scrubbed before it is dropped.
#[verifier::external_body]
pub(crate) fn evaluate(coeffs: &[u8], x: u8) -> (r: u8)
    ensures
        r == poly_eval(coeffs@, x),
{
    let mut cs: Vec<Gf256> = coeffs.iter().map(|&c| Gf256(c)).collect();
    let r = honest::evaluate(&cs, Gf256(x)).0;
    cs.zeroize();
    r
}

/// `honest::poly::lagrange_at_zero`: for distinct x coordinates it writes
/// `basis[i] = Π_{j≠i} (0 − x_j) · (Π_{j≠i} (x_i − x_j))^254` and returns
/// `Ok`. Claimed: the basis is the Lagrange weight at zero of every point.
/// The refusals of the source (no points, a repeated point, a basis of
/// another length) are ruled out by the precondition.
#[verifier::external_body]
pub(crate) fn lagrange_basis(xs: &[u8]) -> (basis: Vec<u8>)
    requires
        xs@.len() > 0,
        distinct(xs@),
    ensures
        basis@.len() == xs@.len(),
        forall|j: int| 0 <= j < xs@.len() ==> #[trigger] basis@[j] == lagrange_weight(xs@, j),
{
    let points: Vec<Gf256> = xs.iter().map(|&x| Gf256(x)).collect();
    let mut basis = vec![Gf256::ZERO; points.len()];
    match honest::poly::lagrange_at_zero(&points, &mut basis) {
        Ok(()) => basis.iter().map(|b| b.0).collect(),
        Err(_) => Vec::new(),
    }
}

/// `rand_core::TryRngCore::try_fill_bytes` on the whole buffer. Claimed:
/// the length is kept. Whether it succeeds, and which bytes it writes, is
/// the generator's to decide and is not stated.
#[verifier::external_body]
pub(crate) fn fill_random<R: TryCryptoRng + ?Sized>(rng: &mut R, buf: &mut Vec<u8>) -> (filled: bool)
    ensures
        final(buf)@.len() == old(buf)@.len(),
{
    rng.try_fill_bytes(buf.as_mut_slice()).is_ok()
}

/// `rand_core::OsRng`, the operating system's generator.
#[verifier::external_body]
pub(crate) fn os_rng() -> rand_core::OsRng {
    rand_core::OsRng
}

/// `zeroize::Zeroize::zeroize` on a byte vector: overwrites every byte and
/// the spare capacity with zero, then clears it. Claimed: the vector is
/// left empty.
#[verifier::external_body]
pub(crate) fn scrub(bytes: &mut Vec<u8>)
    ensures
        final(bytes)@.len() == 0,
{
    bytes.zeroize();
}

/// `zeroize::Zeroize::zeroize` on the bytes of a vector, as a slice:
/// overwrites every byte with zero and keeps the length. Claimed: the length
/// is kept and every byte is zero.
#[verifier::external_body]
pub(crate) fn scrub_in_place(bytes: &mut Vec<u8>)
    ensures
        final(bytes)@.len() == old(bytes)@.len(),
        forall|i: int| 0 <= i < final(bytes)@.len() ==> #[trigger] final(bytes)@[i] == 0,
    opens_invariants none
    no_unwind
{
    bytes.as_mut_slice().zeroize();
}

} // verus!
