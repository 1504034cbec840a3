//! Concrete cases of what the contracts and laws state.

use honest_shamir::{
    reconstruct, refresh_with, refresh_with_coefficients, split_with, split_with_coefficients,
    ShamirError, Share, Threshold,
};
use rand_chacha::ChaCha20Rng;
use rand_core::SeedableRng;

fn t(k: u8, n: u8) -> Threshold {
    Threshold::new(k, n).unwrap()
}

#[test]
fn known_coefficients_give_known_shares() {
    // p(x) = 0x53 + 0x02·x: p(1) = 0x51, p(2) = 0x57, p(3) = 0x55
    let shares = split_with_coefficients(&[0x53], t(2, 3), &[vec![0x02]]);
    let bytes: Vec<u8> = shares.iter().map(|s| s.bytes()[0]).collect();
    assert_eq!(bytes, [0x51, 0x57, 0x55]);
    assert_eq!(shares.iter().map(Share::index).collect::<Vec<_>>(), [1, 2, 3]);
}

#[test]
fn field_products_enter_the_shares() {
    // p(x) = 0x00 + 0x57·x: p(0x83) is not a share index, but p(3) = 0x57·3
    // = 0x57·2 + 0x57 = 0xAE + 0x57 = 0xF9
    let shares = split_with_coefficients(&[0x00], t(2, 3), &[vec![0x57]]);
    assert_eq!(shares[2].bytes(), [0xF9]);
    assert_eq!(reconstruct(&shares[1..], t(2, 3)).unwrap(), [0x00]);
}

#[test]
fn reconstruction_weights_are_the_lagrange_basis() {
    // x = {2, 3}: weights 3 and 2, so 3·0x01 + 2·0x00 = 0x03
    let received = [Share::new(2, vec![0x01]).unwrap(), Share::new(3, vec![0x00]).unwrap()];
    assert_eq!(reconstruct(&received, t(2, 3)).unwrap(), [0x03]);
}

#[test]
fn every_pair_of_three_rebuilds_every_byte() {
    let secret = vec![0x00, 0xFF, 0x80, 0x01];
    let coefficients = vec![vec![0x11], vec![0xFE], vec![0x00], vec![0x9C]];
    let shares = split_with_coefficients(&secret, t(2, 3), &coefficients);
    for (a, b) in [(0, 1), (0, 2), (1, 2), (2, 0), (1, 0)] {
        let pair = [shares[a].clone(), shares[b].clone()];
        assert_eq!(reconstruct(&pair, t(2, 3)).unwrap(), secret);
    }
}

#[test]
fn refreshing_with_zero_polynomials_changes_every_share_and_keeps_the_secret() {
    let secret = b"keep".to_vec();
    let old = split_with(&secret, t(3, 4), &mut ChaCha20Rng::seed_from_u64(11)).unwrap();
    let mut new = old.clone();
    refresh_with(&mut new, t(3, 4), &mut ChaCha20Rng::seed_from_u64(12)).unwrap();
    assert_eq!(reconstruct(&new[1..], t(3, 4)).unwrap(), secret);
    assert_eq!(reconstruct(&[new[3].clone(), new[0].clone(), new[2].clone()], t(3, 4)).unwrap(), secret);
}

#[test]
fn refresh_refuses_a_bad_set_and_leaves_it_alone() {
    let shares = split_with(b"ab", t(2, 3), &mut ChaCha20Rng::seed_from_u64(13)).unwrap();
    let mut dup = vec![shares[0].clone(), shares[0].clone()];
    assert_eq!(
        refresh_with(&mut dup, t(2, 3), &mut ChaCha20Rng::seed_from_u64(1)).err(),
        Some(ShamirError::DuplicateIndex(1))
    );
    assert!(dup[0] == shares[0] && dup[1] == shares[0]);
    let mut none: Vec<Share> = Vec::new();
    assert_eq!(
        refresh_with(&mut none, t(2, 3), &mut ChaCha20Rng::seed_from_u64(1)).err(),
        Some(ShamirError::TooFewShares { required: 2, provided: 0 })
    );
}

#[test]
fn the_first_problem_in_the_set_is_reported() {
    let a = Share::new(1, vec![1, 2]).unwrap();
    let b = Share::new(2, vec![1]).unwrap();
    let c = Share::new(1, vec![5, 6]).unwrap();
    // the length mismatch at position 1 comes before the duplicate at position 2
    assert_eq!(
        reconstruct(&[a.clone(), b.clone(), c.clone()], t(3, 3)).err(),
        Some(ShamirError::LengthMismatch { expected: 2, found: 1 })
    );
    assert_eq!(reconstruct(&[a.clone(), c, b], t(3, 3)).err(), Some(ShamirError::DuplicateIndex(1)));
    // only the first k are checked
    let d = Share::new(3, vec![9, 9]).unwrap();
    let e = Share::new(1, vec![9]).unwrap();
    assert!(reconstruct(&[a, d, e], t(2, 3)).is_ok());
}

#[test]
fn thresholds_are_checked_and_read_back() {
    let th = t(3, 5);
    assert_eq!((th.required(), th.total()), (3, 5));
    assert_eq!(th.describe(), "3-of-5");
    assert_eq!(Threshold::new(1, 5).err(), Some(ShamirError::InvalidThreshold { required: 1, total: 5 }));
    assert_eq!(Threshold::new(6, 5).err(), Some(ShamirError::InvalidThreshold { required: 6, total: 5 }));
    assert_eq!(t(255, 255).describe(), "255-of-255");
    assert!(Threshold::new(2, 2).is_ok());
}

#[test]
fn every_error_has_its_message() {
    let cases = [
        (ShamirError::InvalidThreshold { required: 1, total: 5 }, "invalid threshold 1-of-5: need 2 <= required <= total"),
        (ShamirError::EmptySecret, "secret must not be empty"),
        (ShamirError::EmptyShare, "share must not be empty"),
        (ShamirError::ZeroIndex, "share index must not be zero"),
        (ShamirError::DuplicateIndex(200), "two shares carry index 200"),
        (ShamirError::TooFewShares { required: 3, provided: 0 }, "too few shares: 0 provided, 3 required"),
        (ShamirError::LengthMismatch { expected: 1000, found: 10 }, "share lengths differ: expected 1000, found 10"),
        (ShamirError::Randomness, "random generator failed"),
    ];
    for (e, text) in cases {
        assert_eq!(e.describe(), text);
    }
}

#[test]
fn shares_hold_what_they_were_given() {
    let s = Share::new(7, vec![1, 2, 3]).unwrap();
    assert_eq!(s.index(), 7);
    assert_eq!(s.bytes(), [1, 2, 3]);
    assert_eq!(s.len(), 3);
    assert!(!s.is_empty());
    assert_eq!(s.describe(), "Share { index: 7, len: 3 }");
    let c = s.clone();
    assert!(c == s);
    assert_eq!(s.into_bytes(), vec![1, 2, 3]);
    let other = Share::new(7, vec![1, 2, 4]).unwrap();
    assert!(c != other);
    let shorter = Share::new(7, vec![1, 2]).unwrap();
    assert!(c != shorter);
}

#[test]
fn a_large_split_keeps_lengths_and_indexes() {
    let secret: Vec<u8> = (0..300u32).map(|i| (i % 251) as u8).collect();
    let shares = split_with(&secret, t(4, 255), &mut ChaCha20Rng::seed_from_u64(99)).unwrap();
    assert_eq!(shares.len(), 255);
    assert_eq!(shares[254].index(), 255);
    assert!(shares.iter().all(|s| s.len() == 300));
    let chosen = [shares[254].clone(), shares[7].clone(), shares[100].clone(), shares[0].clone()];
    assert_eq!(reconstruct(&chosen, t(4, 255)).unwrap(), secret);
}

#[test]
fn one_share_of_two_can_hold_any_byte_whatever_the_secret() {
    // 2-of-3: share 1 holds s + r, so each of the 256 coefficients gives a
    // different byte, and every byte is reached, for every secret tried
    for secret in [0x00u8, 0x42, 0xFF] {
        let mut seen = [false; 256];
        for r in 0..=255u8 {
            let shares = split_with_coefficients(&[secret], t(2, 3), &[vec![r]]);
            let b = shares[0].bytes()[0];
            assert!(!seen[b as usize]);
            seen[b as usize] = true;
        }
        assert!(seen.iter().all(|&s| s));
    }
}

#[test]
fn two_shares_of_three_can_hold_any_pair() {
    // 3-of-4, shares 2 and 4 (x = 2, 4): the 65536 coefficient pairs give
    // 65536 different pairs of bytes
    let mut seen = vec![false; 65536];
    for r1 in 0..=255u8 {
        for r2 in 0..=255u8 {
            let shares = split_with_coefficients(&[0x9D], t(3, 4), &[vec![r1, r2]]);
            let pair = (shares[1].bytes()[0] as usize) << 8 | shares[3].bytes()[0] as usize;
            assert!(!seen[pair]);
            seen[pair] = true;
        }
    }
}

#[test]
fn refreshed_split_still_rebuilds_with_every_triple() {
    let secret = vec![0x10, 0x20, 0x30];
    let coefficients = vec![vec![1, 2], vec![3, 4], vec![5, 6]];
    let mut shares = split_with_coefficients(&secret, t(3, 5), &coefficients);
    refresh_with(&mut shares, t(3, 5), &mut ChaCha20Rng::seed_from_u64(21)).unwrap();
    for a in 0..5 {
        for b in 0..5 {
            for c in 0..5 {
                if a != b && b != c && a != c {
                    let triple = [shares[a].clone(), shares[b].clone(), shares[c].clone()];
                    assert_eq!(reconstruct(&triple, t(3, 5)).unwrap(), secret);
                }
            }
        }
    }
}

/// A generator that fills `good` requests with 0x05 and fails after them.
struct FailsAfter {
    good: usize,
}

impl rand_core::TryRngCore for FailsAfter {
    type Error = core::fmt::Error;
    fn try_next_u32(&mut self) -> Result<u32, Self::Error> {
        Err(core::fmt::Error)
    }
    fn try_next_u64(&mut self) -> Result<u64, Self::Error> {
        Err(core::fmt::Error)
    }
    fn try_fill_bytes(&mut self, dst: &mut [u8]) -> Result<(), Self::Error> {
        if self.good == 0 {
            return Err(core::fmt::Error);
        }
        self.good -= 1;
        dst.fill(0x05);
        Ok(())
    }
}
impl rand_core::TryCryptoRng for FailsAfter {}

#[test]
fn a_refresh_cut_short_keeps_what_it_drew_and_the_secret() {
    let secret = vec![0xAA, 0xBB, 0xCC];
    let shares = split_with_coefficients(&secret, t(2, 3), &[vec![1], vec![2], vec![3]]);
    let mut refreshed = shares.clone();
    assert_eq!(
        refresh_with(&mut refreshed, t(2, 3), &mut FailsAfter { good: 1 }).err(),
        Some(ShamirError::Randomness)
    );
    for (new, old) in refreshed.iter().zip(&shares) {
        // position 0 got 0x05·x added, the others are untouched
        let x = new.index();
        let expected0 = old.bytes()[0] ^ split_with_coefficients(&[0], t(2, 3), &[vec![0x05]])[usize::from(x) - 1].bytes()[0];
        assert_eq!(new.bytes()[0], expected0);
        assert_eq!(new.bytes()[1..], old.bytes()[1..]);
    }
    assert_eq!(reconstruct(&refreshed[1..], t(2, 3)).unwrap(), secret);
    assert_eq!(split_with(b"abc", t(2, 3), &mut FailsAfter { good: 2 }).err(), Some(ShamirError::Randomness));
}


#[test]
fn known_refresh_coefficients_give_known_shares() {
    // p(x) = 0x53 + 0x02·x, refreshed with 0 + 0x01·x: shares become
    // 0x51 + 1, 0x57 + 2, 0x55 + 3 = 0x50, 0x55, 0x56
    let mut shares = split_with_coefficients(&[0x53], t(2, 3), &[vec![0x02]]);
    refresh_with_coefficients(&mut shares, t(2, 3), &[vec![0x01]]).unwrap();
    let bytes: Vec<u8> = shares.iter().map(|s| s.bytes()[0]).collect();
    assert_eq!(bytes, [0x50, 0x55, 0x56]);
    assert_eq!(reconstruct(&shares[..2], t(2, 3)).unwrap(), [0x53]);
    let mut dup = [shares[0].clone(), shares[0].clone()];
    assert_eq!(
        refresh_with_coefficients(&mut dup, t(2, 3), &[vec![0x01]]).err(),
        Some(ShamirError::DuplicateIndex(1))
    );
}

#[test]
fn an_empty_set_reports_the_thresholds_k() {
    let mut none: Vec<Share> = Vec::new();
    assert_eq!(
        refresh_with(&mut none, t(3, 5), &mut ChaCha20Rng::seed_from_u64(1)).err(),
        Some(ShamirError::TooFewShares { required: 3, provided: 0 })
    );
    assert_eq!(
        refresh_with_coefficients(&mut none, t(4, 4), &[]).err(),
        Some(ShamirError::TooFewShares { required: 4, provided: 0 })
    );
}

#[test]
fn a_scrubbed_share_keeps_its_index_and_length() {
    let mut s = Share::new(9, vec![7, 8, 9]).unwrap();
    s.scrub();
    assert_eq!(s.index(), 9);
    assert_eq!(s.bytes(), [0, 0, 0]);
    assert!(!s.is_empty());
}

#[test]
fn any_order_of_a_set_rebuilds_the_same_bytes() {
    // shares that were never split from anything still rebuild one value,
    // whatever their order
    let a = Share::new(4, vec![0x11, 0x22]).unwrap();
    let b = Share::new(9, vec![0x33, 0x44]).unwrap();
    let c = Share::new(200, vec![0x55, 0x66]).unwrap();
    let first = reconstruct(&[a.clone(), b.clone(), c.clone()], t(3, 3)).unwrap();
    for order in [[&b, &a, &c], [&c, &b, &a], [&a, &c, &b], [&b, &c, &a], [&c, &a, &b]] {
        let set: Vec<Share> = order.iter().map(|s| (*s).clone()).collect();
        assert_eq!(reconstruct(&set, t(3, 3)).unwrap(), first);
    }
}

#[test]
fn a_tampered_byte_changes_only_its_position() {
    // p(x) = 0x53 + 0x02·x at positions 0 and 1; share 3 tampered at position 1
    let shares = split_with_coefficients(&[0x53, 0x53], t(2, 3), &[vec![0x02], vec![0x02]]);
    let tampered = Share::new(3, vec![0x55, 0x54]).unwrap();
    let rebuilt = reconstruct(&[shares[1].clone(), tampered], t(2, 3)).unwrap();
    // the change 0x01 at x = 3 shows as 2·0x01 = 0x02 at position 1
    assert_eq!(rebuilt, [0x53, 0x51]);
}

#[test]
fn an_old_share_mixed_with_a_refreshed_one_is_off_by_the_refresh() {
    // p(x) = 0x53 + 0x02·x, refreshed with 0x01·x; old share x = 2 (0x57)
    // with refreshed share x = 3 (0x56): the refresh added 0x03 at x = 3,
    // whose weight among {2, 3} is 2, so the result is 0x53 + 0x06 = 0x55
    let old = split_with_coefficients(&[0x53], t(2, 3), &[vec![0x02]]);
    let mut new = old.clone();
    refresh_with_coefficients(&mut new, t(2, 3), &[vec![0x01]]).unwrap();
    assert_eq!(reconstruct(&[old[1].clone(), new[2].clone()], t(2, 3)).unwrap(), [0x55]);
    assert_eq!(reconstruct(&[new[1].clone(), new[2].clone()], t(2, 3)).unwrap(), [0x53]);
}
