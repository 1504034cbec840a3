//! The `k`-of-`n` policy.

use vstd::prelude::*;
use crate::error::ShamirError;
use crate::text::{decimal, push_decimal};

verus! {

/// A `k`-of-`n` policy: `total` shares are made and any `required` rebuild
/// the secret.
///
/// `required` is at least 2, because a 1-of-`n` split hands the secret
/// itself to every holder, and at most `total`. `total` is at most 255,
/// the number of non-zero points in the field.
#[derive(Debug, Clone, Copy, PartialEq, Eq, Structural, Hash)]
pub struct Threshold {
    required: u8,
    total: u8,
}

/// What a [`Threshold`] holds.
pub struct ThresholdView {
    /// `k`.
    pub required: u8,
    /// `n`.
    pub total: u8,
}

impl View for Threshold {
    type V = ThresholdView;

    closed spec fn view(&self) -> ThresholdView {
        ThresholdView { required: self.required, total: self.total }
    }
}

impl Threshold {
    #[verifier::type_invariant]
    spec fn policy_is_sound(self) -> bool {
        2 <= self.required <= self.total
    }

    /// A `required`-of-`total` policy; refused unless `2 <= required <= total`.
    pub fn new(required: u8, total: u8) -> (r: Result<Threshold, ShamirError>)
        ensures
            (required < 2 || required > total) <==> r == Err::<Threshold, ShamirError>(
                ShamirError::InvalidThreshold { required, total },
            ),
            (2 <= required <= total) ==> (r matches Ok(t) && t@.required == required && t@.total == total),
    {
        if required < 2 || required > total {
            return Err(ShamirError::InvalidThreshold { required, total });
        }
        Ok(Threshold { required, total })
    }

    /// How many shares rebuild the secret, `k`; always at least 2 and at most `n`.
    pub fn required(self) -> (k: u8)
        ensures
            k == self@.required,
            2 <= k <= self@.total,
    {
        proof {
            use_type_invariant(&self);
        }
        self.required
    }

    /// How many shares are made, `n`; always at least `k`.
    pub fn total(self) -> (n: u8)
        ensures
            n == self@.total,
            2 <= self@.required <= n,
    {
        proof {
            use_type_invariant(&self);
        }
        self.total
    }

    /// `"k-of-n"`, as its `Display` would write it.
    pub fn describe(self) -> (text: String)
        ensures
            text@ == decimal(self@.required as nat) + "-of-"@ + decimal(self@.total as nat),
    {
        let mut s = String::new();
        push_decimal(&mut s, self.required as usize);
        s.append("-of-");
        push_decimal(&mut s, self.total as usize);
        s
    }
}

} // verus!
