//! Why a split, reconstruction or refresh was refused.

use vstd::prelude::*;
use crate::text::{decimal, push_decimal};

verus! {

/// Why a split, reconstruction or refresh was refused.
#[derive(Debug, Clone, Copy, PartialEq, Eq, Structural)]
pub enum ShamirError {
    /// `required` must be at least 2 and at most `total`.
    InvalidThreshold {
        /// The `k` that was asked for.
        required: u8,
        /// The `n` that was asked for.
        total: u8,
    },
    /// The secret has no bytes.
    EmptySecret,
    /// A share has no bytes.
    EmptyShare,
    /// A share index of zero would hold the secret itself.
    ZeroIndex,
    /// Two shares in one set carry the same index.
    DuplicateIndex(u8),
    /// Fewer shares than the threshold requires.
    TooFewShares {
        /// The `k` of the threshold.
        required: u8,
        /// How many shares were given.
        provided: usize,
    },
    /// Shares in one set are not all the same length.
    LengthMismatch {
        /// The length of the first share.
        expected: usize,
        /// A length that differed.
        found: usize,
    },
    /// The random generator failed to produce bytes.
    Randomness,
}

impl ShamirError {
    /// The human-readable explanation of the error.
    pub open spec fn spec_message(self) -> Seq<char> {
        match self {
            ShamirError::InvalidThreshold { required, total } => "invalid threshold "@
                + decimal(required as nat) + "-of-"@ + decimal(total as nat)
                + ": need 2 <= required <= total"@,
            ShamirError::EmptySecret => "secret must not be empty"@,
            ShamirError::EmptyShare => "share must not be empty"@,
            ShamirError::ZeroIndex => "share index must not be zero"@,
            ShamirError::DuplicateIndex(x) => "two shares carry index "@ + decimal(x as nat),
            ShamirError::TooFewShares { required, provided } => "too few shares: "@
                + decimal(provided as nat) + " provided, "@ + decimal(required as nat)
                + " required"@,
            ShamirError::LengthMismatch { expected, found } => "share lengths differ: expected "@
                + decimal(expected as nat) + ", found "@ + decimal(found as nat),
            ShamirError::Randomness => "random generator failed"@,
        }
    }

    /// The human-readable explanation of the error, as its `Display` would
    /// write it.
    pub fn describe(&self) -> (text: String)
        ensures
            text@ == self.spec_message(),
    {
        match self {
            ShamirError::InvalidThreshold { required, total } => {
                let mut s = String::from_str("invalid threshold ");
                push_decimal(&mut s, *required as usize);
                s.append("-of-");
                push_decimal(&mut s, *total as usize);
                s.append(": need 2 <= required <= total");
                s
            },
            ShamirError::EmptySecret => String::from_str("secret must not be empty"),
            ShamirError::EmptyShare => String::from_str("share must not be empty"),
            ShamirError::ZeroIndex => String::from_str("share index must not be zero"),
            ShamirError::DuplicateIndex(x) => {
                let mut s = String::from_str("two shares carry index ");
                push_decimal(&mut s, *x as usize);
                s
            },
            ShamirError::TooFewShares { required, provided } => {
                let mut s = String::from_str("too few shares: ");
                push_decimal(&mut s, *provided);
                s.append(" provided, ");
                push_decimal(&mut s, *required as usize);
                s.append(" required");
                s
            },
            ShamirError::LengthMismatch { expected, found } => {
                let mut s = String::from_str("share lengths differ: expected ");
                push_decimal(&mut s, *expected);
                s.append(", found ");
                push_decimal(&mut s, *found);
                s
            },
            ShamirError::Randomness => String::from_str("random generator failed"),
        }
    }
}

} // verus!
