//! One share of a split secret.

use vstd::prelude::*;
use crate::error::ShamirError;
use crate::outside::{scrub, scrub_in_place};
use crate::text::{decimal, push_decimal};
use vstd::std_specs::cmp::PartialEqSpecImpl;

verus! {

/// One share: the x coordinate it was evaluated at and one byte per byte
/// of the secret.
///
/// The bytes are zeroized when the share is dropped, its description shows
/// only the index and length, and equality is checked without an early
/// exit. A share is a secret in its own right: any `k` of them are the
/// secret.
pub struct Share {
    index: u8,
    bytes: Vec<u8>,
}

/// What a [`Share`] holds.
#[verifier::ext_equal]
pub struct ShareView {
    /// The x coordinate.
    pub index: u8,
    /// One byte per byte of the secret.
    pub bytes: Seq<u8>,
}

impl View for Share {
    type V = ShareView;

    closed spec fn view(&self) -> ShareView {
        ShareView { index: self.index, bytes: self.bytes@ }
    }
}

impl Share {
    #[verifier::type_invariant]
    spec fn is_well_formed(self) -> bool {
        self.index != 0 && self.bytes.len() > 0
    }

    /// A share received from elsewhere. The index must be non-zero and the
    /// bytes non-empty; rejected bytes are zeroized before the error returns.
    pub fn new(index: u8, bytes: Vec<u8>) -> (r: Result<Share, ShamirError>)
        ensures
            index == 0 ==> r == Err::<Share, ShamirError>(ShamirError::ZeroIndex),
            index != 0 && bytes@.len() == 0 ==> r == Err::<Share, ShamirError>(ShamirError::EmptyShare),
            index != 0 && bytes@.len() > 0 ==> (r matches Ok(s) && s@.index == index && s@.bytes == bytes@),
    {
        let mut bytes = bytes;
        if index == 0 {
            scrub(&mut bytes);
            return Err(ShamirError::ZeroIndex);
        }
        if bytes.len() == 0 {
            return Err(ShamirError::EmptyShare);
        }
        Ok(Share { index, bytes })
    }

    /// A share made here, from a non-zero index and non-empty bytes.
    pub(crate) fn from_parts(index: u8, bytes: Vec<u8>) -> (s: Share)
        requires
            index != 0,
            bytes@.len() > 0,
        ensures
            s@.index == index,
            s@.bytes == bytes@,
    {
        Share { index, bytes }
    }

    /// The x coordinate, `1..=255`.
    pub fn index(&self) -> (x: u8)
        ensures
            x == self@.index,
            x != 0,
    {
        proof {
            use_type_invariant(self);
        }
        self.index
    }

    /// The share's bytes, one per byte of the secret.
    pub fn bytes(&self) -> (b: &[u8])
        ensures
            b@ == self@.bytes,
            b@.len() > 0,
    {
        proof {
            use_type_invariant(self);
        }
        self.bytes.as_slice()
    }

    /// How many bytes the share holds, which is the length of the secret;
    /// never zero.
    pub fn len(&self) -> (n: usize)
        ensures
            n == self@.bytes.len(),
            n > 0,
    {
        proof {
            use_type_invariant(self);
        }
        self.bytes.len()
    }

    /// Always false: a share is never built empty.
    pub fn is_empty(&self) -> (e: bool)
        ensures
            e == (self@.bytes.len() == 0),
            !e,
    {
        proof {
            use_type_invariant(self);
        }
        self.bytes.len() == 0
    }

    /// Take the bytes out. The caller owns them and their zeroization now.
    pub fn into_bytes(self) -> (bytes: Vec<u8>)
        ensures
            bytes@ == self@.bytes,
    {
        let mut me = self;
        proof {
            use_type_invariant(&me);
        }
        let mut out: Vec<u8> = vec![0u8];
        core::mem::swap(&mut out, &mut me.bytes);
        out
    }

    /// Overwrite the share's bytes with zeros now, rather than when it is
    /// dropped. The index and the length stay, so the share stays well
    /// formed; it no longer holds anything of the secret.
    pub fn scrub(&mut self)
        ensures
            final(self)@.index == old(self)@.index,
            final(self)@.bytes.len() == old(self)@.bytes.len(),
            forall|i: int| 0 <= i < final(self)@.bytes.len() ==> #[trigger] final(self)@.bytes[i] == 0,
    {
        proof {
            use_type_invariant(&*self);
        }
        scrub_in_place(&mut self.bytes);
    }

    /// The index and the length, never the bytes: `Share { index: 1, len: 5 }`,
    /// as its `Debug` would write it.
    pub fn describe(&self) -> (text: String)
        ensures
            text@ == "Share { index: "@ + decimal(self@.index as nat) + ", len: "@
                + decimal(self@.bytes.len()) + " }"@,
    {
        let mut s = String::from_str("Share { index: ");
        push_decimal(&mut s, self.index as usize);
        s.append(", len: ");
        push_decimal(&mut s, self.bytes.len());
        s.append(" }");
        s
    }
}

impl Clone for Share {
    fn clone(&self) -> (c: Self)
        ensures
            c@ == self@,
    {
        proof {
            use_type_invariant(self);
        }
        let bytes = self.bytes.clone();
        assert(bytes@ =~= self.bytes@);
        Share { index: self.index, bytes }
    }
}

proof fn lemma_accumulate_difference(acc: u8, a: u8, b: u8)
    ensures
        (acc | (a ^ b)) == 0 <==> (acc == 0 && a == b),
{
    assert((acc | (a ^ b)) == 0 <==> (acc == 0 && a == b)) by (bit_vector);
}

impl PartialEq for Share {
    /// Equal index and equal bytes. The bytes are compared without an early
    /// exit: every pair is looked at, whatever came before.
    fn eq(&self, other: &Self) -> (same: bool) {
        if self.index != other.index || self.bytes.len() != other.bytes.len() {
            return false;
        }
        let n = self.bytes.len();
        let mut acc: u8 = 0;
        let mut i: usize = 0;
        while i < n
            invariant
                n == self.bytes@.len() == other.bytes@.len(),
                i <= n,
                (acc == 0) <==> (forall|j: int| 0 <= j < i ==> self.bytes@[j] == other.bytes@[j]),
            decreases n - i,
        {
            let a = self.bytes[i];
            let b = other.bytes[i];
            proof {
                lemma_accumulate_difference(acc, a, b);
            }
            acc = acc | (a ^ b);
            i = i + 1;
        }
        if acc == 0 {
            assert(self.bytes@ =~= other.bytes@);
        }
        acc == 0
    }
}

impl PartialEqSpecImpl for Share {
    open spec fn obeys_eq_spec() -> bool {
        true
    }

    open spec fn eq_spec(&self, other: &Share) -> bool {
        self@ == other@
    }
}

impl Eq for Share {
}

impl Drop for Share {
    fn drop(&mut self)
        opens_invariants none
        no_unwind
    {
        proof {
            use_type_invariant(&*self);
        }
        scrub_in_place(&mut self.bytes);
    }
}

} // verus!
