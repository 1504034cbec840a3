//! Split, reconstruct and refresh.

use vstd::prelude::*;
use crate::error::ShamirError;
use crate::field::gf_mul;
use crate::outside::{evaluate, field_mul, fill_random, lagrange_basis, os_rng, scrub};
use crate::poly::{distinct, interpolate_at_zero, isum, lagrange_weight, poly_eval};
use crate::share::{Share, ShareView};
use crate::threshold::Threshold;
use rand_core::TryCryptoRng;

verus! {

/// What each share of a sequence holds.
pub open spec fn views(shares: Seq<Share>) -> Seq<ShareView> {
    shares.map_values(|s: Share| s@)
}

/// The x coordinates of the shares.
pub open spec fn indices(vs: Seq<ShareView>) -> Seq<u8> {
    vs.map_values(|v: ShareView| v.index)
}

/// The byte at `position` of every share.
pub open spec fn column(vs: Seq<ShareView>, position: int) -> Seq<u8> {
    vs.map_values(|v: ShareView| v.bytes[position])
}

/// The secret the shares stand for: at every position, the value at zero of
/// the polynomial through the shares' points there.
pub open spec fn rebuilt(vs: Seq<ShareView>) -> Seq<u8> {
    Seq::new(vs[0].bytes.len(), |p: int| interpolate_at_zero(indices(vs), column(vs, p)))
}

/// The first thing wrong with the shares from position `i` on, in the order
/// they are checked: a zero index, an index seen before, a length other
/// than the first share's.
pub open spec fn problem_from(vs: Seq<ShareView>, i: int) -> Option<ShamirError>
    decreases vs.len() - i,
{
    if i < 0 || i >= vs.len() {
        None
    } else {
        let x = vs[i].index;
        if x == 0 {
            Some(ShamirError::ZeroIndex)
        } else if exists|j: int| 0 <= j < i && #[trigger] vs[j].index == x {
            Some(ShamirError::DuplicateIndex(x))
        } else if vs[i].bytes.len() != vs[0].bytes.len() {
            Some(ShamirError::LengthMismatch {
                expected: vs[0].bytes.len() as usize,
                found: vs[i].bytes.len() as usize,
            })
        } else {
            problem_from(vs, i + 1)
        }
    }
}

/// What is wrong with a set of shares meant for a threshold of `required`,
/// if anything: it must be non-empty, its first share non-empty, its indexes
/// non-zero and distinct, its lengths equal.
pub open spec fn set_problem(vs: Seq<ShareView>, required: u8) -> Option<ShamirError> {
    if vs.len() == 0 {
        Some(ShamirError::TooFewShares { required, provided: 0 })
    } else if vs[0].bytes.len() == 0 {
        Some(ShamirError::EmptyShare)
    } else {
        problem_from(vs, 0)
    }
}

/// Checks a set of shares meant for a threshold of `required`: non-empty,
/// indexes non-zero and distinct, lengths equal. Reports the first problem
/// in the order the shares are checked.
fn validate_set(shares: &[Share], required: u8) -> (r: Result<(), ShamirError>)
    ensures
        match set_problem(views(shares@), required) {
            Some(e) => r == Err::<(), ShamirError>(e),
            None => r == Ok::<(), ShamirError>(()),
        },
{
    let ghost vs = views(shares@);
    if shares.len() == 0 {
        return Err(ShamirError::TooFewShares { required, provided: 0 });
    }
    let expected = shares[0].len();
    let mut seen: Vec<bool> = vec![false; 256];
    let mut i: usize = 0;
    while i < shares.len()
        invariant
            vs == views(shares@),
            vs.len() == shares@.len() > 0,
            expected == vs[0].bytes.len(),
            expected > 0,
            i <= shares@.len(),
            seen@.len() == 256,
            problem_from(vs, 0) == problem_from(vs, i as int),
            forall|v: int|
                #![trigger seen@[v]]
                0 <= v < 256 ==> (seen@[v] <==> exists|j: int| 0 <= j < i && #[trigger] vs[j].index == v),
        decreases shares@.len() - i,
    {
        let x = shares[i].index();
        assert(vs[i as int] == shares@[i as int]@);
        if x == 0 {
            return Err(ShamirError::ZeroIndex);
        }
        if seen[x as usize] {
            assert(seen@[x as int]);
            assert(problem_from(vs, i as int) == Some(ShamirError::DuplicateIndex(x)));
            return Err(ShamirError::DuplicateIndex(x));
        }
        assert(!(exists|j: int| 0 <= j < i && #[trigger] vs[j].index == x));
        seen.set(x as usize, true);
        let found = shares[i].len();
        if found != expected {
            assert(problem_from(vs, i as int) == Some(ShamirError::LengthMismatch { expected, found }));
            return Err(ShamirError::LengthMismatch { expected, found });
        }
        i = i + 1;
        assert forall|v: int| 0 <= v < 256 implies (#[trigger] seen@[v] <==> exists|j: int|
            0 <= j < i && #[trigger] vs[j].index == v) by {
            if v == x {
                assert(vs[i - 1].index == v);
            }
        }
    }
    Ok(())
}

/// The shares are a sound set: indexes non-zero and distinct, lengths equal
/// and non-zero.
pub open spec fn sound_set(vs: Seq<ShareView>) -> bool {
    &&& vs.len() > 0
    &&& vs[0].bytes.len() > 0
    &&& forall|j: int| 0 <= j < vs.len() ==> (#[trigger] vs[j]).index != 0
    &&& forall|j: int| 0 <= j < vs.len() ==> (#[trigger] vs[j]).bytes.len() == vs[0].bytes.len()
    &&& distinct(indices(vs))
}

proof fn lemma_problem_from_none(vs: Seq<ShareView>, i: int)
    requires
        0 <= i,
        problem_from(vs, i) is None,
    ensures
        forall|j: int| i <= j < vs.len() ==> (#[trigger] vs[j]).index != 0,
        forall|j: int| i <= j < vs.len() ==> (#[trigger] vs[j]).bytes.len() == vs[0].bytes.len(),
        forall|j: int, m: int| 0 <= m < j && i <= j < vs.len() ==> vs[m].index != vs[j].index,
    decreases vs.len() - i,
{
    if i < vs.len() {
        lemma_problem_from_none(vs, i + 1);
        assert forall|j: int, m: int| 0 <= m < j && i <= j < vs.len() implies vs[m].index
            != vs[j].index by {
            if j == i {
                if vs[m].index == vs[j].index {
                    assert(exists|jj: int| 0 <= jj < i && #[trigger] vs[jj].index == vs[i].index);
                }
            }
        }
    }
}

/// A set with no problem is sound.
pub proof fn lemma_no_problem_is_sound(vs: Seq<ShareView>, required: u8)
    requires
        set_problem(vs, required) is None,
    ensures
        sound_set(vs),
{
    lemma_problem_from_none(vs, 0);
    let xs = indices(vs);
    assert forall|a: int, b: int| 0 <= a < xs.len() && 0 <= b < xs.len() && a != b implies xs[a]
        != xs[b] by {
        if a < b {
            assert(vs[a].index != vs[b].index);
        } else {
            assert(vs[b].index != vs[a].index);
        }
    }
}

proof fn lemma_sound_has_no_problem_from(vs: Seq<ShareView>, i: int)
    requires
        sound_set(vs),
        0 <= i,
    ensures
        problem_from(vs, i) is None,
    decreases vs.len() - i,
{
    if i < vs.len() {
        lemma_sound_has_no_problem_from(vs, i + 1);
        if exists|j: int| 0 <= j < i && #[trigger] vs[j].index == vs[i].index {
            let j = choose|j: int| 0 <= j < i && #[trigger] vs[j].index == vs[i].index;
            assert(indices(vs)[j] == indices(vs)[i]);
        }
    }
}

/// A sound set has no problem.
pub proof fn lemma_sound_has_no_problem(vs: Seq<ShareView>, required: u8)
    requires
        sound_set(vs),
    ensures
        set_problem(vs, required) is None,
{
    lemma_sound_has_no_problem_from(vs, 0);
}

/// `Σ_m basis[m] · shares[m].bytes[position]`.
fn weighted_sum(shares: &[Share], basis: &Vec<u8>, position: usize) -> (acc: u8)
    requires
        basis@.len() == shares@.len(),
        forall|m: int| 0 <= m < shares@.len() ==> position < (#[trigger] shares@[m])@.bytes.len(),
    ensures
        acc == isum(
            shares@.len(),
            |m: int| gf_mul(basis@[m], shares@[m]@.bytes[position as int]),
        ),
{
    let ghost term = |m: int| gf_mul(basis@[m], shares@[m]@.bytes[position as int]);
    let mut acc: u8 = 0;
    let mut m: usize = 0;
    while m < shares.len()
        invariant
            m <= shares@.len() == basis@.len(),
            forall|mm: int| 0 <= mm < shares@.len() ==> position < (#[trigger] shares@[mm])@.bytes.len(),
            term == (|mm: int| gf_mul(basis@[mm], shares@[mm]@.bytes[position as int])),
            acc == isum(m as nat, term),
        decreases shares@.len() - m,
    {
        let b = shares[m].bytes()[position];
        acc = acc ^ field_mul(basis[m], b);
        m = m + 1;
    }
    acc
}

/// Rebuild the secret from the first `threshold.required()` of `shares`.
///
/// Those shares must carry distinct non-zero indexes and equal lengths.
/// Extra shares beyond the threshold are ignored. Nothing checks that the
/// shares are genuine: a wrong or tampered share produces a wrong secret,
/// so verify the result (a digest kept beside the shares, an AEAD tag on
/// what the secret unlocks) before trusting it.
pub fn reconstruct(shares: &[Share], threshold: Threshold) -> (r: Result<Vec<u8>, ShamirError>)
    ensures
        shares@.len() < threshold@.required ==> r == Err::<Vec<u8>, ShamirError>(
            ShamirError::TooFewShares { required: threshold@.required, provided: shares@.len() as usize },
        ),
        shares@.len() >= threshold@.required ==> match set_problem(
            views(shares@).take(threshold@.required as int),
            threshold@.required,
        ) {
            Some(e) => r == Err::<Vec<u8>, ShamirError>(e),
            None => (r matches Ok(secret) && secret@ == rebuilt(
                views(shares@).take(threshold@.required as int),
            )),
        },
{
    let k8 = threshold.required();
    let k = k8 as usize;
    if shares.len() < k {
        return Err(ShamirError::TooFewShares { required: k8, provided: shares.len() });
    }
    let (selected, _) = shares.split_at(k);
    let ghost vs = views(selected@);
    assert(vs =~= views(shares@).take(k as int));
    match validate_set(selected, k8) {
        Err(e) => {
            return Err(e);
        },
        Ok(()) => {},
    }
    proof {
        lemma_no_problem_is_sound(vs, k8);
    }
    let mut xs: Vec<u8> = Vec::new();
    let mut j: usize = 0;
    while j < k
        invariant
            j <= k == selected@.len(),
            vs == views(selected@),
            xs@ =~= indices(vs).take(j as int),
        decreases k - j,
    {
        xs.push(selected[j].index());
        j = j + 1;
    }
    assert(xs@ =~= indices(vs));
    let basis = lagrange_basis(xs.as_slice());
    let len = selected[0].len();
    let mut secret: Vec<u8> = Vec::new();
    let mut position: usize = 0;
    while position < len
        invariant
            position <= len,
            k == selected@.len() == xs@.len() == basis@.len(),
            vs == views(selected@),
            sound_set(vs),
            len == vs[0].bytes.len(),
            xs@ == indices(vs),
            forall|m: int| 0 <= m < k ==> #[trigger] basis@[m] == lagrange_weight(xs@, m),
            secret@ =~= rebuilt(vs).take(position as int),
        decreases len - position,
    {
        proof {
            assert forall|m: int| 0 <= m < k implies position < (#[trigger] selected@[m])@.bytes.len() by {
                assert(vs[m] == selected@[m]@);
            }
        }
        let acc = weighted_sum(selected, &basis, position);
        proof {
            let ys = column(vs, position as int);
            let t1 = |m: int| gf_mul(basis@[m], selected@[m]@.bytes[position as int]);
            let t2 = |m: int| gf_mul(lagrange_weight(indices(vs), m), ys[m]);
            assert forall|m: int| 0 <= m < k implies #[trigger] t1(m) == t2(m) by {
                assert(vs[m] == selected@[m]@);
            }
            crate::poly::lemma_isum_congruent(k as nat, t1, t2);
        }
        secret.push(acc);
        position = position + 1;
    }
    assert(secret@ =~= rebuilt(vs));
    Ok(secret)
}

/// The x coordinate of the share at `position`: positions count from zero,
/// x coordinates from one.
pub open spec fn share_x(position: int) -> u8 {
    (position + 1) as u8
}

fn x_of(position: usize) -> (x: u8)
    requires
        position < 255,
    ensures
        x == share_x(position as int),
        x != 0,
{
    (position + 1) as u8
}

/// One list of random coefficients per byte of a secret of `len` bytes,
/// `k − 1` in each.
pub open spec fn coefficients_fit(coefficients: Seq<Seq<u8>>, len: nat, k: nat) -> bool {
    &&& coefficients.len() == len
    &&& forall|p: int| 0 <= p < len ==> #[trigger] coefficients[p].len() + 1 == k
}

/// The contents of each vector.
pub open spec fn contents(vs: Seq<Vec<u8>>) -> Seq<Seq<u8>> {
    vs.map_values(|v: Vec<u8>| v@)
}

/// The polynomial that hides the byte at `position`: that byte as the
/// constant term, the random coefficients above it.
pub open spec fn byte_polynomial(secret: Seq<u8>, coefficients: Seq<Seq<u8>>, position: int) -> Seq<u8> {
    seq![secret[position]] + coefficients[position]
}

/// The share at `i`: every byte's polynomial evaluated at `x = i + 1`.
pub open spec fn dealt_share(secret: Seq<u8>, coefficients: Seq<Seq<u8>>, i: int) -> ShareView {
    ShareView {
        index: share_x(i),
        bytes: Seq::new(
            secret.len(),
            |p: int| poly_eval(byte_polynomial(secret, coefficients, p), share_x(i)),
        ),
    }
}

/// The `n` shares of `secret` under these coefficients.
pub open spec fn dealt(secret: Seq<u8>, coefficients: Seq<Seq<u8>>, n: nat) -> Seq<ShareView> {
    Seq::new(n, |i: int| dealt_share(secret, coefficients, i))
}

/// Scrubs every vector and empties the list.
fn scrub_all(vs: &mut Vec<Vec<u8>>)
    ensures
        final(vs)@.len() == 0,
{
    while vs.len() > 0
        decreases vs@.len(),
    {
        let mut v = vs.pop().unwrap();
        scrub(&mut v);
    }
}

/// Split `secret` into `threshold.total()` shares with the given random
/// coefficients, `required − 1` of them for every byte of the secret.
///
/// Every byte gets its own polynomial: the byte as the constant term, its
/// coefficients above it. Share `i` (counting from zero) holds every
/// polynomial evaluated at `x = i + 1`.
pub fn split_with_coefficients(
    secret: &[u8],
    threshold: Threshold,
    coefficients: &[Vec<u8>],
) -> (shares: Vec<Share>)
    requires
        secret@.len() > 0,
        coefficients_fit(contents(coefficients@), secret@.len(), threshold@.required as nat),
    ensures
        views(shares@) == dealt(secret@, contents(coefficients@), threshold@.total as nat),
{
    let n = threshold.total() as usize;
    let len = secret.len();
    let ghost cs = contents(coefficients@);
    let mut polys: Vec<Vec<u8>> = Vec::new();
    let mut p: usize = 0;
    while p < len
        invariant
            p <= len == secret@.len() == coefficients@.len(),
            cs == contents(coefficients@),
            polys@.len() == p,
            forall|q: int| 0 <= q < p ==> (#[trigger] polys@[q])@ == byte_polynomial(secret@, cs, q),
        decreases len - p,
    {
        let mut poly: Vec<u8> = vec![secret[p]];
        poly.extend_from_slice(coefficients[p].as_slice());
        assert(poly@ =~= byte_polynomial(secret@, cs, p as int));
        polys.push(poly);
        p = p + 1;
    }
    let mut shares: Vec<Share> = Vec::new();
    let mut i: usize = 0;
    while i < n
        invariant
            i <= n <= 255,
            len == secret@.len() == polys@.len(),
            len > 0,
            forall|q: int| 0 <= q < len ==> (#[trigger] polys@[q])@ == byte_polynomial(secret@, cs, q),
            views(shares@) =~= dealt(secret@, cs, n as nat).take(i as int),
        decreases n - i,
    {
        let x = x_of(i);
        let mut bytes: Vec<u8> = Vec::new();
        let mut q: usize = 0;
        while q < len
            invariant
                q <= len == secret@.len() == polys@.len(),
                i < n <= 255,
                x == share_x(i as int),
                forall|qq: int| 0 <= qq < len ==> (#[trigger] polys@[qq])@ == byte_polynomial(secret@, cs, qq),
                bytes@ =~= dealt_share(secret@, cs, i as int).bytes.take(q as int),
            decreases len - q,
        {
            bytes.push(evaluate(polys[q].as_slice(), x));
            q = q + 1;
        }
        assert(bytes@ =~= dealt_share(secret@, cs, i as int).bytes);
        let share = Share::from_parts(x, bytes);
        assert(share@ =~= dealt_share(secret@, cs, i as int));
        let ghost before = shares@;
        shares.push(share);
        assert(views(shares@) =~= views(before).push(dealt_share(secret@, cs, i as int)));
        i = i + 1;
    }
    scrub_all(&mut polys);
    shares
}

/// Split `secret` into `threshold.total()` shares using `rng` for the
/// polynomial coefficients.
///
/// Every byte gets its own polynomial: the byte as the constant term,
/// `required − 1` random coefficients above it, drawn byte position by byte
/// position. The coefficients are scrubbed when the split finishes. A
/// generator that fails to produce bytes aborts the split with
/// [`ShamirError::Randomness`]; no partial shares are returned.
///
/// The contract says the shares are those of the secret under some
/// coefficients of the right shape; which coefficients is the generator's
/// to decide, so it cannot say that they are the bytes the generator gave.
/// [`split_with_coefficients`] states the shares exactly for given
/// coefficients.
pub fn split_with<R: TryCryptoRng + ?Sized>(
    secret: &[u8],
    threshold: Threshold,
    rng: &mut R,
) -> (r: Result<Vec<Share>, ShamirError>)
    ensures
        secret@.len() == 0 ==> r == Err::<Vec<Share>, ShamirError>(ShamirError::EmptySecret),
        secret@.len() > 0 ==> r == Err::<Vec<Share>, ShamirError>(ShamirError::Randomness) || (
        r matches Ok(shares) && exists|coefficients: Seq<Seq<u8>>|
            coefficients_fit(coefficients, secret@.len(), threshold@.required as nat) && views(shares@)
                == dealt(secret@, coefficients, threshold@.total as nat)),
{
    if secret.len() == 0 {
        return Err(ShamirError::EmptySecret);
    }
    let required = threshold.required() as usize;
    let len = secret.len();
    let mut drawn: Vec<Vec<u8>> = Vec::new();
    let mut p: usize = 0;
    while p < len
        invariant
            p <= len == secret@.len(),
            2 <= required == threshold@.required,
            drawn@.len() == p,
            forall|q: int| 0 <= q < p ==> (#[trigger] drawn@[q])@.len() + 1 == required,
        decreases len - p,
    {
        let mut random: Vec<u8> = vec![0u8; required - 1];
        if !fill_random(rng, &mut random) {
            scrub(&mut random);
            scrub_all(&mut drawn);
            return Err(ShamirError::Randomness);
        }
        drawn.push(random);
        p = p + 1;
    }
    let ghost cs = contents(drawn@);
    let shares = split_with_coefficients(secret, threshold, drawn.as_slice());
    scrub_all(&mut drawn);
    assert(coefficients_fit(cs, secret@.len(), threshold@.required as nat));
    Ok(shares)
}

/// [`split_with`] using the operating system's generator.
///
/// Its contract is that of [`split_with`]: whether the operating system
/// delivers bytes, and which, is not something a contract can state.
pub fn split(secret: &[u8], threshold: Threshold) -> (r: Result<Vec<Share>, ShamirError>)
    ensures
        secret@.len() == 0 ==> r == Err::<Vec<Share>, ShamirError>(ShamirError::EmptySecret),
        secret@.len() > 0 ==> r == Err::<Vec<Share>, ShamirError>(ShamirError::Randomness) || (
        r matches Ok(shares) && exists|coefficients: Seq<Seq<u8>>|
            coefficients_fit(coefficients, secret@.len(), threshold@.required as nat) && views(shares@)
                == dealt(secret@, coefficients, threshold@.total as nat)),
{
    let mut rng = os_rng();
    split_with(secret, threshold, &mut rng)
}

/// The share after a refresh: at each position `p` below `deltas.len()`, the
/// zero-constant polynomial with coefficients `0, deltas[p]` evaluated at the
/// share's index is added to its byte; later positions are left alone.
pub open spec fn refreshed_share(v: ShareView, deltas: Seq<Seq<u8>>) -> ShareView {
    ShareView {
        index: v.index,
        bytes: Seq::new(
            v.bytes.len(),
            |p: int|
                if p < deltas.len() {
                    v.bytes[p] ^ poly_eval(seq![0u8] + deltas[p], v.index)
                } else {
                    v.bytes[p]
                },
        ),
    }
}

/// Every share refreshed with the same `deltas`.
pub open spec fn refreshed(vs: Seq<ShareView>, deltas: Seq<Seq<u8>>) -> Seq<ShareView> {
    vs.map_values(|v: ShareView| refreshed_share(v, deltas))
}

fn apply_refresh(shares: &mut [Share], deltas: &[Vec<u8>])
    requires
        sound_set(views(old(shares)@)),
    ensures
        views(final(shares)@) == refreshed(views(old(shares)@), contents(deltas@)),
{
    let ghost original = views(shares@);
    let ghost ds = contents(deltas@);
    let mut polys: Vec<Vec<u8>> = Vec::new();
    let mut p: usize = 0;
    while p < deltas.len()
        invariant
            p <= deltas@.len(),
            ds == contents(deltas@),
            polys@.len() == p,
            forall|q: int| 0 <= q < p ==> (#[trigger] polys@[q])@ == seq![0u8] + ds[q],
        decreases deltas@.len() - p,
    {
        let mut poly: Vec<u8> = vec![0u8];
        poly.extend_from_slice(deltas[p].as_slice());
        assert(poly@ =~= seq![0u8] + ds[p as int]);
        polys.push(poly);
        p = p + 1;
    }
    let count = shares.len();
    let mut i: usize = 0;
    while i < count
        invariant
            i <= count == shares@.len() == original.len(),
            sound_set(original),
            polys@.len() == ds.len(),
            forall|q: int| 0 <= q < ds.len() ==> (#[trigger] polys@[q])@ == seq![0u8] + ds[q],
            forall|j: int| 0 <= j < i ==> (#[trigger] shares@[j])@ == refreshed_share(original[j], ds),
            forall|j: int| i <= j < count ==> (#[trigger] shares@[j])@ == original[j],
        decreases count - i,
    {
        let x = shares[i].index();
        let len = shares[i].len();
        assert(shares@[i as int]@ == original[i as int]);
        let ghost old_bytes = original[i as int].bytes;
        let mut bytes: Vec<u8> = Vec::new();
        let mut q: usize = 0;
        while q < len
            invariant
                q <= len == old_bytes.len(),
                old_bytes.len() == original[0].bytes.len(),
                old_bytes == shares@[i as int]@.bytes,
                x == shares@[i as int]@.index,
                i < shares@.len(),
                polys@.len() == ds.len(),
                forall|qq: int| 0 <= qq < ds.len() ==> (#[trigger] polys@[qq])@ == seq![0u8] + ds[qq],
                bytes@ =~= refreshed_share(original[i as int], ds).bytes.take(q as int),
                original[i as int].bytes == old_bytes,
                original[i as int].index == x,
            decreases len - q,
        {
            let b = shares[i].bytes()[q];
            if q < polys.len() {
                bytes.push(b ^ evaluate(polys[q].as_slice(), x));
            } else {
                bytes.push(b);
            }
            q = q + 1;
        }
        assert(bytes@ =~= refreshed_share(original[i as int], ds).bytes);
        let share = Share::from_parts(x, bytes);
        assert(share@ =~= refreshed_share(original[i as int], ds));
        shares[i] = share;
        i = i + 1;
    }
    assert(views(shares@) =~= refreshed(original, ds));
    scrub_all(&mut polys);
}

/// Re-randomize `shares` in place with the given coefficients: at every
/// position `p` below `coefficients.len()`, the polynomial `0 + c_1·x + ...`
/// with `coefficients[p]` above its zero constant term is added to every
/// share's byte, evaluated at the share's index. The set is checked first,
/// as [`reconstruct`] checks its shares, and left alone when it fails.
pub fn refresh_with_coefficients(
    shares: &mut [Share],
    threshold: Threshold,
    coefficients: &[Vec<u8>],
) -> (r: Result<(), ShamirError>)
    requires
        forall|p: int| 0 <= p < coefficients@.len() ==> (#[trigger] coefficients@[p])@.len() + 1
            == threshold@.required,
    ensures
        set_problem(views(old(shares)@), threshold@.required) is Some ==> r == Err::<(), ShamirError>(
            set_problem(views(old(shares)@), threshold@.required)->0,
        ) && views(final(shares)@) == views(old(shares)@),
        set_problem(views(old(shares)@), threshold@.required) is None ==> r == Ok::<(), ShamirError>(()) && views(
            final(shares)@,
        ) == refreshed(views(old(shares)@), contents(coefficients@)),
{
    let required8 = threshold.required();
    match validate_set(shares, required8) {
        Err(e) => {
            return Err(e);
        },
        Ok(()) => {},
    }
    proof {
        lemma_no_problem_is_sound(views(shares@), required8);
    }
    apply_refresh(shares, coefficients);
    Ok(())
}

/// Re-randomize `shares` in place so that they still rebuild the same
/// secret but no longer combine with the shares they replace.
///
/// A random polynomial with a zero constant term is added to every byte's
/// polynomial, which leaves the secret alone and changes every share. All
/// shares that are meant to keep working must be refreshed together: any
/// share left out stops combining with the refreshed ones. `threshold` is
/// the policy the shares were split with. When the generator fails, the
/// positions drawn before the failure stay refreshed and the rest are left
/// as they were.
///
/// The contract says some refresh coefficients of the right shape were
/// applied; which ones is the generator's to decide, so it cannot say that
/// they are the bytes the generator gave. [`refresh_with_coefficients`]
/// states the result exactly for given coefficients.
pub fn refresh_with<R: TryCryptoRng + ?Sized>(
    shares: &mut [Share],
    threshold: Threshold,
    rng: &mut R,
) -> (r: Result<(), ShamirError>)
    ensures
        set_problem(views(old(shares)@), threshold@.required) is Some ==> r == Err::<(), ShamirError>(
            set_problem(views(old(shares)@), threshold@.required)->0,
        ) && views(final(shares)@) == views(old(shares)@),
        set_problem(views(old(shares)@), threshold@.required) is None ==> exists|deltas: Seq<Seq<u8>>|
            #![trigger refreshed(views(old(shares)@), deltas)]
            {
                &&& deltas.len() <= views(old(shares)@)[0].bytes.len()
                &&& forall|p: int| 0 <= p < deltas.len() ==> #[trigger] deltas[p].len() + 1
                    == threshold@.required
                &&& views(final(shares)@) == refreshed(views(old(shares)@), deltas)
                &&& r is Ok <==> deltas.len() == views(old(shares)@)[0].bytes.len()
                &&& r is Err ==> r == Err::<(), ShamirError>(ShamirError::Randomness)
            },
{
    let required8 = threshold.required();
    match validate_set(shares, required8) {
        Err(e) => {
            return Err(e);
        },
        Ok(()) => {},
    }
    proof {
        lemma_no_problem_is_sound(views(shares@), required8);
    }
    let required = threshold.required() as usize;
    let len = shares[0].len();
    assert(shares@[0]@ == views(shares@)[0]);
    let mut drawn: Vec<Vec<u8>> = Vec::new();
    let mut failed = false;
    let mut p: usize = 0;
    while p < len
        invariant_except_break
            p <= len,
            !failed,
        invariant
            2 <= required == threshold@.required,
            drawn@.len() == p,
            p <= len,
            forall|q: int| 0 <= q < p ==> (#[trigger] drawn@[q])@.len() + 1 == required,
        ensures
            failed || p == len,
            failed ==> p < len,
            p <= len,
        decreases len - p,
    {
        let mut random: Vec<u8> = vec![0u8; required - 1];
        if !fill_random(rng, &mut random) {
            scrub(&mut random);
            failed = true;
            break;
        }
        drawn.push(random);
        p = p + 1;
    }
    let ghost ds = contents(drawn@);
    let ghost before = views(shares@);
    apply_refresh(shares, drawn.as_slice());
    scrub_all(&mut drawn);
    assert(views(shares@) == refreshed(before, ds));
    assert(ds.len() == p);
    assert(before[0].bytes.len() == len);
    if failed {
        Err(ShamirError::Randomness)
    } else {
        Ok(())
    }
}

/// [`refresh_with`] using the operating system's generator.
///
/// Its contract is that of [`refresh_with`]: whether the operating system
/// delivers bytes, and which, is not something a contract can state.
pub fn refresh(shares: &mut [Share], threshold: Threshold) -> (r: Result<(), ShamirError>)
    ensures
        set_problem(views(old(shares)@), threshold@.required) is Some ==> r == Err::<(), ShamirError>(
            set_problem(views(old(shares)@), threshold@.required)->0,
        ) && views(final(shares)@) == views(old(shares)@),
        set_problem(views(old(shares)@), threshold@.required) is None ==> exists|deltas: Seq<Seq<u8>>|
            #![trigger refreshed(views(old(shares)@), deltas)]
            {
                &&& deltas.len() <= views(old(shares)@)[0].bytes.len()
                &&& forall|p: int| 0 <= p < deltas.len() ==> #[trigger] deltas[p].len() + 1
                    == threshold@.required
                &&& views(final(shares)@) == refreshed(views(old(shares)@), deltas)
                &&& r is Ok <==> deltas.len() == views(old(shares)@)[0].bytes.len()
                &&& r is Err ==> r == Err::<(), ShamirError>(ShamirError::Randomness)
            },
{
    let mut rng = os_rng();
    refresh_with(shares, threshold, &mut rng)
}

} // verus!
