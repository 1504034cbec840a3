//! What holds of the scheme as a whole.

use vstd::prelude::*;
use crate::field::{gf_inv, gf_mul, lemma_add_facts, lemma_mul_inverse, lemma_mul_zero_one, lemma_no_zero_divisors};
use crate::poly::{
    distinct, interpolate_at_zero, interpolating_poly, isum, lagrange_weight, lemma_interpolate_add,
    lemma_isum_remove, lemma_isum_zero, lemma_pprod_nonzero, lemma_spread_nonzero, pprod, skip_index,
    spread,
    lemma_interpolating_poly_passes, lemma_interpolation_at_zero, lemma_poly_eval_add,
    lemma_poly_eval_at_zero, lemma_vanishing_polynomial_is_zero, poly_add, poly_eval,
};
use crate::scheme::{
    byte_polynomial, coefficients_fit, column, dealt, dealt_share, indices, lemma_sound_has_no_problem,
    rebuilt, refreshed, refreshed_share, set_problem, share_x, sound_set,
};
use crate::share::ShareView;

verus! {

/// Any `k` of the `n` shares of a split, in any order, rebuild the secret:
/// together they pass every check, and at every position the value at zero
/// of the polynomial through their points is the secret's byte. The first
/// `k` of a longer selection are the ones used.
pub proof fn lemma_any_k_shares_rebuild_the_secret(
    secret: Seq<u8>,
    coefficients: Seq<Seq<u8>>,
    k: nat,
    n: nat,
    chosen: Seq<int>,
)
    requires
        secret.len() > 0,
        2 <= k <= n <= 255,
        coefficients_fit(coefficients, secret.len(), k),
        chosen.len() >= k,
        forall|j: int| 0 <= j < chosen.len() ==> 0 <= #[trigger] chosen[j] < n,
        forall|a: int, b: int| 0 <= a < chosen.len() && 0 <= b < chosen.len() && a != b ==> chosen[a] != chosen[b],
    ensures
        ({
            let picked = chosen.map_values(|i: int| dealt(secret, coefficients, n)[i]).take(k as int);
            set_problem(picked, k as u8) is None && rebuilt(picked) == secret
        }),
{
    let shares = dealt(secret, coefficients, n);
    let picked = chosen.map_values(|i: int| shares[i]).take(k as int);
    assert forall|j: int| 0 <= j < k implies #[trigger] picked[j] == dealt_share(
        secret,
        coefficients,
        chosen[j],
    ) by {}
    let xs = indices(picked);
    assert forall|j: int| 0 <= j < k implies #[trigger] xs[j] == chosen[j] + 1 by {}
    assert(distinct(xs)) by {
        assert forall|a: int, b: int| 0 <= a < xs.len() && 0 <= b < xs.len() && a != b implies xs[a]
            != xs[b] by {
            assert(xs[a] == chosen[a] + 1);
            assert(xs[b] == chosen[b] + 1);
        }
    }
    assert(sound_set(picked));
    lemma_sound_has_no_problem(picked, k as u8);
    assert forall|p: int| 0 <= p < secret.len() implies #[trigger] rebuilt(picked)[p] == secret[p] by {
        let c = byte_polynomial(secret, coefficients, p);
        let ys = column(picked, p);
        assert forall|j: int| 0 <= j < xs.len() implies ys[j] == poly_eval(c, #[trigger] xs[j]) by {}
        lemma_interpolation_at_zero(xs, ys, c);
        lemma_poly_eval_at_zero(c);
    }
    assert(rebuilt(picked) =~= secret);
}

/// Refreshing keeps the secret: for any sound set of at least `k` shares
/// and any refresh whose polynomials have fewer than `k` coefficients, the
/// refreshed shares rebuild exactly what the shares before rebuilt.
pub proof fn lemma_refresh_keeps_the_secret(vs: Seq<ShareView>, deltas: Seq<Seq<u8>>, k: nat)
    requires
        sound_set(vs),
        vs.len() >= k,
        deltas.len() <= vs[0].bytes.len(),
        forall|p: int| 0 <= p < deltas.len() ==> #[trigger] deltas[p].len() + 1 == k,
    ensures
        set_problem(refreshed(vs, deltas), k as u8) is None,
        rebuilt(refreshed(vs, deltas)) == rebuilt(vs),
{
    let ws = refreshed(vs, deltas);
    assert forall|j: int| 0 <= j < vs.len() implies #[trigger] ws[j] == refreshed_share(vs[j], deltas) by {}
    assert(indices(ws) =~= indices(vs));
    assert(sound_set(ws));
    lemma_sound_has_no_problem(ws, k as u8);
    let xs = indices(vs);
    assert forall|p: int| 0 <= p < vs[0].bytes.len() implies #[trigger] rebuilt(ws)[p] == rebuilt(vs)[p] by {
        let ys = column(vs, p);
        if p < deltas.len() {
            let c = seq![0u8] + deltas[p];
            let zs = Seq::new(xs.len(), |j: int| poly_eval(c, xs[j]));
            assert(column(ws, p) =~= poly_add(ys, zs));
            lemma_interpolate_add(xs, ys, zs);
            lemma_interpolation_at_zero(xs, zs, c);
            lemma_poly_eval_at_zero(c);
            lemma_add_facts(interpolate_at_zero(xs, ys), 0, 0);
        } else {
            assert(column(ws, p) =~= ys);
        }
    }
    assert(rebuilt(ws) =~= rebuilt(vs));
}

/// The coefficient-wise sum of two lists of coefficients.
pub open spec fn add_coefficients(a: Seq<Seq<u8>>, b: Seq<Seq<u8>>) -> Seq<Seq<u8>> {
    Seq::new(a.len(), |p: int| poly_add(a[p], b[p]))
}

/// Refreshing every position of a split's shares gives the shares of the
/// same secret under the summed coefficients: refreshed shares are shares
/// of a fresh split, so any `k` of them rebuild the secret.
pub proof fn lemma_refreshed_split_is_a_split(
    secret: Seq<u8>,
    coefficients: Seq<Seq<u8>>,
    deltas: Seq<Seq<u8>>,
    k: nat,
    n: nat,
)
    requires
        secret.len() > 0,
        2 <= k <= n <= 255,
        coefficients_fit(coefficients, secret.len(), k),
        coefficients_fit(deltas, secret.len(), k),
    ensures
        coefficients_fit(add_coefficients(coefficients, deltas), secret.len(), k),
        refreshed(dealt(secret, coefficients, n), deltas) == dealt(
            secret,
            add_coefficients(coefficients, deltas),
            n,
        ),
{
    let sum = add_coefficients(coefficients, deltas);
    let before = dealt(secret, coefficients, n);
    let after = dealt(secret, sum, n);
    let ws = refreshed(before, deltas);
    assert forall|i: int| 0 <= i < n implies #[trigger] ws[i] == after[i] by {
        let x = share_x(i);
        assert forall|p: int| 0 <= p < secret.len() implies #[trigger] ws[i].bytes[p] == after[i].bytes[p] by {
            let a = byte_polynomial(secret, coefficients, p);
            let d = seq![0u8] + deltas[p];
            lemma_add_facts(secret[p], 0, 0);
            assert(poly_add(a, d) =~= byte_polynomial(secret, sum, p));
            lemma_poly_eval_add(a, d, x);
        }
        assert(ws[i].bytes =~= after[i].bytes);
    }
    assert(ws =~= after);
}

/// The points `0, x_1, ..., x_m`.
pub open spec fn with_zero(xs: Seq<u8>) -> Seq<u8> {
    seq![0u8] + xs
}

proof fn lemma_with_zero_distinct(xs: Seq<u8>)
    requires
        distinct(xs),
        forall|j: int| 0 <= j < xs.len() ==> xs[j] != 0,
    ensures
        distinct(with_zero(xs)),
{
    let pts = with_zero(xs);
    assert forall|i: int, j: int| 0 <= i < pts.len() && 0 <= j < pts.len() && i != j implies pts[i]
        != pts[j] by {
        if i > 0 {
            assert(pts[i] == xs[i - 1]);
        }
        if j > 0 {
            assert(pts[j] == xs[j - 1]);
        }
    }
}

/// Fewer than `k` shares say nothing about the secret. Take any `k − 1`
/// distinct non-zero share indexes, any byte of the secret and any values
/// for those shares' bytes: some choice of the `k − 1` random coefficients
/// above the secret byte gives exactly those values. With
/// [`lemma_share_values_fix_the_coefficients`], that choice is unique, so
/// uniformly random coefficients make the `k − 1` bytes uniformly random
/// whatever the secret.
pub proof fn lemma_fewer_than_k_shares_say_nothing(xs: Seq<u8>, secret_byte: u8, ys: Seq<u8>)
    requires
        distinct(xs),
        forall|j: int| 0 <= j < xs.len() ==> xs[j] != 0,
        ys.len() == xs.len(),
    ensures
        exists|random: Seq<u8>|
            random.len() == xs.len() && forall|j: int|
                0 <= j < xs.len() ==> #[trigger] poly_eval(seq![secret_byte] + random, xs[j]) == ys[j],
{
    let pts = with_zero(xs);
    let vals = seq![secret_byte] + ys;
    lemma_with_zero_distinct(xs);
    let l = interpolating_poly(pts, vals, pts.len());
    lemma_interpolating_poly_passes(pts, vals, 0);
    lemma_poly_eval_at_zero(l);
    let random = l.drop_first();
    assert(seq![secret_byte] + random =~= l);
    assert forall|j: int| 0 <= j < xs.len() implies #[trigger] poly_eval(
        seq![secret_byte] + random,
        xs[j],
    ) == ys[j] by {
        lemma_interpolating_poly_passes(pts, vals, j + 1);
        assert(pts[j + 1] == xs[j]);
    }
}

/// The values of `k − 1` shares and the secret byte fix the random
/// coefficients: two choices that give the same share values are the same.
pub proof fn lemma_share_values_fix_the_coefficients(
    xs: Seq<u8>,
    secret_byte: u8,
    random1: Seq<u8>,
    random2: Seq<u8>,
)
    requires
        distinct(xs),
        forall|j: int| 0 <= j < xs.len() ==> xs[j] != 0,
        random1.len() == xs.len(),
        random2.len() == xs.len(),
        forall|j: int|
            0 <= j < xs.len() ==> poly_eval(seq![secret_byte] + random1, #[trigger] xs[j])
                == poly_eval(seq![secret_byte] + random2, xs[j]),
    ensures
        random1 == random2,
{
    let pts = with_zero(xs);
    lemma_with_zero_distinct(xs);
    let a = seq![secret_byte] + random1;
    let b = seq![secret_byte] + random2;
    let d = poly_add(a, b);
    assert forall|j: int| 0 <= j < pts.len() implies poly_eval(d, #[trigger] pts[j]) == 0 by {
        lemma_poly_eval_add(a, b, pts[j]);
        if j == 0 {
            lemma_poly_eval_at_zero(a);
            lemma_poly_eval_at_zero(b);
        } else {
            assert(pts[j] == xs[j - 1]);
        }
        lemma_add_facts(poly_eval(a, pts[j]), 0, 0);
    }
    lemma_vanishing_polynomial_is_zero(d, pts);
    assert forall|i: int| 0 <= i < random1.len() implies random1[i] == random2[i] by {
        assert(d[i + 1] == random1[i] ^ random2[i]);
        lemma_add_facts(random1[i], random2[i], 0);
    }
    assert(random1 =~= random2);
}

/// What `k − 1` of the shares at the share indexes `xs` hold at one
/// position when the coefficients there are `random`.
pub open spec fn fits_values(xs: Seq<u8>, secret_byte: u8, ys: Seq<u8>, random: Seq<u8>) -> bool {
    &&& random.len() == xs.len()
    &&& forall|j: int| 0 <= j < xs.len() ==> #[trigger] poly_eval(seq![secret_byte] + random, xs[j]) == ys[j]
}

/// Any `k − 1` shares of a split could hold anything, whatever the secret:
/// for every secret and every choice of bytes for `k − 1` of the `n` shares,
/// some coefficients make the split deal exactly those bytes to them.
pub proof fn lemma_k_minus_one_shares_fit_any_secret(
    secret: Seq<u8>,
    k: nat,
    n: nat,
    chosen: Seq<int>,
    wanted: Seq<Seq<u8>>,
)
    requires
        secret.len() > 0,
        2 <= k <= n <= 255,
        chosen.len() + 1 == k,
        forall|j: int| 0 <= j < chosen.len() ==> 0 <= #[trigger] chosen[j] < n,
        forall|a: int, b: int| 0 <= a < chosen.len() && 0 <= b < chosen.len() && a != b ==> chosen[a] != chosen[b],
        wanted.len() == chosen.len(),
        forall|j: int| 0 <= j < wanted.len() ==> (#[trigger] wanted[j]).len() == secret.len(),
    ensures
        exists|coefficients: Seq<Seq<u8>>|
            coefficients_fit(coefficients, secret.len(), k) && forall|j: int|
                0 <= j < chosen.len() ==> (#[trigger] dealt(secret, coefficients, n)[chosen[j]]).bytes
                    == wanted[j],
{
    let xs = chosen.map_values(|i: int| share_x(i));
    assert(distinct(xs)) by {
        assert forall|a: int, b: int| 0 <= a < xs.len() && 0 <= b < xs.len() && a != b implies xs[a]
            != xs[b] by {
            assert(xs[a] == chosen[a] + 1);
            assert(xs[b] == chosen[b] + 1);
        }
    }
    assert forall|j: int| 0 <= j < xs.len() implies xs[j] != 0 by {
        assert(xs[j] == chosen[j] + 1);
    }
    let column_of = |p: int| wanted.map_values(|w: Seq<u8>| w[p]);
    let pick = |p: int| choose|r: Seq<u8>| #[trigger] fits_values(xs, secret[p], column_of(p), r);
    assert forall|p: int| 0 <= p < secret.len() implies fits_values(
        xs,
        secret[p],
        column_of(p),
        #[trigger] pick(p),
    ) by {
        lemma_fewer_than_k_shares_say_nothing(xs, secret[p], column_of(p));
        let r = choose|r: Seq<u8>|
            r.len() == xs.len() && forall|j: int|
                0 <= j < xs.len() ==> #[trigger] poly_eval(seq![secret[p]] + r, xs[j]) == column_of(p)[j];
        assert(fits_values(xs, secret[p], column_of(p), r));
    }
    let coefficients = Seq::new(secret.len(), |p: int| pick(p));
    assert(coefficients_fit(coefficients, secret.len(), k)) by {
        assert forall|p: int| 0 <= p < secret.len() implies #[trigger] coefficients[p].len() + 1 == k by {
            assert(fits_values(xs, secret[p], column_of(p), pick(p)));
        }
    }
    assert forall|j: int| 0 <= j < chosen.len() implies (#[trigger] dealt(
        secret,
        coefficients,
        n,
    )[chosen[j]]).bytes == wanted[j] by {
        let v = dealt(secret, coefficients, n)[chosen[j]];
        assert forall|p: int| 0 <= p < secret.len() implies v.bytes[p] == wanted[j][p] by {
            assert(fits_values(xs, secret[p], column_of(p), pick(p)));
            assert(xs[j] == share_x(chosen[j]));
            assert(column_of(p)[j] == wanted[j][p]);
        }
        assert(v.bytes =~= wanted[j]);
    }
}


/// Every Lagrange weight of distinct non-zero points is non-zero.
pub proof fn lemma_lagrange_weight_nonzero(xs: Seq<u8>, j: int)
    requires
        distinct(xs),
        forall|m: int| 0 <= m < xs.len() ==> #[trigger] xs[m] != 0,
        0 <= j < xs.len(),
    ensures
        lagrange_weight(xs, j) != 0,
{
    let r = xs.remove(j);
    assert forall|m: int| 0 <= m < r.len() implies r[m] != 0 by {
        assert(r[m] == xs[skip_index(m, j)]);
    }
    lemma_pprod_nonzero(r);
    let s = spread(xs, j);
    lemma_spread_nonzero(xs, j);
    lemma_mul_inverse(s);
    lemma_mul_zero_one(s);
    lemma_no_zero_divisors(pprod(r), gf_inv(s));
}

/// A wrong or tampered share rebuilds a wrong secret, without complaint:
/// when one byte of one share of a sound set is changed, the set still
/// passes the checks, the rebuilt secret differs at that position, and only
/// there.
pub proof fn lemma_a_tampered_share_changes_only_its_position(
    vs: Seq<ShareView>,
    ws: Seq<ShareView>,
    i: int,
    p: int,
    k: u8,
)
    requires
        sound_set(vs),
        ws.len() == vs.len(),
        0 <= i < vs.len(),
        0 <= p < vs[0].bytes.len(),
        forall|j: int| 0 <= j < vs.len() ==> (#[trigger] ws[j]).index == vs[j].index,
        forall|j: int| 0 <= j < vs.len() ==> (#[trigger] ws[j]).bytes.len() == vs[j].bytes.len(),
        forall|j: int, q: int|
            0 <= j < vs.len() && 0 <= q < vs[0].bytes.len() && (j != i || q != p) ==> (#[trigger] ws[j].bytes[q])
                == vs[j].bytes[q],
        ws[i].bytes[p] != vs[i].bytes[p],
    ensures
        set_problem(ws, k) is None,
        rebuilt(ws).len() == rebuilt(vs).len(),
        rebuilt(ws)[p] != rebuilt(vs)[p],
        forall|q: int| 0 <= q < rebuilt(vs).len() && q != p ==> #[trigger] rebuilt(ws)[q] == rebuilt(vs)[q],
{
    let n = vs.len();
    let xs = indices(vs);
    assert(indices(ws) =~= xs);
    assert(sound_set(ws));
    lemma_sound_has_no_problem(ws, k);
    assert forall|q: int| 0 <= q < rebuilt(vs).len() && q != p implies #[trigger] rebuilt(ws)[q]
        == rebuilt(vs)[q] by {
        assert(column(ws, q) =~= column(vs, q));
    }
    let ys = column(vs, p);
    let d = vs[i].bytes[p] ^ ws[i].bytes[p];
    let ds = Seq::new(n, |j: int| if j == i { d } else { 0u8 });
    assert(column(ws, p) =~= poly_add(ys, ds)) by {
        assert forall|j: int| 0 <= j < n implies column(ws, p)[j] == poly_add(ys, ds)[j] by {
            lemma_add_facts(vs[j].bytes[p], ws[j].bytes[p], 0);
            lemma_add_facts(vs[j].bytes[p], vs[j].bytes[p], ws[j].bytes[p]);
            lemma_add_facts(ws[j].bytes[p], 0, 0);
            if j != i {
                assert(ws[j].bytes[p] == vs[j].bytes[p]);
            }
        }
    }
    lemma_interpolate_add(xs, ys, ds);
    let t = |j: int| gf_mul(lagrange_weight(xs, j), ds[j]);
    lemma_isum_remove(n, t, i);
    let ts = |m: int| t(skip_index(m, i));
    assert forall|m: int| 0 <= m < n - 1 implies #[trigger] ts(m) == 0 by {
        lemma_mul_zero_one(lagrange_weight(xs, skip_index(m, i)));
    }
    lemma_isum_zero((n - 1) as nat, ts);
    lemma_add_facts(t(i), 0, 0);
    lemma_add_facts(vs[i].bytes[p], ws[i].bytes[p], 0);
    assert(d != 0);
    lemma_lagrange_weight_nonzero(xs, i);
    lemma_no_zero_divisors(lagrange_weight(xs, i), d);
    let a = interpolate_at_zero(xs, ys);
    let z = t(i);
    assert(z != 0 ==> a ^ z != a) by (bit_vector);
}

/// The order of the shares does not matter: any rearrangement of a sound
/// set is sound and rebuilds the same secret.
pub proof fn lemma_order_does_not_matter(vs: Seq<ShareView>, order: Seq<int>, k: u8)
    requires
        sound_set(vs),
        order.len() == vs.len(),
        forall|j: int| 0 <= j < order.len() ==> 0 <= #[trigger] order[j] < vs.len(),
        forall|a: int, b: int| 0 <= a < order.len() && 0 <= b < order.len() && a != b ==> order[a] != order[b],
    ensures
        ({
            let ws = order.map_values(|i: int| vs[i]);
            set_problem(ws, k) is None && rebuilt(ws) == rebuilt(vs)
        }),
{
    let n = vs.len();
    let ws = order.map_values(|i: int| vs[i]);
    let xs = indices(vs);
    let xw = indices(ws);
    assert forall|j: int| 0 <= j < n implies #[trigger] ws[j] == vs[order[j]] by {}
    assert forall|j: int| 0 <= j < n implies #[trigger] xw[j] == xs[order[j]] by {}
    assert(distinct(xw)) by {
        assert forall|a: int, b: int| 0 <= a < n && 0 <= b < n && a != b implies xw[a] != xw[b] by {
            assert(xw[a] == xs[order[a]]);
            assert(xw[b] == xs[order[b]]);
        }
    }
    assert(ws[0] == vs[order[0]]);
    assert(sound_set(ws));
    lemma_sound_has_no_problem(ws, k);
    assert forall|j: int| 0 <= j < n implies xs[j] != 0 by {
        assert(xs[j] == vs[j].index);
    }
    assert forall|j: int| 0 <= j < n implies xw[j] != 0 by {
        assert(xw[j] == ws[j].index);
    }
    assert forall|p: int| 0 <= p < vs[0].bytes.len() implies #[trigger] rebuilt(ws)[p] == rebuilt(vs)[p] by {
        let ys = column(vs, p);
        let yw = column(ws, p);
        let c = interpolating_poly(xs, ys, n);
        assert forall|j: int| 0 <= j < n implies ys[j] == poly_eval(c, #[trigger] xs[j]) by {
            lemma_interpolating_poly_passes(xs, ys, j);
        }
        assert forall|j: int| 0 <= j < n implies yw[j] == poly_eval(c, #[trigger] xw[j]) by {
            lemma_interpolating_poly_passes(xs, ys, order[j]);
            assert(yw[j] == ys[order[j]]);
        }
        lemma_interpolating_poly_passes(xs, ys, 0);
        lemma_interpolation_at_zero(xs, ys, c);
        lemma_interpolation_at_zero(xw, yw, c);
    }
    assert(rebuilt(ws) =~= rebuilt(vs));
}

/// Any `k` shares of a split that was refreshed, in full or only for the
/// positions drawn before a generator failed, still rebuild the secret.
pub proof fn lemma_any_k_refreshed_shares_rebuild_the_secret(
    secret: Seq<u8>,
    coefficients: Seq<Seq<u8>>,
    deltas: Seq<Seq<u8>>,
    k: nat,
    n: nat,
    chosen: Seq<int>,
)
    requires
        secret.len() > 0,
        2 <= k <= n <= 255,
        coefficients_fit(coefficients, secret.len(), k),
        deltas.len() <= secret.len(),
        forall|p: int| 0 <= p < deltas.len() ==> #[trigger] deltas[p].len() + 1 == k,
        chosen.len() >= k,
        forall|j: int| 0 <= j < chosen.len() ==> 0 <= #[trigger] chosen[j] < n,
        forall|a: int, b: int| 0 <= a < chosen.len() && 0 <= b < chosen.len() && a != b ==> chosen[a] != chosen[b],
    ensures
        ({
            let after = refreshed(dealt(secret, coefficients, n), deltas);
            let picked = chosen.map_values(|i: int| after[i]).take(k as int);
            set_problem(picked, k as u8) is None && rebuilt(picked) == secret
        }),
{
    let before = dealt(secret, coefficients, n);
    let after = refreshed(before, deltas);
    let picked_before = chosen.map_values(|i: int| before[i]).take(k as int);
    let picked = chosen.map_values(|i: int| after[i]).take(k as int);
    lemma_any_k_shares_rebuild_the_secret(secret, coefficients, k, n, chosen);
    crate::scheme::lemma_no_problem_is_sound(picked_before, k as u8);
    assert(picked =~= refreshed(picked_before, deltas));
    assert(picked_before[0] == dealt_share(secret, coefficients, chosen[0]));
    lemma_refresh_keeps_the_secret(picked_before, deltas, k);
}


/// Every share of a split holds one byte per byte of the secret, and the
/// share at position `i` has index `i + 1`.
pub proof fn lemma_split_shares_have_the_secrets_length(
    secret: Seq<u8>,
    coefficients: Seq<Seq<u8>>,
    n: nat,
    i: int,
)
    requires
        n <= 255,
        0 <= i < n,
    ensures
        dealt(secret, coefficients, n).len() == n,
        dealt(secret, coefficients, n)[i].bytes.len() == secret.len(),
        dealt(secret, coefficients, n)[i].index == i + 1,
{
}

/// A set that mixes refreshed and unrefreshed shares: the share at `j` is
/// refreshed with `deltas` when `refreshed_at[j]` holds.
pub open spec fn mixed(vs: Seq<ShareView>, deltas: Seq<Seq<u8>>, refreshed_at: Seq<bool>) -> Seq<ShareView> {
    Seq::new(vs.len(), |j: int| if refreshed_at[j] { refreshed_share(vs[j], deltas) } else { vs[j] })
}

/// What the refresh added to the byte at position `p` of each share of a
/// mixed set: the refresh polynomial at the share's index for a refreshed
/// share, nothing for the others.
pub open spec fn mixed_offsets(
    vs: Seq<ShareView>,
    deltas: Seq<Seq<u8>>,
    refreshed_at: Seq<bool>,
    p: int,
) -> Seq<u8> {
    Seq::new(
        vs.len(),
        |j: int|
            if refreshed_at[j] && p < deltas.len() {
                poly_eval(seq![0u8] + deltas[p], vs[j].index)
            } else {
                0u8
            },
    )
}

/// Old shares and refreshed shares do not combine: a set that mixes them
/// passes the checks, but at every position the rebuilt byte is the old one
/// plus the Lagrange combination of what the refresh added to the refreshed
/// shares alone, so it is wrong wherever that combination is non-zero. When
/// every share is refreshed the combination is zero (see
/// [`lemma_refresh_keeps_the_secret`]); when only some are, it is zero only
/// by chance of the refresh coefficients.
pub proof fn lemma_old_and_refreshed_shares_do_not_mix(
    vs: Seq<ShareView>,
    deltas: Seq<Seq<u8>>,
    refreshed_at: Seq<bool>,
    k: u8,
)
    requires
        sound_set(vs),
        refreshed_at.len() == vs.len(),
    ensures
        set_problem(mixed(vs, deltas, refreshed_at), k) is None,
        rebuilt(mixed(vs, deltas, refreshed_at)).len() == rebuilt(vs).len(),
        forall|p: int|
            0 <= p < rebuilt(vs).len() ==> #[trigger] rebuilt(mixed(vs, deltas, refreshed_at))[p]
                == rebuilt(vs)[p] ^ interpolate_at_zero(indices(vs), mixed_offsets(vs, deltas, refreshed_at, p)),
        forall|p: int|
            0 <= p < rebuilt(vs).len() && interpolate_at_zero(
                indices(vs),
                mixed_offsets(vs, deltas, refreshed_at, p),
            ) != 0 ==> #[trigger] rebuilt(mixed(vs, deltas, refreshed_at))[p] != rebuilt(vs)[p],
{
    let ws = mixed(vs, deltas, refreshed_at);
    let xs = indices(vs);
    assert(indices(ws) =~= xs);
    assert(sound_set(ws));
    lemma_sound_has_no_problem(ws, k);
    assert forall|p: int| 0 <= p < rebuilt(vs).len() implies #[trigger] rebuilt(ws)[p] == rebuilt(vs)[p]
        ^ interpolate_at_zero(xs, mixed_offsets(vs, deltas, refreshed_at, p)) by {
        let ys = column(vs, p);
        let zs = mixed_offsets(vs, deltas, refreshed_at, p);
        assert(column(ws, p) =~= poly_add(ys, zs)) by {
            assert forall|j: int| 0 <= j < vs.len() implies column(ws, p)[j] == poly_add(ys, zs)[j] by {
                lemma_add_facts(vs[j].bytes[p], 0, 0);
            }
        }
        lemma_interpolate_add(xs, ys, zs);
    }
    assert forall|p: int|
        0 <= p < rebuilt(vs).len() && interpolate_at_zero(xs, mixed_offsets(vs, deltas, refreshed_at, p))
            != 0 implies #[trigger] rebuilt(ws)[p] != rebuilt(vs)[p] by {
        let a = rebuilt(vs)[p];
        let z = interpolate_at_zero(xs, mixed_offsets(vs, deltas, refreshed_at, p));
        assert(rebuilt(ws)[p] == a ^ z);
        assert(z != 0 ==> a ^ z != a) by (bit_vector);
    }
}

} // verus!
