//! Polynomials over GF(2^8) and Lagrange interpolation at zero: the
//! mathematics a threshold scheme rests on.

use vstd::prelude::*;
use crate::field::{
    gf_inv, gf_mul, lemma_add_facts, lemma_inverse_of_one, lemma_inverse_of_product, lemma_inverse_unique,
    lemma_mul_associates, lemma_mul_commutes, lemma_mul_distributes, lemma_mul_inverse,
    lemma_mul_rearrange, lemma_mul_zero_one, lemma_no_zero_divisors,
};

verus! {

/// `t(0) + t(1) + ... + t(n - 1)`, summed from the left.
pub open spec fn isum(n: nat, t: spec_fn(int) -> u8) -> u8
    decreases n,
{
    if n == 0 {
        0
    } else {
        isum((n - 1) as nat, t) ^ t(n - 1)
    }
}

/// The product of the elements of `s`, multiplied from the left starting at one.
pub open spec fn pprod(s: Seq<u8>) -> u8
    decreases s.len(),
{
    if s.len() == 0 {
        1
    } else {
        gf_mul(pprod(s.drop_last()), s.last())
    }
}

/// Sums that agree term by term are equal.
pub proof fn lemma_isum_congruent(n: nat, t1: spec_fn(int) -> u8, t2: spec_fn(int) -> u8)
    requires
        forall|j: int| 0 <= j < n ==> #[trigger] t1(j) == t2(j),
    ensures
        isum(n, t1) == isum(n, t2),
    decreases n,
{
    if n > 0 {
        lemma_isum_congruent((n - 1) as nat, t1, t2);
    }
}

/// A sum of zeros is zero.
pub proof fn lemma_isum_zero(n: nat, t: spec_fn(int) -> u8)
    requires
        forall|j: int| 0 <= j < n ==> #[trigger] t(j) == 0,
    ensures
        isum(n, t) == 0,
    decreases n,
{
    if n > 0 {
        lemma_isum_zero((n - 1) as nat, t);
        lemma_add_facts(0, 0, 0);
    }
}

/// The sum of two sums is the sum of the termwise sums.
pub proof fn lemma_isum_add(n: nat, t1: spec_fn(int) -> u8, t2: spec_fn(int) -> u8, t: spec_fn(int) -> u8)
    requires
        forall|j: int| 0 <= j < n ==> #[trigger] t(j) == t1(j) ^ t2(j),
    ensures
        isum(n, t) == isum(n, t1) ^ isum(n, t2),
    decreases n,
{
    lemma_add_facts(0, 0, 0);
    if n > 0 {
        lemma_isum_add((n - 1) as nat, t1, t2, t);
        let a = isum((n - 1) as nat, t1);
        let b = isum((n - 1) as nat, t2);
        let x = t1(n - 1);
        let y = t2(n - 1);
        assert((a ^ b) ^ (x ^ y) == (a ^ x) ^ (b ^ y)) by (bit_vector);
    }
}

/// A constant factor comes out of a sum.
pub proof fn lemma_isum_scale(n: nat, k: u8, t1: spec_fn(int) -> u8, t: spec_fn(int) -> u8)
    requires
        forall|j: int| 0 <= j < n ==> #[trigger] t(j) == gf_mul(k, t1(j)),
    ensures
        isum(n, t) == gf_mul(k, isum(n, t1)),
    decreases n,
{
    lemma_mul_zero_one(k);
    if n > 0 {
        lemma_isum_scale((n - 1) as nat, k, t1, t);
        lemma_mul_distributes(k, isum((n - 1) as nat, t1), t1(n - 1));
    }
}

/// The index `k` of a sequence with position `j0` removed, in the full sequence.
pub open spec fn skip_index(k: int, j0: int) -> int {
    if k < j0 {
        k
    } else {
        k + 1
    }
}

/// A sum is the term at `j0` plus the sum of the others.
pub proof fn lemma_isum_remove(n: nat, t: spec_fn(int) -> u8, j0: int)
    requires
        0 <= j0 < n,
    ensures
        isum(n, t) == isum((n - 1) as nat, |k: int| t(skip_index(k, j0))) ^ t(j0),
    decreases n,
{
    let ts = |k: int| t(skip_index(k, j0));
    if j0 == n - 1 {
        lemma_isum_congruent((n - 1) as nat, t, ts);
    } else {
        lemma_isum_remove((n - 1) as nat, t, j0);
        let a = isum((n - 2) as nat, ts);
        let x = t(j0);
        let y = t(n - 1);
        assert(ts(n - 2) == y);
        assert((a ^ x) ^ y == (a ^ y) ^ x) by (bit_vector);
    }
}

/// A product is its `k`-th factor times the product of the others.
pub proof fn lemma_pprod_remove(s: Seq<u8>, k: int)
    requires
        0 <= k < s.len(),
    ensures
        pprod(s) == gf_mul(s[k], pprod(s.remove(k))),
    decreases s.len(),
{
    if k == s.len() - 1 {
        assert(s.remove(k) =~= s.drop_last());
        lemma_mul_commutes(pprod(s.drop_last()), s.last());
    } else {
        let d = s.drop_last();
        lemma_pprod_remove(d, k);
        assert(s.remove(k).drop_last() =~= d.remove(k));
        assert(s.remove(k).last() == s.last());
        lemma_mul_associates(s[k], pprod(d.remove(k)), s.last());
    }
}

/// A product of non-zero elements is non-zero.
pub proof fn lemma_pprod_nonzero(s: Seq<u8>)
    requires
        forall|i: int| 0 <= i < s.len() ==> s[i] != 0,
    ensures
        pprod(s) != 0,
    decreases s.len(),
{
    if s.len() > 0 {
        lemma_pprod_nonzero(s.drop_last());
        lemma_no_zero_divisors(pprod(s.drop_last()), s.last());
    }
}

/// `a - m` for every `m` of `s` (in characteristic two, `a + m`).
pub open spec fn diffs(a: u8, s: Seq<u8>) -> Seq<u8> {
    s.map_values(|m: u8| a ^ m)
}

/// No value occurs twice in `s`.
pub open spec fn distinct(s: Seq<u8>) -> bool {
    forall|i: int, j: int| 0 <= i < s.len() && 0 <= j < s.len() && i != j ==> s[i] != s[j]
}

/// `Π_{m≠j} (x_j − x_m)`: how far `x_j` is from the other points.
pub open spec fn spread(xs: Seq<u8>, j: int) -> u8 {
    pprod(diffs(xs[j], xs.remove(j)))
}

/// The divided difference of `f` over the points `xs`:
/// `Σ_j f(x_j) / Π_{m≠j} (x_j − x_m)`.
pub open spec fn divided_difference(xs: Seq<u8>, f: spec_fn(u8) -> u8) -> u8 {
    isum(xs.len(), |j: int| gf_mul(f(xs[j]), gf_inv(spread(xs, j))))
}

proof fn lemma_remove_keeps_distinct(s: Seq<u8>, j: int)
    requires
        distinct(s),
        0 <= j < s.len(),
    ensures
        distinct(s.remove(j)),
{
    assert forall|a: int, b: int|
        0 <= a < s.remove(j).len() && 0 <= b < s.remove(j).len() && a != b implies
        s.remove(j)[a] != s.remove(j)[b] by {
        assert(s.remove(j)[a] == s[skip_index(a, j)]);
        assert(s.remove(j)[b] == s[skip_index(b, j)]);
    }
}

/// Over distinct points, every spread is non-zero.
pub proof fn lemma_spread_nonzero(xs: Seq<u8>, j: int)
    requires
        distinct(xs),
        0 <= j < xs.len(),
    ensures
        spread(xs, j) != 0,
{
    let d = diffs(xs[j], xs.remove(j));
    assert forall|i: int| 0 <= i < d.len() implies d[i] != 0 by {
        assert(xs.remove(j)[i] == xs[skip_index(i, j)]);
        lemma_add_facts(xs[j], xs[skip_index(i, j)], 0);
    }
    lemma_pprod_nonzero(d);
}

/// Taking the point `x_{j0}` out: the spread of `x_j` is `(x_j − x_{j0})` times
/// its spread among the remaining points.
proof fn lemma_spread_remove(xs: Seq<u8>, j0: int, k: int)
    requires
        distinct(xs),
        0 <= j0 < xs.len(),
        0 <= k < xs.len() - 1,
    ensures
        spread(xs, skip_index(k, j0)) == gf_mul(
            xs[skip_index(k, j0)] ^ xs[j0],
            spread(xs.remove(j0), k),
        ),
        xs.remove(j0)[k] == xs[skip_index(k, j0)],
{
    let j = skip_index(k, j0);
    let kk = if j0 < j { j0 } else { j0 - 1 };
    let r = xs.remove(j0);
    let dj = diffs(xs[j], xs.remove(j));
    assert(xs.remove(j)[kk] == xs[j0]);
    lemma_pprod_remove(dj, kk);
    assert(xs.remove(j).remove(kk) =~= r.remove(k));
    assert(dj.remove(kk) =~= diffs(r[k], r.remove(k)));
}

/// Removing a point: the divided difference of `(x − x_{j0})·g(x)` over `xs`
/// is the divided difference of `g` over `xs` without `x_{j0}`.
pub proof fn lemma_divided_difference_remove(
    xs: Seq<u8>,
    j0: int,
    g: spec_fn(u8) -> u8,
    f: spec_fn(u8) -> u8,
)
    requires
        distinct(xs),
        0 <= j0 < xs.len(),
        forall|x: u8| #[trigger] f(x) == gf_mul(x ^ xs[j0], g(x)),
    ensures
        divided_difference(xs, f) == divided_difference(xs.remove(j0), g),
{
    let n = xs.len();
    let r = xs.remove(j0);
    let t = |j: int| gf_mul(f(xs[j]), gf_inv(spread(xs, j)));
    let tr = |k: int| gf_mul(g(r[k]), gf_inv(spread(r, k)));
    lemma_isum_remove(n, t, j0);
    // the removed term vanishes
    lemma_add_facts(xs[j0], 0, 0);
    lemma_mul_zero_one(g(xs[j0]));
    lemma_mul_zero_one(gf_inv(spread(xs, j0)));
    assert(t(j0) == 0);
    lemma_remove_keeps_distinct(xs, j0);
    assert forall|k: int| 0 <= k < n - 1 implies #[trigger] t(skip_index(k, j0)) == tr(k) by {
        let j = skip_index(k, j0);
        lemma_spread_remove(xs, j0, k);
        let d = xs[j] ^ xs[j0];
        let s = spread(r, k);
        let gv = g(xs[j]);
        lemma_add_facts(xs[j], xs[j0], 0);
        assert(d != 0);
        lemma_spread_nonzero(r, k);
        lemma_inverse_of_product(d, s);
        lemma_mul_inverse(d);
        // (d·g)·(d⁻¹·s⁻¹) = g·s⁻¹
        lemma_mul_associates(d, gv, gf_mul(gf_inv(d), gf_inv(s)));
        lemma_mul_rearrange(gv, gf_inv(d), gf_inv(s));
        lemma_mul_associates(d, gf_inv(d), gf_mul(gv, gf_inv(s)));
        lemma_mul_zero_one(gf_mul(gv, gf_inv(s)));
    }
    lemma_isum_congruent((n - 1) as nat, |k: int| t(skip_index(k, j0)), tr);
    lemma_add_facts(isum((n - 1) as nat, tr), 0, 0);
}

/// The divided difference is additive in the function.
pub proof fn lemma_divided_difference_add(
    xs: Seq<u8>,
    f1: spec_fn(u8) -> u8,
    f2: spec_fn(u8) -> u8,
    f: spec_fn(u8) -> u8,
)
    requires
        forall|x: u8| #[trigger] f(x) == f1(x) ^ f2(x),
    ensures
        divided_difference(xs, f) == divided_difference(xs, f1) ^ divided_difference(xs, f2),
{
    let t = |j: int| gf_mul(f(xs[j]), gf_inv(spread(xs, j)));
    let t1 = |j: int| gf_mul(f1(xs[j]), gf_inv(spread(xs, j)));
    let t2 = |j: int| gf_mul(f2(xs[j]), gf_inv(spread(xs, j)));
    assert forall|j: int| 0 <= j < xs.len() implies #[trigger] t(j) == t1(j) ^ t2(j) by {
        lemma_mul_distributes(gf_inv(spread(xs, j)), f1(xs[j]), f2(xs[j]));
    }
    lemma_isum_add(xs.len(), t1, t2, t);
}

/// A constant factor comes out of the divided difference.
pub proof fn lemma_divided_difference_scale(
    xs: Seq<u8>,
    k: u8,
    f1: spec_fn(u8) -> u8,
    f: spec_fn(u8) -> u8,
)
    requires
        forall|x: u8| #[trigger] f(x) == gf_mul(k, f1(x)),
    ensures
        divided_difference(xs, f) == gf_mul(k, divided_difference(xs, f1)),
{
    let t = |j: int| gf_mul(f(xs[j]), gf_inv(spread(xs, j)));
    let t1 = |j: int| gf_mul(f1(xs[j]), gf_inv(spread(xs, j)));
    assert forall|j: int| 0 <= j < xs.len() implies #[trigger] t(j) == gf_mul(k, t1(j)) by {
        lemma_mul_associates(k, f1(xs[j]), gf_inv(spread(xs, j)));
    }
    lemma_isum_scale(xs.len(), k, t1, t);
}

/// The constant function one.
pub open spec fn one_fn() -> spec_fn(u8) -> u8 {
    |x: u8| 1u8
}

/// Over a single point the divided difference of one is one.
proof fn lemma_divided_difference_of_one_at_a_point(xs: Seq<u8>)
    requires
        xs.len() == 1,
    ensures
        divided_difference(xs, one_fn()) == 1,
{
    lemma_inverse_of_one();
    lemma_mul_zero_one(1);
    assert(diffs(xs[0], xs.remove(0)) =~= Seq::<u8>::empty());
    assert(spread(xs, 0) == 1);
    lemma_add_facts(1, 0, 0);
    let t = |j: int| gf_mul(one_fn()(xs[j]), gf_inv(spread(xs, j)));
    assert(t(0) == 1);
    assert(isum(1, t) == isum(0, t) ^ t(0));
}

/// Over two or more distinct points the divided difference of a constant is zero.
pub proof fn lemma_divided_difference_of_one(xs: Seq<u8>)
    requires
        distinct(xs),
        xs.len() >= 2,
    ensures
        divided_difference(xs, one_fn()) == 0,
    decreases xs.len(),
{
    let a0 = xs[0];
    let a1 = xs[1];
    let d = a0 ^ a1;
    let id = gf_inv(d);
    let one = one_fn();
    let f1 = |x: u8| gf_mul(x ^ a1, one(x));
    let f0 = |x: u8| gf_mul(x ^ a0, one(x));
    let h = |x: u8| f1(x) ^ f0(x);
    let r0 = xs.remove(0);
    let r1 = xs.remove(1);
    assert(divided_difference(xs, one) == gf_mul(
        id,
        divided_difference(r1, one) ^ divided_difference(r0, one),
    )) by {
        lemma_add_facts(a0, a1, 0);
        assert(d != 0);
        lemma_divided_difference_remove(xs, 1, one, f1);
        lemma_divided_difference_remove(xs, 0, one, f0);
        lemma_divided_difference_add(xs, f1, f0, h);
        assert forall|x: u8| #[trigger] one(x) == gf_mul(id, h(x)) by {
            lemma_mul_zero_one(x ^ a1);
            lemma_mul_zero_one(x ^ a0);
            lemma_add_facts(a1, a0, x);
            lemma_mul_inverse(d);
        }
        lemma_divided_difference_scale(xs, id, h, one);
    }
    assert(divided_difference(r1, one) ^ divided_difference(r0, one) == 0) by {
        lemma_remove_keeps_distinct(xs, 0);
        lemma_remove_keeps_distinct(xs, 1);
        if xs.len() == 2 {
            lemma_divided_difference_of_one_at_a_point(r0);
            lemma_divided_difference_of_one_at_a_point(r1);
            lemma_add_facts(1, 1, 0);
        } else {
            lemma_divided_difference_of_one(r0);
            lemma_divided_difference_of_one(r1);
            lemma_add_facts(0, 0, 0);
        }
    }
    lemma_mul_zero_one(id);
}

/// `c_0 + c_1·x + ... + c_{n-1}·x^{n-1}` by Horner's rule, lowest coefficient
/// first: `c_0 + (c_1 + (...)·x)·x`. The empty polynomial is zero.
pub open spec fn poly_eval(c: Seq<u8>, x: u8) -> u8
    decreases c.len(),
{
    if c.len() == 0 {
        0
    } else {
        gf_mul(poly_eval(c.drop_first(), x), x) ^ c[0]
    }
}

/// The polynomial with coefficients `c`, as a function.
pub open spec fn poly_fn(c: Seq<u8>) -> spec_fn(u8) -> u8 {
    |x: u8| poly_eval(c, x)
}

/// Over more distinct points than the polynomial has coefficients, its divided
/// difference is zero.
pub proof fn lemma_divided_difference_of_low_degree(xs: Seq<u8>, c: Seq<u8>)
    requires
        distinct(xs),
        c.len() < xs.len(),
    ensures
        divided_difference(xs, poly_fn(c)) == 0,
    decreases c.len(),
{
    let n = xs.len();
    let f = poly_fn(c);
    if c.len() == 0 {
        let t = |j: int| gf_mul(f(xs[j]), gf_inv(spread(xs, j)));
        assert forall|j: int| 0 <= j < n implies #[trigger] t(j) == 0 by {
            lemma_mul_zero_one(gf_inv(spread(xs, j)));
        }
        lemma_isum_zero(n, t);
    } else {
        let cr = c.drop_first();
        let e = poly_fn(cr);
        let a = xs[n - 1];
        let c0 = c[0];
        let one = one_fn();
        let fa = |x: u8| gf_mul(x ^ a, e(x));
        let fb = |x: u8| gf_mul(a, e(x));
        let fc = |x: u8| gf_mul(c0, one(x));
        let fab = |x: u8| fa(x) ^ fb(x);
        assert forall|x: u8| #[trigger] f(x) == fab(x) ^ fc(x) by {
            lemma_mul_commutes(e(x), x);
            lemma_add_facts(x, a, 0);
            lemma_mul_distributes(e(x), x ^ a, a);
            lemma_mul_zero_one(c0);
        }
        lemma_divided_difference_add(xs, fab, fc, f);
        lemma_divided_difference_add(xs, fa, fb, fab);
        lemma_divided_difference_remove(xs, n - 1, e, fa);
        lemma_divided_difference_scale(xs, a, e, fb);
        lemma_divided_difference_scale(xs, c0, one, fc);
        lemma_remove_keeps_distinct(xs, n - 1);
        lemma_divided_difference_of_low_degree(xs.remove(n - 1), cr);
        lemma_divided_difference_of_low_degree(xs, cr);
        lemma_divided_difference_of_one(xs);
        lemma_mul_zero_one(a);
        lemma_mul_zero_one(c0);
        lemma_add_facts(0, 0, 0);
    }
}

/// The Lagrange basis at zero: `Π_{m≠j} x_m / Π_{m≠j} (x_j − x_m)`. For any
/// polynomial of fewer coefficients than there are points, the sum of its
/// values weighted by these is its value at zero.
pub open spec fn lagrange_weight(xs: Seq<u8>, j: int) -> u8 {
    gf_mul(pprod(xs.remove(j)), gf_inv(spread(xs, j)))
}

/// `Σ_j w_j · y_j` with `w` the Lagrange basis at zero of `xs`: the value at
/// zero of the polynomial through the points `(x_j, y_j)`.
pub open spec fn interpolate_at_zero(xs: Seq<u8>, ys: Seq<u8>) -> u8 {
    isum(xs.len(), |j: int| gf_mul(lagrange_weight(xs, j), ys[j]))
}

/// A polynomial at zero is its constant coefficient.
pub proof fn lemma_poly_eval_at_zero(c: Seq<u8>)
    requires
        c.len() > 0,
    ensures
        poly_eval(c, 0) == c[0],
{
    lemma_mul_zero_one(poly_eval(c.drop_first(), 0));
    lemma_add_facts(c[0], 0, 0);
}

proof fn lemma_cancel(x: u8, r: u8, y: u8, is: u8)
    requires
        x != 0,
    ensures
        gf_mul(gf_mul(x, r), gf_mul(y, gf_mul(gf_inv(x), is))) == gf_mul(gf_mul(r, is), y),
{
    let ix = gf_inv(x);
    lemma_mul_rearrange(y, ix, is);
    let w = gf_mul(y, is);
    lemma_mul_associates(x, r, gf_mul(ix, w));
    lemma_mul_rearrange(r, ix, w);
    lemma_mul_associates(x, ix, gf_mul(r, w));
    lemma_mul_inverse(x);
    lemma_mul_zero_one(gf_mul(r, w));
    lemma_mul_associates(r, is, y);
    lemma_mul_commutes(is, y);
}

/// Lagrange interpolation at zero: over distinct non-zero points, at least as
/// many as the polynomial has coefficients, the Lagrange combination of its
/// values is its value at zero.
pub proof fn lemma_interpolation_at_zero(xs: Seq<u8>, ys: Seq<u8>, c: Seq<u8>)
    requires
        distinct(xs),
        forall|j: int| 0 <= j < xs.len() ==> xs[j] != 0,
        c.len() <= xs.len(),
        ys.len() == xs.len(),
        forall|j: int| 0 <= j < xs.len() ==> ys[j] == poly_eval(c, #[trigger] xs[j]),
    ensures
        interpolate_at_zero(xs, ys) == poly_eval(c, 0),
{
    let n = xs.len();
    let pts = seq![0u8] + xs;
    let f = poly_fn(c);
    assert(distinct(pts)) by {
        assert forall|i: int, j: int|
            0 <= i < pts.len() && 0 <= j < pts.len() && i != j implies pts[i] != pts[j] by {
            if i > 0 && j > 0 {
                assert(pts[i] == xs[i - 1]);
                assert(pts[j] == xs[j - 1]);
            } else if i == 0 {
                assert(pts[j] == xs[j - 1]);
            } else {
                assert(pts[i] == xs[i - 1]);
            }
        }
    }
    lemma_divided_difference_of_low_degree(pts, c);
    let t = |j: int| gf_mul(f(pts[j]), gf_inv(spread(pts, j)));
    let ts = |k: int| t(skip_index(k, 0));
    lemma_isum_remove(n + 1, t, 0);
    let sum = isum(n, ts);
    assert(t(0) == sum) by {
        lemma_add_facts(sum, t(0), 0);
    }
    let q = pprod(xs);
    assert(pts.remove(0) =~= xs);
    assert(diffs(0u8, xs) =~= xs) by {
        assert forall|i: int| 0 <= i < xs.len() implies diffs(0u8, xs)[i] == xs[i] by {
            lemma_add_facts(xs[i], 0, 0);
        }
    }
    assert(spread(pts, 0) == q);
    lemma_pprod_nonzero(xs);
    // q·t(0) = f(0)
    assert(gf_mul(q, t(0)) == f(0u8)) by {
        lemma_mul_rearrange(q, f(0u8), gf_inv(q));
        lemma_mul_associates(f(0u8), q, gf_inv(q));
        lemma_mul_commutes(q, f(0u8));
        lemma_mul_inverse(q);
        lemma_mul_zero_one(f(0u8));
        lemma_mul_associates(q, f(0u8), gf_inv(q));
    }
    let tw = |k: int| gf_mul(lagrange_weight(xs, k), ys[k]);
    assert forall|k: int| 0 <= k < n implies #[trigger] tw(k) == gf_mul(q, ts(k)) by {
        lemma_spread_remove(pts, 0, k);
        assert(pts[k + 1] == xs[k]);
        lemma_add_facts(xs[k], 0, 0);
        let s = spread(xs, k);
        lemma_spread_nonzero(xs, k);
        lemma_inverse_of_product(xs[k], s);
        lemma_pprod_remove(xs, k);
        lemma_cancel(xs[k], pprod(xs.remove(k)), ys[k], gf_inv(s));
    }
    lemma_isum_scale(n, q, ts, tw);
}

/// The coefficient-wise sum of two polynomials of the same length.
pub open spec fn poly_add(a: Seq<u8>, b: Seq<u8>) -> Seq<u8> {
    Seq::new(a.len(), |i: int| a[i] ^ b[i])
}

/// Evaluation is additive: `(a + b)(x) = a(x) + b(x)`.
pub proof fn lemma_poly_eval_add(a: Seq<u8>, b: Seq<u8>, x: u8)
    requires
        a.len() == b.len(),
    ensures
        poly_eval(poly_add(a, b), x) == poly_eval(a, x) ^ poly_eval(b, x),
    decreases a.len(),
{
    lemma_add_facts(0, 0, 0);
    if a.len() > 0 {
        let s = poly_add(a, b);
        assert(s.drop_first() =~= poly_add(a.drop_first(), b.drop_first()));
        lemma_poly_eval_add(a.drop_first(), b.drop_first(), x);
        let ea = poly_eval(a.drop_first(), x);
        let eb = poly_eval(b.drop_first(), x);
        lemma_mul_distributes(x, ea, eb);
        let pa = gf_mul(ea, x);
        let pb = gf_mul(eb, x);
        let a0 = a[0];
        let b0 = b[0];
        assert((pa ^ pb) ^ (a0 ^ b0) == (pa ^ a0) ^ (pb ^ b0)) by (bit_vector);
    }
}

/// Interpolation is additive in the values.
pub proof fn lemma_interpolate_add(xs: Seq<u8>, ys: Seq<u8>, zs: Seq<u8>)
    requires
        ys.len() == xs.len(),
        zs.len() == xs.len(),
    ensures
        interpolate_at_zero(xs, poly_add(ys, zs)) == interpolate_at_zero(xs, ys)
            ^ interpolate_at_zero(xs, zs),
{
    let s = poly_add(ys, zs);
    let t = |j: int| gf_mul(lagrange_weight(xs, j), s[j]);
    let t1 = |j: int| gf_mul(lagrange_weight(xs, j), ys[j]);
    let t2 = |j: int| gf_mul(lagrange_weight(xs, j), zs[j]);
    assert forall|j: int| 0 <= j < xs.len() implies #[trigger] t(j) == t1(j) ^ t2(j) by {
        lemma_mul_distributes(lagrange_weight(xs, j), ys[j], zs[j]);
    }
    lemma_isum_add(xs.len(), t1, t2, t);
}

/// The quotient of `c` by `x − a`: `c(x) = c(a) + (x − a)·q(x)`.
pub open spec fn poly_div(c: Seq<u8>, a: u8) -> Seq<u8>
    decreases c.len(),
{
    if c.len() <= 1 {
        Seq::<u8>::empty()
    } else {
        seq![poly_eval(c.drop_first(), a)] + poly_div(c.drop_first(), a)
    }
}

/// Division by `x − a`: `c(x) = c(a) + (x − a)·q(x)`, with one coefficient
/// fewer in `q`.
pub proof fn lemma_poly_div(c: Seq<u8>, a: u8, x: u8)
    requires
        c.len() > 0,
    ensures
        poly_div(c, a).len() == c.len() - 1,
        poly_eval(c, x) == poly_eval(c, a) ^ gf_mul(x ^ a, poly_eval(poly_div(c, a), x)),
    decreases c.len(),
{
    let q = poly_div(c, a);
    let c0 = c[0];
    if c.len() == 1 {
        assert(c.drop_first().len() == 0);
        assert(poly_eval(c.drop_first(), x) == 0);
        assert(poly_eval(c.drop_first(), a) == 0);
        assert(poly_eval(q, x) == 0);
        lemma_mul_zero_one(x);
        lemma_mul_zero_one(a);
        lemma_mul_zero_one(x ^ a);
        lemma_add_facts(c0, 0, 0);
        assert(poly_eval(c, x) == c0);
        assert(poly_eval(c, a) == c0);
    } else {
        let cr = c.drop_first();
        let qr = poly_div(cr, a);
        lemma_poly_div(cr, a, x);
        assert(q.drop_first() =~= qr);
        let ca = poly_eval(cr, a);
        let cx = poly_eval(cr, x);
        let qx = poly_eval(qr, x);
        let d = x ^ a;
        let big = gf_mul(gf_mul(d, qx), x);
        assert(poly_eval(q, x) == gf_mul(qx, x) ^ ca);
        assert(gf_mul(cx, x) == gf_mul(ca, x) ^ big) by {
            lemma_mul_distributes(x, ca, gf_mul(d, qx));
        }
        assert(gf_mul(d, poly_eval(q, x)) == big ^ gf_mul(d, ca)) by {
            lemma_mul_distributes(d, gf_mul(qx, x), ca);
            lemma_mul_associates(d, qx, x);
        }
        assert(gf_mul(ca, x) == gf_mul(d, ca) ^ gf_mul(ca, a)) by {
            lemma_add_facts(x, a, 0);
            assert(d ^ a == x);
            lemma_mul_distributes(ca, d, a);
            lemma_mul_commutes(ca, d);
        }
        let dca = gf_mul(d, ca);
        let aca = gf_mul(ca, a);
        assert(((dca ^ aca) ^ big) ^ c0 == (aca ^ c0) ^ (big ^ dca)) by (bit_vector);
        assert(poly_eval(c, x) == gf_mul(cx, x) ^ c0);
        assert(poly_eval(c, a) == aca ^ c0);
        assert(poly_eval(c, x) == poly_eval(c, a) ^ gf_mul(d, poly_eval(q, x)));
    }
}

/// If `c(a) = 0` and the quotient by `x − a` is zero, so is `c`.
proof fn lemma_poly_div_zero(c: Seq<u8>, a: u8)
    requires
        c.len() > 0,
        poly_eval(c, a) == 0,
        forall|i: int| 0 <= i < c.len() - 1 ==> #[trigger] poly_div(c, a)[i] == 0,
    ensures
        forall|i: int| 0 <= i < c.len() ==> #[trigger] c[i] == 0,
    decreases c.len(),
{
    let c0 = c[0];
    if c.len() == 1 {
        assert(poly_eval(c.drop_first(), a) == 0);
        lemma_mul_zero_one(a);
        lemma_add_facts(c0, 0, 0);
        assert(c0 == 0);
    } else {
        let cr = c.drop_first();
        let q = poly_div(c, a);
        lemma_poly_div(c, a, a);
        lemma_poly_div(cr, a, a);
        assert(q[0] == poly_eval(cr, a));
        assert forall|i: int| 0 <= i < cr.len() - 1 implies #[trigger] poly_div(cr, a)[i] == 0 by {
            assert(poly_div(cr, a)[i] == q[i + 1]);
        }
        lemma_poly_div_zero(cr, a);
        lemma_mul_zero_one(a);
        lemma_add_facts(c0, 0, 0);
        assert(poly_eval(c, a) == gf_mul(poly_eval(cr, a), a) ^ c0);
        assert(c0 == 0);
        assert forall|i: int| 0 <= i < c.len() implies #[trigger] c[i] == 0 by {
            if i > 0 {
                assert(c[i] == cr[i - 1]);
            }
        }
    }
}

/// A polynomial that vanishes on at least as many distinct points as it has
/// coefficients has every coefficient zero.
pub proof fn lemma_vanishing_polynomial_is_zero(c: Seq<u8>, pts: Seq<u8>)
    requires
        distinct(pts),
        c.len() <= pts.len(),
        forall|j: int| 0 <= j < pts.len() ==> poly_eval(c, #[trigger] pts[j]) == 0,
    ensures
        forall|i: int| 0 <= i < c.len() ==> #[trigger] c[i] == 0,
    decreases c.len(),
{
    if c.len() > 0 {
        let m = pts.len();
        let a = pts[m - 1];
        let q = poly_div(c, a);
        let rest = pts.remove(m - 1);
        lemma_remove_keeps_distinct(pts, m - 1);
        assert forall|j: int| 0 <= j < rest.len() implies poly_eval(q, #[trigger] rest[j]) == 0 by {
            let p = rest[j];
            assert(p == pts[j]);
            lemma_poly_div(c, a, p);
            lemma_poly_div(c, a, a);
            lemma_add_facts(p, a, 0);
            lemma_add_facts(gf_mul(p ^ a, poly_eval(q, p)), 0, 0);
            if poly_eval(q, p) != 0 {
                lemma_no_zero_divisors(p ^ a, poly_eval(q, p));
            }
        }
        lemma_poly_div(c, a, a);
        lemma_vanishing_polynomial_is_zero(q, rest);
        lemma_poly_div_zero(c, a);
    }
}

/// `k + p(x)`, as coefficients.
pub open spec fn add_to_constant(k: u8, p: Seq<u8>) -> Seq<u8> {
    if p.len() == 0 {
        seq![k]
    } else {
        p.update(0, p[0] ^ k)
    }
}

/// `(x + b)·c(x)`, as coefficients.
pub open spec fn mul_linear(c: Seq<u8>, b: u8) -> Seq<u8>
    decreases c.len(),
{
    if c.len() == 0 {
        Seq::<u8>::empty()
    } else {
        seq![gf_mul(b, c[0])] + add_to_constant(c[0], mul_linear(c.drop_first(), b))
    }
}

/// `k·c(x)`, as coefficients.
pub open spec fn poly_scale(c: Seq<u8>, k: u8) -> Seq<u8> {
    c.map_values(|v: u8| gf_mul(k, v))
}

/// `Π_i (x − s_i)`, as coefficients.
pub open spec fn roots_poly(s: Seq<u8>) -> Seq<u8>
    decreases s.len(),
{
    if s.len() == 0 {
        seq![1u8]
    } else {
        mul_linear(roots_poly(s.drop_last()), s.last())
    }
}

proof fn lemma_add_to_constant(k: u8, p: Seq<u8>, x: u8)
    ensures
        poly_eval(add_to_constant(k, p), x) == k ^ poly_eval(p, x),
        add_to_constant(k, p).len() == if p.len() == 0 { 1 } else { p.len() },
{
    let a = add_to_constant(k, p);
    lemma_mul_zero_one(x);
    if p.len() == 0 {
        assert(poly_eval(a.drop_first(), x) == 0);
        lemma_add_facts(k, 0, 0);
    } else {
        assert(a.drop_first() =~= p.drop_first());
        let m = gf_mul(poly_eval(p.drop_first(), x), x);
        let p0 = p[0];
        assert(m ^ (p0 ^ k) == k ^ (m ^ p0)) by (bit_vector);
    }
}

proof fn lemma_mul_linear(c: Seq<u8>, b: u8, x: u8)
    ensures
        poly_eval(mul_linear(c, b), x) == gf_mul(x ^ b, poly_eval(c, x)),
        mul_linear(c, b).len() == if c.len() == 0 { 0 } else { c.len() + 1 },
    decreases c.len(),
{
    let d = x ^ b;
    lemma_mul_zero_one(d);
    if c.len() > 0 {
        let cr = c.drop_first();
        let c0 = c[0];
        let m = mul_linear(cr, b);
        let inner = add_to_constant(c0, m);
        let er = poly_eval(cr, x);
        lemma_mul_linear(cr, b, x);
        lemma_add_to_constant(c0, m, x);
        let r = mul_linear(c, b);
        assert(r.drop_first() =~= inner);
        // r(x) = (c0 + d·er)·x + b·c0 ; d·c(x) = d·(er·x) + d·c0
        let de = gf_mul(d, er);
        assert(gf_mul(c0 ^ de, x) == gf_mul(c0, x) ^ gf_mul(de, x)) by {
            lemma_mul_distributes(x, c0, de);
        }
        assert(gf_mul(d, gf_mul(er, x) ^ c0) == gf_mul(de, x) ^ (gf_mul(x, c0) ^ gf_mul(b, c0))) by {
            lemma_mul_distributes(d, gf_mul(er, x), c0);
            lemma_mul_associates(d, er, x);
            lemma_mul_distributes(c0, x, b);
            lemma_mul_commutes(c0, d);
            lemma_mul_commutes(c0, x);
            lemma_mul_commutes(c0, b);
        }
        lemma_mul_commutes(c0, x);
        let p1 = gf_mul(x, c0);
        let p2 = gf_mul(de, x);
        let p3 = gf_mul(b, c0);
        assert((p1 ^ p2) ^ p3 == p2 ^ (p1 ^ p3)) by (bit_vector);
    }
}

proof fn lemma_poly_scale(c: Seq<u8>, k: u8, x: u8)
    ensures
        poly_eval(poly_scale(c, k), x) == gf_mul(k, poly_eval(c, x)),
        poly_scale(c, k).len() == c.len(),
    decreases c.len(),
{
    lemma_mul_zero_one(k);
    if c.len() > 0 {
        let s = poly_scale(c, k);
        assert(s.drop_first() =~= poly_scale(c.drop_first(), k));
        lemma_poly_scale(c.drop_first(), k, x);
        let er = poly_eval(c.drop_first(), x);
        lemma_mul_associates(k, er, x);
        lemma_mul_distributes(k, gf_mul(er, x), c[0]);
    }
}

proof fn lemma_roots_poly(s: Seq<u8>, x: u8)
    ensures
        poly_eval(roots_poly(s), x) == pprod(diffs(x, s)),
        roots_poly(s).len() == s.len() + 1,
    decreases s.len(),
{
    if s.len() == 0 {
        let one = seq![1u8];
        assert(poly_eval(one.drop_first(), x) == 0);
        lemma_mul_zero_one(x);
        lemma_add_facts(1, 0, 0);
        assert(diffs(x, s) =~= Seq::<u8>::empty());
    } else {
        let sd = s.drop_last();
        lemma_roots_poly(sd, x);
        lemma_mul_linear(roots_poly(sd), s.last(), x);
        assert(diffs(x, s).drop_last() =~= diffs(x, sd));
        lemma_mul_commutes(x ^ s.last(), pprod(diffs(x, sd)));
    }
}

/// A product with a zero factor is zero.
proof fn lemma_pprod_zero(s: Seq<u8>, k: int)
    requires
        0 <= k < s.len(),
        s[k] == 0,
    ensures
        pprod(s) == 0,
{
    lemma_pprod_remove(s, k);
    lemma_mul_zero_one(pprod(s.remove(k)));
}

/// The Lagrange basis polynomial of the points `pts` at `j`: one at `pts[j]`,
/// zero at the other points.
pub open spec fn basis_poly(pts: Seq<u8>, j: int) -> Seq<u8> {
    poly_scale(roots_poly(pts.remove(j)), gf_inv(spread(pts, j)))
}

proof fn lemma_basis_poly(pts: Seq<u8>, j: int, i: int)
    requires
        distinct(pts),
        0 <= j < pts.len(),
        0 <= i < pts.len(),
    ensures
        basis_poly(pts, j).len() == pts.len(),
        poly_eval(basis_poly(pts, j), pts[i]) == if i == j { 1u8 } else { 0u8 },
{
    let r = pts.remove(j);
    let is = gf_inv(spread(pts, j));
    lemma_roots_poly(r, pts[i]);
    lemma_poly_scale(roots_poly(r), is, pts[i]);
    if i == j {
        lemma_spread_nonzero(pts, j);
        lemma_mul_inverse(spread(pts, j));
    } else {
        let k = if i < j { i } else { i - 1 };
        assert(r[k] == pts[i]);
        lemma_add_facts(pts[i], 0, 0);
        assert(diffs(pts[i], r)[k] == 0);
        lemma_pprod_zero(diffs(pts[i], r), k);
        lemma_mul_zero_one(is);
    }
}

/// `Σ_{j<n} y_j · ℓ_j(x)` with `ℓ_j` the Lagrange basis polynomials of the
/// points, as coefficients: with `n` the number of points, the polynomial
/// with as many coefficients as points that takes the value `y_j` at `x_j`.
pub open spec fn interpolating_poly(pts: Seq<u8>, ys: Seq<u8>, n: nat) -> Seq<u8>
    decreases n,
{
    if n == 0 {
        Seq::new(pts.len(), |i: int| 0u8)
    } else {
        poly_add(
            interpolating_poly(pts, ys, (n - 1) as nat),
            poly_scale(basis_poly(pts, n - 1), ys[n - 1]),
        )
    }
}

proof fn lemma_zero_poly(m: nat, x: u8)
    ensures
        poly_eval(Seq::new(m, |i: int| 0u8), x) == 0,
    decreases m,
{
    if m > 0 {
        let z = Seq::new(m, |i: int| 0u8);
        assert(z.drop_first() =~= Seq::new((m - 1) as nat, |i: int| 0u8));
        lemma_zero_poly((m - 1) as nat, x);
        lemma_mul_zero_one(x);
        lemma_add_facts(0, 0, 0);
    }
}

proof fn lemma_interpolating_poly(pts: Seq<u8>, ys: Seq<u8>, n: nat, x: u8)
    requires
        distinct(pts),
        n <= pts.len(),
    ensures
        interpolating_poly(pts, ys, n).len() == pts.len(),
        poly_eval(interpolating_poly(pts, ys, n), x) == isum(
            n,
            |j: int| gf_mul(ys[j], poly_eval(basis_poly(pts, j), x)),
        ),
    decreases n,
{
    if n == 0 {
        lemma_zero_poly(pts.len(), x);
    } else {
        let prev = interpolating_poly(pts, ys, (n - 1) as nat);
        lemma_interpolating_poly(pts, ys, (n - 1) as nat, x);
        let b = basis_poly(pts, n - 1);
        lemma_basis_poly(pts, n - 1, 0);
        lemma_poly_scale(b, ys[n - 1], x);
        lemma_poly_eval_add(prev, poly_scale(b, ys[n - 1]), x);
        let t = |j: int| gf_mul(ys[j], poly_eval(basis_poly(pts, j), x));
        assert(isum(n, t) == isum((n - 1) as nat, t) ^ t(n - 1));
        lemma_isum_congruent(
            (n - 1) as nat,
            t,
            |j: int| gf_mul(ys[j], poly_eval(basis_poly(pts, j), x)),
        );
    }
}

/// Through any `m` points with distinct x coordinates passes a polynomial
/// with `m` coefficients.
pub proof fn lemma_interpolating_poly_passes(pts: Seq<u8>, ys: Seq<u8>, i: int)
    requires
        distinct(pts),
        ys.len() == pts.len(),
        0 <= i < pts.len(),
    ensures
        interpolating_poly(pts, ys, pts.len()).len() == pts.len(),
        poly_eval(interpolating_poly(pts, ys, pts.len()), pts[i]) == ys[i],
{
    let m = pts.len();
    let x = pts[i];
    lemma_interpolating_poly(pts, ys, m, x);
    let t = |j: int| gf_mul(ys[j], poly_eval(basis_poly(pts, j), x));
    lemma_isum_remove(m, t, i);
    let ts = |k: int| t(skip_index(k, i));
    assert forall|k: int| 0 <= k < m - 1 implies #[trigger] ts(k) == 0 by {
        lemma_basis_poly(pts, skip_index(k, i), i);
        lemma_mul_zero_one(ys[skip_index(k, i)]);
    }
    lemma_isum_zero((m - 1) as nat, ts);
    lemma_basis_poly(pts, i, i);
    lemma_mul_zero_one(ys[i]);
    lemma_add_facts(ys[i], 0, 0);
}

} // verus!
