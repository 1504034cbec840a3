//! The field GF(2^8) with the AES reduction polynomial `x^8 + x^4 + x^3 + x + 1`,
//! as mathematics: addition is XOR, multiplication is the product of the two
//! coefficient polynomials reduced modulo the AES polynomial.

use vstd::prelude::*;

verus! {

/// Multiplication by `x`, reduced modulo the AES polynomial.
pub open spec fn xtime(a: u8) -> u8 {
    if a & 0x80u8 == 0 {
        a << 1u8
    } else {
        (a << 1u8) ^ 0x1bu8
    }
}

/// The sum of the `p_i = a·x^i` over the set bits `i` of `b`.
pub open spec fn select_sum(
    p0: u8, p1: u8, p2: u8, p3: u8, p4: u8, p5: u8, p6: u8, p7: u8, b: u8,
) -> u8 {
    (if b & 0x01u8 != 0 { p0 } else { 0u8 })
    ^ (if b & 0x02u8 != 0 { p1 } else { 0u8 })
    ^ (if b & 0x04u8 != 0 { p2 } else { 0u8 })
    ^ (if b & 0x08u8 != 0 { p3 } else { 0u8 })
    ^ (if b & 0x10u8 != 0 { p4 } else { 0u8 })
    ^ (if b & 0x20u8 != 0 { p5 } else { 0u8 })
    ^ (if b & 0x40u8 != 0 { p6 } else { 0u8 })
    ^ (if b & 0x80u8 != 0 { p7 } else { 0u8 })
}

/// The product of `a` and `b` in GF(2^8): the sum of `a·x^i` over the set
/// bits `i` of `b`.
pub open spec fn gf_mul(a: u8, b: u8) -> u8 {
    let a1 = xtime(a);
    let a2 = xtime(a1);
    let a3 = xtime(a2);
    let a4 = xtime(a3);
    let a5 = xtime(a4);
    let a6 = xtime(a5);
    let a7 = xtime(a6);
    select_sum(a, a1, a2, a3, a4, a5, a6, a7, b)
}

/// Multiplication is commutative. Every `x^i·a` and `x^i·b` is named, so the
/// bit-vector solver sees a circuit of linear size over the sixteen bits.
#[verifier::rlimit(100)]
pub proof fn lemma_mul_commutes(a: u8, b: u8)
    ensures
        gf_mul(a, b) == gf_mul(b, a),
{
    let a1 = xtime(a);
    let a2 = xtime(a1);
    let a3 = xtime(a2);
    let a4 = xtime(a3);
    let a5 = xtime(a4);
    let a6 = xtime(a5);
    let a7 = xtime(a6);
    let b1 = xtime(b);
    let b2 = xtime(b1);
    let b3 = xtime(b2);
    let b4 = xtime(b3);
    let b5 = xtime(b4);
    let b6 = xtime(b5);
    let b7 = xtime(b6);
    assert(select_sum(a, a1, a2, a3, a4, a5, a6, a7, b) == select_sum(b, b1, b2, b3, b4, b5, b6, b7, a))
        by (bit_vector)
        requires
            a1 == xtime(a), a2 == xtime(a1), a3 == xtime(a2), a4 == xtime(a3),
            a5 == xtime(a4), a6 == xtime(a5), a7 == xtime(a6),
            b1 == xtime(b), b2 == xtime(b1), b3 == xtime(b2), b4 == xtime(b3),
            b5 == xtime(b4), b6 == xtime(b5), b7 == xtime(b6),
    ;
}

/// The selection is additive in the selector.
proof fn lemma_select_sum_selector_sum(
    p0: u8, p1: u8, p2: u8, p3: u8, p4: u8, p5: u8, p6: u8, p7: u8, b: u8, c: u8,
)
    ensures
        select_sum(p0, p1, p2, p3, p4, p5, p6, p7, b ^ c)
            == select_sum(p0, p1, p2, p3, p4, p5, p6, p7, b) ^ select_sum(p0, p1, p2, p3, p4, p5, p6, p7, c),
{
    assert(select_sum(p0, p1, p2, p3, p4, p5, p6, p7, b ^ c)
            == select_sum(p0, p1, p2, p3, p4, p5, p6, p7, b) ^ select_sum(p0, p1, p2, p3, p4, p5, p6, p7, c))
        by (bit_vector);
}

/// Multiplying by `x` commutes with the selection.
proof fn lemma_xtime_select_sum(
    p0: u8, p1: u8, p2: u8, p3: u8, p4: u8, p5: u8, p6: u8, p7: u8, c: u8,
)
    ensures
        xtime(select_sum(p0, p1, p2, p3, p4, p5, p6, p7, c)) == select_sum(
            xtime(p0), xtime(p1), xtime(p2), xtime(p3), xtime(p4), xtime(p5), xtime(p6), xtime(p7), c,
        ),
{
    let s = select_sum(p0, p1, p2, p3, p4, p5, p6, p7, c);
    let (x0, x1, x2, x3) = (xtime(p0), xtime(p1), xtime(p2), xtime(p3));
    let (x4, x5, x6, x7) = (xtime(p4), xtime(p5), xtime(p6), xtime(p7));
    assert(xtime(s) == select_sum(x0, x1, x2, x3, x4, x5, x6, x7, c)) by (bit_vector)
        requires
            s == select_sum(p0, p1, p2, p3, p4, p5, p6, p7, c),
            x0 == xtime(p0), x1 == xtime(p1), x2 == xtime(p2), x3 == xtime(p3),
            x4 == xtime(p4), x5 == xtime(p5), x6 == xtime(p6), x7 == xtime(p7),
    ;
}

/// `a·0 = 0` and `a·1 = a`.
pub proof fn lemma_mul_zero_one(a: u8)
    ensures
        gf_mul(a, 0) == 0,
        gf_mul(0, a) == 0,
        gf_mul(a, 1) == a,
        gf_mul(1, a) == a,
{
    let a1 = xtime(a);
    let a2 = xtime(a1);
    let a3 = xtime(a2);
    let a4 = xtime(a3);
    let a5 = xtime(a4);
    let a6 = xtime(a5);
    let a7 = xtime(a6);
    assert(select_sum(a, a1, a2, a3, a4, a5, a6, a7, 0) == 0) by (bit_vector);
    assert(select_sum(a, a1, a2, a3, a4, a5, a6, a7, 1) == a) by (bit_vector);
    lemma_mul_commutes(a, 0);
    lemma_mul_commutes(a, 1);
}

/// Multiplication distributes over addition.
pub proof fn lemma_mul_distributes(a: u8, b: u8, c: u8)
    ensures
        gf_mul(a, b ^ c) == gf_mul(a, b) ^ gf_mul(a, c),
        gf_mul(b ^ c, a) == gf_mul(b, a) ^ gf_mul(c, a),
{
    let a1 = xtime(a);
    let a2 = xtime(a1);
    let a3 = xtime(a2);
    let a4 = xtime(a3);
    let a5 = xtime(a4);
    let a6 = xtime(a5);
    let a7 = xtime(a6);
    lemma_select_sum_selector_sum(a, a1, a2, a3, a4, a5, a6, a7, b, c);
    lemma_mul_commutes(a, b ^ c);
    lemma_mul_commutes(a, b);
    lemma_mul_commutes(a, c);
}

/// `a·(x·b) = x·(a·b)`.
proof fn lemma_mul_xtime(a: u8, b: u8)
    ensures
        gf_mul(a, xtime(b)) == xtime(gf_mul(a, b)),
{
    let b1 = xtime(b);
    let b2 = xtime(b1);
    let b3 = xtime(b2);
    let b4 = xtime(b3);
    let b5 = xtime(b4);
    let b6 = xtime(b5);
    let b7 = xtime(b6);
    let b8 = xtime(b7);
    lemma_mul_commutes(a, b1);
    lemma_mul_commutes(a, b);
    lemma_xtime_select_sum(b, b1, b2, b3, b4, b5, b6, b7, a);
}

/// `a·(sum over the set bits i of c of q_i) = sum over the set bits i of c of a·q_i`.
proof fn lemma_mul_select_sum(
    a: u8, q0: u8, q1: u8, q2: u8, q3: u8, q4: u8, q5: u8, q6: u8, q7: u8, c: u8,
)
    ensures
        gf_mul(a, select_sum(q0, q1, q2, q3, q4, q5, q6, q7, c)) == select_sum(
            gf_mul(a, q0), gf_mul(a, q1), gf_mul(a, q2), gf_mul(a, q3),
            gf_mul(a, q4), gf_mul(a, q5), gf_mul(a, q6), gf_mul(a, q7), c,
        ),
{
    let t0 = if c & 0x01u8 != 0 { q0 } else { 0u8 };
    let t1 = if c & 0x02u8 != 0 { q1 } else { 0u8 };
    let t2 = if c & 0x04u8 != 0 { q2 } else { 0u8 };
    let t3 = if c & 0x08u8 != 0 { q3 } else { 0u8 };
    let t4 = if c & 0x10u8 != 0 { q4 } else { 0u8 };
    let t5 = if c & 0x20u8 != 0 { q5 } else { 0u8 };
    let t6 = if c & 0x40u8 != 0 { q6 } else { 0u8 };
    let t7 = if c & 0x80u8 != 0 { q7 } else { 0u8 };
    lemma_mul_zero_one(a);
    lemma_mul_distributes(a, t0 ^ t1 ^ t2 ^ t3 ^ t4 ^ t5 ^ t6, t7);
    lemma_mul_distributes(a, t0 ^ t1 ^ t2 ^ t3 ^ t4 ^ t5, t6);
    lemma_mul_distributes(a, t0 ^ t1 ^ t2 ^ t3 ^ t4, t5);
    lemma_mul_distributes(a, t0 ^ t1 ^ t2 ^ t3, t4);
    lemma_mul_distributes(a, t0 ^ t1 ^ t2, t3);
    lemma_mul_distributes(a, t0 ^ t1, t2);
    lemma_mul_distributes(a, t0, t1);
}

/// Multiplication is associative.
pub proof fn lemma_mul_associates(a: u8, b: u8, c: u8)
    ensures
        gf_mul(gf_mul(a, b), c) == gf_mul(a, gf_mul(b, c)),
{
    let b1 = xtime(b);
    let b2 = xtime(b1);
    let b3 = xtime(b2);
    let b4 = xtime(b3);
    let b5 = xtime(b4);
    let b6 = xtime(b5);
    let b7 = xtime(b6);
    lemma_mul_xtime(a, b);
    lemma_mul_xtime(a, b1);
    lemma_mul_xtime(a, b2);
    lemma_mul_xtime(a, b3);
    lemma_mul_xtime(a, b4);
    lemma_mul_xtime(a, b5);
    lemma_mul_xtime(a, b6);
    lemma_mul_select_sum(a, b, b1, b2, b3, b4, b5, b6, b7, c);
}

/// `a^254`, which is the inverse of `a` for every non-zero `a` (and zero for
/// zero): the squares `a^2, a^4, ..., a^128` multiplied together, lowest first.
pub open spec fn gf_inv(a: u8) -> u8 {
    let s1 = gf_mul(a, a);
    let s2 = gf_mul(s1, s1);
    let s3 = gf_mul(s2, s2);
    let s4 = gf_mul(s3, s3);
    let s5 = gf_mul(s4, s4);
    let s6 = gf_mul(s5, s5);
    let s7 = gf_mul(s6, s6);
    gf_mul(gf_mul(gf_mul(gf_mul(gf_mul(gf_mul(gf_mul(1u8, s1), s2), s3), s4), s5), s6), s7)
}

/// Every non-zero element times its inverse is one: `a^255 = 1`.
#[verifier::rlimit(100)]
pub proof fn lemma_mul_inverse(a: u8)
    requires
        a != 0,
    ensures
        gf_mul(a, gf_inv(a)) == 1,
        gf_mul(gf_inv(a), a) == 1,
{
    // Every intermediate product of `a·a^254` and every `x^i` multiple in it
    // is named, so the bit-vector solver sees a circuit of linear size over
    // the eight bits of `a`.
    let one = 1u8;
    let s1_x1 = xtime(a);
    let s1_x2 = xtime(s1_x1);
    let s1_x3 = xtime(s1_x2);
    let s1_x4 = xtime(s1_x3);
    let s1_x5 = xtime(s1_x4);
    let s1_x6 = xtime(s1_x5);
    let s1_x7 = xtime(s1_x6);
    let s1 = select_sum(a, s1_x1, s1_x2, s1_x3, s1_x4, s1_x5, s1_x6, s1_x7, a);
    let s2_x1 = xtime(s1);
    let s2_x2 = xtime(s2_x1);
    let s2_x3 = xtime(s2_x2);
    let s2_x4 = xtime(s2_x3);
    let s2_x5 = xtime(s2_x4);
    let s2_x6 = xtime(s2_x5);
    let s2_x7 = xtime(s2_x6);
    let s2 = select_sum(s1, s2_x1, s2_x2, s2_x3, s2_x4, s2_x5, s2_x6, s2_x7, s1);
    let s3_x1 = xtime(s2);
    let s3_x2 = xtime(s3_x1);
    let s3_x3 = xtime(s3_x2);
    let s3_x4 = xtime(s3_x3);
    let s3_x5 = xtime(s3_x4);
    let s3_x6 = xtime(s3_x5);
    let s3_x7 = xtime(s3_x6);
    let s3 = select_sum(s2, s3_x1, s3_x2, s3_x3, s3_x4, s3_x5, s3_x6, s3_x7, s2);
    let s4_x1 = xtime(s3);
    let s4_x2 = xtime(s4_x1);
    let s4_x3 = xtime(s4_x2);
    let s4_x4 = xtime(s4_x3);
    let s4_x5 = xtime(s4_x4);
    let s4_x6 = xtime(s4_x5);
    let s4_x7 = xtime(s4_x6);
    let s4 = select_sum(s3, s4_x1, s4_x2, s4_x3, s4_x4, s4_x5, s4_x6, s4_x7, s3);
    let s5_x1 = xtime(s4);
    let s5_x2 = xtime(s5_x1);
    let s5_x3 = xtime(s5_x2);
    let s5_x4 = xtime(s5_x3);
    let s5_x5 = xtime(s5_x4);
    let s5_x6 = xtime(s5_x5);
    let s5_x7 = xtime(s5_x6);
    let s5 = select_sum(s4, s5_x1, s5_x2, s5_x3, s5_x4, s5_x5, s5_x6, s5_x7, s4);
    let s6_x1 = xtime(s5);
    let s6_x2 = xtime(s6_x1);
    let s6_x3 = xtime(s6_x2);
    let s6_x4 = xtime(s6_x3);
    let s6_x5 = xtime(s6_x4);
    let s6_x6 = xtime(s6_x5);
    let s6_x7 = xtime(s6_x6);
    let s6 = select_sum(s5, s6_x1, s6_x2, s6_x3, s6_x4, s6_x5, s6_x6, s6_x7, s5);
    let s7_x1 = xtime(s6);
    let s7_x2 = xtime(s7_x1);
    let s7_x3 = xtime(s7_x2);
    let s7_x4 = xtime(s7_x3);
    let s7_x5 = xtime(s7_x4);
    let s7_x6 = xtime(s7_x5);
    let s7_x7 = xtime(s7_x6);
    let s7 = select_sum(s6, s7_x1, s7_x2, s7_x3, s7_x4, s7_x5, s7_x6, s7_x7, s6);
    let m1_x1 = xtime(one);
    let m1_x2 = xtime(m1_x1);
    let m1_x3 = xtime(m1_x2);
    let m1_x4 = xtime(m1_x3);
    let m1_x5 = xtime(m1_x4);
    let m1_x6 = xtime(m1_x5);
    let m1_x7 = xtime(m1_x6);
    let m1 = select_sum(one, m1_x1, m1_x2, m1_x3, m1_x4, m1_x5, m1_x6, m1_x7, s1);
    let m2_x1 = xtime(m1);
    let m2_x2 = xtime(m2_x1);
    let m2_x3 = xtime(m2_x2);
    let m2_x4 = xtime(m2_x3);
    let m2_x5 = xtime(m2_x4);
    let m2_x6 = xtime(m2_x5);
    let m2_x7 = xtime(m2_x6);
    let m2 = select_sum(m1, m2_x1, m2_x2, m2_x3, m2_x4, m2_x5, m2_x6, m2_x7, s2);
    let m3_x1 = xtime(m2);
    let m3_x2 = xtime(m3_x1);
    let m3_x3 = xtime(m3_x2);
    let m3_x4 = xtime(m3_x3);
    let m3_x5 = xtime(m3_x4);
    let m3_x6 = xtime(m3_x5);
    let m3_x7 = xtime(m3_x6);
    let m3 = select_sum(m2, m3_x1, m3_x2, m3_x3, m3_x4, m3_x5, m3_x6, m3_x7, s3);
    let m4_x1 = xtime(m3);
    let m4_x2 = xtime(m4_x1);
    let m4_x3 = xtime(m4_x2);
    let m4_x4 = xtime(m4_x3);
    let m4_x5 = xtime(m4_x4);
    let m4_x6 = xtime(m4_x5);
    let m4_x7 = xtime(m4_x6);
    let m4 = select_sum(m3, m4_x1, m4_x2, m4_x3, m4_x4, m4_x5, m4_x6, m4_x7, s4);
    let m5_x1 = xtime(m4);
    let m5_x2 = xtime(m5_x1);
    let m5_x3 = xtime(m5_x2);
    let m5_x4 = xtime(m5_x3);
    let m5_x5 = xtime(m5_x4);
    let m5_x6 = xtime(m5_x5);
    let m5_x7 = xtime(m5_x6);
    let m5 = select_sum(m4, m5_x1, m5_x2, m5_x3, m5_x4, m5_x5, m5_x6, m5_x7, s5);
    let m6_x1 = xtime(m5);
    let m6_x2 = xtime(m6_x1);
    let m6_x3 = xtime(m6_x2);
    let m6_x4 = xtime(m6_x3);
    let m6_x5 = xtime(m6_x4);
    let m6_x6 = xtime(m6_x5);
    let m6_x7 = xtime(m6_x6);
    let m6 = select_sum(m5, m6_x1, m6_x2, m6_x3, m6_x4, m6_x5, m6_x6, m6_x7, s6);
    let m7_x1 = xtime(m6);
    let m7_x2 = xtime(m7_x1);
    let m7_x3 = xtime(m7_x2);
    let m7_x4 = xtime(m7_x3);
    let m7_x5 = xtime(m7_x4);
    let m7_x6 = xtime(m7_x5);
    let m7_x7 = xtime(m7_x6);
    let m7 = select_sum(m6, m7_x1, m7_x2, m7_x3, m7_x4, m7_x5, m7_x6, m7_x7, s7);
    let r_x1 = xtime(a);
    let r_x2 = xtime(r_x1);
    let r_x3 = xtime(r_x2);
    let r_x4 = xtime(r_x3);
    let r_x5 = xtime(r_x4);
    let r_x6 = xtime(r_x5);
    let r_x7 = xtime(r_x6);
    let r = select_sum(a, r_x1, r_x2, r_x3, r_x4, r_x5, r_x6, r_x7, m7);
    assert(r == 1u8) by (bit_vector)
        requires
            a != 0u8,
            one == 1u8,
            s1_x1 == xtime(a),
            s1_x2 == xtime(s1_x1),
            s1_x3 == xtime(s1_x2),
            s1_x4 == xtime(s1_x3),
            s1_x5 == xtime(s1_x4),
            s1_x6 == xtime(s1_x5),
            s1_x7 == xtime(s1_x6),
            s1 == select_sum(a, s1_x1, s1_x2, s1_x3, s1_x4, s1_x5, s1_x6, s1_x7, a),
            s2_x1 == xtime(s1),
            s2_x2 == xtime(s2_x1),
            s2_x3 == xtime(s2_x2),
            s2_x4 == xtime(s2_x3),
            s2_x5 == xtime(s2_x4),
            s2_x6 == xtime(s2_x5),
            s2_x7 == xtime(s2_x6),
            s2 == select_sum(s1, s2_x1, s2_x2, s2_x3, s2_x4, s2_x5, s2_x6, s2_x7, s1),
            s3_x1 == xtime(s2),
            s3_x2 == xtime(s3_x1),
            s3_x3 == xtime(s3_x2),
            s3_x4 == xtime(s3_x3),
            s3_x5 == xtime(s3_x4),
            s3_x6 == xtime(s3_x5),
            s3_x7 == xtime(s3_x6),
            s3 == select_sum(s2, s3_x1, s3_x2, s3_x3, s3_x4, s3_x5, s3_x6, s3_x7, s2),
            s4_x1 == xtime(s3),
            s4_x2 == xtime(s4_x1),
            s4_x3 == xtime(s4_x2),
            s4_x4 == xtime(s4_x3),
            s4_x5 == xtime(s4_x4),
            s4_x6 == xtime(s4_x5),
            s4_x7 == xtime(s4_x6),
            s4 == select_sum(s3, s4_x1, s4_x2, s4_x3, s4_x4, s4_x5, s4_x6, s4_x7, s3),
            s5_x1 == xtime(s4),
            s5_x2 == xtime(s5_x1),
            s5_x3 == xtime(s5_x2),
            s5_x4 == xtime(s5_x3),
            s5_x5 == xtime(s5_x4),
            s5_x6 == xtime(s5_x5),
            s5_x7 == xtime(s5_x6),
            s5 == select_sum(s4, s5_x1, s5_x2, s5_x3, s5_x4, s5_x5, s5_x6, s5_x7, s4),
            s6_x1 == xtime(s5),
            s6_x2 == xtime(s6_x1),
            s6_x3 == xtime(s6_x2),
            s6_x4 == xtime(s6_x3),
            s6_x5 == xtime(s6_x4),
            s6_x6 == xtime(s6_x5),
            s6_x7 == xtime(s6_x6),
            s6 == select_sum(s5, s6_x1, s6_x2, s6_x3, s6_x4, s6_x5, s6_x6, s6_x7, s5),
            s7_x1 == xtime(s6),
            s7_x2 == xtime(s7_x1),
            s7_x3 == xtime(s7_x2),
            s7_x4 == xtime(s7_x3),
            s7_x5 == xtime(s7_x4),
            s7_x6 == xtime(s7_x5),
            s7_x7 == xtime(s7_x6),
            s7 == select_sum(s6, s7_x1, s7_x2, s7_x3, s7_x4, s7_x5, s7_x6, s7_x7, s6),
            m1_x1 == xtime(one),
            m1_x2 == xtime(m1_x1),
            m1_x3 == xtime(m1_x2),
            m1_x4 == xtime(m1_x3),
            m1_x5 == xtime(m1_x4),
            m1_x6 == xtime(m1_x5),
            m1_x7 == xtime(m1_x6),
            m1 == select_sum(one, m1_x1, m1_x2, m1_x3, m1_x4, m1_x5, m1_x6, m1_x7, s1),
            m2_x1 == xtime(m1),
            m2_x2 == xtime(m2_x1),
            m2_x3 == xtime(m2_x2),
            m2_x4 == xtime(m2_x3),
            m2_x5 == xtime(m2_x4),
            m2_x6 == xtime(m2_x5),
            m2_x7 == xtime(m2_x6),
            m2 == select_sum(m1, m2_x1, m2_x2, m2_x3, m2_x4, m2_x5, m2_x6, m2_x7, s2),
            m3_x1 == xtime(m2),
            m3_x2 == xtime(m3_x1),
            m3_x3 == xtime(m3_x2),
            m3_x4 == xtime(m3_x3),
            m3_x5 == xtime(m3_x4),
            m3_x6 == xtime(m3_x5),
            m3_x7 == xtime(m3_x6),
            m3 == select_sum(m2, m3_x1, m3_x2, m3_x3, m3_x4, m3_x5, m3_x6, m3_x7, s3),
            m4_x1 == xtime(m3),
            m4_x2 == xtime(m4_x1),
            m4_x3 == xtime(m4_x2),
            m4_x4 == xtime(m4_x3),
            m4_x5 == xtime(m4_x4),
            m4_x6 == xtime(m4_x5),
            m4_x7 == xtime(m4_x6),
            m4 == select_sum(m3, m4_x1, m4_x2, m4_x3, m4_x4, m4_x5, m4_x6, m4_x7, s4),
            m5_x1 == xtime(m4),
            m5_x2 == xtime(m5_x1),
            m5_x3 == xtime(m5_x2),
            m5_x4 == xtime(m5_x3),
            m5_x5 == xtime(m5_x4),
            m5_x6 == xtime(m5_x5),
            m5_x7 == xtime(m5_x6),
            m5 == select_sum(m4, m5_x1, m5_x2, m5_x3, m5_x4, m5_x5, m5_x6, m5_x7, s5),
            m6_x1 == xtime(m5),
            m6_x2 == xtime(m6_x1),
            m6_x3 == xtime(m6_x2),
            m6_x4 == xtime(m6_x3),
            m6_x5 == xtime(m6_x4),
            m6_x6 == xtime(m6_x5),
            m6_x7 == xtime(m6_x6),
            m6 == select_sum(m5, m6_x1, m6_x2, m6_x3, m6_x4, m6_x5, m6_x6, m6_x7, s6),
            m7_x1 == xtime(m6),
            m7_x2 == xtime(m7_x1),
            m7_x3 == xtime(m7_x2),
            m7_x4 == xtime(m7_x3),
            m7_x5 == xtime(m7_x4),
            m7_x6 == xtime(m7_x5),
            m7_x7 == xtime(m7_x6),
            m7 == select_sum(m6, m7_x1, m7_x2, m7_x3, m7_x4, m7_x5, m7_x6, m7_x7, s7),
            r_x1 == xtime(a),
            r_x2 == xtime(r_x1),
            r_x3 == xtime(r_x2),
            r_x4 == xtime(r_x3),
            r_x5 == xtime(r_x4),
            r_x6 == xtime(r_x5),
            r_x7 == xtime(r_x6),
            r == select_sum(a, r_x1, r_x2, r_x3, r_x4, r_x5, r_x6, r_x7, m7),
    ;
    lemma_mul_commutes(a, gf_inv(a));
}

/// A product is zero only when a factor is.
pub proof fn lemma_no_zero_divisors(a: u8, b: u8)
    requires
        a != 0,
        b != 0,
    ensures
        gf_mul(a, b) != 0,
{
    if gf_mul(a, b) == 0 {
        lemma_mul_inverse(b);
        lemma_mul_associates(a, b, gf_inv(b));
        lemma_mul_zero_one(a);
        lemma_mul_zero_one(gf_inv(b));
    }
}

/// An element that multiplies `a` to one is the inverse of `a`.
pub proof fn lemma_inverse_unique(a: u8, b: u8)
    requires
        gf_mul(a, b) == 1,
    ensures
        a != 0,
        b == gf_inv(a),
{
    lemma_mul_zero_one(b);
    if a != 0 {
        lemma_mul_inverse(a);
        lemma_mul_associates(b, a, gf_inv(a));
        lemma_mul_commutes(b, a);
        lemma_mul_zero_one(gf_inv(a));
    }
}

/// The inverse of a product of non-zero elements is the product of the inverses.
pub proof fn lemma_inverse_of_product(a: u8, b: u8)
    requires
        a != 0,
        b != 0,
    ensures
        gf_inv(gf_mul(a, b)) == gf_mul(gf_inv(a), gf_inv(b)),
{
    let ia = gf_inv(a);
    let ib = gf_inv(b);
    lemma_mul_inverse(a);
    lemma_mul_inverse(b);
    // (a·b)·(ia·ib) = a·(b·(ia·ib)) = a·(ia·(b·ib)) = a·ia = 1
    lemma_mul_associates(a, b, gf_mul(ia, ib));
    lemma_mul_associates(b, ia, ib);
    lemma_mul_commutes(b, ia);
    lemma_mul_associates(ia, b, ib);
    lemma_mul_zero_one(ia);
    lemma_inverse_unique(gf_mul(a, b), gf_mul(ia, ib));
}

/// One is its own inverse.
pub proof fn lemma_inverse_of_one()
    ensures
        gf_inv(1) == 1,
{
    lemma_mul_zero_one(1);
    lemma_inverse_unique(1, 1);
}

/// `(a·b)·c = (a·c)·b`, and the other rearrangements of three factors.
pub proof fn lemma_mul_rearrange(a: u8, b: u8, c: u8)
    ensures
        gf_mul(gf_mul(a, b), c) == gf_mul(gf_mul(a, c), b),
        gf_mul(a, gf_mul(b, c)) == gf_mul(b, gf_mul(a, c)),
{
    lemma_mul_associates(a, b, c);
    lemma_mul_associates(a, c, b);
    lemma_mul_commutes(b, c);
    lemma_mul_associates(b, a, c);
    lemma_mul_commutes(a, b);
}

/// Addition (XOR) is commutative and associative, zero is its identity, and
/// every element is its own negative.
pub proof fn lemma_add_facts(a: u8, b: u8, c: u8)
    ensures
        a ^ 0 == a,
        0 ^ a == a,
        a ^ a == 0,
        a ^ b == b ^ a,
        (a ^ b) ^ c == a ^ (b ^ c),
        (a ^ b) ^ b == a,
        a ^ b == 0 ==> a == b,
        (c ^ a) ^ (c ^ b) == a ^ b,
{
    assert(a ^ 0 == a) by (bit_vector);
    assert(0 ^ a == a) by (bit_vector);
    assert(a ^ a == 0) by (bit_vector);
    assert(a ^ b == b ^ a) by (bit_vector);
    assert((a ^ b) ^ c == a ^ (b ^ c)) by (bit_vector);
    assert((a ^ b) ^ b == a) by (bit_vector);
    assert(a ^ b == 0 ==> a == b) by (bit_vector);
    assert((c ^ a) ^ (c ^ b) == a ^ b) by (bit_vector);
}

} // verus!
