//! The field of AES and its substitution.

use vstd::prelude::*;

verus! {

/// Multiplication by `x` in the field of AES: bytes are polynomials over two
/// elements, taken modulo `x^8 + x^4 + x^3 + x + 1`.
pub open spec fn xtime(a: u8) -> u8 {
    (a << 1) ^ (if a >= 0x80 {
        0x1bu8
    } else {
        0u8
    })
}

/// `a` where `b` has the bit `bit`, else zero.
pub open spec fn gf_term(a: u8, b: u8, bit: u8) -> u8 {
    if b & bit != 0 {
        a
    } else {
        0u8
    }
}

/// Multiplication in the field of AES.
pub open spec fn gf_mul(a: u8, b: u8) -> u8 {
    let a1 = xtime(a);
    let a2 = xtime(a1);
    let a3 = xtime(a2);
    let a4 = xtime(a3);
    let a5 = xtime(a4);
    let a6 = xtime(a5);
    let a7 = xtime(a6);
    gf_term(a, b, 1) ^ gf_term(a1, b, 2) ^ gf_term(a2, b, 4) ^ gf_term(a3, b, 8) ^ gf_term(a4, b, 16)
        ^ gf_term(a5, b, 32) ^ gf_term(a6, b, 64) ^ gf_term(a7, b, 128)
}

/// The inverse in the field of AES, with zero for zero.
pub open spec fn gf_inv(a: u8) -> u8 {
    if a == 0 {
        0
    } else {
        choose|b: u8| gf_mul(a, b) == 1
    }
}

/// The affine map of the substitution.
pub open spec fn affine(i: u8) -> u8 {
    i ^ ((i << 1) | (i >> 7)) ^ ((i << 2) | (i >> 6)) ^ ((i << 3) | (i >> 5)) ^ ((i << 4) | (i
        >> 4)) ^ 0x63
}

/// The inverse of the affine map.
pub open spec fn inv_affine(i: u8) -> u8 {
    ((i << 1) | (i >> 7)) ^ ((i << 3) | (i >> 5)) ^ ((i << 6) | (i >> 2)) ^ 0x05
}

/// The substitution of AES.
#[verifier::opaque]
pub open spec fn sbox(a: u8) -> u8 {
    affine(gf_inv(a))
}

/// The inverse substitution of AES.
#[verifier::opaque]
pub open spec fn inv_sbox(a: u8) -> u8 {
    gf_inv(inv_affine(a))
}

/// One byte of a column times the polynomial `3x^3 + x^2 + x + 2`.
#[verifier::opaque]
pub open spec fn mix_byte(a: u8, b: u8, c: u8, d: u8) -> u8 {
    gf_mul(a, 2) ^ gf_mul(b, 3) ^ c ^ d
}

/// One byte of a column times the polynomial `11x^3 + 13x^2 + 9x + 14`.
#[verifier::opaque]
pub open spec fn inv_mix_byte(a: u8, b: u8, c: u8, d: u8) -> u8 {
    gf_mul(a, 14) ^ gf_mul(b, 11) ^ gf_mul(c, 13) ^ gf_mul(d, 9)
}

proof fn lemma_gf_mul_distributes(a: u8, b: u8, c: u8)
    ensures
        gf_mul(a, b ^ c) == gf_mul(a, b) ^ gf_mul(a, c),
{
    assert(gf_mul(a, b ^ c) == gf_mul(a, b) ^ gf_mul(a, c)) by (bit_vector);
}

#[verifier::rlimit(60)]
proof fn lemma_gf_mul_commutes(a: u8, b: u8)
    ensures
        gf_mul(a, b) == gf_mul(b, a),
{
    assert(gf_mul(a, b) == gf_mul(b, a)) by (bit_vector);
}

proof fn lemma_gf_mul_nonzero(a: u8, b: u8)
    requires
        gf_mul(a, b) == 0,
    ensures
        a == 0 || b == 0,
{
    assert(gf_mul(a, b) == 0 ==> a == 0 || b == 0) by (bit_vector);
}

proof fn lemma_gf_mul_xtime(a: u8, b: u8)
    ensures
        gf_mul(a, xtime(b)) == xtime(gf_mul(a, b)),
{
    assert(gf_mul(a, xtime(b)) == xtime(gf_mul(a, b))) by (bit_vector);
}

proof fn lemma_gf_mul_units(a: u8)
    ensures
        gf_mul(a, 0) == 0,
        gf_mul(0, a) == 0,
        gf_mul(a, 1) == a,
{
    assert(gf_mul(a, 0) == 0 && gf_mul(0, a) == 0 && gf_mul(a, 1) == a) by (bit_vector);
}

proof fn lemma_gf_mul_associates(a: u8, b: u8, c: u8)
    ensures
        gf_mul(gf_mul(a, b), c) == gf_mul(a, gf_mul(b, c)),
{
    let b1 = xtime(b);
    let b2 = xtime(b1);
    let b3 = xtime(b2);
    let b4 = xtime(b3);
    let b5 = xtime(b4);
    let b6 = xtime(b5);
    let b7 = xtime(b6);
    lemma_gf_mul_xtime(a, b);
    lemma_gf_mul_xtime(a, b1);
    lemma_gf_mul_xtime(a, b2);
    lemma_gf_mul_xtime(a, b3);
    lemma_gf_mul_xtime(a, b4);
    lemma_gf_mul_xtime(a, b5);
    lemma_gf_mul_xtime(a, b6);
    lemma_gf_mul_units(a);
    let t0 = gf_term(b, c, 1);
    let t1 = gf_term(b1, c, 2);
    let t2 = gf_term(b2, c, 4);
    let t3 = gf_term(b3, c, 8);
    let t4 = gf_term(b4, c, 16);
    let t5 = gf_term(b5, c, 32);
    let t6 = gf_term(b6, c, 64);
    let t7 = gf_term(b7, c, 128);
    lemma_gf_mul_distributes(a, t0, t1);
    lemma_gf_mul_distributes(a, t0 ^ t1, t2);
    lemma_gf_mul_distributes(a, t0 ^ t1 ^ t2, t3);
    lemma_gf_mul_distributes(a, t0 ^ t1 ^ t2 ^ t3, t4);
    lemma_gf_mul_distributes(a, t0 ^ t1 ^ t2 ^ t3 ^ t4, t5);
    lemma_gf_mul_distributes(a, t0 ^ t1 ^ t2 ^ t3 ^ t4 ^ t5, t6);
    lemma_gf_mul_distributes(a, t0 ^ t1 ^ t2 ^ t3 ^ t4 ^ t5 ^ t6, t7);
}

/// Two factors that give one product with a nonzero `a` are equal.
proof fn lemma_gf_mul_cancels(a: u8, b: u8, c: u8)
    requires
        a != 0,
        gf_mul(a, b) == gf_mul(a, c),
    ensures
        b == c,
{
    lemma_gf_mul_distributes(a, b, c);
    let p = gf_mul(a, b);
    assert(p ^ p == 0) by (bit_vector);
    lemma_gf_mul_nonzero(a, b ^ c);
    assert(b ^ c == 0 ==> b == c) by (bit_vector);
}

/// Squaring eight times gives every element back.
#[verifier::rlimit(60)]
proof fn lemma_eight_squarings(
    a: u8,
    s1: u8,
    s2: u8,
    s3: u8,
    s4: u8,
    s5: u8,
    s6: u8,
    s7: u8,
)
    requires
        s1 == gf_mul(a, a),
        s2 == gf_mul(s1, s1),
        s3 == gf_mul(s2, s2),
        s4 == gf_mul(s3, s3),
        s5 == gf_mul(s4, s4),
        s6 == gf_mul(s5, s5),
        s7 == gf_mul(s6, s6),
    ensures
        gf_mul(s7, s7) == a,
{
    assert(gf_mul(s7, s7) == a) by (bit_vector)
        requires
            s1 == gf_mul(a, a),
            s2 == gf_mul(s1, s1),
            s3 == gf_mul(s2, s2),
            s4 == gf_mul(s3, s3),
            s5 == gf_mul(s4, s4),
            s6 == gf_mul(s5, s5),
            s7 == gf_mul(s6, s6),
    ;
}

/// The product of the powers 2, 4, ..., 128 of a nonzero element is its inverse.
proof fn lemma_power_is_inverse(a: u8)
    requires
        a != 0,
    ensures
        gf_mul(a, power_254(a)) == 1,
{
    let s1 = gf_mul(a, a);
    let s2 = gf_mul(s1, s1);
    let s3 = gf_mul(s2, s2);
    let s4 = gf_mul(s3, s3);
    let s5 = gf_mul(s4, s4);
    let s6 = gf_mul(s5, s5);
    let s7 = gf_mul(s6, s6);
    let t2 = gf_mul(s1, s2);
    let t3 = gf_mul(t2, s3);
    let t4 = gf_mul(t3, s4);
    let t5 = gf_mul(t4, s5);
    let t6 = gf_mul(t5, s6);
    let t7 = gf_mul(t6, s7);
    lemma_eight_squarings(a, s1, s2, s3, s4, s5, s6, s7);
    lemma_gf_mul_associates(s1, s1, s2);
    lemma_gf_mul_associates(s1, t2, s3);
    lemma_gf_mul_associates(s1, t3, s4);
    lemma_gf_mul_associates(s1, t4, s5);
    lemma_gf_mul_associates(s1, t5, s6);
    lemma_gf_mul_associates(s1, t6, s7);
    lemma_gf_mul_associates(a, a, t7);
    lemma_gf_mul_units(a);
    lemma_gf_mul_cancels(a, gf_mul(a, t7), 1);
}

/// The power 254 in the field, as a product of repeated squares.
spec fn power_254(a: u8) -> u8 {
    let s1 = gf_mul(a, a);
    let s2 = gf_mul(s1, s1);
    let s3 = gf_mul(s2, s2);
    let s4 = gf_mul(s3, s3);
    let s5 = gf_mul(s4, s4);
    let s6 = gf_mul(s5, s5);
    let s7 = gf_mul(s6, s6);
    gf_mul(gf_mul(gf_mul(gf_mul(gf_mul(gf_mul(s1, s2), s3), s4), s5), s6), s7)
}

/// Multiplication is that of polynomials over two elements modulo
/// `x^8 + x^4 + x^3 + x + 1`: one is neutral, to multiply by `x` is to shift and,
/// where a bit is lost, to combine with `x^4 + x^3 + x + 1`; it commutes,
/// associates, and distributes over exclusive or. Nothing else does all this.
pub proof fn law_multiplication(a: u8, b: u8, c: u8)
    ensures
        gf_mul(a, 1) == a,
        gf_mul(a, 2) == (if a < 128 {
            (2 * a) as u8
        } else {
            ((2 * a - 256) as u8) ^ 27u8
        }),
        gf_mul(a, b) == gf_mul(b, a),
        gf_mul(gf_mul(a, b), c) == gf_mul(a, gf_mul(b, c)),
        gf_mul(a, b ^ c) == gf_mul(a, b) ^ gf_mul(a, c),
{
    lemma_gf_mul_units(a);
    lemma_gf_mul_commutes(a, b);
    lemma_gf_mul_associates(a, b, c);
    lemma_gf_mul_distributes(a, b, c);
    assert(gf_mul(a, 2) == (if a < 128 {
        (2 * a) as u8
    } else {
        ((2 * a - 256) as u8) ^ 27u8
    })) by (bit_vector);
}

/// The substitution of a byte: the inverse of the byte is combined with its four
/// rotations to the left by one to four bits and with `0x63`.
pub proof fn law_substitution(a: u8, inverse: u8)
    requires
        a == 0 && inverse == 0 || gf_mul(a, inverse) == 1,
    ensures
        sbox(a) == inverse ^ ((inverse << 1) | (inverse >> 7)) ^ ((inverse << 2) | (inverse >> 6))
            ^ ((inverse << 3) | (inverse >> 5)) ^ ((inverse << 4) | (inverse >> 4)) ^ 0x63,
{
    reveal(sbox);
    if a == 0 {
        if inverse != 0 {
            lemma_gf_mul_units(inverse);
        }
    } else {
        law_gf_inverse(a);
    }
}

/// A nonzero element times its inverse is one, and only its inverse does that.
pub proof fn law_gf_inverse(a: u8)
    ensures
        a != 0 ==> gf_mul(a, gf_inv(a)) == 1,
        a != 0 ==> forall|b: u8| gf_mul(a, b) == 1 ==> b == gf_inv(a),
        gf_inv(gf_inv(a)) == a,
{
    if a != 0 {
        lemma_power_is_inverse(a);
        let i = gf_inv(a);
        assert(gf_mul(a, i) == 1);
        assert forall|b: u8| gf_mul(a, b) == 1 implies b == i by {
            lemma_gf_mul_cancels(a, b, i);
        }
        lemma_gf_mul_units(a);
        assert(i != 0);
        lemma_gf_mul_commutes(a, i);
        lemma_power_is_inverse(i);
        lemma_gf_mul_cancels(i, a, gf_inv(i));
    }
}

/// The substitution and its inverse undo each other.
pub proof fn law_sbox_inverse(a: u8)
    ensures
        inv_sbox(sbox(a)) == a,
        sbox(inv_sbox(a)) == a,
{
    reveal(sbox);
    reveal(inv_sbox);
    law_gf_inverse(a);
    let i = gf_inv(a);
    assert(inv_affine(affine(i)) == i) by (bit_vector);
    let j = inv_affine(a);
    law_gf_inverse(j);
    assert(affine(inv_affine(a)) == a) by (bit_vector);
}

/// The mixing of a column and its inverse undo each other, seen from the first byte.
pub proof fn lemma_mix_byte_inverse(a: u8, b: u8, c: u8, d: u8)
    ensures
        inv_mix_byte(mix_byte(a, b, c, d), mix_byte(b, c, d, a), mix_byte(c, d, a, b), mix_byte(d, a, b, c))
            == a,
        mix_byte(inv_mix_byte(a, b, c, d), inv_mix_byte(b, c, d, a), inv_mix_byte(c, d, a, b), inv_mix_byte(
            d,
            a,
            b,
            c,
        )) == a,
{
    reveal(mix_byte);
    reveal(inv_mix_byte);
    let m0 = mix_byte(a, b, c, d);
    let m1 = mix_byte(b, c, d, a);
    let m2 = mix_byte(c, d, a, b);
    let m3 = mix_byte(d, a, b, c);
    assert(inv_mix_byte(m0, m1, m2, m3) == a) by (bit_vector)
        requires
            m0 == mix_byte(a, b, c, d),
            m1 == mix_byte(b, c, d, a),
            m2 == mix_byte(c, d, a, b),
            m3 == mix_byte(d, a, b, c),
    ;
    let n0 = inv_mix_byte(a, b, c, d);
    let n1 = inv_mix_byte(b, c, d, a);
    let n2 = inv_mix_byte(c, d, a, b);
    let n3 = inv_mix_byte(d, a, b, c);
    assert(mix_byte(n0, n1, n2, n3) == a) by (bit_vector)
        requires
            n0 == inv_mix_byte(a, b, c, d),
            n1 == inv_mix_byte(b, c, d, a),
            n2 == inv_mix_byte(c, d, a, b),
            n3 == inv_mix_byte(d, a, b, c),
    ;
}

/// Multiplies by `x` in the field.
pub fn times_x(a: u8) -> (r: u8)
    ensures
        r == xtime(a),
{
    (a << 1) ^ (if a >= 0x80 {
        0x1bu8
    } else {
        0u8
    })
}

/// `a` where `b` has the bit `bit`, else zero.
fn term(a: u8, b: u8, bit: u8) -> (r: u8)
    ensures
        r == gf_term(a, b, bit),
{
    if b & bit != 0 {
        a
    } else {
        0u8
    }
}

/// Multiplies in the field.
pub fn multiply(a: u8, b: u8) -> (r: u8)
    ensures
        r == gf_mul(a, b),
{
    let a1: u8 = times_x(a);
    let a2: u8 = times_x(a1);
    let a3: u8 = times_x(a2);
    let a4: u8 = times_x(a3);
    let a5: u8 = times_x(a4);
    let a6: u8 = times_x(a5);
    let a7: u8 = times_x(a6);
    term(a, b, 1) ^ term(a1, b, 2) ^ term(a2, b, 4) ^ term(a3, b, 8) ^ term(a4, b, 16) ^ term(
        a5,
        b,
        32,
    ) ^ term(a6, b, 64) ^ term(a7, b, 128)
}

/// The inverse in the field, with zero for zero.
pub fn inverse(a: u8) -> (r: u8)
    ensures
        r == gf_inv(a),
{
    let s1: u8 = multiply(a, a);
    let s2: u8 = multiply(s1, s1);
    let s3: u8 = multiply(s2, s2);
    let s4: u8 = multiply(s3, s3);
    let s5: u8 = multiply(s4, s4);
    let s6: u8 = multiply(s5, s5);
    let s7: u8 = multiply(s6, s6);
    let t2: u8 = multiply(s1, s2);
    let t3: u8 = multiply(t2, s3);
    let t4: u8 = multiply(t3, s4);
    let t5: u8 = multiply(t4, s5);
    let t6: u8 = multiply(t5, s6);
    let t7: u8 = multiply(t6, s7);
    proof {
        if a == 0 {
            lemma_gf_mul_units(0);
            lemma_gf_mul_units(t6);
        } else {
            lemma_power_is_inverse(a);
            law_gf_inverse(a);
        }
    }
    t7
}

/// The substitution of AES.
pub fn substitute(a: u8) -> (r: u8)
    ensures
        r == sbox(a),
{
    proof {
        reveal(sbox);
    }
    let i: u8 = inverse(a);
    i ^ ((i << 1) | (i >> 7)) ^ ((i << 2) | (i >> 6)) ^ ((i << 3) | (i >> 5)) ^ ((i << 4) | (i
        >> 4)) ^ 0x63
}

/// The inverse substitution of AES.
pub fn inverse_substitute(a: u8) -> (r: u8)
    ensures
        r == inv_sbox(a),
{
    proof {
        reveal(inv_sbox);
    }
    inverse(((a << 1) | (a >> 7)) ^ ((a << 3) | (a >> 5)) ^ ((a << 6) | (a >> 2)) ^ 0x05)
}

/// One byte of a column with the mixing undone.
pub fn inverse_mix(a: u8, b: u8, c: u8, d: u8) -> (r: u8)
    ensures
        r == inv_mix_byte(a, b, c, d),
{
    let a2: u8 = times_x(a);
    let a4: u8 = times_x(a2);
    let a8: u8 = times_x(a4);
    let b2: u8 = times_x(b);
    let b8: u8 = times_x(times_x(b2));
    let c4: u8 = times_x(times_x(c));
    let c8: u8 = times_x(c4);
    let d8: u8 = times_x(times_x(times_x(d)));
    proof {
        reveal(inv_mix_byte);
        assert(gf_mul(a, 14) == xtime(xtime(xtime(a))) ^ xtime(xtime(a)) ^ xtime(a)) by (bit_vector);
        assert(gf_mul(b, 11) == xtime(xtime(xtime(b))) ^ xtime(b) ^ b) by (bit_vector);
        assert(gf_mul(c, 13) == xtime(xtime(xtime(c))) ^ xtime(xtime(c)) ^ c) by (bit_vector);
        assert(gf_mul(d, 9) == xtime(xtime(xtime(d))) ^ d) by (bit_vector);
    }
    (a8 ^ a4 ^ a2) ^ (b8 ^ b2 ^ b) ^ (c8 ^ c4 ^ c) ^ (d8 ^ d)
}

} // verus!
