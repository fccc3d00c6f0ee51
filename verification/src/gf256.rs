//! Arithmetic in the finite field GF(2^8).
//!
//! Field elements are bytes; addition is bitwise XOR and multiplication is
//! carry-less polynomial multiplication reduced by the AES modulus
//! x^8 + x^4 + x^3 + x + 1 (0x11b).  Division goes through the inverse
//! b^254 given by the multiplicative group order 255.

use vstd::prelude::*;

verus! {

/// Multiply a field element by x and reduce by the modulus.
pub open spec fn xtime(a: u8) -> u8 {
    if a & 0x80 == 0x80 {
        (a << 1) ^ 0x1b
    } else {
        a << 1
    }
}

/// Russian-peasant product of `a` and `b`, folding in the lowest `n` bits
/// of `b`.
pub open spec fn gf_mul_rec(a: u8, b: u8, n: nat) -> u8
    decreases n,
{
    if n == 0 {
        0
    } else {
        let rest = gf_mul_rec(xtime(a), b >> 1, (n - 1) as nat);
        if b & 1 == 1 {
            rest ^ a
        } else {
            rest
        }
    }
}

/// The product of `a` and `b` in GF(2^8).
pub open spec fn gf_mul(a: u8, b: u8) -> u8 {
    gf_mul_rec(a, b, 8)
}

/// `a` raised to the `n`-th power in GF(2^8).
pub open spec fn gf_pow(a: u8, n: nat) -> u8
    decreases n,
{
    if n == 0 {
        1
    } else {
        gf_mul(gf_pow(a, (n - 1) as nat), a)
    }
}

/// The quotient `a / b` in GF(2^8), via the inverse b^254.
/// Division by zero is mapped to zero; callers keep denominators nonzero.
pub open spec fn gf_div(a: u8, b: u8) -> u8 {
    gf_mul(a, gf_pow(b, 254))
}

/// Evaluate a polynomial with coefficient sequence `cs` (constant term
/// first) at the point `x`.
pub open spec fn poly_eval(cs: Seq<u8>, x: u8) -> u8
    decreases cs.len(),
{
    if cs.len() == 0 {
        0
    } else {
        cs[0] ^ gf_mul(x, poly_eval(cs.drop_first(), x))
    }
}

/// Multiplying by zero gives zero.
pub proof fn lemma_gf_mul_zero(a: u8)
    ensures
        gf_mul(a, 0) == 0,
{
    lemma_gf_mul_rec_zero(a, 8);
}

proof fn lemma_gf_mul_rec_zero(a: u8, n: nat)
    ensures
        gf_mul_rec(a, 0, n) == 0,
    decreases n,
{
    if n > 0 {
        assert(0u8 >> 1 == 0 && 0u8 & 1 == 0) by (bit_vector);
        lemma_gf_mul_rec_zero(xtime(a), (n - 1) as nat);
    }
}

/// One is the multiplicative identity.
pub proof fn lemma_gf_mul_one(a: u8)
    ensures
        gf_mul(a, 1) == a,
{
    assert(1u8 >> 1 == 0 && 1u8 & 1 == 1) by (bit_vector);
    lemma_gf_mul_rec_zero(xtime(a), 7);
    assert(0u8 ^ a == a) by (bit_vector);
}

/// Multiply two field elements.
pub fn gf_multiply(a: u8, b: u8) -> (r: u8)
    ensures
        r == gf_mul(a, b),
{
    let mut acc: u8 = 0;
    let mut aa: u8 = a;
    let mut bb: u8 = b;
    let mut i: usize = 0;
    proof {
        let g: u8 = gf_mul(a, b);
        assert(0u8 ^ g == g) by (bit_vector);
    }
    while i < 8
        invariant
            i <= 8,
            gf_mul(a, b) == acc ^ gf_mul_rec(aa, bb, (8 - i) as nat),
        decreases 8 - i,
    {
        let ghost prev_acc: u8 = acc;
        let ghost prev_aa: u8 = aa;
        let ghost prev_bb: u8 = bb;
        if bb & 1 == 1 {
            acc = acc ^ aa;
        }
        let doubled: u8 = aa << 1;
        if aa & 0x80 == 0x80 {
            aa = doubled ^ 0x1b;
        } else {
            aa = doubled;
        }
        bb = bb >> 1;
        proof {
            assert(aa == xtime(prev_aa));
            let r_prev: u8 = gf_mul_rec(prev_aa, prev_bb, (8 - i) as nat);
            let r_new: u8 = gf_mul_rec(aa, bb, (7 - i) as nat);
            assert(r_prev == if prev_bb & 1 == 1 {
                r_new ^ prev_aa
            } else {
                r_new
            });
            assert(acc ^ r_new == prev_acc ^ r_prev) by (bit_vector)
                requires
                    acc == (if prev_bb & 1 == 1 {
                        prev_acc ^ prev_aa
                    } else {
                        prev_acc
                    }),
                    r_prev == (if prev_bb & 1 == 1 {
                        r_new ^ prev_aa
                    } else {
                        r_new
                    }),
            ;
        }
        i = i + 1;
    }
    proof {
        assert(gf_mul_rec(aa, bb, 0) == 0);
        assert(acc ^ 0 == acc) by (bit_vector);
    }
    acc
}

/// Divide `a` by `b`; with a zero denominator the result is zero.
pub fn gf_divide(a: u8, b: u8) -> (r: u8)
    ensures
        r == gf_div(a, b),
{
    let mut inv: u8 = 1;
    let mut i: usize = 0;
    while i < 254
        invariant
            i <= 254,
            inv == gf_pow(b, i as nat),
        decreases 254 - i,
    {
        inv = gf_multiply(inv, b);
        i = i + 1;
    }
    gf_multiply(a, inv)
}

/// Evaluate the polynomial with coefficients `cs` (constant term first)
/// at the point `x`, by Horner's rule from the highest coefficient down.
pub fn eval_poly(cs: &Vec<u8>, x: u8) -> (r: u8)
    ensures
        r == poly_eval(cs@, x),
{
    let mut acc: u8 = 0;
    let mut i: usize = cs.len();
    while i > 0
        invariant
            i <= cs@.len(),
            acc == poly_eval(cs@.subrange(i as int, cs@.len() as int), x),
        decreases i,
    {
        i = i - 1;
        let m: u8 = gf_multiply(x, acc);
        acc = cs[i] ^ m;
        proof {
            let tail = cs@.subrange(i as int, cs@.len() as int);
            assert(tail.drop_first() =~= cs@.subrange(i + 1, cs@.len() as int));
            assert(tail[0] == cs@[i as int]);
        }
    }
    proof {
        assert(cs@.subrange(0, cs@.len() as int) =~= cs@);
    }
    acc
}

} // verus!
