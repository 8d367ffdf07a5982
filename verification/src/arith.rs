//! Facts about powers of two, digit counts and division that the rounding
//! proofs rest on.

use crate::ieee::bit_length;
use vstd::arithmetic::div_mod::{lemma_fundamental_div_mod, lemma_fundamental_div_mod_converse};
use vstd::arithmetic::mul::lemma_mul_strict_inequality;
use vstd::arithmetic::power2::{
    lemma2_to64, lemma2_to64_rest, lemma_pow2_adds, lemma_pow2_pos, lemma_pow2_strictly_increases,
    lemma_pow2_unfold, pow2,
};
use vstd::prelude::*;

verus! {

/// Powers of two are ordered as their exponents are.
pub proof fn lemma_pow2_monotone(a: nat, b: nat)
    requires
        a <= b,
    ensures
        pow2(a) <= pow2(b),
        pow2(a) > 0,
{
    lemma_pow2_pos(a);
    if a < b {
        lemma_pow2_strictly_increases(a, b);
    }
}

/// `pow2(a + b) == pow2(a) * pow2(b)` with the sum taken over integers.
pub proof fn lemma_pow2_split(a: nat, b: nat, c: nat)
    requires
        c == a + b,
    ensures
        pow2(c) == pow2(a) * pow2(b),
        pow2(a) > 0,
        pow2(b) > 0,
        pow2(c) > 0,
{
    lemma_pow2_adds(a, b);
    lemma_pow2_pos(a);
    lemma_pow2_pos(b);
    lemma_pow2_pos(c);
}

/// The values of the powers of two that the encoding uses.
pub proof fn lemma_pow2_values()
    ensures
        pow2(0) == 1,
        pow2(1) == 2,
        pow2(2) == 4,
        pow2(11) == 2048,
        pow2(52) == 0x0010_0000_0000_0000,
        pow2(53) == 0x0020_0000_0000_0000,
        pow2(56) == 0x0100_0000_0000_0000,
        pow2(63) == 0x8000_0000_0000_0000,
        pow2(64) == 0x1_0000_0000_0000_0000,
{
    lemma2_to64();
    lemma2_to64_rest();
}

/// A positive number between two consecutive powers of two has as many
/// digits as the larger one's exponent.
pub proof fn lemma_bit_length_between(q: nat, len: nat)
    requires
        len >= 1,
        pow2((len - 1) as nat) <= q < pow2(len),
    ensures
        bit_length(q) == len,
    decreases len,
{
    lemma_pow2_pos((len - 1) as nat);
    lemma_pow2_unfold(len);
    if len == 1 {
        lemma2_to64();
        assert(q == 1);
        assert(q / 2 == 0);
        assert(bit_length(0) == 0);
    } else {
        lemma_pow2_unfold((len - 1) as nat);
        lemma_bit_length_between(q / 2, (len - 1) as nat);
    }
}

/// A number has `bit_length` digits: it lies below that power of two, and, if
/// positive, not below the one before.
pub proof fn lemma_bit_length_bounds(q: nat)
    ensures
        q < pow2(bit_length(q)),
        q > 0 ==> bit_length(q) >= 1 && pow2((bit_length(q) - 1) as nat) <= q,
    decreases q,
{
    if q == 0 {
        lemma2_to64();
    } else {
        lemma_bit_length_bounds(q / 2);
        lemma_pow2_unfold(bit_length(q));
        if q / 2 > 0 {
            lemma_pow2_unfold((bit_length(q) - 1) as nat);
        } else {
            lemma2_to64();
        }
    }
}

/// Quotient and remainder are the only pair that recomposes the dividend.
pub proof fn lemma_div_mod_unique(x: nat, d: nat, q: nat, r: nat)
    requires
        r < d,
        x == q * d + r,
    ensures
        x / d == q,
        x % d == r,
{
    lemma_fundamental_div_mod_converse(x as int, d as int, q as int, r as int);
}

/// Multiplying by a positive number keeps a strict order.
pub proof fn lemma_mul_lt(a: nat, b: nat, c: nat)
    requires
        a < b,
        c > 0,
    ensures
        a * c < b * c,
{
    lemma_mul_strict_inequality(a as int, b as int, c as int);
}

/// `(a * 2^i) * 2^j == a * 2^(i + j)`.
pub proof fn lemma_pow2_mul(a: nat, i: nat, j: nat)
    ensures
        (a * pow2(i)) * pow2(j) == a * pow2(i + j),
{
    lemma_pow2_adds(i, j);
    assert((a * pow2(i)) * pow2(j) == a * (pow2(i) * pow2(j))) by (nonlinear_arith);
}

/// `(a * 2^i) * (b * 2^j) == (a * b) * 2^(i + j)`.
pub proof fn lemma_pow2_mul2(a: nat, i: nat, b: nat, j: nat)
    ensures
        (a * pow2(i)) * (b * pow2(j)) == (a * b) * pow2(i + j),
{
    lemma_pow2_adds(i, j);
    assert((a * pow2(i)) * (b * pow2(j)) == (a * b) * (pow2(i) * pow2(j))) by (nonlinear_arith);
}

/// Of two significands at different quanta, the one at the coarser quantum
/// is the larger magnitude when it is normal.
pub proof fn lemma_scaled_order(ma: nat, ka: nat, mb: nat, kb: nat)
    requires
        ma < 0x0020_0000_0000_0000,
        mb >= 0x0010_0000_0000_0000,
        ka < kb,
    ensures
        ma * pow2(ka) < mb * pow2(kb),
{
    lemma_pow2_unfold(ka + 1);
    lemma_pow2_monotone(ka + 1, kb);
    assert(ma * pow2(ka) < mb * pow2(kb)) by (nonlinear_arith)
        requires
            ma < 0x0020_0000_0000_0000,
            mb >= 0x0010_0000_0000_0000,
            pow2(ka + 1) == 2 * pow2(ka),
            0 < pow2(ka + 1) <= pow2(kb),
    ;
}

/// A sum with a multiple of `q` divides as its other term does.
pub proof fn lemma_align_sum(h: nat, m: nat, q: nat)
    requires
        q > 0,
    ensures
        (h * q + m) / q == h + m / q,
        (h * q + m) % q == m % q,
{
    lemma_fundamental_div_mod(m as int, q as int);
    let lo = m / q;
    let r = m % q;
    assert(h * q + m == (h + lo) * q + r) by (nonlinear_arith)
        requires
            m == q * lo + r,
    ;
    lemma_div_mod_unique(h * q + m, q, h + lo, r);
}

/// A multiple of `q` less `m` divides as `-m` does: the quotient drops by
/// one more when `m` is no multiple of `q`.
pub proof fn lemma_align_difference(h: nat, m: nat, q: nat)
    requires
        q > 0,
        m <= h * q,
    ensures
        m % q == 0 ==> (h * q - m) / (q as int) == h - m / q && (h * q - m) % (q as int) == 0,
        m % q != 0 ==> (h * q - m) / (q as int) == h - m / q - 1 && (h * q - m) % (q as int)
            != 0,
        m % q != 0 ==> h - m / q - 1 >= 0,
{
    lemma_fundamental_div_mod(m as int, q as int);
    let lo = m / q;
    let r = m % q;
    let w = (h * q - m) as nat;
    assert(lo <= h) by (nonlinear_arith)
        requires
            m == q * lo + r,
            m <= h * q,
            r >= 0,
            q > 0,
    ;
    if r == 0 {
        assert(w == (h - lo) * q + 0) by (nonlinear_arith)
            requires
                w == h * q - m,
                m == q * lo + r,
                r == 0,
        ;
        lemma_div_mod_unique(w, q, (h - lo) as nat, 0);
    } else {
        assert(lo < h) by (nonlinear_arith)
            requires
                m == q * lo + r,
                m <= h * q,
                r > 0,
                q > 0,
        ;
        assert(w == (h - lo - 1) * q + (q - r)) by (nonlinear_arith)
            requires
                w == h * q - m,
                m == q * lo + r,
        ;
        lemma_div_mod_unique(w, q, (h - lo - 1) as nat, (q - r) as nat);
    }
}

} // verus!
