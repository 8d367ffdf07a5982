//! Proofs about rounding: it depends on the ratio alone, and for a dyadic
//! number it is what shifting and inspecting the shifted-out digits computes.

use crate::arith::{
    lemma_bit_length_between, lemma_bit_length_bounds, lemma_div_mod_unique, lemma_mul_lt,
    lemma_pow2_monotone, lemma_pow2_split, lemma_pow2_values,
};
use crate::ieee::{
    bit_length, decode, excess_bits, overflow_threshold, round_half_even, round_to_precision,
    rounded, Value, HIDDEN_BIT, SIGNIFICAND_LIMIT, SIGN_BIT,
};
use vstd::arithmetic::div_mod::{
    lemma_div_by_multiple, lemma_div_denominator, lemma_div_multiples_vanish_quotient,
    lemma_fundamental_div_mod, lemma_mod_breakdown,
};
use vstd::arithmetic::mul::lemma_mul_is_commutative;
use vstd::arithmetic::power2::{lemma_pow2_pos, lemma_pow2_unfold, pow2};
use vstd::prelude::*;

verus! {

/// Rounding to an integer is unchanged when numerator and denominator are
/// multiplied by the same positive number.
pub proof fn lemma_round_half_even_scale(num: nat, den: nat, c: nat)
    requires
        den > 0,
        c > 0,
    ensures
        round_half_even(num * c, den * c) == round_half_even(num, den),
        (num * c) / (den * c) == num / den,
{
    let q = num / den;
    let r = num % den;
    lemma_fundamental_div_mod(num as int, den as int);
    assert(num * c == q * (den * c) + r * c) by (nonlinear_arith)
        requires
            num == den * q + r,
    ;
    lemma_mul_lt(r, den, c);
    lemma_div_mod_unique(num * c, den * c, q, r * c);
    assert((2 * (r * c) < den * c) == (2 * r < den)) by (nonlinear_arith)
        requires
            c > 0,
    ;
    assert((2 * (r * c) == den * c) == (2 * r == den)) by (nonlinear_arith)
        requires
            c > 0,
    ;
}

/// Rounding to 53 bits is unchanged when numerator and denominator are
/// multiplied by the same positive number.
pub proof fn lemma_round_to_precision_scale(num: nat, den: nat, c: nat)
    requires
        den > 0,
        c > 0,
    ensures
        round_to_precision(num * c, den * c) == round_to_precision(num, den),
{
    lemma_round_half_even_scale(num, den, c);
    let k = excess_bits(num / den);
    lemma_pow2_pos(k);
    assert(den * pow2(k) > 0) by (nonlinear_arith)
        requires
            den > 0,
            pow2(k) > 0,
    ;
    assert((den * c) * pow2(k) == (den * pow2(k)) * c) by (nonlinear_arith);
    lemma_round_half_even_scale(num, den * pow2(k), c);
}

/// Rounding depends on the ratio alone: two fractions that are equal as
/// rational numbers round to the same magnitude.
pub proof fn lemma_round_same_ratio(num1: nat, den1: nat, num2: nat, den2: nat)
    requires
        den1 > 0,
        den2 > 0,
        num1 * den2 == num2 * den1,
    ensures
        round_to_precision(num1, den1) == round_to_precision(num2, den2),
        rounded(true, num1, den1) == rounded(true, num2, den2),
        rounded(false, num1, den1) == rounded(false, num2, den2),
{
    lemma_round_to_precision_scale(num1, den1, den2);
    lemma_round_to_precision_scale(num2, den2, den1);
    assert(den1 * den2 == den2 * den1) by (nonlinear_arith);
}

/// Zero rounds to zero.
pub proof fn lemma_round_zero(negative: bool, den: nat)
    requires
        den > 0,
    ensures
        rounded(negative, 0, den) == (Value::Finite { negative, units: 0 }),
{
    lemma_pow2_values();
    lemma_pow2_pos(2098);
    assert(0nat / den == 0) by (nonlinear_arith)
        requires
            den > 0,
    ;
    assert(bit_length(0) == 0);
    assert(den * pow2(0) == den) by (nonlinear_arith)
        requires
            pow2(0) == 1,
    ;
    assert(0nat % den == 0) by (nonlinear_arith)
        requires
            den > 0,
    ;
    assert(round_half_even(0, den) == 0);
    assert(0 * pow2(0) == 0);
}

/// Dividing by `2^u` drops `u` digits.
pub proof fn lemma_bit_length_shr(n: nat, u: nat)
    ensures
        pow2(u) > 0,
        bit_length(n / pow2(u)) == if bit_length(n) > u {
            (bit_length(n) - u) as nat
        } else {
            0
        },
    decreases u,
{
    lemma_pow2_pos(u);
    if u == 0 {
        lemma_pow2_values();
        assert(n / pow2(u) == n / 1);
        assert(n / 1 == n);
    } else {
        lemma_pow2_unfold(u);
        lemma_pow2_pos((u - 1) as nat);
        let half = pow2((u - 1) as nat);
        lemma_div_denominator(n as int, 2, half as int);
        assert(n / pow2(u) == (n / 2) / half);
        assert(bit_length(n / 2) == if n > 0 {
            (bit_length(n) - 1) as nat
        } else {
            0
        });
        lemma_bit_length_shr(n / 2, (u - 1) as nat);
    }
}

/// Multiplying a positive number by `2^t` adds `t` digits.
pub proof fn lemma_bit_length_shl(n: nat, t: nat)
    requires
        n > 0,
    ensures
        n * pow2(t) > 0,
        bit_length(n * pow2(t)) == bit_length(n) + t,
    decreases t,
{
    if t == 0 {
        lemma_pow2_values();
        assert(n * 1 == n);
    } else {
        lemma_pow2_unfold(t);
        lemma_bit_length_shl(n, (t - 1) as nat);
        let x = n * pow2((t - 1) as nat);
        assert(n * pow2(t) == 2 * x) by (nonlinear_arith)
            requires
                pow2(t) == 2 * pow2((t - 1) as nat),
                x == n * pow2((t - 1) as nat),
        ;
        assert((2 * x) / 2 == x);
    }
}

/// The integer part of `n * 2^t`.
pub open spec fn dyadic_floor(n: nat, t: int) -> nat {
    if t >= 0 {
        n * pow2(t as nat)
    } else {
        n / pow2((-t) as nat)
    }
}

/// The exponent of the quantum to which `n * 2^t` units round: the excess
/// of its integer part's digit count over 53.
pub open spec fn dyadic_scale(n: nat, t: int) -> nat {
    let top = bit_length(n) + t;
    if top > 53 {
        (top - 53) as nat
    } else {
        0
    }
}

/// `n * 2^t`, written as a fraction over `2^b`, has the integer part and the
/// quantum that the two functions above give.
pub proof fn lemma_dyadic_floor(n: nat, t: int, b: nat)
    requires
        n > 0,
        t + b >= 0,
    ensures
        pow2(b) > 0,
        (n * pow2((t + b) as nat)) / pow2(b) == dyadic_floor(n, t),
        excess_bits(dyadic_floor(n, t)) == dyadic_scale(n, t),
{
    lemma_pow2_pos(b);
    if t >= 0 {
        lemma_pow2_split(t as nat, b, (t + b) as nat);
        let x = n * pow2(t as nat);
        assert(n * pow2((t + b) as nat) == x * pow2(b)) by (nonlinear_arith)
            requires
                pow2((t + b) as nat) == pow2(t as nat) * pow2(b),
                x == n * pow2(t as nat),
        ;
        lemma_div_by_multiple(x as int, pow2(b) as int);
        lemma_bit_length_shl(n, t as nat);
    } else {
        let u = (-t) as nat;
        let c = pow2((t + b) as nat);
        lemma_pow2_split((t + b) as nat, u, b);
        lemma_div_multiples_vanish_quotient(c as int, n as int, pow2(u) as int);
        lemma_mul_is_commutative(c as int, n as int);
        lemma_mul_is_commutative(c as int, pow2(u) as int);
        lemma_bit_length_shr(n, u);
    }
}

/// When the quantum is coarser than `2^t`, rounding `n * 2^t` units is
/// rounding `n / 2^shift` to an integer, where `shift` digits are dropped.
pub proof fn lemma_round_dyadic_coarse(n: nat, t: int, b: nat, shift: nat)
    requires
        n > 0,
        t + b >= 0,
        shift == dyadic_scale(n, t) - t,
        shift >= 1,
    ensures
        pow2(b) > 0,
        round_to_precision(n * pow2((t + b) as nat), pow2(b)) == round_half_even(n, pow2(shift))
            * pow2(dyadic_scale(n, t)),
{
    let k = dyadic_scale(n, t);
    let c = pow2((t + b) as nat);
    lemma_dyadic_floor(n, t, b);
    lemma_pow2_split(b, k, b + k);
    lemma_pow2_split(shift, (t + b) as nat, b + k);
    lemma_round_half_even_scale(n, pow2(shift), c);
}

/// When the quantum is not coarser than `2^t`, `n * 2^t` units are their own
/// rounding, with significand `n * 2^(t - k)` at the quantum `2^k`.
pub proof fn lemma_round_dyadic_exact(n: nat, t: int, b: nat)
    requires
        n > 0,
        t + b >= 0,
        dyadic_scale(n, t) <= t,
    ensures
        pow2(b) > 0,
        round_to_precision(n * pow2((t + b) as nat), pow2(b)) == (n * pow2(
            (t - dyadic_scale(n, t)) as nat,
        )) * pow2(dyadic_scale(n, t)),
{
    let k = dyadic_scale(n, t);
    let m = n * pow2((t - k) as nat);
    let c = pow2(b + k);
    lemma_dyadic_floor(n, t, b);
    lemma_pow2_split(b, k, b + k);
    lemma_pow2_split((t - k) as nat, b + k, (t + b) as nat);
    assert(n * pow2((t + b) as nat) == m * c) by (nonlinear_arith)
        requires
            pow2((t + b) as nat) == pow2((t - k) as nat) * c,
            m == n * pow2((t - k) as nat),
    ;
    assert(1 * c == c);
    lemma_round_half_even_scale(m, 1, c);
    assert(round_half_even(m, 1) == m);
}

/// A quotient cut short, with one more digit that tells whether anything was
/// cut off: enough to round the full quotient at any coarser step.
pub open spec fn sticky_num(nn: nat, gg: nat) -> nat {
    2 * (nn / gg) + if nn % gg != 0 {
        1nat
    } else {
        0
    }
}

/// Rounding `nn / gg` to an integer multiple of `2^m`, `m >= 1`, sees of the
/// ratio only its integer part and whether there is a fractional part.
pub proof fn lemma_round_half_even_sticky(nn: nat, gg: nat, m: nat)
    requires
        gg > 0,
        m >= 1,
    ensures
        round_half_even(nn, gg * pow2(m)) == round_half_even(sticky_num(nn, gg), pow2(m + 1)),
{
    let big = pow2(m);
    let h = pow2((m - 1) as nat);
    lemma_pow2_unfold(m);
    lemma_pow2_unfold(m + 1);
    lemma_pow2_pos((m - 1) as nat);
    let p = nn / gg;
    let rho = nn % gg;
    let q = p / big;
    let rp = p % big;
    let s: nat = if rho != 0 {
        1
    } else {
        0
    };
    let n2 = sticky_num(nn, gg);
    lemma_div_denominator(nn as int, gg as int, big as int);
    lemma_mod_breakdown(nn as int, gg as int, big as int);
    lemma_fundamental_div_mod(p as int, big as int);
    assert(n2 == q * pow2(m + 1) + (2 * rp + s)) by (nonlinear_arith)
        requires
            n2 == 2 * p + s,
            p == big * q + rp,
            pow2(m + 1) == 2 * big,
    ;
    lemma_div_mod_unique(n2, pow2(m + 1), q, 2 * rp + s);
    let left = 2 * (gg * rp + rho);
    let right = gg * big;
    assert(rp < h ==> left < right) by (nonlinear_arith)
        requires
            left == 2 * (gg * rp + rho),
            right == gg * big,
            big == 2 * h,
            rho < gg,
    ;
    assert(rp > h ==> left > right) by (nonlinear_arith)
        requires
            left == 2 * (gg * rp + rho),
            right == gg * big,
            big == 2 * h,
            gg > 0,
    ;
    assert(rp == h ==> left == right + 2 * rho) by (nonlinear_arith)
        requires
            left == 2 * (gg * rp + rho),
            right == gg * big,
            big == 2 * h,
    ;
}

/// A number that is at least `2^53` has more than 53 digits.
pub proof fn lemma_bit_length_large(p: nat)
    requires
        p >= SIGNIFICAND_LIMIT,
    ensures
        bit_length(p) >= 54,
{
    lemma_pow2_values();
    lemma_bit_length_bounds(p);
    if bit_length(p) <= 53 {
        lemma_pow2_monotone(bit_length(p), 53);
    }
}

/// The integer part of `(nn / gg) * 2^e`, `e >= 0`, has `e` digits more than
/// the integer part of `nn / gg`.
proof fn lemma_bit_length_scaled_quotient(nn: nat, gg: nat, e: nat)
    requires
        gg > 0,
        nn / gg > 0,
    ensures
        bit_length((nn * pow2(e)) / gg) == bit_length(nn / gg) + e,
{
    let p = nn / gg;
    let rho = nn % gg;
    let w = pow2(e);
    let len = bit_length(p);
    lemma_pow2_pos(e);
    lemma_fundamental_div_mod(nn as int, gg as int);
    let frac = (rho * w) / gg;
    let rest = (rho * w) % gg;
    lemma_fundamental_div_mod((rho * w) as int, gg as int);
    assert(nn * w == (p * w + frac) * gg + rest) by (nonlinear_arith)
        requires
            nn == gg * p + rho,
            rho * w == gg * frac + rest,
    ;
    lemma_div_mod_unique(nn * w, gg, p * w + frac, rest);
    assert(frac < w) by (nonlinear_arith)
        requires
            rho * w == gg * frac + rest,
            rho < gg,
            0 <= rest,
            gg > 0,
            w > 0,
    ;
    lemma_bit_length_bounds(p);
    lemma_pow2_split((len - 1) as nat, e, (len - 1 + e) as nat);
    lemma_pow2_split(len, e, len + e);
    let f = p * w + frac;
    assert(pow2((len - 1 + e) as nat) <= f < pow2(len + e)) by (nonlinear_arith)
        requires
            f == p * w + frac,
            0 <= frac < w,
            pow2((len - 1) as nat) <= p,
            p + 1 <= pow2(len),
            pow2((len - 1 + e) as nat) == pow2((len - 1) as nat) * w,
            pow2(len + e) == pow2(len) * w,
    ;
    lemma_bit_length_between(f, len + e);
}

/// Rounding with a sticky digit. Let the ratio `num / den` be `(nn / gg) *
/// 2^e`, and let the integer part of `nn / gg` be at least `2^53`. Then
/// `num / den` rounds as the dyadic number `sticky_num(nn, gg) * 2^(e - 1)`
/// does. The equality of the ratios and the dyadic number are written over
/// the common denominator `2^b`.
pub proof fn lemma_round_sticky(num: nat, den: nat, nn: nat, gg: nat, e: int, b: nat)
    requires
        den > 0,
        gg > 0,
        e + b >= 1,
        num * (gg * pow2(b)) == (nn * pow2((e + b) as nat)) * den,
        nn / gg >= SIGNIFICAND_LIMIT,
    ensures
        pow2(b) > 0,
        round_to_precision(num, den) == round_to_precision(
            sticky_num(nn, gg) * pow2((e - 1 + b) as nat),
            pow2(b),
        ),
{
    let c = pow2((e + b) as nat);
    let den1 = gg * pow2(b);
    let num1 = nn * c;
    lemma_pow2_pos(b);
    lemma_pow2_pos((e + b) as nat);
    assert(den1 > 0) by (nonlinear_arith)
        requires
            den1 == gg * pow2(b),
            gg > 0,
            pow2(b) > 0,
    ;
    lemma_round_same_ratio(num, den, num1, den1);
    let p = nn / gg;
    let len = bit_length(p);
    lemma_bit_length_large(p);
    let n2 = sticky_num(nn, gg);
    assert(n2 / 2 == p);
    assert(bit_length(n2) == len + 1);
    let k = dyadic_scale(n2, e - 1);
    let m = (k - e) as nat;
    lemma_round_dyadic_coarse(n2, e - 1, b, m + 1);
    // The quantum of num1 / den1 is the same.
    assert(excess_bits(num1 / den1) == k) by {
        if e >= 0 {
            lemma_pow2_split(e as nat, b, (e + b) as nat);
            let x = nn * pow2(e as nat);
            assert(num1 == x * pow2(b)) by (nonlinear_arith)
                requires
                    num1 == nn * c,
                    c == pow2(e as nat) * pow2(b),
                    x == nn * pow2(e as nat),
            ;
            lemma_round_half_even_scale(x, gg, pow2(b));
            lemma_bit_length_scaled_quotient(nn, gg, e as nat);
        } else {
            let u = (-e) as nat;
            lemma_pow2_split((e + b) as nat, u, b);
            let y = gg * pow2(u);
            assert(y > 0) by (nonlinear_arith)
                requires
                    y == gg * pow2(u),
                    gg > 0,
                    pow2(u) > 0,
            ;
            assert(den1 == y * c) by (nonlinear_arith)
                requires
                    den1 == gg * pow2(b),
                    pow2(b) == c * pow2(u),
                    y == gg * pow2(u),
            ;
            lemma_round_half_even_scale(nn, y, c);
            lemma_div_denominator(nn as int, gg as int, pow2(u) as int);
            lemma_bit_length_shr(p, u);
        }
    }
    lemma_pow2_split(b, k, b + k);
    lemma_pow2_split(m, (e + b) as nat, b + k);
    let step = gg * pow2(m);
    assert(step > 0) by (nonlinear_arith)
        requires
            step == gg * pow2(m),
            gg > 0,
            pow2(m) > 0,
    ;
    assert(den1 * pow2(k) == step * c) by (nonlinear_arith)
        requires
            den1 == gg * pow2(b),
            step == gg * pow2(m),
            pow2(b) * pow2(k) == pow2(m) * c,
    ;
    lemma_round_half_even_scale(nn, step, c);
    lemma_round_half_even_sticky(nn, gg, m);
}


/// The encoding with significand `mant` at the quantum `2^scale`.
pub open spec fn packed(negative: bool, mant: nat, scale: nat) -> nat {
    let sign: nat = if negative {
        SIGN_BIT as nat
    } else {
        0
    };
    sign + scale * (HIDDEN_BIT as nat) + mant
}

/// What a packed encoding decodes to. A significand of `2^53`, which rounding
/// up can produce, carries into the exponent, and from the largest exponent
/// into infinity.
pub proof fn lemma_decode_packed(bits: u64, negative: bool, mant: nat, scale: nat)
    requires
        mant <= SIGNIFICAND_LIMIT,
        scale <= 2045,
        scale == 0 || mant >= HIDDEN_BIT,
        bits == packed(negative, mant, scale),
    ensures
        decode(bits) == if mant * pow2(scale) < overflow_threshold() {
            Value::Finite { negative, units: mant * pow2(scale) }
        } else {
            Value::Infinite { negative }
        },
{
    lemma_pow2_values();
    lemma_pow2_split(53, 2045, 2098);
    lemma_pow2_monotone(scale, 2045);
    let magnitude = mant * pow2(scale);
    if mant < SIGNIFICAND_LIMIT {
        assert(magnitude < overflow_threshold()) by (nonlinear_arith)
            requires
                magnitude == mant * pow2(scale),
                mant < 0x0020_0000_0000_0000,
                0 < pow2(scale) <= pow2(2045),
                overflow_threshold() == 0x0020_0000_0000_0000 * pow2(2045),
        ;
    } else {
        lemma_pow2_unfold(scale + 1);
        assert(magnitude == HIDDEN_BIT * pow2(scale + 1)) by (nonlinear_arith)
            requires
                magnitude == mant * pow2(scale),
                mant == 0x0020_0000_0000_0000,
                pow2(scale + 1) == 2 * pow2(scale),
        ;
        if scale < 2045 {
            lemma_pow2_monotone(scale + 1, 2045);
            assert(magnitude < overflow_threshold()) by (nonlinear_arith)
                requires
                    magnitude == 0x0010_0000_0000_0000 * pow2(scale + 1),
                    0 < pow2(scale + 1) <= pow2(2045),
                    overflow_threshold() == 0x0020_0000_0000_0000 * pow2(2045),
            ;
        }
    }
}

} // verus!
