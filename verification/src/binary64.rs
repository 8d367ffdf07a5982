//! Binary64 numbers held as their 64-bit encodings, with arithmetic carried
//! out on integers and rounded once, as IEEE 754 prescribes.

use crate::arith::{
    lemma_align_difference, lemma_align_sum, lemma_bit_length_bounds, lemma_pow2_monotone,
    lemma_pow2_mul, lemma_pow2_mul2, lemma_pow2_split, lemma_pow2_values, lemma_scaled_order,
};
use crate::ieee::{
    at_most, biased_exponent, bit_length, decode, difference, from_integer, negated, one,
    overflow_threshold, product, quotient, round_half_even, round_to_precision, rounded, scale,
    significand, sum, Value, HIDDEN_BIT, MAX_SCALE, SIGNIFICAND_LIMIT, SIGN_BIT,
};
use crate::rounding::{
    dyadic_scale, lemma_bit_length_shl, lemma_bit_length_shr, lemma_decode_packed,
    lemma_round_dyadic_coarse, lemma_round_dyadic_exact, lemma_round_same_ratio,
    lemma_round_sticky, lemma_round_zero, sticky_num,
};
use vstd::arithmetic::div_mod::{
    lemma_basic_div, lemma_div_by_multiple, lemma_div_is_ordered, lemma_fundamental_div_mod,
    lemma_small_mod,
};
use vstd::arithmetic::power2::{lemma_pow2_pos, lemma_pow2_unfold, pow2};
use vstd::bits::{
    lemma_u128_shr_is_div, lemma_u64_pow2_no_overflow, lemma_u64_shl_is_mul,
    lemma_u64_shr_is_div,
};
use vstd::prelude::*;
use vstd::std_specs::bits::{axiom_u64_leading_zeros, u64_leading_zeros};

verus! {

/// A binary64 number, as its encoding.
#[derive(Clone, Copy, Debug)]
pub struct Binary64 {
    pub bits: u64,
}

impl View for Binary64 {
    type V = Value;

    open spec fn view(&self) -> Value {
        decode(self.bits)
    }
}

/// Numerator of `n * 2^t` units written over `dyadic_den()`.
pub open spec fn dyadic_num(n: nat, t: int) -> nat {
    n * pow2((t + 4096) as nat)
}

/// The denominator `2^4096`, large enough for every exponent that occurs.
pub open spec fn dyadic_den() -> nat {
    pow2(4096)
}

proof fn lemma_leading_zeros(x: u64)
    ensures
        u64_leading_zeros(x) == 64 - bit_length(x as nat),
    decreases x,
{
    reveal(u64_leading_zeros);
    if x != 0 {
        lemma_leading_zeros(x / 2);
    }
}

/// A number below `2^limit` has at most `limit` digits.
proof fn lemma_digits_limit(n: nat, limit: nat)
    requires
        n < pow2(limit),
    ensures
        bit_length(n) <= limit,
{
    lemma_bit_length_bounds(n);
    if bit_length(n) > limit {
        lemma_pow2_monotone(limit, (bit_length(n) - 1) as nat);
    }
}

/// Dropping `shift` digits of a number with at most `53 + shift` digits
/// leaves a significand, and a normal one when it had exactly that many.
proof fn lemma_truncated_bounds(n: nat, shift: nat)
    requires
        n > 0,
        bit_length(n) <= 53 + shift,
    ensures
        n / pow2(shift) < SIGNIFICAND_LIMIT,
        bit_length(n) == 53 + shift ==> n / pow2(shift) >= HIDDEN_BIT,
{
    lemma_pow2_values();
    lemma_bit_length_shr(n, shift);
    let x = n / pow2(shift);
    lemma_bit_length_bounds(x);
    lemma_pow2_monotone(bit_length(x), 53);
}

/// Appending `s` zero digits to a number with at most `53 - s` digits
/// leaves a significand, and a normal one when it had exactly that many.
proof fn lemma_scaled_bounds(n: nat, s: nat)
    requires
        n > 0,
        bit_length(n) + s <= 53,
    ensures
        n * pow2(s) < SIGNIFICAND_LIMIT,
        bit_length(n) + s == 53 ==> n * pow2(s) >= HIDDEN_BIT,
{
    lemma_pow2_values();
    lemma_bit_length_shl(n, s);
    let x = n * pow2(s);
    lemma_bit_length_bounds(x);
    lemma_pow2_monotone(bit_length(x), 53);
}

/// The number of binary digits of `x`.
fn digits64(x: u64) -> (len: u32)
    ensures
        len == bit_length(x as nat),
        len <= 64,
{
    proof {
        lemma_leading_zeros(x);
        axiom_u64_leading_zeros(x);
    }
    64 - x.leading_zeros()
}

/// The number of binary digits of `n`.
fn digits(n: u128) -> (len: u32)
    ensures
        len == bit_length(n as nat),
        len <= 128,
{
    let high = n / 0x1_0000_0000_0000_0000;
    if high > 0 {
        proof {
            lemma_pow2_values();
            lemma_bit_length_shr(n as nat, 64);
            assert(bit_length(high as nat) >= 1);
        }
        64 + digits64(high as u64)
    } else {
        digits64(n as u64)
    }
}

/// `2^s`.
fn power_of_two(s: u32) -> (p: u128)
    requires
        s < 128,
    ensures
        p == pow2(s as nat),
{
    if s < 64 {
        proof {
            lemma_u64_pow2_no_overflow(s as nat);
            lemma_u64_shl_is_mul(1, s as u64);
        }
        (1u64 << (s as u64)) as u128
    } else {
        proof {
            lemma_u64_pow2_no_overflow((s - 64) as nat);
            lemma_u64_shl_is_mul(1, (s - 64) as u64);
            lemma_pow2_split((s - 64) as nat, 64, s as nat);
            lemma_pow2_values();
        }
        ((1u64 << ((s - 64) as u64)) as u128) * 0x1_0000_0000_0000_0000
    }
}

/// The encoding with significand `mant` at the quantum `2^scale`.
fn pack(negative: bool, mant: u64, scale: u32) -> (r: Binary64)
    requires
        mant <= SIGNIFICAND_LIMIT,
        scale <= MAX_SCALE,
        scale == 0 || mant >= HIDDEN_BIT,
    ensures
        r@ == if mant * pow2(scale as nat) < overflow_threshold() {
            Value::Finite { negative, units: mant as nat * pow2(scale as nat) }
        } else {
            Value::Infinite { negative }
        },
{
    let sign: u64 = if negative {
        SIGN_BIT
    } else {
        0
    };
    let bits: u64 = sign + (scale as u64) * HIDDEN_BIT + mant;
    proof {
        lemma_decode_packed(bits, negative, mant as nat, scale as nat);
    }
    Binary64 { bits }
}

/// Rounds `n * 2^t` units to the nearest binary64 value.
fn round_pack(negative: bool, n: u128, t: i32) -> (r: Binary64)
    requires
        n < 0x0100_0000_0000_0000_0000_0000_0000_0000,
        -4000 <= t <= 4000,
    ensures
        r@ == rounded(negative, dyadic_num(n as nat, t as int), dyadic_den()),
{
    proof {
        lemma_pow2_pos(4096);
        lemma_pow2_values();
    }
    if n == 0 {
        proof {
            lemma_round_zero(negative, dyadic_den());
            assert(dyadic_num(0, t as int) == 0) by (nonlinear_arith)
                requires
                    dyadic_num(0, t as int) == 0 * pow2((t + 4096) as nat),
            ;
            assert(0 * pow2(0) == 0);
            lemma_pow2_pos(2098);
        }
        return pack(negative, 0, 0);
    }
    let len = digits(n);
    proof {
        lemma_pow2_split(64, 56, 120);
        lemma_digits_limit(n as nat, 120);
    }
    let top: i32 = len as i32 + t;
    let k: i32 = if top > 53 {
        top - 53
    } else {
        0
    };
    let shift: i32 = k - t;
    assert(k == dyadic_scale(n as nat, t as int));
    let mant: u64;
    if shift <= 0 {
        let s: u32 = (-shift) as u32;
        proof {
            lemma_round_dyadic_exact(n as nat, t as int, 4096);
            lemma_scaled_bounds(n as nat, s as nat);
            lemma_pow2_pos(s as nat);
            assert(n <= n * pow2(s as nat)) by (nonlinear_arith)
                requires
                    pow2(s as nat) >= 1,
            ;
            lemma_u64_shl_is_mul(n as u64, s as u64);
        }
        mant = (n as u64) << (s as u64);
    } else if shift >= 128 {
        proof {
            lemma_round_dyadic_coarse(n as nat, t as int, 4096, shift as nat);
            lemma_pow2_monotone(128, shift as nat);
            lemma_pow2_split(64, 64, 128);
            let pw = pow2(shift as nat);
            lemma_small_mod(n as nat, pw);
            assert(n as nat / pw == 0) by (nonlinear_arith)
                requires
                    n < pw,
            ;
            assert(round_half_even(n as nat, pw) == 0);
            assert(0 * pow2(k as nat) == 0);
        }
        mant = 0;
    } else {
        let pw = power_of_two(shift as u32);
        let q = n >> (shift as u128);
        proof {
            lemma_round_dyadic_coarse(n as nat, t as int, 4096, shift as nat);
            lemma_u128_shr_is_div(n, shift as u128);
            lemma_pow2_pos(shift as nat);
            lemma_fundamental_div_mod(n as int, pw as int);
            lemma_truncated_bounds(n as nat, shift as nat);
            lemma_pow2_unfold(shift as nat);
            assert(q * pw <= n) by (nonlinear_arith)
                requires
                    n == pw * q + (n as int % pw as int),
                    0 <= n as int % pw as int,
            ;
        }
        let r = n - q * pw;
        let half = pw / 2;
        assert(r == n as nat % pw as nat) by (nonlinear_arith)
            requires
                n == pw * q + (n as int % pw as int),
                r == n - q * pw,
        ;
        let up = r > half || (r == half && q % 2 == 1);
        assert(round_half_even(n as nat, pw as nat) == q + if up {
            1nat
        } else {
            0
        });
        mant = (q as u64) + if up {
            1
        } else {
            0
        };
    }
    assert(round_to_precision(dyadic_num(n as nat, t as int), dyadic_den()) == mant * pow2(
        k as nat,
    ));
    assert(k > 0 ==> mant >= HIDDEN_BIT);
    if k > MAX_SCALE as i32 {
        proof {
            lemma_pow2_split(52, 2046, 2098);
            lemma_pow2_monotone(2046, k as nat);
            assert(mant * pow2(k as nat) >= overflow_threshold()) by (nonlinear_arith)
                requires
                    mant >= 0x0010_0000_0000_0000,
                    pow2(k as nat) >= pow2(2046),
                    overflow_threshold() == 0x0010_0000_0000_0000 * pow2(2046),
            ;
        }
        Binary64::infinity(negative)
    } else {
        pack(negative, mant, k as u32)
    }
}

/// The sum (`same_sign`) or difference of the magnitudes `x >= y`, rounded,
/// with the sign of the larger; an exact zero is negative only when both
/// terms were.
pub open spec fn combined(negative: bool, x: nat, same_sign: bool, y: nat) -> Value {
    let exact: int = if same_sign {
        (x + y) as int
    } else {
        x - y
    };
    if exact == 0 {
        Value::Finite { negative: negative && same_sign, units: 0 }
    } else {
        rounded(negative, exact as nat, 1)
    }
}

/// The larger of two finite numbers is the one at the coarser quantum or,
/// at the same quantum, with the larger significand.
pub proof fn lemma_magnitude_order(ma: nat, ka: nat, mb: nat, kb: nat)
    requires
        ma < SIGNIFICAND_LIMIT,
        mb < SIGNIFICAND_LIMIT,
        ka > 0 ==> ma >= HIDDEN_BIT,
        kb > 0 ==> mb >= HIDDEN_BIT,
    ensures
        ka > kb ==> ma * pow2(ka) > mb * pow2(kb),
        ka == kb ==> (ma <= mb <==> ma * pow2(ka) <= mb * pow2(kb)),
        ka == kb ==> (ma == mb <==> ma * pow2(ka) == mb * pow2(kb)),
        ma == 0 <==> ma * pow2(ka) == 0,
{
    lemma_pow2_pos(ka);
    if ka > kb {
        lemma_scaled_order(mb, kb, ma, ka);
    }
    if ka == kb {
        let w = pow2(ka);
        assert((ma <= mb) == (ma * w <= mb * w)) by (nonlinear_arith)
            requires
                w > 0,
        ;
        assert((ma == mb) == (ma * w == mb * w)) by (nonlinear_arith)
            requires
                w > 0,
        ;
    }
    assert((ma == 0) == (ma * pow2(ka) == 0)) by (nonlinear_arith)
        requires
            pow2(ka) > 0,
    ;
}

/// Among encodings of finite magnitudes, a smaller encoding is a smaller
/// magnitude, and only the zero encoding is zero.
proof fn lemma_encoding_order(a: u64, b: u64)
    requires
        a < SIGN_BIT,
        b < SIGN_BIT,
        biased_exponent(a) < 2047,
        biased_exponent(b) < 2047,
    ensures
        a <= b <==> significand(a) * pow2(scale(a)) <= significand(b) * pow2(scale(b)),
        a == 0 <==> significand(a) * pow2(scale(a)) == 0,
{
    lemma_magnitude_order(significand(a), scale(a), significand(b), scale(b));
    lemma_magnitude_order(significand(b), scale(b), significand(a), scale(a));
}

/// The larger magnitude less or plus the smaller, counted in units of the
/// smaller one's quantum, when the larger is `high * step` such units.
pub open spec fn aligned_whole(high: nat, step: nat, mb: nat, same_sign: bool) -> nat {
    if same_sign {
        high * step + mb
    } else {
        (high * step - mb) as nat
    }
}

/// The digits of `mb` from position `g` up, and whether any below are set.
fn align(mb: u64, g: u32) -> (r: (u64, bool))
    ensures
        r.0 == mb as nat / pow2(g as nat),
        r.1 == (mb as nat % pow2(g as nat) != 0),
        r.0 <= mb,
{
    let ghost step = pow2(g as nat);
    proof {
        lemma_pow2_pos(g as nat);
        lemma_fundamental_div_mod(mb as int, step as int);
        assert(mb as nat / step <= mb) by (nonlinear_arith)
            requires
                mb == step * (mb as nat / step) + (mb as nat % step),
                step >= 1,
        ;
    }
    if g >= 64 {
        proof {
            lemma_pow2_values();
            lemma_pow2_monotone(64, g as nat);
            lemma_basic_div(mb as int, step as int);
            lemma_small_mod(mb as nat, step);
        }
        (0, mb != 0)
    } else {
        let low = mb >> (g as u64);
        proof {
            lemma_u64_shr_is_div(mb, g as u64);
            assert(low * step <= mb) by (nonlinear_arith)
                requires
                    mb == step * low + (mb as nat % step),
            ;
            lemma_u64_shl_is_mul(low, g as u64);
        }
        let back = low << (g as u64);
        assert((back != mb) == (mb as nat % step != 0)) by (nonlinear_arith)
            requires
                mb == step * low + (mb as nat % step),
                back == low * step,
        ;
        (low, back != mb)
    }
}

/// Aligning the smaller term: the exact sum or difference is `whole` units
/// of the smaller quantum, and `whole / step` with its sticky digit comes
/// from `high` and the aligned digits of `mb`.
proof fn lemma_aligned(ma: nat, ka: nat, mb: nat, kb: nat, g: nat, high: nat, same_sign: bool)
    requires
        ma < SIGNIFICAND_LIMIT,
        mb < SIGNIFICAND_LIMIT,
        kb <= ka,
        ka > 0 ==> ma >= HIDDEN_BIT,
        kb > 0 ==> mb >= HIDDEN_BIT,
        ka == kb ==> ma >= mb,
        g <= ka - kb,
        high == ma * pow2((ka - kb - g) as nat),
    ensures
        pow2(g) > 0,
        mb * pow2(kb) <= ma * pow2(ka),
        !same_sign ==> mb <= high * pow2(g),
        aligned_whole(high, pow2(g), mb, same_sign) * pow2(kb) == (if same_sign {
            (ma * pow2(ka) + mb * pow2(kb)) as int
        } else {
            ma * pow2(ka) - mb * pow2(kb)
        }),
        aligned_whole(high, pow2(g), mb, same_sign) / pow2(g) == (if same_sign {
            (high + mb / pow2(g)) as int
        } else if mb % pow2(g) != 0 {
            high - mb / pow2(g) - 1
        } else {
            high - mb / pow2(g)
        }),
        (aligned_whole(high, pow2(g), mb, same_sign) % pow2(g) != 0) == (mb % pow2(g) != 0),
{
    let d = (ka - kb) as nat;
    let step = pow2(g);
    let unit = pow2(kb);
    let x = ma * pow2(ka);
    let y = mb * unit;
    let whole = aligned_whole(high, step, mb, same_sign);
    lemma_pow2_pos(g);
    lemma_pow2_pos(kb);
    lemma_magnitude_order(ma, ka, mb, kb);
    lemma_pow2_split((d - g) as nat, g, d);
    lemma_pow2_mul(ma, d, kb);
    assert(high * step == ma * pow2(d)) by (nonlinear_arith)
        requires
            high == ma * pow2((d - g) as nat),
            pow2(d) == pow2((d - g) as nat) * step,
    ;
    assert(x == (high * step) * unit);
    if same_sign {
        lemma_align_sum(high, mb, step);
        assert(x + y == whole * unit) by (nonlinear_arith)
            requires
                x == (high * step) * unit,
                y == mb * unit,
                whole == high * step + mb,
        ;
    } else {
        assert(mb <= high * step) by (nonlinear_arith)
            requires
                x == (high * step) * unit,
                y == mb * unit,
                y <= x,
                unit > 0,
        ;
        lemma_align_difference(high, mb, step);
        assert(x - y == whole * unit) by (nonlinear_arith)
            requires
                x == (high * step) * unit,
                y == mb * unit,
                whole == high * step - mb,
        ;
    }
}

/// Rounding the aligned result: `whole` units of `2^kb`, cut at `2^g` with a
/// sticky digit, round as the dyadic number that is handed to `round_pack`.
proof fn lemma_aligned_rounding(whole: nat, kb: nat, g: nat, n: nat)
    requires
        whole > 0,
        n == sticky_num(whole, pow2(g)),
        g == 0 || whole / pow2(g) >= SIGNIFICAND_LIMIT,
    ensures
        whole * pow2(kb) > 0,
        round_to_precision(whole * pow2(kb), 1) == round_to_precision(
            dyadic_num(n, kb + g - 1),
            dyadic_den(),
        ),
{
    let step = pow2(g);
    let unit = pow2(kb);
    let exact = whole * unit;
    lemma_pow2_values();
    lemma_pow2_pos(g);
    lemma_pow2_pos(kb);
    lemma_pow2_pos(4096);
    assert(exact > 0) by (nonlinear_arith)
        requires
            exact == whole * unit,
            whole > 0,
            unit > 0,
    ;
    if g == 0 {
        assert(whole / 1 == whole);
        assert(whole % 1 == 0);
        assert(n == 2 * whole);
        lemma_pow2_mul(whole, kb, 4096);
        lemma_pow2_mul(whole, 1, (kb + 4095) as nat);
        assert(n == whole * pow2(1));
        assert(exact * dyadic_den() == dyadic_num(n, kb + g - 1) * 1);
        lemma_round_same_ratio(exact, 1, dyadic_num(n, kb + g - 1), dyadic_den());
    } else {
        lemma_pow2_split(g, 4096, g + 4096);
        lemma_pow2_mul(whole, kb, g + 4096);
        assert(exact * (step * pow2(4096)) == (whole * pow2(kb + g + 4096)) * 1);
        lemma_round_sticky(exact, 1, whole, step, (kb + g) as int, 4096);
    }
}

/// Adds or subtracts two finite magnitudes, the first not the smaller, and
/// rounds once. The smaller is aligned to the larger; what falls off its end
/// is remembered in one sticky digit.
fn combine(negative: bool, ma: u64, ka: u32, same_sign: bool, mb: u64, kb: u32) -> (r: Binary64)
    requires
        ma < SIGNIFICAND_LIMIT,
        mb < SIGNIFICAND_LIMIT,
        kb <= ka <= 2046,
        ka > 0 ==> ma >= HIDDEN_BIT,
        kb > 0 ==> mb >= HIDDEN_BIT,
        ka == kb ==> ma >= mb,
    ensures
        r@ == combined(
            negative,
            ma as nat * pow2(ka as nat),
            same_sign,
            mb as nat * pow2(kb as nat),
        ),
{
    let d: u32 = ka - kb;
    let g: u32 = if d > 2 {
        d - 2
    } else {
        0
    };
    let high: u64 = if d == 0 {
        ma
    } else if d == 1 {
        2 * ma
    } else {
        4 * ma
    };
    let (low, sticky) = align(mb, g);
    let ghost step = pow2(g as nat);
    let ghost whole = aligned_whole(high as nat, step, mb as nat, same_sign);
    proof {
        lemma_pow2_values();
        let lift = pow2((d - g) as nat);
        assert(high == ma * lift) by (nonlinear_arith)
            requires
                (lift == 1 && high == ma) || (lift == 2 && high == 2 * ma) || (lift == 4 && high
                    == 4 * ma),
        ;
        lemma_aligned(
            ma as nat,
            ka as nat,
            mb as nat,
            kb as nat,
            g as nat,
            high as nat,
            same_sign,
        );
    }
    let p: u64 = if same_sign {
        high + low
    } else if sticky {
        high - low - 1
    } else {
        high - low
    };
    let n: u64 = 2 * p + if sticky {
        1
    } else {
        0
    };
    assert(n == sticky_num(whole, step));
    if n == 0 {
        proof {
            lemma_fundamental_div_mod(whole as int, step as int);
            assert(whole == 0) by (nonlinear_arith)
                requires
                    whole == step * (whole / step) + (whole % step),
                    whole / step == 0,
                    whole % step == 0,
            ;
            assert(whole * pow2(kb as nat) == 0) by (nonlinear_arith)
                requires
                    whole == 0,
            ;
        }
        return Binary64::zero(negative && same_sign);
    }
    proof {
        lemma_aligned_rounding(whole, kb as nat, g as nat, n as nat);
    }
    round_pack(negative, n as u128, kb as i32 + g as i32 - 1)
}

impl Binary64 {
    /// The number with the given encoding.
    pub fn from_bits(bits: u64) -> (r: Binary64)
        ensures
            r.bits == bits,
    {
        Binary64 { bits }
    }

    /// The encoding.
    pub fn to_bits(self) -> (bits: u64)
        ensures
            bits == self.bits,
    {
        self.bits
    }

    /// Positive or negative infinity.
    pub fn infinity(negative: bool) -> (r: Binary64)
        ensures
            r@ == (Value::Infinite { negative }),
    {
        if negative {
            Binary64 { bits: 0xFFF0_0000_0000_0000 }
        } else {
            Binary64 { bits: 0x7FF0_0000_0000_0000 }
        }
    }

    /// The quiet NaN with a clear sign bit and no payload.
    pub fn nan() -> (r: Binary64)
        ensures
            r@ == Value::Nan,
            r.bits == 0x7FF8_0000_0000_0000,
    {
        Binary64 { bits: 0x7FF8_0000_0000_0000 }
    }

    /// Whether this is a NaN.
    pub fn is_nan(self) -> (b: bool)
        ensures
            b == (self@ == Value::Nan),
    {
        (self.bits / HIDDEN_BIT) % 2048 == 2047 && self.bits % HIDDEN_BIT != 0
    }

    /// Whether this is an infinity.
    pub fn is_infinite(self) -> (b: bool)
        ensures
            b == (self@ is Infinite),
    {
        (self.bits / HIDDEN_BIT) % 2048 == 2047 && self.bits % HIDDEN_BIT == 0
    }

    /// Whether the sign bit is set.
    pub fn is_sign_negative(self) -> (b: bool)
        ensures
            b == (self.bits >= SIGN_BIT),
            self@ matches Value::Finite { negative, .. } ==> b == negative,
            self@ matches Value::Infinite { negative } ==> b == negative,
    {
        self.bits >= SIGN_BIT
    }

    /// The integer significand of a finite number.
    fn mantissa(self) -> (m: u64)
        ensures
            m == significand(self.bits),
            m < SIGNIFICAND_LIMIT,
            biased_exponent(self.bits) > 0 ==> m >= HIDDEN_BIT,
    {
        if (self.bits / HIDDEN_BIT) % 2048 == 0 {
            self.bits % HIDDEN_BIT
        } else {
            HIDDEN_BIT + self.bits % HIDDEN_BIT
        }
    }

    /// The exponent of the quantum of a finite number.
    fn quantum(self) -> (k: u32)
        ensures
            k == scale(self.bits),
            k <= 2046,
            k > 0 ==> significand(self.bits) >= HIDDEN_BIT,
    {
        let biased = (self.bits / HIDDEN_BIT) % 2048;
        if biased == 0 {
            0
        } else {
            (biased - 1) as u32
        }
    }

    /// Zero with the given sign.
    pub fn zero(negative: bool) -> (r: Binary64)
        ensures
            r@ == (Value::Finite { negative, units: 0 }),
    {
        proof {
            lemma_pow2_values();
            assert(0 * pow2(0) == 0);
        }
        if negative {
            Binary64 { bits: SIGN_BIT }
        } else {
            Binary64 { bits: 0 }
        }
    }

    /// `-self`.
    pub fn neg(self) -> (r: Binary64)
        ensures
            r@ == negated(self@),
    {
        if self.bits >= SIGN_BIT {
            Binary64 { bits: self.bits - SIGN_BIT }
        } else {
            Binary64 { bits: self.bits + SIGN_BIT }
        }
    }

    /// `self + other`, correctly rounded.
    pub fn add(self, other: Binary64) -> (r: Binary64)
        ensures
            r@ == sum(self@, other@),
    {
        if self.is_nan() || other.is_nan() {
            return Binary64::nan();
        }
        let sa = self.is_sign_negative();
        let sb = other.is_sign_negative();
        if self.is_infinite() {
            if other.is_infinite() && sa != sb {
                return Binary64::nan();
            }
            return self;
        }
        if other.is_infinite() {
            return other;
        }
        let ma = self.mantissa();
        let ka = self.quantum();
        let mb = other.mantissa();
        let kb = other.quantum();
        proof {
            lemma_magnitude_order(ma as nat, ka as nat, mb as nat, kb as nat);
            lemma_magnitude_order(mb as nat, kb as nat, ma as nat, ka as nat);
        }
        if ka > kb || (ka == kb && ma >= mb) {
            combine(sa, ma, ka, sa == sb, mb, kb)
        } else {
            combine(sb, mb, kb, sa == sb, ma, ka)
        }
    }

    /// `self - other`, correctly rounded.
    pub fn sub(self, other: Binary64) -> (r: Binary64)
        ensures
            r@ == difference(self@, other@),
    {
        self.add(other.neg())
    }

    /// `self / other`, correctly rounded.
    pub fn div(self, other: Binary64) -> (r: Binary64)
        ensures
            r@ == quotient(self@, other@),
    {
        if self.is_nan() || other.is_nan() {
            return Binary64::nan();
        }
        let negative = self.is_sign_negative() != other.is_sign_negative();
        if self.is_infinite() {
            if other.is_infinite() {
                return Binary64::nan();
            }
            return Binary64::infinity(negative);
        }
        if other.is_infinite() {
            return Binary64::zero(negative);
        }
        let ma = self.mantissa();
        let ka = self.quantum();
        let mb = other.mantissa();
        let kb = other.quantum();
        let ghost x = ma as nat * pow2(ka as nat);
        let ghost y = mb as nat * pow2(kb as nat);
        proof {
            lemma_magnitude_order(ma as nat, ka as nat, mb as nat, kb as nat);
            lemma_magnitude_order(mb as nat, kb as nat, ma as nat, ka as nat);
            lemma_pow2_pos(1074);
            lemma_pow2_pos(4096);
            lemma_pow2_values();
        }
        if mb == 0 {
            if ma == 0 {
                return Binary64::nan();
            }
            return Binary64::infinity(negative);
        }
        if ma == 0 {
            proof {
                assert(x * one() == 0) by (nonlinear_arith)
                    requires
                        x == 0,
                ;
                lemma_round_zero(negative, y);
            }
            return Binary64::zero(negative);
        }
        let la = digits64(ma);
        let lb = digits64(mb);
        proof {
            lemma_digits_limit(ma as nat, 53);
            lemma_digits_limit(mb as nat, 53);
        }
        let za: u32 = 53 - la;
        let zb: u32 = 53 - lb;
        proof {
            lemma_scaled_bounds(ma as nat, za as nat);
            lemma_scaled_bounds(mb as nat, zb as nat);
            lemma_u64_shl_is_mul(ma, za as u64);
            lemma_u64_shl_is_mul(mb, zb as u64);
        }
        let na: u64 = ma << (za as u64);
        let nb: u64 = mb << (zb as u64);
        let nn: u128 = (na as u128) * 0x0100_0000_0000_0000;
        let q: u128 = nn / (nb as u128);
        let rem: u128 = nn % (nb as u128);
        let n: u128 = 2 * q + if rem != 0 {
            1
        } else {
            0
        };
        let e: i32 = (ka as i32 - za as i32) - (kb as i32 - zb as i32) + 1018;
        proof {
            // The integer part of the quotient has at least 56 digits.
            let floor = 0x0080_0000_0000_0000int;
            lemma_div_by_multiple(floor, nb as int);
            assert(floor * nb <= nn) by (nonlinear_arith)
                requires
                    floor == 0x0080_0000_0000_0000int,
                    nb < 0x0020_0000_0000_0000,
                    nn >= 0x0010_0000_0000_0000 * 0x0100_0000_0000_0000,
            ;
            lemma_div_is_ordered(floor * nb, nn as int, nb as int);
            assert(q >= floor);
            assert(q <= nn) by (nonlinear_arith)
                requires
                    q == nn as nat / nb as nat,
                    nb >= 1,
            ;
            assert(n == sticky_num(nn as nat, nb as nat));
            // Both ratios are (ma * mb) * 2^(ka + zb + 5170).
            let both = ma as nat * mb as nat;
            lemma_pow2_mul(ma as nat, ka as nat, 1074);
            lemma_pow2_mul(mb as nat, zb as nat, 4096);
            lemma_pow2_mul2(ma as nat, (ka + 1074) as nat, mb as nat, (zb + 4096) as nat);
            let left = (x * one()) * (nb as nat * pow2(4096));
            assert(left == both * pow2((ka + zb + 5170) as nat));
            lemma_pow2_mul(ma as nat, za as nat, 56);
            lemma_pow2_mul(ma as nat, (za + 56) as nat, (e + 4096) as nat);
            lemma_pow2_mul2(ma as nat, (za + 56 + e + 4096) as nat, mb as nat, kb as nat);
            let right = (nn as nat * pow2((e + 4096) as nat)) * y;
            assert(right == both * pow2((ka + zb + 5170) as nat));
            lemma_round_sticky(x * one(), y, nn as nat, nb as nat, e as int, 4096);
        }
        round_pack(negative, n, e - 1)
    }

    /// `self <= other`.
    pub fn le(self, other: Binary64) -> (b: bool)
        ensures
            b == at_most(self@, other@),
    {
        if self.is_nan() || other.is_nan() {
            return false;
        }
        let sa = self.is_sign_negative();
        let sb = other.is_sign_negative();
        let xa: u64 = if sa {
            self.bits - SIGN_BIT
        } else {
            self.bits
        };
        let xb: u64 = if sb {
            other.bits - SIGN_BIT
        } else {
            other.bits
        };
        proof {
            if !(self@ is Infinite) && !(other@ is Infinite) {
                lemma_encoding_order(xa, xb);
                lemma_encoding_order(xb, xa);
            }
        }
        if sa {
            if sb {
                xb <= xa
            } else {
                true
            }
        } else {
            if sb {
                xa == 0 && xb == 0
            } else {
                xa <= xb
            }
        }
    }

    /// The binary64 number nearest to `n`.
    pub fn from_u64(n: u64) -> (r: Binary64)
        ensures
            r@ == from_integer(n as nat),
    {
        proof {
            lemma_pow2_split(1074, 4096, 5170);
            let x = n as nat;
            assert((x * one()) * dyadic_den() == dyadic_num(x, 1074) * 1) by (nonlinear_arith)
                requires
                    dyadic_num(x, 1074) == x * pow2(5170),
                    pow2(5170) == one() * dyadic_den(),
            ;
            lemma_round_same_ratio(x * one(), 1, dyadic_num(x, 1074), dyadic_den());
        }
        round_pack(false, n as u128, 1074)
    }

    /// `self * other`, correctly rounded.
    pub fn mul(self, other: Binary64) -> (r: Binary64)
        ensures
            r@ == product(self@, other@),
    {
        if self.is_nan() || other.is_nan() {
            return Binary64::nan();
        }
        let negative = self.is_sign_negative() != other.is_sign_negative();
        let ma = self.mantissa();
        let mb = other.mantissa();
        if self.is_infinite() || other.is_infinite() {
            proof {
                lemma_pow2_pos(scale(self.bits));
                lemma_pow2_pos(scale(other.bits));
                assert(ma == 0 ==> ma * pow2(scale(self.bits)) == 0);
                assert(mb == 0 ==> mb * pow2(scale(other.bits)) == 0);
                assert(ma > 0 ==> ma * pow2(scale(self.bits)) > 0) by (nonlinear_arith)
                    requires
                        pow2(scale(self.bits)) > 0,
                ;
                assert(mb > 0 ==> mb * pow2(scale(other.bits)) > 0) by (nonlinear_arith)
                    requires
                        pow2(scale(other.bits)) > 0,
                ;
            }
            if (!self.is_infinite() && ma == 0) || (!other.is_infinite() && mb == 0) {
                return Binary64::nan();
            }
            return Binary64::infinity(negative);
        }
        let ka = self.quantum();
        let kb = other.quantum();
        assert(ma * mb < 0x0020_0000_0000_0000 * 0x0020_0000_0000_0000) by (nonlinear_arith)
            requires
                ma < 0x0020_0000_0000_0000,
                mb < 0x0020_0000_0000_0000,
        ;
        let n: u128 = (ma as u128) * (mb as u128);
        let t: i32 = ka as i32 + kb as i32 - 1074;
        proof {
            let pa = pow2(ka as nat);
            let pb = pow2(kb as nat);
            let pt = pow2((t + 4096) as nat);
            lemma_pow2_split(ka as nat, kb as nat, (ka + kb) as nat);
            lemma_pow2_split((ka + kb) as nat, 4096, (ka + kb + 4096) as nat);
            lemma_pow2_split((t + 4096) as nat, 1074, (ka + kb + 4096) as nat);
            let x = ma as nat * pa;
            let y = mb as nat * pb;
            assert((x * y) * dyadic_den() == (n as nat * pt) * one()) by (nonlinear_arith)
                requires
                    n == ma * mb,
                    x == ma * pa,
                    y == mb * pb,
                    (pa * pb) * dyadic_den() == pt * one(),
            ;
            lemma_round_same_ratio(x * y, one(), dyadic_num(n as nat, t as int), dyadic_den());
            lemma_pow2_pos(1074);
        }
        round_pack(negative, n, t)
    }
}

} // verus!
