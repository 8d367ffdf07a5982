//! IEEE 754 binary64 as mathematics: the values, their encoding in 64 bits,
//! and arithmetic under round-to-nearest, ties-to-even.
//!
//! Magnitudes are counted in units of 2^-1074, the smallest positive binary64
//! value, so every finite value is a natural number of units with a sign.

use vstd::arithmetic::power2::pow2;
use vstd::prelude::*;

verus! {

/// 2^52: the implicit leading bit of a normal significand.
pub const HIDDEN_BIT: u64 = 0x0010_0000_0000_0000;

/// 2^53: every significand is below it.
pub const SIGNIFICAND_LIMIT: u64 = 0x0020_0000_0000_0000;

/// 2^63: the sign bit of an encoding.
pub const SIGN_BIT: u64 = 0x8000_0000_0000_0000;

/// The largest power of two by which a significand is scaled, in units.
pub const MAX_SCALE: u32 = 2045;

/// What a binary64 datum stands for.
pub enum Value {
    Nan,
    Infinite { negative: bool },
    /// `units` multiples of 2^-1074, with a sign (zero has one too).
    Finite { negative: bool, units: nat },
}

/// The number of units in 1.0.
pub open spec fn one() -> nat {
    pow2(1074)
}

/// The first magnitude, in units, that is too large to be finite: 2^1024.
pub open spec fn overflow_threshold() -> nat {
    pow2(2098)
}

/// The number of binary digits of `q`.
pub open spec fn bit_length(q: nat) -> nat
    decreases q,
{
    if q == 0 {
        0
    } else {
        1 + bit_length(q / 2)
    }
}

/// The number of low-order digits of `q` that a 53-bit significand cannot hold.
pub open spec fn excess_bits(q: nat) -> nat {
    if bit_length(q) <= 53 {
        0
    } else {
        (bit_length(q) - 53) as nat
    }
}

/// The integer nearest to `num / den`; of two equally near, the even one.
pub open spec fn round_half_even(num: nat, den: nat) -> nat
    recommends
        den > 0,
{
    let q = num / den;
    let r = num % den;
    if 2 * r < den || (2 * r == den && q % 2 == 0) {
        q
    } else {
        q + 1
    }
}

/// `num / den` units rounded to the nearest magnitude that has a 53-bit
/// significand, ties to the even significand. The exponent is not bounded
/// here: the result may reach `overflow_threshold()`.
pub open spec fn round_to_precision(num: nat, den: nat) -> nat
    recommends
        den > 0,
{
    let k = excess_bits(num / den);
    round_half_even(num, den * pow2(k)) * pow2(k)
}

/// The binary64 value nearest to `num / den` units with the given sign.
pub open spec fn rounded(negative: bool, num: nat, den: nat) -> Value
    recommends
        den > 0,
{
    let units = round_to_precision(num, den);
    if units < overflow_threshold() {
        Value::Finite { negative, units }
    } else {
        Value::Infinite { negative }
    }
}

/// The eleven exponent bits of an encoding.
pub open spec fn biased_exponent(bits: u64) -> nat {
    ((bits / HIDDEN_BIT) % 2048) as nat
}

/// The 52 fraction bits of an encoding.
pub open spec fn fraction(bits: u64) -> nat {
    (bits % HIDDEN_BIT) as nat
}

/// The integer significand: the fraction, with the implicit leading bit
/// unless the exponent bits are zero.
pub open spec fn significand(bits: u64) -> nat {
    if biased_exponent(bits) == 0 {
        fraction(bits)
    } else {
        HIDDEN_BIT as nat + fraction(bits)
    }
}

/// The power of two, in units, by which the significand is scaled.
pub open spec fn scale(bits: u64) -> nat {
    if biased_exponent(bits) == 0 {
        0
    } else {
        (biased_exponent(bits) - 1) as nat
    }
}

/// The value that 64 bits encode: a sign bit, eleven bits of biased exponent,
/// 52 bits of fraction.
pub open spec fn decode(bits: u64) -> Value {
    let negative = bits >= SIGN_BIT;
    if biased_exponent(bits) == 2047 {
        if fraction(bits) == 0 {
            Value::Infinite { negative }
        } else {
            Value::Nan
        }
    } else {
        Value::Finite { negative, units: significand(bits) * pow2(scale(bits)) }
    }
}

/// A finite magnitude with its sign, as an integer number of units.
pub open spec fn signed_units(negative: bool, units: nat) -> int {
    if negative {
        -(units as int)
    } else {
        units as int
    }
}

/// `-a`.
pub open spec fn negated(a: Value) -> Value {
    match a {
        Value::Nan => Value::Nan,
        Value::Infinite { negative } => Value::Infinite { negative: !negative },
        Value::Finite { negative, units } => Value::Finite { negative: !negative, units },
    }
}

/// `a + b`. An exact zero sum is negative only when both terms are.
pub open spec fn sum(a: Value, b: Value) -> Value {
    match (a, b) {
        (Value::Nan, _) => Value::Nan,
        (_, Value::Nan) => Value::Nan,
        (Value::Infinite { negative: s }, Value::Infinite { negative: t }) => {
            if s == t {
                a
            } else {
                Value::Nan
            }
        },
        (Value::Infinite { .. }, Value::Finite { .. }) => a,
        (Value::Finite { .. }, Value::Infinite { .. }) => b,
        (Value::Finite { negative: s, units: x }, Value::Finite { negative: t, units: y }) => {
            let exact = signed_units(s, x) + signed_units(t, y);
            if exact == 0 {
                Value::Finite { negative: s && t, units: 0 }
            } else if exact < 0 {
                rounded(true, (-exact) as nat, 1)
            } else {
                rounded(false, exact as nat, 1)
            }
        },
    }
}

/// `a - b`.
pub open spec fn difference(a: Value, b: Value) -> Value {
    sum(a, negated(b))
}

/// `a * b`.
pub open spec fn product(a: Value, b: Value) -> Value {
    match (a, b) {
        (Value::Nan, _) => Value::Nan,
        (_, Value::Nan) => Value::Nan,
        (Value::Infinite { negative: s }, Value::Infinite { negative: t }) => Value::Infinite {
            negative: s != t,
        },
        (Value::Infinite { negative: s }, Value::Finite { negative: t, units: y }) => {
            if y == 0 {
                Value::Nan
            } else {
                Value::Infinite { negative: s != t }
            }
        },
        (Value::Finite { negative: s, units: x }, Value::Infinite { negative: t }) => {
            if x == 0 {
                Value::Nan
            } else {
                Value::Infinite { negative: s != t }
            }
        },
        (Value::Finite { negative: s, units: x }, Value::Finite { negative: t, units: y }) => {
            rounded(s != t, x * y, one())
        },
    }
}

/// `a / b`.
pub open spec fn quotient(a: Value, b: Value) -> Value {
    match (a, b) {
        (Value::Nan, _) => Value::Nan,
        (_, Value::Nan) => Value::Nan,
        (Value::Infinite { .. }, Value::Infinite { .. }) => Value::Nan,
        (Value::Infinite { negative: s }, Value::Finite { negative: t, .. }) => Value::Infinite {
            negative: s != t,
        },
        (Value::Finite { negative: s, .. }, Value::Infinite { negative: t }) => Value::Finite {
            negative: s != t,
            units: 0,
        },
        (Value::Finite { negative: s, units: x }, Value::Finite { negative: t, units: y }) => {
            if y == 0 {
                if x == 0 {
                    Value::Nan
                } else {
                    Value::Infinite { negative: s != t }
                }
            } else {
                rounded(s != t, x * one(), y)
            }
        },
    }
}

/// `a <= b`: false when either is NaN; zeros of both signs are equal.
pub open spec fn at_most(a: Value, b: Value) -> bool {
    match (a, b) {
        (Value::Nan, _) => false,
        (_, Value::Nan) => false,
        (Value::Infinite { negative: s }, Value::Infinite { negative: t }) => s || !t,
        (Value::Infinite { negative: s }, Value::Finite { .. }) => s,
        (Value::Finite { .. }, Value::Infinite { negative: t }) => !t,
        (Value::Finite { negative: s, units: x }, Value::Finite { negative: t, units: y }) => {
            signed_units(s, x) <= signed_units(t, y)
        },
    }
}

/// The binary64 value nearest to the integer `n`.
pub open spec fn from_integer(n: nat) -> Value {
    rounded(false, n * one(), 1)
}

/// The value `m * 2^e` for a small integer `m` and `-1074 <= e`.
pub open spec fn dyadic(negative: bool, m: nat, e: int) -> Value {
    Value::Finite { negative, units: m * pow2((e + 1074) as nat) }
}

} // verus!
