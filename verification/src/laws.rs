//! What holds of every number, orbit, pixel and raster, stated over the
//! models and proved.

use crate::arith::{
    lemma_bit_length_bounds, lemma_pow2_monotone, lemma_pow2_mul, lemma_pow2_values,
};
use crate::binary64::lemma_magnitude_order;
use crate::escape::{bound, escape_count, first_escape, orbit, pixel_point, within, zero};
use crate::ieee::{
    at_most, biased_exponent, bit_length, decode, excess_bits, fraction, product,
    round_half_even, round_to_precision, scale, significand, sum, Value, HIDDEN_BIT,
    SIGNIFICAND_LIMIT,
};
use crate::pixel::pixel_code;
use crate::raster::{chunk_pixels, lemma_raster_position, pixel_at, raster_pixels};
use crate::rounding::{
    dyadic_scale, lemma_round_dyadic_exact, lemma_round_to_precision_scale, lemma_round_zero,
};
use vstd::arithmetic::div_mod::{
    lemma_div_by_multiple, lemma_div_denominator, lemma_div_multiples_vanish_fancy,
    lemma_fundamental_div_mod, lemma_mod_multiples_vanish, lemma_small_mod,
};
use vstd::arithmetic::power2::{lemma_pow2_pos, pow2};
use vstd::prelude::*;

verus! {

/// Rounding is to nearest, ties to even. The rounded magnitude is a multiple
/// `m` of the quantum `2^k`, where `k` is the excess of the ratio's integer
/// part over 53 digits; `m` has at most 53 digits, or is `2^53` after a
/// carry, and is normal when `k > 0`; it is within half a quantum of the
/// ratio; and when it is exactly half a quantum away, `m` is even.
pub proof fn lemma_rounding_is_nearest(num: nat, den: nat)
    requires
        den > 0,
    ensures
        ({
            let k = excess_bits(num / den);
            let q = pow2(k);
            let r = round_to_precision(num, den);
            let m = r / q;
            &&& r == m * q
            &&& m <= SIGNIFICAND_LIMIT
            &&& k > 0 ==> m >= HIDDEN_BIT
            &&& 2 * (r * den - num) <= q * den
            &&& 2 * (num - r * den) <= q * den
            &&& (2 * (r * den - num) == q * den || 2 * (num - r * den) == q * den) ==> m % 2
                == 0
        }),
{
    let v = num / den;
    let k = excess_bits(v);
    let q = pow2(k);
    lemma_pow2_pos(k);
    lemma_pow2_values();
    let step = den * q;
    assert(step > 0) by (nonlinear_arith)
        requires
            step == den * q,
            den > 0,
            q > 0,
    ;
    let f = num / step;
    let rem = num % step;
    let m = round_half_even(num, step);
    let r = m * q;
    lemma_div_by_multiple(m as int, q as int);
    lemma_fundamental_div_mod(num as int, step as int);
    assert(r * den == m * step) by (nonlinear_arith)
        requires
            r == m * q,
            step == den * q,
    ;
    assert(m * step - num == (m - f) * step - rem) by (nonlinear_arith)
        requires
            num == step * f + rem,
    ;
    assert((m - f) * step == if m == f {
        0
    } else {
        step as int
    }) by (nonlinear_arith)
        requires
            m == f || m == f + 1,
    ;
    // The integer part of the ratio has at most 53 + k digits, so its
    // multiple of the quantum has at most 53.
    lemma_bit_length_bounds(v);
    lemma_pow2_monotone(bit_length(v), 53 + k);
    lemma_pow2_mul(1, 53, k);
    lemma_pow2_mul(1, 52, k);
    lemma_div_denominator(num as int, den as int, q as int);
    assert(f == v / q);
    lemma_fundamental_div_mod(v as int, q as int);
    assert(f < 0x0020_0000_0000_0000) by (nonlinear_arith)
        requires
            v == q * f + (v % q),
            0 <= v % q,
            v < 0x0020_0000_0000_0000 * q,
            q > 0,
    ;
    if k > 0 {
        assert(f >= 0x0010_0000_0000_0000) by (nonlinear_arith)
            requires
                v == q * f + (v % q),
                v % q < q,
                v >= 0x0010_0000_0000_0000 * q,
                q > 0,
        ;
    }
    assert(q * den == step) by (nonlinear_arith)
        requires
            step == den * q,
    ;
    assert(r == round_to_precision(num, den));
    assert(r / q == m);
    assert(r * den - num == (m - f) * step - rem);
}

/// A magnitude that has a 53-bit significand is its own rounding: arithmetic
/// whose exact result is representable is exact.
pub proof fn lemma_representable_is_fixed(m: nat, j: nat, den: nat)
    requires
        m < SIGNIFICAND_LIMIT,
        den > 0,
    ensures
        round_to_precision((m * pow2(j)) * den, den) == m * pow2(j),
{
    lemma_pow2_values();
    let x = m * pow2(j);
    lemma_round_to_precision_scale(x, 1, den);
    assert(1 * den == den);
    if m == 0 {
        assert(x == 0) by (nonlinear_arith)
            requires
                x == m * pow2(j),
                m == 0,
        ;
        lemma_round_zero(false, 1);
    } else {
        lemma_bit_length_bounds(m);
        if bit_length(m) > 53 {
            lemma_pow2_monotone(53, (bit_length(m) - 1) as nat);
        }
        let k = dyadic_scale(m, j as int);
        lemma_round_dyadic_exact(m, j as int, 0);
        lemma_pow2_mul(m, (j - k) as nat, k);
    }
}

/// An encoding is determined by the value it stands for, unless that is
/// NaN: a contract that fixes the value of a number fixes its 64 bits.
pub proof fn lemma_encoding_is_unique(a: u64, b: u64)
    requires
        decode(a) == decode(b),
        decode(a) != Value::Nan,
    ensures
        a == b,
{
    if biased_exponent(a) < 2047 {
        lemma_magnitude_order(significand(a), scale(a), significand(b), scale(b));
        lemma_magnitude_order(significand(b), scale(b), significand(a), scale(a));
        assert(scale(a) == scale(b));
        assert(significand(a) == significand(b));
        assert(biased_exponent(a) == biased_exponent(b));
        assert(fraction(a) == fraction(b));
    }
}

proof fn lemma_first_escape(c: (Value, Value), from: nat, max_iter: nat)
    requires
        from <= max_iter,
    ensures
        from <= first_escape(c, from, max_iter) <= max_iter,
        forall|n: nat|
            from <= n < first_escape(c, from, max_iter) ==> within(#[trigger] orbit(c, n)),
        first_escape(c, from, max_iter) < max_iter ==> !within(
            orbit(c, first_escape(c, from, max_iter)),
        ),
    decreases max_iter - from,
{
    if from < max_iter && within(orbit(c, from)) {
        lemma_first_escape(c, from + 1, max_iter);
    }
}

/// The escape count is the least index below the cap at which the orbit is
/// outside the disc of radius two, and the cap if there is no such index.
pub proof fn lemma_escape_count_is_least(c: (Value, Value), max_iter: nat)
    ensures
        escape_count(c, max_iter) <= max_iter,
        forall|n: nat| n < escape_count(c, max_iter) ==> within(#[trigger] orbit(c, n)),
        escape_count(c, max_iter) < max_iter ==> !within(orbit(c, escape_count(c, max_iter))),
{
    lemma_first_escape(c, 0, max_iter);
}

/// Every orbit starts inside the disc, so an orbit that escapes has taken at
/// least one step: under a cap of at least one, the escape count is at
/// least one.
pub proof fn lemma_escape_count_positive(c: (Value, Value), max_iter: nat)
    requires
        max_iter >= 1,
    ensures
        within(orbit(c, 0)),
        escape_count(c, max_iter) >= 1,
{
    lemma_pow2_pos(1074);
    lemma_pow2_pos(1076);
    lemma_round_zero(false, pow2(1074));
    assert(0nat * 0nat == 0);
    assert(product(zero(), zero()) == zero());
    assert(sum(zero(), zero()) == zero());
    assert(1 * pow2(1076) == pow2(1076));
    assert(at_most(zero(), bound()));
    assert(first_escape(c, 1, max_iter) >= 1) by {
        lemma_first_escape(c, 1, max_iter);
    }
}

/// Every pixel byte is in the range 0 to 254.
pub proof fn lemma_pixel_in_range(x: nat, y: nat, width: nat, height: nat, max_iter: nat)
    ensures
        pixel_at(x, y, width, height, max_iter) <= 254,
        pixel_at(x, y, width, height, max_iter) == pixel_code(
            escape_count(pixel_point(x, y, width, height), max_iter),
            max_iter,
        ),
{
}

/// A zero byte means a bounded orbit, and a bounded orbit a zero byte:
/// the byte is 0 exactly when the orbit stays inside the disc at every index
/// below the cap. This is stated for the pixels whose escape count is not a
/// multiple of 255 below the cap: such a count is encoded as 0 as well.
pub proof fn lemma_zero_byte_means_bounded(
    x: nat,
    y: nat,
    width: nat,
    height: nat,
    max_iter: nat,
)
    requires
        ({
            let count = escape_count(pixel_point(x, y, width, height), max_iter);
            count == max_iter || count % 255 != 0
        }),
    ensures
        pixel_at(x, y, width, height, max_iter) == 0 <==> (forall|n: nat|
            n < max_iter ==> within(#[trigger] orbit(pixel_point(x, y, width, height), n))),
{
    let c = pixel_point(x, y, width, height);
    let count = escape_count(c, max_iter);
    lemma_escape_count_is_least(c, max_iter);
    lemma_pixel_in_range(x, y, width, height, max_iter);
    if count < max_iter {
        assert(!within(orbit(c, count)));
    }
}

/// With a cap of zero no step is taken and the byte is 0.
pub proof fn lemma_zero_cap_pixel(x: nat, y: nat, width: nat, height: nat)
    ensures
        pixel_at(x, y, width, height, 0) == 0,
{
}

/// With a cap of zero every byte of the raster is 0.
pub proof fn lemma_zero_cap_raster(width: nat, height: nat)
    ensures
        raster_pixels(width, height, 0).len() == width * height,
        forall|i: int|
            0 <= i < width * height ==> #[trigger] raster_pixels(width, height, 0)[i] == 0,
{
    assert forall|i: int| 0 <= i < width * height implies #[trigger] raster_pixels(
        width,
        height,
        0,
    )[i] == 0 by {
        let x = (i % (width as int)) as nat;
        let y = (i / (width as int)) as nat;
        lemma_zero_cap_pixel(x, y, width, height);
    }
}

/// Two escape counts that differ by 255 are encoded by the same byte.
pub proof fn lemma_codes_alias(c: (Value, Value), d: (Value, Value), max_iter: nat)
    requires
        max_iter >= 256,
        escape_count(c, max_iter) < max_iter,
        escape_count(d, max_iter) < max_iter,
        escape_count(d, max_iter) == escape_count(c, max_iter) + 255,
    ensures
        pixel_code(escape_count(c, max_iter), max_iter) == pixel_code(
            escape_count(d, max_iter),
            max_iter,
        ),
{
}

/// The byte at position `y * width + x` of the raster is that of the pixel
/// in column `x` and row `y`.
pub proof fn lemma_raster_is_row_major(
    x: nat,
    y: nat,
    width: nat,
    height: nat,
    max_iter: nat,
)
    requires
        x < width,
        y < height,
    ensures
        y * width + x < width * height,
        raster_pixels(width, height, max_iter)[(y * width + x) as int] == pixel_at(
            x,
            y,
            width,
            height,
            max_iter,
        ),
{
    let w = width as int;
    let i = y * width + x;
    assert(i < width * height) by (nonlinear_arith)
        requires
            i == y * width + x,
            x < width,
            y < height,
    ;
    assert(i == w * y + x) by (nonlinear_arith)
        requires
            i == y * width + x,
            w == width,
    ;
    lemma_div_multiples_vanish_fancy(y as int, x as int, w);
    lemma_mod_multiples_vanish(y as int, x as int, w);
    lemma_small_mod(x, width);
}

/// The raster does not depend on how its rows are shared out: a chunk of
/// whole rows, computed on its own, is that part of the raster, whatever
/// the number of rows in a chunk and whoever computes the others.
pub proof fn lemma_chunk_of_raster(
    width: nat,
    height: nat,
    max_iter: nat,
    first_row: nat,
    rows: nat,
)
    requires
        width > 0,
        first_row + rows <= height,
    ensures
        first_row * width + rows * width <= width * height,
        raster_pixels(width, height, max_iter).subrange(
            (first_row * width) as int,
            (first_row * width + rows * width) as int,
        ) == chunk_pixels(first_row, rows, width, height, max_iter),
{
    let w = width as int;
    let start = first_row * width;
    let len = rows * width;
    assert(start + len <= width * height) by (nonlinear_arith)
        requires
            start == first_row * width,
            len == rows * width,
            first_row + rows <= height,
    ;
    let part = raster_pixels(width, height, max_iter).subrange(start as int, (start + len) as int);
    let chunk = chunk_pixels(first_row, rows, width, height, max_iter);
    assert forall|i: int| 0 <= i < len implies part[i] == chunk[i] by {
        assert(rows * width == width * rows) by (nonlinear_arith);
        lemma_raster_position(i, width, rows);
        let r = i / w;
        let x = i % w;
        assert(start + i == w * (first_row + r) + x) by (nonlinear_arith)
            requires
                start == first_row * w,
                i == r * w + x,
        ;
        lemma_div_multiples_vanish_fancy(first_row + r, x, w);
        lemma_mod_multiples_vanish(first_row + r, x, w);
        lemma_small_mod(x as nat, width);
    }
    assert(part =~= chunk);
}

} // verus!
