//! The coordinate mapper and the escape-time iterator.
//!
//! A pixel is mapped to a point `c` of the complex plane, and the orbit of
//! zero under `z -> z^2 + c` is followed until it leaves the disc of radius
//! two or the iteration cap is reached. Every operation is a binary64
//! operation, rounded as such.

use crate::arith::lemma_pow2_mul;
use crate::binary64::Binary64;
use crate::ieee::{
    at_most, biased_exponent, decode, difference, dyadic, from_integer, product, quotient,
    scale, significand, sum, Value, SIGN_BIT,
};
use vstd::arithmetic::power2::{lemma2_to64_rest, pow2};
use vstd::prelude::*;

verus! {

/// Width of the view along the real axis: 3.5.
pub open spec fn span_re() -> Value {
    dyadic(false, 7, -1)
}

/// The view starts at -2.5 on the real axis.
pub open spec fn offset_re() -> Value {
    dyadic(false, 5, -1)
}

/// Height of the view along the imaginary axis: 2.0.
pub open spec fn span_im() -> Value {
    dyadic(false, 1, 1)
}

/// The view starts at -1.0 on the imaginary axis.
pub open spec fn offset_im() -> Value {
    dyadic(false, 1, 0)
}

/// The factor 2.0 of the imaginary part of a square.
pub open spec fn two() -> Value {
    dyadic(false, 1, 1)
}

/// An orbit has escaped once its squared modulus exceeds 4.0.
pub open spec fn bound() -> Value {
    dyadic(false, 1, 2)
}

/// Positive zero.
pub open spec fn zero() -> Value {
    Value::Finite { negative: false, units: 0 }
}

/// `index / extent * span - offset`, each operation rounded.
pub open spec fn coordinate(index: nat, extent: nat, span: Value, offset: Value) -> Value {
    difference(product(quotient(from_integer(index), from_integer(extent)), span), offset)
}

/// The point of the plane sampled by the pixel in column `x` and row `y` of
/// a raster `width` by `height`. The spans do not depend on the aspect ratio.
pub open spec fn pixel_point(x: nat, y: nat, width: nat, height: nat) -> (Value, Value) {
    (coordinate(x, width, span_re(), offset_re()), coordinate(y, height, span_im(), offset_im()))
}

/// `z^2 + c`: the real part is `(re*re - im*im) + c.re`, the imaginary part
/// `((2*re)*im) + c.im`.
pub open spec fn advance(z: (Value, Value), c: (Value, Value)) -> (Value, Value) {
    (
        sum(difference(product(z.0, z.0), product(z.1, z.1)), c.0),
        sum(product(product(two(), z.0), z.1), c.1),
    )
}

/// Whether `|z|^2 <= 4`, with the squared modulus computed as `re*re + im*im`.
pub open spec fn within(z: (Value, Value)) -> bool {
    at_most(sum(product(z.0, z.0), product(z.1, z.1)), bound())
}

/// The `n`-th point of the orbit of zero under `z -> z^2 + c`.
pub open spec fn orbit(c: (Value, Value), n: nat) -> (Value, Value)
    decreases n,
{
    if n == 0 {
        (zero(), zero())
    } else {
        advance(orbit(c, (n - 1) as nat), c)
    }
}

/// The first index from `from` on, below `max_iter`, at which the orbit is
/// outside the disc; `max_iter` if there is none.
pub open spec fn first_escape(c: (Value, Value), from: nat, max_iter: nat) -> nat
    decreases max_iter - from,
{
    if from >= max_iter {
        max_iter
    } else if !within(orbit(c, from)) {
        from
    } else {
        first_escape(c, from + 1, max_iter)
    }
}

/// The escape time of `c` under the cap `max_iter`: the least `n < max_iter`
/// with `|z_n|^2 > 4`, or `max_iter` when the orbit stays inside that long.
pub open spec fn escape_count(c: (Value, Value), max_iter: nat) -> nat {
    first_escape(c, 0, max_iter)
}

/// A point of the complex plane.
#[derive(Clone, Copy, Debug)]
pub struct Point {
    pub re: Binary64,
    pub im: Binary64,
}

impl View for Point {
    type V = (Value, Value);

    open spec fn view(&self) -> (Value, Value) {
        (self.re@, self.im@)
    }
}

/// An encoding whose significand is `m * 2^shift` stands for `m * 2^e`,
/// where `e + 1074` is its scale plus `shift`.
proof fn lemma_decode_dyadic(bits: u64, m: nat, shift: nat, e: int)
    requires
        bits < SIGN_BIT,
        biased_exponent(bits) < 2047,
        significand(bits) == m * pow2(shift),
        scale(bits) + shift == e + 1074,
    ensures
        decode(bits) == dyadic(false, m, e),
{
    lemma_pow2_mul(m, shift, scale(bits));
}

fn constant_span_re() -> (r: Binary64)
    ensures
        r@ == span_re(),
{
    proof {
        lemma2_to64_rest();
        lemma_decode_dyadic(0x400C_0000_0000_0000, 7, 50, -1);
    }
    Binary64::from_bits(0x400C_0000_0000_0000)
}

fn constant_offset_re() -> (r: Binary64)
    ensures
        r@ == offset_re(),
{
    proof {
        lemma2_to64_rest();
        lemma_decode_dyadic(0x4004_0000_0000_0000, 5, 50, -1);
    }
    Binary64::from_bits(0x4004_0000_0000_0000)
}

fn constant_two() -> (r: Binary64)
    ensures
        r@ == two(),
        r@ == span_im(),
{
    proof {
        lemma2_to64_rest();
        lemma_decode_dyadic(0x4000_0000_0000_0000, 1, 52, 1);
    }
    Binary64::from_bits(0x4000_0000_0000_0000)
}

fn constant_offset_im() -> (r: Binary64)
    ensures
        r@ == offset_im(),
{
    proof {
        lemma2_to64_rest();
        lemma_decode_dyadic(0x3FF0_0000_0000_0000, 1, 52, 0);
    }
    Binary64::from_bits(0x3FF0_0000_0000_0000)
}

fn constant_bound() -> (r: Binary64)
    ensures
        r@ == bound(),
{
    proof {
        lemma2_to64_rest();
        lemma_decode_dyadic(0x4010_0000_0000_0000, 1, 52, 2);
    }
    Binary64::from_bits(0x4010_0000_0000_0000)
}

/// One coordinate of a sample point.
fn map_coordinate(index: usize, extent: usize, span: Binary64, offset: Binary64) -> (r: Binary64)
    ensures
        r@ == coordinate(index as nat, extent as nat, span@, offset@),
{
    let ratio = Binary64::from_u64(index as u64).div(Binary64::from_u64(extent as u64));
    ratio.mul(span).sub(offset)
}

impl Point {
    /// The origin, where every orbit starts.
    pub fn origin() -> (z: Point)
        ensures
            z@ == (zero(), zero()),
    {
        Point { re: Binary64::zero(false), im: Binary64::zero(false) }
    }

    /// The point sampled by the pixel in column `x` and row `y`.
    pub fn of_pixel(x: usize, y: usize, width: usize, height: usize) -> (c: Point)
        ensures
            c@ == pixel_point(x as nat, y as nat, width as nat, height as nat),
    {
        Point {
            re: map_coordinate(x, width, constant_span_re(), constant_offset_re()),
            im: map_coordinate(y, height, constant_two(), constant_offset_im()),
        }
    }

    /// `self^2 + c`.
    pub fn advance(self, c: Point) -> (z: Point)
        ensures
            z@ == advance(self@, c@),
    {
        let re = self.re.mul(self.re).sub(self.im.mul(self.im)).add(c.re);
        let im = constant_two().mul(self.re).mul(self.im).add(c.im);
        Point { re, im }
    }

    /// Whether the squared modulus is at most 4.
    pub fn within(self) -> (inside: bool)
        ensures
            inside == within(self@),
    {
        self.re.mul(self.re).add(self.im.mul(self.im)).le(constant_bound())
    }
}

/// Follows the orbit of zero under `z -> z^2 + c` and counts the steps taken
/// before it leaves the disc of radius two, up to `max_iter`.
pub fn escape_time(c: Point, max_iter: u32) -> (count: u32)
    ensures
        count as nat == escape_count(c@, max_iter as nat),
{
    let mut z = Point::origin();
    let mut count: u32 = 0;
    while count < max_iter && z.within()
        invariant
            count <= max_iter,
            z@ == orbit(c@, count as nat),
            first_escape(c@, count as nat, max_iter as nat) == escape_count(c@, max_iter as nat),
        decreases max_iter - count,
    {
        z = z.advance(c);
        count += 1;
    }
    count
}

} // verus!
