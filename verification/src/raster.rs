//! The raster engine: every pixel of a `width` by `height` raster is mapped
//! to a point and encoded by its escape time. Rows are computed in parallel,
//! each by one task that writes into its own part of the buffer.

use crate::escape::{escape_count, escape_time, pixel_point, Point};
use crate::laws::{lemma_pixel_in_range, lemma_raster_is_row_major, lemma_zero_cap_pixel};
use crate::pixel::{encode_pixel, pixel_code};
use rayon::iter::{IndexedParallelIterator, ParallelIterator};
use rayon::slice::ParallelSliceMut;
use vstd::arithmetic::div_mod::{lemma_fundamental_div_mod, lemma_mod_bound};
use vstd::prelude::*;

verus! {

/// Why no raster was computed.
#[derive(Clone, Copy, Debug, PartialEq, Eq, Structural)]
pub enum RasterError {
    /// The width or the height is zero.
    InvalidDimension,
}

/// The byte of the pixel in column `x` and row `y`.
pub open spec fn pixel_at(x: nat, y: nat, width: nat, height: nat, max_iter: nat) -> u8 {
    pixel_code(escape_count(pixel_point(x, y, width, height), max_iter), max_iter) as u8
}

/// The first `len` bytes of row `y`.
pub open spec fn row_pixels(len: nat, y: nat, width: nat, height: nat, max_iter: nat) -> Seq<
    u8,
> {
    Seq::new(len, |x: int| pixel_at(x as nat, y, width, height, max_iter))
}

/// The whole raster, row after row: the byte at `y * width + x` is that of
/// the pixel in column `x` and row `y`.
pub open spec fn raster_pixels(width: nat, height: nat, max_iter: nat) -> Seq<u8> {
    Seq::new(
        width * height,
        |i: int|
            pixel_at(
                (i % (width as int)) as nat,
                (i / (width as int)) as nat,
                width,
                height,
                max_iter,
            ),
    )
}

/// The bytes of `rows` whole rows from row `first_row` on: what a task that
/// is given this chunk computes, whatever the other tasks do.
pub open spec fn chunk_pixels(
    first_row: nat,
    rows: nat,
    width: nat,
    height: nat,
    max_iter: nat,
) -> Seq<u8> {
    Seq::new(
        rows * width,
        |i: int|
            pixel_at(
                (i % (width as int)) as nat,
                first_row + (i / (width as int)) as nat,
                width,
                height,
                max_iter,
            ),
    )
}

/// Computes the byte of one pixel.
pub fn pixel(x: usize, y: usize, width: usize, height: usize, max_iter: u32) -> (code: u8)
    ensures
        code == pixel_at(x as nat, y as nat, width as nat, height as nat, max_iter as nat),
{
    let c = Point::of_pixel(x, y, width, height);
    encode_pixel(escape_time(c, max_iter), max_iter)
}

/// Fills `row` with the first bytes of row `y`, as many as it holds.
pub fn fill_row(row: &mut [u8], y: usize, width: usize, height: usize, max_iter: u32)
    ensures
        final(row)@ == row_pixels(
            old(row)@.len(),
            y as nat,
            width as nat,
            height as nat,
            max_iter as nat,
        ),
{
    let len = row.len();
    let mut x: usize = 0;
    while x < len
        invariant
            len == row@.len(),
            len == old(row)@.len(),
            x <= len,
            forall|i: int|
                0 <= i < x ==> row@[i] == pixel_at(
                    i as nat,
                    y as nat,
                    width as nat,
                    height as nat,
                    max_iter as nat,
                ),
        decreases len - x,
    {
        row[x] = pixel(x, y, width, height, max_iter);
        x += 1;
    }
    assert(row@ =~= row_pixels(
        len as nat,
        y as nat,
        width as nat,
        height as nat,
        max_iter as nat,
    ));
}

/// Fills the rows of `buffer` in parallel, one task for each row.
///
/// Not verified: the body hands `buffer` to rayon. It calls
/// `ParallelSliceMut::par_chunks_mut(width)`, which cuts the buffer into
/// consecutive, disjoint pieces of `width` bytes (the last one shorter when
/// the length is no multiple of `width`) and panics on a zero `width`, which
/// the precondition excludes; `IndexedParallelIterator::enumerate`, which
/// pairs each piece with its position, so that the piece numbered `y`
/// starts at `y * width`; and `ParallelIterator::for_each`, which runs the
/// closure once on every pair, on the workers of the current thread pool,
/// and returns when all have run. The closure calls `fill_row`, which has no
/// precondition. The contract says what this leaves in the buffer: its
/// length is unchanged, and every whole piece holds what `fill_row`
/// guarantees for it.
#[verifier::external_body]
fn fill_rows(buffer: &mut Vec<u8>, width: usize, height: usize, max_iter: u32)
    requires
        width > 0,
    ensures
        final(buffer)@.len() == old(buffer)@.len(),
        forall|y: nat|
            (y + 1) * width <= old(buffer)@.len() ==> final(buffer)@.subrange(
                (y * width) as int,
                ((y + 1) * width) as int,
            ) == #[trigger] row_pixels(
                width as nat,
                y,
                width as nat,
                height as nat,
                max_iter as nat,
            ),
{
    buffer.par_chunks_mut(width).enumerate().for_each(
        |(y, row)| fill_row(row, y, width, height, max_iter),
    );
}

/// Position `i` of a raster lies in row `i / width`, column `i % width`.
pub proof fn lemma_raster_position(i: int, width: nat, height: nat)
    requires
        width > 0,
        0 <= i < width * height,
    ensures
        0 <= i / (width as int) < height,
        0 <= i % (width as int) < width,
        i == (i / (width as int)) * width + i % (width as int),
        (i / (width as int) + 1) * width <= width * height,
{
    let w = width as int;
    let y = i / w;
    lemma_fundamental_div_mod(i, w);
    lemma_mod_bound(i, w);
    assert(y < height) by (nonlinear_arith)
        requires
            i == w * y + i % w,
            0 <= i % w,
            i < w * height,
            w > 0,
    ;
    assert(0 <= y) by (nonlinear_arith)
        requires
            i == w * y + i % w,
            i % w < w,
            0 <= i,
            w > 0,
    ;
    assert((y + 1) * w <= w * height) by (nonlinear_arith)
        requires
            y + 1 <= height,
            w > 0,
    ;
    assert(i == y * w + i % w) by (nonlinear_arith)
        requires
            i == w * y + i % w,
    ;
}

/// Computes the raster of the Mandelbrot set: `width * height` bytes, row
/// after row, each the escape time of its pixel's point reduced modulo 255,
/// or 0 where the orbit stays bounded for `max_iter` steps. A raster without
/// pixels is refused. The product of the dimensions must fit in `usize`.
pub fn calculate_mandelbrot(width: usize, height: usize, max_iter: u32) -> (r: Result<
    Vec<u8>,
    RasterError,
>)
    requires
        width * height <= usize::MAX,
    ensures
        r is Err <==> width == 0 || height == 0,
        r matches Err(e) ==> e == RasterError::InvalidDimension,
        r matches Ok(buffer) ==> {
            &&& buffer@ == raster_pixels(width as nat, height as nat, max_iter as nat)
            &&& buffer@.len() == width * height
            &&& forall|x: nat, y: nat|
                x < width && y < height ==> buffer@[(y * width + x) as int] == #[trigger] pixel_at(
                    x,
                    y,
                    width as nat,
                    height as nat,
                    max_iter as nat,
                )
            &&& forall|i: int| 0 <= i < buffer@.len() ==> buffer@[i] <= 254
            &&& max_iter == 0 ==> forall|i: int| 0 <= i < buffer@.len() ==> buffer@[i] == 0
        },
{
    if width == 0 || height == 0 {
        return Err(RasterError::InvalidDimension);
    }
    let mut buffer: Vec<u8> = vec![0u8; width * height];
    fill_rows(&mut buffer, width, height, max_iter);
    proof {
        let w = width as nat;
        let h = height as nat;
        let m = max_iter as nat;
        assert forall|i: int| 0 <= i < buffer@.len() implies buffer@[i] == raster_pixels(
            w,
            h,
            m,
        )[i] by {
            lemma_raster_position(i, w, h);
            let y = (i / (w as int)) as nat;
            let x = i % (w as int);
            let row = row_pixels(w, y, w, h, m);
            let start = (y * w) as int;
            let end = ((y + 1) * w) as int;
            assert(end == start + w) by (nonlinear_arith)
                requires
                    start == y * w,
                    end == (y + 1) * w,
            ;
            assert(start + x == i);
            assert(end <= buffer@.len());
            assert(buffer@.subrange(start, end) == row);
            assert(buffer@[i] == buffer@.subrange(start, end)[x]);
        }
        assert(buffer@ =~= raster_pixels(w, h, m));
        assert forall|x: nat, y: nat| x < w && y < h implies buffer@[(y * w + x) as int]
            == #[trigger] pixel_at(x, y, w, h, m) by {
            lemma_raster_is_row_major(x, y, w, h, m);
        }
        assert forall|i: int| 0 <= i < buffer@.len() implies buffer@[i] <= 254 && (max_iter == 0
            ==> buffer@[i] == 0) by {
            let y = (i / (w as int)) as nat;
            let x = (i % (w as int)) as nat;
            lemma_pixel_in_range(x, y, w, h, m);
            if max_iter == 0 {
                lemma_zero_cap_pixel(x, y, w, h);
            }
        }
    }
    Ok(buffer)
}

} // verus!
