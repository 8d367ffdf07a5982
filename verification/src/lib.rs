//! Escape-time rendering of the Mandelbrot set.
//!
//! A raster of `width` by `height` pixels is mapped onto the region
//! `[-2.5, 1.0) x [-1.0, 1.0)` of the complex plane; each pixel holds the
//! escape time of its point, reduced to a byte. All arithmetic on
//! coordinates is IEEE 754 binary64 arithmetic, computed here on integers
//! and proved to round as the standard prescribes, so that every byte of a
//! raster is a stated function of the dimensions and the iteration cap.
//!
//! - [`ieee`]: binary64 values and their arithmetic, as mathematics.
//! - [`binary64`]: the numbers themselves and their operations.
//! - [`rounding`], [`arith`]: the proofs that the operations rest on.
//! - [`escape`]: the coordinate mapper and the escape-time iterator.
//! - [`pixel`]: the byte code of an escape time.
//! - [`raster`]: the engine, which fills the rows of a raster in parallel.
//! - [`laws`]: what holds of every orbit, pixel and raster.

pub mod arith;
pub mod binary64;
pub mod escape;
pub mod ieee;
pub mod laws;
pub mod pixel;
pub mod raster;
pub mod rounding;
