//! The raster engine against the same algorithm on the machine's binary64.

use mandelbrot::pixel::encode_pixel;
use mandelbrot::raster::{calculate_mandelbrot, fill_row, pixel, RasterError};

fn machine_count(x: usize, y: usize, width: usize, height: usize, max_iter: u32) -> u32 {
    let x0 = (x as f64 / width as f64) * 3.5 - 2.5;
    let y0 = (y as f64 / height as f64) * 2.0 - 1.0;
    let mut xi = 0.0;
    let mut yi = 0.0;
    let mut iter = 0;
    while iter < max_iter && xi * xi + yi * yi <= 4.0 {
        let tmp = xi * xi - yi * yi + x0;
        yi = 2.0 * xi * yi + y0;
        xi = tmp;
        iter += 1;
    }
    iter
}

fn machine_raster(width: usize, height: usize, max_iter: u32) -> Vec<u8> {
    let mut result = vec![0u8; width * height];
    for y in 0..height {
        for x in 0..width {
            let iter = machine_count(x, y, width, height, max_iter);
            result[y * width + x] = if iter == max_iter { 0 } else { (iter % 255) as u8 };
        }
    }
    result
}

#[test]
fn single_pixel_with_one_iteration_is_zero() {
    assert_eq!(calculate_mandelbrot(1, 1, 1), Ok(vec![0u8]));
}

#[test]
fn single_pixel_with_two_iterations_escapes_after_one() {
    assert_eq!(calculate_mandelbrot(1, 1, 2), Ok(vec![1u8]));
}

#[test]
fn two_by_two_raster_is_pinned() {
    assert_eq!(calculate_mandelbrot(2, 2, 10), Ok(vec![1u8, 3, 1, 0]));
}

#[test]
fn eight_by_six_raster_is_pinned() {
    let expected: Vec<u8> = vec![
        1, 1, 2, 3, 3, 5, 4, 2, 1, 1, 3, 3, 5, 14, 16, 3, 1, 1, 4, 11, 10, 0, 0, 4, 1, 1, 0, 0, 0,
        0, 0, 4, 1, 1, 4, 11, 10, 0, 0, 4, 1, 1, 3, 3, 5, 14, 16, 3,
    ];
    assert_eq!(calculate_mandelbrot(8, 6, 50), Ok(expected));
}

#[test]
fn stretched_raster_is_pinned() {
    let expected: Vec<u8> = vec![1, 1, 3, 4, 3, 1, 3, 9, 0, 0, 1, 3, 9, 0, 0];
    assert_eq!(calculate_mandelbrot(5, 3, 300), Ok(expected));
}

#[test]
fn rasters_match_the_machine() {
    let cases: [(usize, usize, u32); 9] = [
        (1, 1, 0),
        (1, 1, 1),
        (3, 1, 7),
        (1, 5, 9),
        (7, 3, 40),
        (16, 16, 64),
        (37, 23, 120),
        (64, 48, 64),
        (50, 40, 300),
    ];
    for (width, height, max_iter) in cases.iter() {
        let got = calculate_mandelbrot(*width, *height, *max_iter);
        assert_eq!(got, Ok(machine_raster(*width, *height, *max_iter)));
    }
}

#[test]
fn raster_has_one_byte_per_pixel() {
    for (width, height) in [(1usize, 1usize), (1, 9), (9, 1), (13, 7), (32, 20)].iter() {
        let buffer = calculate_mandelbrot(*width, *height, 5).unwrap();
        assert_eq!(buffer.len(), width * height);
    }
}

#[test]
fn every_byte_is_below_255() {
    let buffer = calculate_mandelbrot(40, 30, 600).unwrap();
    assert!(buffer.iter().all(|b| *b <= 254));
}

#[test]
fn zero_cap_gives_a_zero_raster() {
    assert_eq!(calculate_mandelbrot(6, 4, 0), Ok(vec![0u8; 24]));
}

#[test]
fn zero_width_is_refused() {
    assert_eq!(calculate_mandelbrot(0, 5, 10), Err(RasterError::InvalidDimension));
}

#[test]
fn zero_height_is_refused() {
    assert_eq!(calculate_mandelbrot(5, 0, 10), Err(RasterError::InvalidDimension));
}

#[test]
fn zero_width_and_height_are_refused() {
    assert_eq!(calculate_mandelbrot(0, 0, 0), Err(RasterError::InvalidDimension));
}

#[test]
fn repeated_calls_give_the_same_bytes() {
    let first = calculate_mandelbrot(33, 21, 90).unwrap();
    let second = calculate_mandelbrot(33, 21, 90).unwrap();
    assert_eq!(first, second);
}

#[test]
fn worker_count_does_not_change_the_bytes() {
    let expected = machine_raster(41, 29, 80);
    for workers in [1usize, 2, 3, 8].iter() {
        let pool = rayon::ThreadPoolBuilder::new().num_threads(*workers).build().unwrap();
        let got = pool.install(|| calculate_mandelbrot(41, 29, 80));
        assert_eq!(got, Ok(expected.clone()), "{} workers", workers);
    }
}

#[test]
fn rows_computed_alone_are_the_rows_of_the_raster() {
    let width = 19;
    let height = 11;
    let whole = calculate_mandelbrot(width, height, 70).unwrap();
    for y in 0..height {
        let mut row = vec![0u8; width];
        fill_row(&mut row, y, width, height, 70);
        assert_eq!(&row[..], &whole[y * width..(y + 1) * width]);
    }
}

#[test]
fn chunks_of_several_rows_are_parts_of_the_raster() {
    let width = 12;
    let height = 10;
    let whole = calculate_mandelbrot(width, height, 60).unwrap();
    for rows in [1usize, 2, 3, 5, 10].iter() {
        let mut joined: Vec<u8> = Vec::new();
        let mut first = 0;
        while first < height {
            let count = (*rows).min(height - first);
            let mut chunk = vec![0u8; count * width];
            for (offset, row) in chunk.chunks_mut(width).enumerate() {
                fill_row(row, first + offset, width, height, 60);
            }
            joined.extend_from_slice(&chunk);
            first += count;
        }
        assert_eq!(joined, whole, "{} rows in a chunk", rows);
    }
}

#[test]
fn a_short_row_gets_the_first_bytes_of_its_row() {
    let mut full = vec![0u8; 9];
    fill_row(&mut full, 2, 9, 5, 30);
    let mut short = vec![0u8; 4];
    fill_row(&mut short, 2, 9, 5, 30);
    assert_eq!(&short[..], &full[..4]);
    let mut none: Vec<u8> = Vec::new();
    fill_row(&mut none, 2, 9, 5, 30);
    assert!(none.is_empty());
}

#[test]
fn pixels_match_the_machine() {
    for (x, y, width, height, max_iter) in [
        (0usize, 0usize, 7usize, 3usize, 40u32),
        (5, 0, 7, 3, 40),
        (3, 1, 7, 3, 40),
        (3, 2, 7, 3, 40),
        (73, 14, 100, 80, 1000),
        (61, 16, 100, 80, 1000),
    ]
    .iter()
    {
        let iter = machine_count(*x, *y, *width, *height, *max_iter);
        let expected = if iter == *max_iter { 0 } else { (iter % 255) as u8 };
        assert_eq!(pixel(*x, *y, *width, *height, *max_iter), expected);
    }
    assert_eq!(pixel(5, 0, 7, 3, 40), 0);
    assert_eq!(pixel(3, 1, 7, 3, 40), 11);
    assert_eq!(pixel(73, 14, 100, 80, 1000), 225);
}

#[test]
fn counts_that_differ_by_255_share_a_byte() {
    assert_eq!(encode_pixel(1, 300), 1);
    assert_eq!(encode_pixel(256, 300), 1);
    assert_eq!(encode_pixel(24, 1000), encode_pixel(279, 1000));
    assert_eq!(pixel(67, 5, 100, 80, 1000), 24);
    assert_eq!(pixel(35, 38, 100, 80, 1000), 24);
}

#[test]
fn an_escape_after_255_steps_is_encoded_as_zero() {
    assert_eq!(machine_count(485, 113, 800, 600, 600), 255);
    assert_eq!(pixel(485, 113, 800, 600, 600), 0);
    assert_eq!(encode_pixel(255, 600), 0);
    assert_eq!(encode_pixel(510, 600), 0);
}

#[test]
fn the_cap_itself_is_encoded_as_zero() {
    assert_eq!(encode_pixel(0, 0), 0);
    assert_eq!(encode_pixel(7, 7), 0);
    assert_eq!(encode_pixel(254, 254), 0);
    assert_eq!(encode_pixel(254, 255), 254);
    assert_eq!(encode_pixel(3, 7), 3);
    assert_eq!(encode_pixel(0, 7), 0);
}
