//! The coordinate mapper and the escape-time iterator against the machine.

use mandelbrot::binary64::Binary64;
use mandelbrot::escape::{escape_time, Point};

fn machine_point(x: usize, y: usize, width: usize, height: usize) -> (f64, f64) {
    ((x as f64 / width as f64) * 3.5 - 2.5, (y as f64 / height as f64) * 2.0 - 1.0)
}

fn machine_escape(x0: f64, y0: f64, max_iter: u32) -> u32 {
    let mut xi = 0.0;
    let mut yi = 0.0;
    let mut iter = 0;
    while iter < max_iter && xi * xi + yi * yi <= 4.0 {
        let tmp = xi * xi - yi * yi + x0;
        yi = 2.0 * xi * yi + y0;
        xi = tmp;
        iter += 1;
    }
    iter
}

fn point(re: f64, im: f64) -> Point {
    Point { re: Binary64::from_bits(re.to_bits()), im: Binary64::from_bits(im.to_bits()) }
}

#[test]
fn corner_pixel_maps_to_the_corner_of_the_view() {
    let c = Point::of_pixel(0, 0, 1, 1);
    assert_eq!(c.re.to_bits(), (-2.5f64).to_bits());
    assert_eq!(c.im.to_bits(), (-1.0f64).to_bits());
}

#[test]
fn mapped_points_are_pinned() {
    let c = Point::of_pixel(3, 1, 7, 3);
    assert_eq!(c.re.to_bits(), 0xBFF0_0000_0000_0000);
    assert_eq!(c.im.to_bits(), 0xBFD5_5555_5555_5556);
    let d = Point::of_pixel(485, 113, 800, 600);
    assert_eq!(d.re.to_bits(), 0xBFD8_3333_3333_3338);
    assert_eq!(d.im.to_bits(), 0xBFE3_F258_BF25_8BF2);
}

#[test]
fn mapping_matches_the_machine() {
    for width in 1usize..40 {
        for x in 0..width {
            let height = 41 - width;
            let y = (x * 7) % height;
            let c = Point::of_pixel(x, y, width, height);
            let (re, im) = machine_point(x, y, width, height);
            assert_eq!(c.re.to_bits(), re.to_bits(), "x {} width {}", x, width);
            assert_eq!(c.im.to_bits(), im.to_bits(), "y {} height {}", y, height);
        }
    }
}

#[test]
fn mapping_of_large_rasters_matches_the_machine() {
    for (x, y, width, height) in [
        (7679usize, 4319usize, 7680usize, 4320usize),
        (1, 1, 7680, 4320),
        (123_456_789, 987_654_321, 1_000_000_007, 998_244_353),
        (1, 2, usize::MAX, usize::MAX - 1),
        (usize::MAX - 1, usize::MAX - 2, usize::MAX, usize::MAX),
    ]
    .iter()
    {
        let c = Point::of_pixel(*x, *y, *width, *height);
        let (re, im) = machine_point(*x, *y, *width, *height);
        assert_eq!(c.re.to_bits(), re.to_bits());
        assert_eq!(c.im.to_bits(), im.to_bits());
    }
}

#[test]
fn mapping_does_not_depend_on_the_aspect_ratio() {
    let wide = Point::of_pixel(5, 1, 10, 2);
    let tall = Point::of_pixel(1, 5, 2, 10);
    assert_eq!(wide.re.to_bits(), (-0.75f64).to_bits());
    assert_eq!(wide.im.to_bits(), 0.0f64.to_bits());
    assert_eq!(tall.re.to_bits(), (-0.75f64).to_bits());
    assert_eq!(tall.im.to_bits(), 0.0f64.to_bits());
}

#[test]
fn one_step_from_the_origin_is_the_point_itself() {
    let c = point(-0.75, -1.0);
    let z = Point::origin().advance(c);
    assert_eq!(z.re.to_bits(), (-0.75f64).to_bits());
    assert_eq!(z.im.to_bits(), (-1.0f64).to_bits());
    let z2 = z.advance(c);
    assert_eq!(z2.re.to_bits(), (-1.1875f64).to_bits());
    assert_eq!(z2.im.to_bits(), 0.5f64.to_bits());
}

#[test]
fn the_disc_of_radius_two_is_closed() {
    assert!(Point::origin().within());
    assert!(point(2.0, 0.0).within());
    assert!(point(0.0, -2.0).within());
    assert!(point(2.0, 1.0e-8).within());
    assert!(!point(2.0, 1.0e-7).within());
    assert!(!point(-2.5, -1.0).within());
    assert!(!point(f64::NAN, 0.0).within());
    assert!(!point(f64::INFINITY, 0.0).within());
}

#[test]
fn escape_times_are_pinned() {
    assert_eq!(escape_time(point(-2.5, -1.0), 0), 0);
    assert_eq!(escape_time(point(-2.5, -1.0), 1), 1);
    assert_eq!(escape_time(point(-2.5, -1.0), 2), 1);
    assert_eq!(escape_time(point(-2.5, -1.0), 1000), 1);
    assert_eq!(escape_time(point(-0.75, -1.0), 10), 3);
    assert_eq!(escape_time(point(-0.75, -1.0), 3), 3);
    assert_eq!(escape_time(point(-0.75, -1.0), 2), 2);
    assert_eq!(escape_time(point(-0.75, 0.0), 10), 10);
    assert_eq!(escape_time(point(0.0, 0.0), 500), 500);
    assert_eq!(escape_time(point(-2.0, 0.0), 500), 500);
}

#[test]
fn escape_times_match_the_machine() {
    let mut state: u64 = 0x2545_F491_4F6C_DD1D;
    for _ in 0..3000 {
        state ^= state << 13;
        state ^= state >> 7;
        state ^= state << 17;
        let re = ((state >> 11) as f64 / (1u64 << 53) as f64) * 3.5 - 2.5;
        state ^= state << 13;
        state ^= state >> 7;
        state ^= state << 17;
        let im = ((state >> 11) as f64 / (1u64 << 53) as f64) * 2.0 - 1.0;
        assert_eq!(escape_time(point(re, im), 200), machine_escape(re, im, 200), "{} {}", re, im);
    }
}

#[test]
fn orbits_through_unusual_values_match_the_machine() {
    for (re, im) in [
        (f64::NAN, 0.0),
        (0.0, f64::NAN),
        (f64::INFINITY, 0.0),
        (f64::NEG_INFINITY, f64::INFINITY),
        (1.0e300, 1.0e300),
        (5.0e-324, -5.0e-324),
        (-0.0, 0.0),
        (1.0e-200, 1.0e-200),
    ]
    .iter()
    {
        assert_eq!(escape_time(point(*re, *im), 50), machine_escape(*re, *im, 50));
    }
}
