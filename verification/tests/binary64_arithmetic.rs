//! The integer arithmetic of `Binary64` against the machine's own binary64.

use mandelbrot::binary64::Binary64;

fn step(state: &mut u64) -> u64 {
    let mut x = *state;
    x ^= x << 13;
    x ^= x >> 7;
    x ^= x << 17;
    *state = x;
    x
}

/// Random bits with the exponent field drawn from a narrow band, so that
/// sums cancel and align by small amounts.
fn near(state: &mut u64, centre: u64) -> u64 {
    let raw = step(state);
    let exponent = (centre + (step(state) % 120)).saturating_sub(60).min(2047);
    (raw & 0x800F_FFFF_FFFF_FFFF) | (exponent << 52)
}

fn notable() -> Vec<u64> {
    let mut all: Vec<u64> = Vec::new();
    let magnitudes: [u64; 30] = [
        0x0000_0000_0000_0000,
        0x0000_0000_0000_0001,
        0x0000_0000_0000_0002,
        0x0000_0000_0000_0003,
        0x0007_FFFF_FFFF_FFFF,
        0x0008_0000_0000_0000,
        0x000F_FFFF_FFFF_FFFF,
        0x0010_0000_0000_0000,
        0x0010_0000_0000_0001,
        0x001F_FFFF_FFFF_FFFF,
        0x0020_0000_0000_0000,
        0x3CA0_0000_0000_0000,
        0x3CB0_0000_0000_0000,
        0x3FD5_5555_5555_5555,
        0x3FE0_0000_0000_0000,
        0x3FEF_FFFF_FFFF_FFFF,
        0x3FF0_0000_0000_0000,
        0x3FF0_0000_0000_0001,
        0x3FF8_0000_0000_0000,
        0x4000_0000_0000_0000,
        0x4004_0000_0000_0000,
        0x400C_0000_0000_0000,
        0x4010_0000_0000_0000,
        0x4340_0000_0000_0000,
        0x4340_0000_0000_0001,
        0x7FE0_0000_0000_0000,
        0x7FEF_FFFF_FFFF_FFFE,
        0x7FEF_FFFF_FFFF_FFFF,
        0x7FF0_0000_0000_0000,
        0x7FF8_0000_0000_0001,
    ];
    for m in magnitudes.iter() {
        all.push(*m);
        all.push(*m | 0x8000_0000_0000_0000);
    }
    all
}

fn agrees(got: Binary64, expected: f64) -> bool {
    if expected.is_nan() {
        got.is_nan()
    } else {
        got.to_bits() == expected.to_bits()
    }
}

fn check_pair(a: u64, b: u64) {
    let x = Binary64::from_bits(a);
    let y = Binary64::from_bits(b);
    let fx = f64::from_bits(a);
    let fy = f64::from_bits(b);
    assert!(agrees(x.add(y), fx + fy), "add {:#018x} {:#018x}", a, b);
    assert!(agrees(x.sub(y), fx - fy), "sub {:#018x} {:#018x}", a, b);
    assert!(agrees(x.mul(y), fx * fy), "mul {:#018x} {:#018x}", a, b);
    assert!(agrees(x.div(y), fx / fy), "div {:#018x} {:#018x}", a, b);
    assert_eq!(x.le(y), fx <= fy, "le {:#018x} {:#018x}", a, b);
}

#[test]
fn notable_pairs_match_the_machine() {
    let values = notable();
    for a in values.iter() {
        for b in values.iter() {
            check_pair(*a, *b);
        }
    }
}

#[test]
fn random_encodings_match_the_machine() {
    let mut state: u64 = 0x9E37_79B9_7F4A_7C15;
    for _ in 0..60_000 {
        let a = step(&mut state);
        let b = step(&mut state);
        check_pair(a, b);
    }
}

#[test]
fn neighbouring_exponents_match_the_machine() {
    let mut state: u64 = 0x0123_4567_89AB_CDEF;
    let centres: [u64; 7] = [0, 30, 60, 1023, 1500, 2000, 2046];
    for centre in centres.iter() {
        for _ in 0..20_000 {
            let a = near(&mut state, *centre);
            let b = near(&mut state, *centre);
            check_pair(a, b);
        }
    }
}

#[test]
fn products_that_underflow_match_the_machine() {
    let mut state: u64 = 0x5555_AAAA_3333_CCCC;
    for _ in 0..40_000 {
        let a = near(&mut state, 520);
        let b = near(&mut state, 500);
        check_pair(a, b);
    }
}

#[test]
fn quotients_that_underflow_match_the_machine() {
    let mut state: u64 = 0x1357_9BDF_0246_8ACE;
    for _ in 0..40_000 {
        let a = near(&mut state, 40);
        let b = near(&mut state, 1060);
        check_pair(a, b);
    }
}

#[test]
fn integers_convert_as_the_machine_does() {
    let fixed: [u64; 16] = [
        0,
        1,
        2,
        3,
        255,
        0x001F_FFFF_FFFF_FFFF,
        0x0020_0000_0000_0000,
        0x0020_0000_0000_0001,
        0x0020_0000_0000_0002,
        0x0020_0000_0000_0003,
        0x0040_0000_0000_0005,
        0x7FFF_FFFF_FFFF_FFFF,
        0x8000_0000_0000_0000,
        0x8000_0000_0000_0400,
        0xFFFF_FFFF_FFFF_FBFF,
        0xFFFF_FFFF_FFFF_FFFF,
    ];
    for n in fixed.iter() {
        assert_eq!(Binary64::from_u64(*n).to_bits(), (*n as f64).to_bits(), "{}", n);
    }
    let mut state: u64 = 0xDEAD_BEEF_CAFE_F00D;
    for _ in 0..50_000 {
        let n = step(&mut state) >> (step(&mut state) % 64);
        assert_eq!(Binary64::from_u64(n).to_bits(), (n as f64).to_bits(), "{}", n);
    }
}

#[test]
fn negation_flips_the_sign_bit() {
    for bits in notable().iter() {
        assert_eq!(Binary64::from_bits(*bits).neg().to_bits(), *bits ^ 0x8000_0000_0000_0000);
    }
}

#[test]
fn classification_matches_the_machine() {
    for bits in notable().iter() {
        let x = Binary64::from_bits(*bits);
        let f = f64::from_bits(*bits);
        assert_eq!(x.is_nan(), f.is_nan());
        assert_eq!(x.is_infinite(), f.is_infinite());
        assert_eq!(x.is_sign_negative(), f.is_sign_negative());
    }
    assert_eq!(Binary64::zero(false).to_bits(), 0.0f64.to_bits());
    assert_eq!(Binary64::zero(true).to_bits(), (-0.0f64).to_bits());
    assert_eq!(Binary64::infinity(false).to_bits(), f64::INFINITY.to_bits());
    assert_eq!(Binary64::infinity(true).to_bits(), f64::NEG_INFINITY.to_bits());
    assert!(Binary64::nan().is_nan());
}

#[test]
fn ties_round_to_the_even_significand() {
    // 2^53 + 1 lies halfway between 2^53 and 2^53 + 2.
    assert_eq!(Binary64::from_u64(0x0020_0000_0000_0001).to_bits(), 0x4340_0000_0000_0000);
    // 2^53 + 3 lies halfway between 2^53 + 2 and 2^53 + 4.
    assert_eq!(Binary64::from_u64(0x0020_0000_0000_0003).to_bits(), 0x4340_0000_0000_0002);
    // Just above and just below a tie.
    assert_eq!(Binary64::from_u64(0x0040_0000_0000_0003).to_bits(), 0x4350_0000_0000_0001);
    assert_eq!(Binary64::from_u64(0x0040_0000_0000_0001).to_bits(), 0x4350_0000_0000_0000);
    // 1 + 2^-53 is a tie between 1 and 1 + 2^-52.
    let one = Binary64::from_bits(0x3FF0_0000_0000_0000);
    let tiny = Binary64::from_bits(0x3CA0_0000_0000_0000);
    assert_eq!(one.add(tiny).to_bits(), 0x3FF0_0000_0000_0000);
    let next = Binary64::from_bits(0x3FF0_0000_0000_0001);
    assert_eq!(next.add(tiny).to_bits(), 0x3FF0_0000_0000_0002);
}

#[test]
fn exact_results_are_not_rounded() {
    let two = Binary64::from_bits(0x4000_0000_0000_0000);
    let half = Binary64::from_bits(0x3FE0_0000_0000_0000);
    let quarter = Binary64::from_bits(0x3FD0_0000_0000_0000);
    assert_eq!(two.mul(two).to_bits(), 0x4010_0000_0000_0000);
    assert_eq!(half.add(quarter).to_bits(), 0x3FE8_0000_0000_0000);
    assert_eq!(half.sub(quarter).to_bits(), 0x3FD0_0000_0000_0000);
    assert_eq!(half.div(two).to_bits(), 0x3FD0_0000_0000_0000);
    assert_eq!(Binary64::from_u64(7).div(two).to_bits(), 0x400C_0000_0000_0000);
    assert_eq!(Binary64::from_u64(0x001F_FFFF_FFFF_FFFF).to_bits(), 0x433F_FFFF_FFFF_FFFF);
}

#[test]
fn results_beyond_the_largest_number_are_infinite() {
    let largest = Binary64::from_bits(0x7FEF_FFFF_FFFF_FFFF);
    let two = Binary64::from_bits(0x4000_0000_0000_0000);
    assert_eq!(largest.mul(two).to_bits(), 0x7FF0_0000_0000_0000);
    assert_eq!(largest.add(largest).to_bits(), 0x7FF0_0000_0000_0000);
    assert_eq!(largest.neg().sub(largest).to_bits(), 0xFFF0_0000_0000_0000);
    let half_step = Binary64::from_bits(0x7C90_0000_0000_0000);
    assert_eq!(largest.add(half_step).to_bits(), 0x7FF0_0000_0000_0000);
    let less = Binary64::from_bits(0x7C8F_FFFF_FFFF_FFFF);
    assert_eq!(largest.add(less).to_bits(), 0x7FEF_FFFF_FFFF_FFFF);
}

#[test]
fn zeros_keep_their_signs() {
    let plus = Binary64::zero(false);
    let minus = Binary64::zero(true);
    let one = Binary64::from_bits(0x3FF0_0000_0000_0000);
    assert_eq!(plus.add(minus).to_bits(), 0);
    assert_eq!(minus.add(minus).to_bits(), 0x8000_0000_0000_0000);
    assert_eq!(one.sub(one).to_bits(), 0);
    assert_eq!(minus.mul(one).to_bits(), 0x8000_0000_0000_0000);
    assert_eq!(minus.div(one.neg()).to_bits(), 0);
    assert!(plus.le(minus));
    assert!(minus.le(plus));
    assert!(one.div(plus).is_infinite());
    assert!(plus.div(minus).is_nan());
    assert_eq!(Binary64::nan().to_bits(), 0x7FF8_0000_0000_0000);
}
