//! The integer arithmetic against that of the machine.

use silero_vad::numbers::{Binary32, Binary64};

fn next(seed: &mut u64) -> u64 {
    *seed ^= *seed << 13;
    *seed ^= *seed >> 7;
    *seed ^= *seed << 17;
    *seed
}

fn b32(x: f32) -> Binary32 {
    Binary32::from_bits(x.to_bits())
}

fn b64(x: f64) -> Binary64 {
    Binary64::from_bits(x.to_bits())
}

fn same32(got: Binary32, want: f32) -> bool {
    got.to_bits() == want.to_bits() || (got.is_nan() && want.is_nan())
}

fn same64(got: Binary64, want: f64) -> bool {
    got.to_bits() == want.to_bits() || (f64::from_bits(got.to_bits()).is_nan() && want.is_nan())
}

fn samples32() -> Vec<f32> {
    let mut v: Vec<f32> = vec![
        0.0, -0.0, 1.0, -1.0, 0.5, 0.15, 0.35, 1000.0, 16000.0, 44100.0, 1e-40, -1e-45, 1e-45,
        1.1754944e-38, 1.1754942e-38, f32::MAX, f32::MIN, f32::INFINITY, f32::NEG_INFINITY,
        f32::NAN, 16777216.0, 16777215.0, 8388608.5, 4294967295.0, 0.99999994, 1.0000001,
    ];
    let mut seed: u64 = 0x9e37_79b9_7f4a_7c15;
    for _ in 0..150 {
        v.push(f32::from_bits(next(&mut seed) as u32));
    }
    for _ in 0..100 {
        // Numbers of about the size of samples.
        let x = (next(&mut seed) >> 40) as f32 / 8388608.0 - 1.0;
        v.push(x);
    }
    v
}

fn samples64() -> Vec<f64> {
    let mut v: Vec<f64> = vec![
        0.0, -0.0, 1.0, -1.0, 2.0, 3.0, 1e-310, 5e-324, f64::MAX, f64::MIN, f64::INFINITY,
        f64::NEG_INFINITY, f64::NAN, 9007199254740992.0, 2.2250738585072014e-308, 0.1, 1e300,
    ];
    let mut seed: u64 = 0x1234_5678_9abc_def1;
    for _ in 0..150 {
        v.push(f64::from_bits(next(&mut seed)));
    }
    for _ in 0..100 {
        v.push((next(&mut seed) >> 11) as f64 / 9007199254740992.0);
    }
    v
}

#[test]
fn single_addition_matches_hardware() {
    for &x in &samples32() {
        for &y in &samples32() {
            assert!(same32(b32(x).add(b32(y)), x + y), "{:e} + {:e}", x, y);
            assert!(same32(b32(x).subtract(b32(y)), x - y), "{:e} - {:e}", x, y);
        }
    }
}

#[test]
fn single_multiplication_matches_hardware() {
    for &x in &samples32() {
        for &y in &samples32() {
            assert!(same32(b32(x).multiply(b32(y)), x * y), "{:e} * {:e}", x, y);
        }
    }
}

#[test]
fn single_division_matches_hardware() {
    for &x in &samples32() {
        for &y in &samples32() {
            assert!(same32(b32(x).divide(b32(y)), x / y), "{:e} / {:e}", x, y);
        }
    }
}

#[test]
fn single_comparisons_match_hardware() {
    for &x in &samples32() {
        for &y in &samples32() {
            assert_eq!(b32(x).ge(b32(y)), x >= y);
            assert_eq!(b32(x).gt(b32(y)), x > y);
            let (hi, lo) = (x.max(y), x.min(y));
            let got_hi = f32::from_bits(b32(x).max(b32(y)).to_bits());
            let got_lo = f32::from_bits(b32(x).min(b32(y)).to_bits());
            assert!(got_hi == hi || (got_hi.is_nan() && hi.is_nan()));
            assert!(got_lo == lo || (got_lo.is_nan() && lo.is_nan()));
        }
        assert_eq!(b32(x).is_nan(), x.is_nan());
        assert_eq!(b32(x).is_finite(), x.is_finite());
        assert_eq!(b32(x).abs().to_bits(), x.abs().to_bits());
        assert_eq!(b32(x).negate().to_bits(), (-x).to_bits());
    }
}

#[test]
fn integers_match_hardware() {
    let mut seed: u64 = 77;
    for i in 0..2000u64 {
        let n = if i < 100 { i } else { next(&mut seed) >> (i % 64) };
        assert_eq!(Binary32::from_integer(n).to_bits(), (n as f32).to_bits());
        assert_eq!(Binary64::from_integer(n).to_bits(), (n as f64).to_bits());
    }
    for n in [u64::MAX, u64::MAX - 1, 1 << 63, (1 << 24) + 1, (1 << 53) + 1, (1 << 53) + 3] {
        assert_eq!(Binary32::from_integer(n).to_bits(), (n as f32).to_bits());
        assert_eq!(Binary64::from_integer(n).to_bits(), (n as f64).to_bits());
    }
    for &x in &samples32() {
        assert_eq!(b32(x).truncate(u32::MAX as u64), (x as u32) as u64);
        assert_eq!(b32(x).truncate(u64::MAX), x as u64);
    }
}

#[test]
fn ratios_are_the_literals() {
    assert_eq!(Binary32::from_ratio(1, 2).to_bits(), 0.5f32.to_bits());
    assert_eq!(Binary32::from_ratio(15, 100).to_bits(), 0.15f32.to_bits());
    assert_eq!(Binary32::from_integer(1000).to_bits(), 1000.0f32.to_bits());
}

#[test]
fn double_arithmetic_matches_hardware() {
    for &x in &samples64() {
        for &y in &samples64() {
            assert!(same64(b64(x).add(b64(y)), x + y), "{:e} + {:e}", x, y);
            assert!(same64(b64(x).multiply(b64(y)), x * y), "{:e} * {:e}", x, y);
            assert!(same64(b64(x).divide(b64(y)), x / y), "{:e} / {:e}", x, y);
        }
    }
}

#[test]
fn double_roots_match_hardware() {
    for &x in &samples64() {
        assert!(same64(b64(x).sqrt(), x.sqrt()), "sqrt {:e}", x);
        assert!(same64(b64(x.abs()).sqrt(), x.abs().sqrt()), "sqrt {:e}", x);
    }
    for i in 0..300u64 {
        let x = (i * i) as f64;
        assert_eq!(b64(x).sqrt().to_bits(), (i as f64).to_bits());
    }
}

#[test]
fn conversions_match_hardware() {
    for &x in &samples32() {
        assert!(same64(b32(x).widen(), x as f64), "{:e}", x);
    }
    for &x in &samples64() {
        assert!(same32(b64(x).narrow(), x as f32), "{:e}", x);
    }
    let mut seed: u64 = 5;
    for _ in 0..500 {
        let x = f32::from_bits(next(&mut seed) as u32) as f64 * 1.00000003;
        assert!(same32(b64(x).narrow(), x as f32), "{:e}", x);
    }
}

#[test]
fn widening_and_narrowing_gives_back() {
    for &x in &samples32() {
        if !x.is_nan() {
            assert_eq!(b32(x).widen().narrow().to_bits(), x.to_bits());
        }
    }
}
