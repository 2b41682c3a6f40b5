use swarf::double::Double;
use swarf::single::Single;

fn d(x: f64) -> Double {
    Double { bits: x.to_bits() }
}

fn f(x: Double) -> f64 {
    f64::from_bits(x.bits)
}

/// The same number: bit for bit, or both not a number.
fn agree(ours: Double, theirs: f64) -> bool {
    ours.bits == theirs.to_bits() || (f(ours).is_nan() && theirs.is_nan())
}

fn samples() -> Vec<f64> {
    let mut all = vec![
        0.0,
        -0.0,
        1.0,
        -1.0,
        0.5,
        3.0,
        10.0,
        25.4,
        0.1,
        0.2,
        1e-12,
        1e-9,
        f64::MIN_POSITIVE,
        f64::MAX,
        -f64::MAX,
        5e-324,
        -5e-324,
        2.2250738585072009e-308,
        f64::INFINITY,
        f64::NEG_INFINITY,
        f64::NAN,
        9007199254740991.0,
        9007199254740993.0,
        1.0 + f64::EPSILON,
        1.0 - f64::EPSILON / 2.0,
    ];
    // a fixed walk over bit patterns, wide and narrow exponents in turn
    let mut state: u64 = 0x9e37_79b9_7f4a_7c15;
    for i in 0..400u64 {
        state = state
            .wrapping_mul(6364136223846793005)
            .wrapping_add(1442695040888963407);
        let mixed = state ^ (state >> 29);
        if i % 2 == 0 {
            all.push(f64::from_bits(mixed));
        } else {
            let exponent = 1023 - 40 + (mixed >> 52) % 80;
            let sign = mixed & (1 << 63);
            all.push(f64::from_bits(
                sign | (exponent << 52) | (mixed & 0xf_ffff_ffff_ffff),
            ));
        }
    }
    all
}

#[test]
fn sums_and_differences_are_those_of_the_hardware() {
    let all = samples();
    for &a in &all {
        for &b in &all {
            assert!(agree(d(a) + d(b), a + b), "{a:e} + {b:e}");
            assert!(agree(d(a) - d(b), a - b), "{a:e} - {b:e}");
        }
    }
}

#[test]
fn products_and_quotients_are_those_of_the_hardware() {
    let all = samples();
    for &a in &all {
        for &b in &all {
            assert!(agree(d(a) * d(b), a * b), "{a:e} * {b:e}");
            assert!(agree(d(a) / d(b), a / b), "{a:e} / {b:e}");
        }
    }
}

#[test]
fn roots_are_those_of_the_hardware() {
    for &a in &samples() {
        assert!(agree(d(a).sqrt(), a.sqrt()), "{a:e}");
        assert!(agree(d(a).abs().sqrt(), a.abs().sqrt()), "{a:e}");
        assert!(agree(d(a).sqrt(), libm::sqrt(a)), "{a:e}");
    }
}

#[test]
fn order_is_that_of_the_hardware() {
    let all = samples();
    for &a in &all {
        for &b in &all {
            assert_eq!(d(a) == d(b), a == b);
            assert_eq!(d(a).is_below(d(b)), a < b);
            assert_eq!(d(a).is_at_most(d(b)), a <= b);
            assert!(agree(d(a).min(d(b)), libm::fmin(a, b)) || a == b);
        }
    }
}

#[test]
fn signs_and_magnitudes_are_those_of_the_hardware() {
    for &a in &samples() {
        assert!(agree(d(a).negated(), -a));
        assert!(agree(d(a).abs(), a.abs()));
        assert_eq!(d(a).is_nan(), a.is_nan());
    }
}

#[test]
fn integers_convert_like_the_hardware() {
    for n in [0u64, 1, 2, 254, 10, 1 << 53, (1 << 53) + 1, u64::MAX, u64::MAX - 1024] {
        assert!(agree(Double::from_integer(n), n as f64));
    }
    for &a in &samples() {
        assert_eq!(d(a).ceil_to_count(), libm::ceil(a) as usize, "{a:e}");
    }
    for a in [0.0, 0.25, 1.0, 1.5, 2.0000001, 4503599627370495.5, 1e19, 2e19, -3.5] {
        assert_eq!(d(a).ceil_to_count(), libm::ceil(a) as usize, "{a:e}");
    }
}

#[test]
fn singles_widen_like_those_of_the_machine() {
    let mut patterns: Vec<u32> = vec![
        0,
        0x8000_0000,
        1,
        0x8000_0001,
        0x007f_ffff,
        0x0080_0000,
        0x7f7f_ffff,
        0x7f80_0000,
        0xff80_0000,
        0x7fc0_0000,
        0x7f80_0001,
        (25.4f32).to_bits(),
        (-0.1f32).to_bits(),
    ];
    let mut state: u32 = 0x9e37_79b9;
    for _ in 0..1000 {
        state = state.wrapping_mul(1_664_525).wrapping_add(1_013_904_223);
        patterns.push(state ^ (state >> 13));
    }
    for bits in patterns {
        let ours = Single { bits }.to_double();
        assert!(agree(ours, f64::from(f32::from_bits(bits))), "{bits:#x}");
    }
}
