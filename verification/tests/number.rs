use s2e::number::Real;

const SAMPLES: [f64; 33] = [
    0.0, -0.0, 1.0, -1.0, 0.1, 0.2, 0.3, 1e-6, -1e-6, 51.5, -0.9, 180.0, -179.6, 1e308, -1e308,
    1.7976931348623157e308, 5e-324, -5e-324, 2.2250738585072014e-308, 2.225073858507201e-308,
    9007199254740991.0, 9007199254740992.0, 9007199254740993.0, 4503599627370497.5, 1e16, 1e22,
    f64::INFINITY, f64::NEG_INFINITY, f64::NAN, 0.5, 1.0000000000000002, 0.9999999999999999, -1e16,
];

fn num(x: f64) -> Real {
    Real { bits: x.to_bits() }
}

fn same(a: Real, b: f64) -> bool {
    a.bits == b.to_bits() || (f64::from_bits(a.bits).is_nan() && b.is_nan())
}

#[test]
fn sums_are_those_of_the_machine() {
    for x in SAMPLES {
        for y in SAMPLES {
            assert!(same(num(x).plus(num(y)), x + y), "{x} + {y}");
            assert!(same(num(x).minus(num(y)), x - y), "{x} - {y}");
        }
    }
    let mut seed: u64 = 0x9e37_79b9_7f4a_7c15;
    for _ in 0..200_000 {
        let mut next = || {
            seed ^= seed << 13;
            seed ^= seed >> 7;
            seed ^= seed << 17;
            seed
        };
        let x = f64::from_bits(next());
        let y = f64::from_bits((x.to_bits() & 0xfff0_0000_0000_0000) ^ (next() >> 6));
        assert!(same(num(x).plus(num(y)), x + y), "{x} + {y}");
    }
}

#[test]
fn comparisons_are_those_of_the_machine() {
    for x in SAMPLES {
        assert_eq!(num(x).is_number(), !x.is_nan());
        assert_eq!(num(x).is_bounded(), x.is_finite());
        for y in SAMPLES {
            assert_eq!(num(x).lt(num(y)), x < y);
            assert_eq!(num(x).le(num(y)), x <= y);
            assert_eq!(
                num(x).comes_before(num(y)),
                x.total_cmp(&y) == std::cmp::Ordering::Less
            );
            let (low, high) = (num(x).min(num(y)), num(x).max(num(y)));
            assert!(f64::from_bits(low.bits) == x.min(y) || x.min(y).is_nan());
            assert!(f64::from_bits(high.bits) == x.max(y) || x.max(y).is_nan());
        }
    }
}

#[test]
fn a_number_is_held_between_bounds() {
    assert_eq!(num(3.0).clamp(num(0.0), num(1.0)), num(1.0));
    assert_eq!(num(-3.0).clamp(num(0.0), num(1.0)), num(0.0));
    assert_eq!(num(0.5).clamp(num(0.0), num(1.0)), num(0.5));
}

#[test]
fn whole_counts_are_those_of_the_machine() {
    for n in [0, 1, 10, 1000, u64::MAX, 9007199254740993, 1 << 60, (1 << 60) + 129] {
        assert!(same(Real::whole(n), n as f64));
    }
}
