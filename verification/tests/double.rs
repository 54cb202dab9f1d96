use earthnet_node::double::{Double, Single};

fn double(x: f64) -> Double {
    Double { bits: x.to_bits() }
}

const NUMBERS: [f64; 16] = [
    f64::NEG_INFINITY,
    f64::MIN,
    -100.5,
    -1.0,
    -1e-310,
    -0.0,
    0.0,
    5e-324,
    2.2250738585072014e-308,
    0.02,
    1.0,
    99.99999999999999,
    100.0,
    f64::MAX,
    f64::INFINITY,
    f64::NAN,
];

#[test]
fn comparisons_are_those_of_floating_point() {
    for a in NUMBERS {
        for b in NUMBERS {
            assert_eq!(double(a).le(double(b)), a <= b, "{a} <= {b}");
            assert_eq!(double(a).lt(double(b)), a < b, "{a} < {b}");
        }
        assert_eq!(double(a).is_nan(), a.is_nan());
        assert_eq!(double(a).is_finite(), a.is_finite());
        assert!(!double(a).le(double(-f64::NAN)));
    }
}

#[test]
fn bounds_are_those_of_floating_point() {
    for a in NUMBERS {
        for b in NUMBERS {
            if !b.is_nan() {
                assert_eq!(f64::from_bits(double(a).at_least(double(b)).bits), a.max(b));
                assert_eq!(f64::from_bits(double(a).at_most(double(b)).bits), a.min(b));
            }
        }
        let clamped = f64::from_bits(double(a).clamp(double(0.0), double(10.0)).bits);
        assert!(clamped == a.clamp(0.0, 10.0) || (a.is_nan() && clamped.is_nan()));
    }
}

#[test]
fn singles_that_are_not_positive() {
    for x in [0.0f32, -0.0, -1e-45, -7.0, f32::NEG_INFINITY] {
        assert!(Single { bits: x.to_bits() }.not_positive(), "{x}");
    }
    for x in [1e-45f32, 0.01, f32::INFINITY, f32::NAN, -f32::NAN] {
        assert!(!Single { bits: x.to_bits() }.not_positive(), "{x}");
    }
}
