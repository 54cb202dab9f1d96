use earthnet_node::double::{Double, Single};
use earthnet_node::magnitude::{estimate_from_pga, OFFICIAL_UNCERT, PROVISIONAL_UNCERT};

fn model(pga: Single, r: Double) -> Double {
    let pga = f32::from_bits(pga.bits) as f64 * 980.665;
    let r = f64::from_bits(r.bits);
    Double { bits: (0.1825 * pga.log10() + 0.6666 * r.log10() + 3.8335).to_bits() }
}

fn estimate(pga: f32, distance_km: f64) -> f32 {
    let m = estimate_from_pga(
        Single { bits: pga.to_bits() },
        Double { bits: distance_km.to_bits() },
        &model,
    );
    f64::from_bits(m.bits) as f32
}

#[test]
fn zero_pga_yields_zero() {
    assert_eq!(estimate(0.0, 30.0), 0.0);
}

#[test]
fn monotonic_in_pga() {
    let weak = estimate(0.01, 30.0);
    let strong = estimate(0.3, 30.0);
    assert!(strong > weak, "weak={weak} strong={strong}");
}

#[test]
fn produces_sane_range() {
    // a moderate near-ish shake should land in a believable magnitude band
    let m = estimate(0.05, 35.0);
    assert!((3.0..=8.0).contains(&m), "m={m}");
}

#[test]
fn clamped_to_ten() {
    assert!(estimate(50.0, 1.0) <= 10.0);
    assert_eq!(estimate(f32::MAX, f64::MAX), 10.0);
}

#[test]
fn non_positive_pga_yields_zero() {
    assert_eq!(estimate(-0.0, 30.0), 0.0);
    assert_eq!(estimate(-1.0, 30.0), 0.0);
    assert_eq!(estimate(f32::NEG_INFINITY, 30.0), 0.0);
    assert!(estimate(f32::NAN, 30.0).is_nan());
    assert!(estimate(-f32::NAN, 30.0).is_nan());
}

#[test]
fn distance_counts_from_one_km() {
    assert_eq!(estimate(0.05, 0.2), estimate(0.05, 1.0));
    assert_eq!(estimate(0.05, -3.0), estimate(0.05, 1.0));
    assert_eq!(estimate(0.05, f64::NAN), estimate(0.05, 1.0));
    assert!(estimate(0.05, 2.0) > estimate(0.05, 1.0));
}

#[test]
fn never_below_zero() {
    assert_eq!(estimate(1e-38, 1.0), 0.0);
}

#[test]
fn uncertainties_are_the_published_ones() {
    assert_eq!(f32::from_bits(PROVISIONAL_UNCERT), 0.5);
    assert_eq!(f32::from_bits(OFFICIAL_UNCERT), 0.2);
}

#[test]
fn estimates_keep_order() {
    let pgas = [-1.0f32, 0.0, 1e-9, 0.01, 0.3, 2.0, 1e9];
    let distances = [-5.0, 0.0, 1.0, 1.5, 30.0, 1e6];
    for (i, p) in pgas.iter().enumerate() {
        for q in &pgas[i..] {
            for (j, d) in distances.iter().enumerate() {
                for e in &distances[j..] {
                    assert!(estimate(*p, *d) <= estimate(*q, *e), "{p} {d} {q} {e}");
                }
            }
        }
    }
}
