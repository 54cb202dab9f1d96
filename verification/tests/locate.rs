use earthnet_node::double::Double;
use earthnet_node::locate::{locate, Fit, Hypocenter, Probe, VP_KM_S};

fn double(x: f64) -> Double {
    Double { bits: x.to_bits() }
}

fn num(d: Double) -> f64 {
    f64::from_bits(d.bits)
}

fn haversine_km(a: (f64, f64), b: (f64, f64)) -> f64 {
    let dlat = (b.0 - a.0).to_radians();
    let dlon = (b.1 - a.1).to_radians();
    let h = (dlat / 2.0).sin().powi(2)
        + a.0.to_radians().cos() * b.0.to_radians().cos() * (dlon / 2.0).sin().powi(2);
    2.0 * 6371.0 * h.sqrt().asin()
}

fn candidate(places: &[(f64, f64)], probe: Probe) -> (f64, f64) {
    match probe {
        Probe::Centroid => (
            places.iter().map(|p| p.0).sum::<f64>() / places.len() as f64,
            places.iter().map(|p| p.1).sum::<f64>() / places.len() as f64,
        ),
        Probe::Grid { lat, lon, span, step, row, column } => (
            num(lat) - num(span) + row as f64 * num(step),
            num(lon) - num(span) + column as f64 * num(step),
        ),
    }
}

fn find(picks: &[(f64, f64, i64)], vp: f64) -> Option<Hypocenter> {
    let places: Vec<(f64, f64)> = picks.iter().map(|p| (p.0, p.1)).collect();
    let times: Vec<i64> = picks.iter().map(|p| p.2).collect();
    let measure = |since: &Vec<u64>, probe: Probe| {
        let (la, lo) = candidate(&places, probe);
        let preds: Vec<f64> = places
            .iter()
            .zip(since)
            .map(|(p, t)| *t as f64 / 1e9 - haversine_km((la, lo), *p) / vp)
            .collect();
        let origin = preds.iter().sum::<f64>() / preds.len() as f64;
        let ss = preds.iter().map(|p| (p - origin).powi(2)).sum::<f64>();
        Fit {
            lat: double(la),
            lon: double(lo),
            rms_s: double((ss / preds.len() as f64).sqrt()),
            offset_ns: (origin * 1e9) as i64,
        }
    };
    locate(&times, &measure)
}

// Build synthetic picks consistent with a true source.
fn synth(
    true_lat: f64,
    true_lon: f64,
    origin_s: f64,
    stations: &[(f64, f64)],
    jitter: &[f64],
) -> Vec<(f64, f64, i64)> {
    stations
        .iter()
        .zip(jitter)
        .map(|(&(la, lo), &j)| {
            let tau = haversine_km((true_lat, true_lon), (la, lo)) / f64::from_bits(VP_KM_S);
            let t = origin_s + tau + j;
            (la, lo, (t * 1e9) as i64)
        })
        .collect()
}

const STATIONS: [(f64, f64); 5] = [
    (-21.0, -69.5),
    (-21.3, -69.9),
    (-20.1, -69.2),
    (-22.0, -70.0),
    (-19.8, -69.7),
];

#[test]
fn locates_consistent_source_with_low_rms() {
    let picks = synth(-21.0, -69.8, 1000.0, &STATIONS, &[0.0; 5]);
    let h = find(&picks, f64::from_bits(VP_KM_S)).expect("should locate");
    assert!(num(h.rms_s) < 0.5, "rms={}", num(h.rms_s));
    assert!(
        haversine_km((num(h.lat), num(h.lon)), (-21.0, -69.8)) < 40.0,
        "epicenter off"
    );
    assert_eq!(h.n, 5);
    assert!((h.origin_ns - 1_000_000_000_000).abs() < 10_000_000_000);
}

#[test]
fn inconsistent_times_give_high_rms() {
    // same stations, but random/incoherent times (not a single source)
    let picks: Vec<(f64, f64, i64)> = STATIONS
        .iter()
        .enumerate()
        .map(|(i, &(la, lo))| {
            (
                la,
                lo,
                (1000.0 + [0.0, 9.0, 2.0, 11.0, 4.0][i]) as i64 * 1_000_000_000,
            )
        })
        .collect();
    let h = find(&picks, f64::from_bits(VP_KM_S)).expect("locate returns a best fit");
    assert!(
        num(h.rms_s) > 1.5,
        "incoherent picks should not fit one source, rms={}",
        num(h.rms_s)
    );
}

#[test]
fn too_few_picks_is_none() {
    assert!(find(
        &[(-21.0, -69.5, 0), (-21.3, -69.9, 1_000_000_000)],
        f64::from_bits(VP_KM_S)
    )
    .is_none());
}

fn fit(rms: f64, tag: f64, offset_ns: i64) -> Fit {
    Fit { lat: double(tag), lon: double(tag), rms_s: double(rms), offset_ns }
}

#[test]
fn ties_keep_the_centroid() {
    let measure = |_: &Vec<u64>, probe: Probe| match probe {
        Probe::Centroid => fit(1.0, 7.0, 5),
        Probe::Grid { .. } => fit(1.0, 8.0, 6),
    };
    let h = locate(&vec![30, 10, 20], &measure).unwrap();
    assert_eq!(h.lat, double(7.0));
    assert_eq!(h.origin_ns, 15);
    assert_eq!(h.n, 3);
}

#[test]
fn no_finite_residual_is_none() {
    let nan = |_: &Vec<u64>, _: Probe| fit(f64::NAN, 0.0, 0);
    assert!(locate(&vec![1, 2, 3], &nan).is_none());
    let infinite = |_: &Vec<u64>, _: Probe| fit(f64::INFINITY, 0.0, 0);
    assert!(locate(&vec![1, 2, 3], &infinite).is_none());
}

#[test]
fn fine_grid_surrounds_the_best_coarse_point() {
    let times: Vec<i64> = vec![5, 5, 5];
    let measure = |since: &Vec<u64>, probe: Probe| {
        assert_eq!(since, &vec![0, 0, 0]);
        match probe {
            Probe::Centroid => fit(9.0, 0.0, 0),
            Probe::Grid { lat, step, row, column, .. } => {
                if num(step) == 0.25 {
                    assert!(row < 25 && column < 25);
                    fit(if (row, column) == (3, 4) { 5.0 } else { 6.0 }, 34.0, 0)
                } else {
                    assert_eq!(num(step), 0.02);
                    assert_eq!(num(lat), 34.0);
                    assert!(row < 26 && column < 26);
                    fit(if (row, column) == (25, 25) { 1.0 } else { 8.0 }, 55.0, -3)
                }
            }
        }
    };
    let h = locate(&times, &measure).unwrap();
    assert_eq!((num(h.lat), num(h.rms_s), h.origin_ns), (55.0, 1.0, 2));
}

#[test]
fn a_shift_moves_only_the_origin() {
    let picks = synth(-21.0, -69.8, 1000.0, &STATIONS, &[0.1, -0.2, 0.0, 0.3, 0.0]);
    let h = find(&picks, f64::from_bits(VP_KM_S)).unwrap();
    for shift in [0, 1, -7_000_000_000_000, 1_700_000_000_000_000_000] {
        let moved: Vec<(f64, f64, i64)> = picks.iter().map(|p| (p.0, p.1, p.2 + shift)).collect();
        let m = find(&moved, f64::from_bits(VP_KM_S)).unwrap();
        assert_eq!((m.lat, m.lon, m.rms_s, m.n), (h.lat, h.lon, h.rms_s, h.n));
        assert_eq!(m.origin_ns, h.origin_ns + shift);
    }
}

#[test]
fn only_the_origin_of_the_best_fit_has_to_fit() {
    // the centroid wins; the origins of the others lie out of range
    let measure = |_: &Vec<u64>, probe: Probe| match probe {
        Probe::Centroid => fit(1.0, 7.0, -5),
        Probe::Grid { .. } => fit(2.0, 8.0, i64::MAX),
    };
    let h = locate(&vec![i64::MAX, i64::MAX - 2, i64::MAX], &measure).unwrap();
    assert_eq!(h.origin_ns, i64::MAX - 7);
    // an infinite speed of the wrong sign fits nothing
    let picks: Vec<(f64, f64, i64)> = STATIONS.iter().map(|s| (s.0, s.1, 1)).collect();
    assert!(find(&picks, -0.0).is_none());
}
