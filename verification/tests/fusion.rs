use earthnet_node::cluster::choose_linked;
use earthnet_node::double::{Double, Single};
use earthnet_node::fusion::{draft_event, BufferedPick, Fusion, IngestError};
use earthnet_node::geo::{decode_geohash, GeoCell};
use earthnet_node::message::{ConfirmedEvent, EvidenceKind, Location, Observation, SourceType};
use earthnet_node::NodeIdentity;
use ed25519_dalek::{Signature, Signer, SigningKey, Verifier, VerifyingKey};

const T0: i64 = 1_700_000_000_000_000_000;
const VERSION: u32 = 1;

fn double(x: f64) -> Double {
    Double { bits: x.to_bits() }
}

fn midpoint(a: Double, b: Double) -> Double {
    double((f64::from_bits(a.bits) + f64::from_bits(b.bits)) / 2.0)
}

fn distance_km(a: &GeoCell, b: &GeoCell) -> Double {
    let (lat1, lon1) = a.centre(&midpoint);
    let (lat2, lon2) = b.centre(&midpoint);
    let (lat1, lon1) = (f64::from_bits(lat1.bits), f64::from_bits(lon1.bits));
    let (lat2, lon2) = (f64::from_bits(lat2.bits), f64::from_bits(lon2.bits));
    let dlat = (lat2 - lat1).to_radians();
    let dlon = (lon2 - lon1).to_radians();
    let h = (dlat / 2.0).sin().powi(2)
        + lat1.to_radians().cos() * lat2.to_radians().cos() * (dlon / 2.0).sin().powi(2);
    double(2.0 * 6371.0 * h.sqrt().asin())
}

fn event_bytes(e: &ConfirmedEvent) -> Vec<u8> {
    let mut unsigned = e.clone();
    unsigned.signature = Vec::new();
    format!("{unsigned:?}").into_bytes()
}

fn sign(key: &SigningKey, e: &ConfirmedEvent) -> Vec<u8> {
    key.sign(&event_bytes(e)).to_bytes().to_vec()
}

fn verify(e: &ConfirmedEvent) -> bool {
    let mut key = [0u8; 32];
    key.copy_from_slice(&e.pubkey);
    let signature = match Signature::from_slice(&e.signature) {
        Ok(s) => s,
        Err(_) => return false,
    };
    VerifyingKey::from_bytes(&key).unwrap().verify(&event_bytes(e), &signature).is_ok()
}

fn observation(source: SourceType, p_wave: bool, geohash: &str, t_ns: i64) -> Observation {
    Observation {
        protocol_version: VERSION,
        observation_id: t_ns.to_be_bytes().to_vec(),
        source_type: source,
        captured_at_ns: t_ns,
        location: Some(Location { geohash: geohash.to_string(), precision_m: 2400 }),
        p_wave_detected: p_wave,
        reported_magnitude: Single { bits: 5.5f32.to_bits() },
    }
}

fn phone(geohash: &str, t_ns: i64) -> Observation {
    observation(SourceType::Phone, true, geohash, t_ns)
}

// consensus_n = 3, radius = 100 km, window = 30 s
fn fusion() -> Fusion {
    Fusion::new(NodeIdentity::ephemeral(), 3, double(100.0), 30, VERSION)
}

fn ingest(f: &mut Fusion, obs: Observation) -> Result<Option<ConfirmedEvent>, IngestError> {
    f.ingest(obs, &distance_km, &sign)
}

// a message is the signer's key, the signature and the observation's fields
fn signed_bytes(obs: &Observation) -> Vec<u8> {
    let id = NodeIdentity::ephemeral();
    let fields = field_bytes(obs);
    let mut bytes = id.pubkey();
    bytes.extend(id.signing_key().sign(&fields).to_bytes());
    bytes.extend(fields);
    bytes
}

fn field_bytes(obs: &Observation) -> Vec<u8> {
    let mut bytes = obs.captured_at_ns.to_be_bytes().to_vec();
    bytes.extend(obs.reported_magnitude.bits.to_be_bytes());
    bytes.push(u8::from(obs.p_wave_detected));
    bytes.push(match obs.source_type {
        SourceType::Official => 1,
        SourceType::Phone => 2,
        SourceType::Other(_) => 3,
    });
    bytes.extend(obs.location.as_ref().unwrap().geohash.bytes());
    bytes
}

fn decode(bytes: &[u8]) -> Option<(Observation, Vec<u8>)> {
    if bytes.len() < 110 {
        return None;
    }
    let fields = &bytes[96..];
    let mut t = [0u8; 8];
    t.copy_from_slice(&fields[..8]);
    let source = match fields[13] {
        1 => SourceType::Official,
        2 => SourceType::Phone,
        n => SourceType::Other(n as i32),
    };
    let geohash = String::from_utf8(fields[14..].to_vec()).ok()?;
    Some((
        observation(source, fields[12] == 1, &geohash, i64::from_be_bytes(t)),
        bytes.to_vec(),
    ))
}

fn verify_message(message: &Vec<u8>) -> bool {
    let mut key = [0u8; 32];
    key.copy_from_slice(&message[..32]);
    let signature = Signature::from_slice(&message[32..96]).unwrap();
    match VerifyingKey::from_bytes(&key) {
        Ok(k) => k.verify(&message[96..], &signature).is_ok(),
        Err(_) => false,
    }
}

fn ingest_bytes(f: &mut Fusion, bytes: &[u8]) -> Result<Option<ConfirmedEvent>, IngestError> {
    f.ingest_bytes(bytes, &decode, &verify_message, &distance_km, &sign)
}

#[test]
fn official_with_pwave_emits_signed_event() {
    let evt = ingest(&mut fusion(), observation(SourceType::Official, true, "66jd2", T0))
        .unwrap()
        .expect("official + p-wave must emit");
    assert_eq!(evt.evidence, EvidenceKind::Official);
    assert_eq!(evt.num_observations, 1);
    assert!(verify(&evt));
}

#[test]
fn official_without_pwave_does_not_emit() {
    assert!(ingest(&mut fusion(), observation(SourceType::Official, false, "66jd2", T0))
        .unwrap()
        .is_none());
}

#[test]
fn correlated_phones_reach_consensus() {
    let mut f = fusion();
    assert!(ingest(&mut f, phone("66jd2", T0)).unwrap().is_none());
    assert!(ingest(&mut f, phone("66jd2", T0 + 1_000_000_000)).unwrap().is_none());
    let evt = ingest(&mut f, phone("66jd2", T0 + 2_000_000_000))
        .unwrap()
        .expect("third correlated phone must reach consensus");
    assert_eq!(evt.evidence, EvidenceKind::Consensus);
    assert_eq!(evt.num_observations, 3);
    assert!(verify(&evt));
    // cluster consumed
    assert!(ingest(&mut f, phone("66jd2", T0 + 3_000_000_000)).unwrap().is_none());
}

#[test]
fn spatially_distant_phones_do_not_correlate() {
    let mut f = fusion();
    ingest(&mut f, phone("66jd2", T0)).unwrap(); // Chile
    ingest(&mut f, phone("u33db", T0)).unwrap(); // Europe (>> 100 km)
    // a third near Chile makes 2 correlated there: still below N=3
    assert!(ingest(&mut f, phone("66jd2", T0 + 1_000_000_000)).unwrap().is_none());
}

#[test]
fn temporally_distant_phones_do_not_correlate() {
    let mut f = fusion();
    ingest(&mut f, phone("66jd2", T0)).unwrap();
    ingest(&mut f, phone("66jd2", T0 + 1_000_000_000)).unwrap();
    // 60 s later: outside the 30 s window, prunes the earlier two, no consensus
    assert!(ingest(&mut f, phone("66jd2", T0 + 60_000_000_000)).unwrap().is_none());
}

#[test]
fn invalid_signature_is_rejected() {
    let mut bytes = signed_bytes(&observation(SourceType::Official, true, "66jd2", T0));
    bytes[105] ^= 1;
    let mut f = fusion();
    assert!(matches!(ingest_bytes(&mut f, &bytes), Err(IngestError::Signature)));
    assert_eq!(f.emitted_count(), 0);
}

#[test]
fn undecodable_bytes_rejected() {
    assert!(matches!(
        ingest_bytes(&mut fusion(), &[0xff, 0xff, 0xff]),
        Err(IngestError::Decode)
    ));
}

#[test]
fn verified_bytes_are_ingested() {
    let mut f = fusion();
    let bytes = signed_bytes(&observation(SourceType::Official, true, "66jd2", T0));
    let evt = ingest_bytes(&mut f, &bytes).unwrap().expect("official + p-wave must emit");
    assert_eq!(evt.origin_time_ns, T0);
    assert_eq!(f.emitted_count(), 1);
}

#[test]
fn phone_without_location_rejected() {
    let mut obs = phone("66jd2", T0);
    obs.location = None;
    assert!(matches!(ingest(&mut fusion(), obs), Err(IngestError::BadFields)));
}

#[test]
fn phone_with_invalid_geohash_rejected() {
    assert!(matches!(ingest(&mut fusion(), phone("66jda", T0)), Err(IngestError::BadFields)));
}

#[test]
fn other_versions_and_sources_rejected() {
    let mut f = fusion();
    let mut obs = observation(SourceType::Official, true, "66jd2", T0);
    obs.protocol_version = VERSION + 1;
    assert!(matches!(ingest(&mut f, obs), Err(IngestError::BadFields)));
    let other = observation(SourceType::Other(0), true, "66jd2", T0);
    assert!(matches!(ingest(&mut f, other), Err(IngestError::BadFields)));
    assert_eq!(f.emitted_count(), 0);
}

#[test]
fn official_needs_no_location() {
    let mut obs = observation(SourceType::Official, true, "66jd2", T0);
    obs.location = None;
    let evt = ingest(&mut fusion(), obs).unwrap().unwrap();
    assert!(evt.epicenter.is_none());
}

#[test]
fn event_is_led_by_the_first_pick_of_the_cluster() {
    let id = NodeIdentity::ephemeral();
    let pubkey = id.pubkey();
    let mut f = Fusion::new(id, 2, double(100.0), 30, VERSION);
    let mut first = phone("66jd2", T0);
    first.reported_magnitude = Single { bits: 4.25f32.to_bits() };
    ingest(&mut f, first).unwrap();
    let evt = ingest(&mut f, phone("66jd3", T0 - 5)).unwrap().unwrap();
    assert_eq!(evt.protocol_version, VERSION);
    assert_eq!(evt.pubkey, pubkey);
    assert_eq!(evt.event_id.len(), 16);
    assert_eq!(evt.origin_time_ns, T0);
    assert_eq!(evt.epicenter.as_ref().unwrap().geohash, "66jd2");
    assert_eq!(evt.epicenter.as_ref().unwrap().precision_m, 2400);
    assert_eq!(evt.magnitude.bits, 4.25f32.to_bits());
    assert_eq!((evt.depth_km.bits, evt.magnitude_uncert.bits), (0, 0));
    assert_eq!(
        evt.obs_ids,
        vec![T0.to_be_bytes().to_vec(), (T0 - 5).to_be_bytes().to_vec()]
    );
    assert!(evt.supersedes.is_empty());
    assert!(evt.issued_at_ns > T0);
}

#[test]
fn events_are_counted() {
    let mut f = fusion();
    for i in 1..=4usize {
        ingest(&mut f, observation(SourceType::Official, true, "66jd2", T0)).unwrap();
        ingest(&mut f, observation(SourceType::Official, false, "66jd2", T0)).unwrap();
        assert_eq!(f.emitted_count(), i);
    }
}

#[test]
fn a_consensus_leaves_distant_picks_waiting() {
    let mut f = fusion();
    for i in 0..2 {
        ingest(&mut f, phone("66jd2", T0 + i)).unwrap();
        ingest(&mut f, phone("u33db", T0 + i)).unwrap();
    }
    assert!(ingest(&mut f, phone("66jd2", T0 + 2)).unwrap().is_some());
    assert!(ingest(&mut f, phone("u33db", T0 + 2)).unwrap().is_some());
    assert!(ingest(&mut f, phone("u33db", T0 + 3)).unwrap().is_none());
}

#[test]
fn the_edge_of_the_window_still_correlates() {
    let mut f = Fusion::new(NodeIdentity::ephemeral(), 2, double(0.0), 30, VERSION);
    ingest(&mut f, phone("66jd2", T0)).unwrap();
    assert!(ingest(&mut f, phone("66jd2", T0 + 30_000_000_000)).unwrap().is_some());
    ingest(&mut f, phone("66jd2", T0)).unwrap();
    assert!(ingest(&mut f, phone("66jd2", T0 + 30_000_000_001)).unwrap().is_none());
}

#[test]
fn times_at_the_extremes_are_far_apart() {
    let mut f = Fusion::new(NodeIdentity::ephemeral(), 2, double(100.0), u64::MAX / 4, VERSION);
    ingest(&mut f, phone("66jd2", i64::MIN)).unwrap();
    assert!(ingest(&mut f, phone("66jd2", i64::MAX)).unwrap().is_none());
    assert!(ingest(&mut f, phone("66jd2", 0)).unwrap().is_some());
}

#[test]
fn zero_picks_count_as_one() {
    let mut f = Fusion::new(NodeIdentity::ephemeral(), 0, double(-3.0), 30, VERSION);
    let evt = ingest(&mut f, phone("66jd2", T0)).unwrap().unwrap();
    assert_eq!((evt.evidence, evt.num_observations), (EvidenceKind::Consensus, 1));
}

#[test]
fn a_radius_that_is_no_number_is_zero() {
    let mut f = Fusion::new(NodeIdentity::ephemeral(), 2, double(f64::NAN), 30, VERSION);
    ingest(&mut f, phone("66jd2", T0)).unwrap();
    assert!(ingest(&mut f, phone("66jd3", T0)).unwrap().is_none());
    assert!(ingest(&mut f, phone("66jd2", T0)).unwrap().is_some());
}

#[test]
fn a_window_beyond_the_signed_range_is_the_longest() {
    let mut f = Fusion::new(NodeIdentity::ephemeral(), 1, double(100.0), u64::MAX, VERSION);
    let e = ingest(&mut f, phone("66jd2", T0)).unwrap().unwrap();
    assert_eq!(e.num_observations, 1);
    for secs in [9_223_372_036, 9_223_372_037, i64::MAX as u64, i64::MAX as u64 + 1] {
        let mut f = Fusion::new(NodeIdentity::ephemeral(), 2, double(100.0), secs, VERSION);
        assert!(ingest(&mut f, phone("66jd2", 0)).unwrap().is_none());
        let e = ingest(&mut f, phone("66jd2", 9_223_372_036_000_000_000)).unwrap().unwrap();
        assert_eq!(e.num_observations, 2);
    }
}

#[test]
fn picks_must_lie_within_the_radius_of_each_other() {
    // s00 and s04 are 313 km apart, s01 lies between them, 156 km from each
    let mut f = Fusion::new(NodeIdentity::ephemeral(), 3, double(200.0), 30, VERSION);
    assert!(ingest(&mut f, phone("s00", T0)).unwrap().is_none());
    assert!(ingest(&mut f, phone("s04", T0)).unwrap().is_none());
    assert!(ingest(&mut f, phone("s01", T0)).unwrap().is_none());
    // a second one between them makes a cluster with the middle and the first that waited
    let e = ingest(&mut f, phone("s01", T0 + 1)).unwrap().unwrap();
    assert_eq!(e.num_observations, 3);
    assert_eq!(e.epicenter.unwrap().geohash, "s00");
    // the other end is left waiting
    let mut f = Fusion::new(NodeIdentity::ephemeral(), 2, double(200.0), 30, VERSION);
    for (i, place) in ["s00", "s04"].iter().enumerate() {
        assert!(ingest(&mut f, phone(place, T0 + i as i64)).unwrap().is_none());
    }
    let e = ingest(&mut f, phone("s01", T0 + 2)).unwrap().unwrap();
    let ids: Vec<Vec<u8>> = [T0, T0 + 2].iter().map(|t| t.to_be_bytes().to_vec()).collect();
    assert_eq!(e.obs_ids, ids);
    let e = ingest(&mut f, phone("s04", T0 + 3)).unwrap().unwrap();
    let ids: Vec<Vec<u8>> = [T0 + 1, T0 + 3].iter().map(|t| t.to_be_bytes().to_vec()).collect();
    assert_eq!(e.obs_ids, ids);
}

#[test]
fn a_cluster_is_found_behind_an_earlier_pick_that_fits_none() {
    // the first pick is near the last alone; the other three are near each other
    let mut f = Fusion::new(NodeIdentity::ephemeral(), 3, double(200.0), 30, VERSION);
    assert!(ingest(&mut f, phone("s00", T0)).unwrap().is_none());
    assert!(ingest(&mut f, phone("s04", T0 + 1)).unwrap().is_none());
    assert!(ingest(&mut f, phone("s04", T0 + 2)).unwrap().is_none());
    let e = ingest(&mut f, phone("s01", T0 + 3)).unwrap().unwrap();
    let ids: Vec<Vec<u8>> = [1, 2, 3].iter().map(|i| (T0 + i).to_be_bytes().to_vec()).collect();
    assert_eq!(e.obs_ids, ids);
}

#[test]
fn a_late_pick_does_not_evict_newer_ones() {
    let s = 1_000_000_000;
    let mut f = fusion();
    assert!(ingest(&mut f, phone("66jd2", T0 + 60 * s)).unwrap().is_none());
    assert!(ingest(&mut f, phone("66jd2", T0 + 60 * s)).unwrap().is_none());
    assert!(ingest(&mut f, phone("66jd2", T0)).unwrap().is_none());
    let e = ingest(&mut f, phone("66jd2", T0 + 61 * s)).unwrap().unwrap();
    assert_eq!(e.num_observations, 3);
    assert_eq!(e.origin_time_ns, T0 + 60 * s);
}

#[test]
fn a_late_pick_joins_those_in_its_window() {
    let s = 1_000_000_000;
    let mut f = Fusion::new(NodeIdentity::ephemeral(), 2, double(100.0), 30, VERSION);
    let mut far = phone("66jd2", T0 + 60 * s);
    far.location = Some(Location { geohash: "s00".to_string(), precision_m: 2400 });
    assert!(ingest(&mut f, far).unwrap().is_none());
    assert!(ingest(&mut f, phone("66jd2", T0 + 40 * s)).unwrap().is_none());
    let e = ingest(&mut f, phone("66jd2", T0 + 25 * s)).unwrap().unwrap();
    assert_eq!(e.num_observations, 2);
}

#[test]
fn an_observation_serves_one_event() {
    let mut f = fusion();
    let mut ids: Vec<Vec<u8>> = Vec::new();
    for i in 0..10 {
        if let Some(e) = ingest(&mut f, phone("66jd2", T0 + i)).unwrap() {
            ids.extend(e.obs_ids);
        }
    }
    let all: Vec<Vec<u8>> = (0..9).map(|i: i64| (T0 + i).to_be_bytes().to_vec()).collect();
    assert_eq!(ids, all);
}

#[test]
fn other_observations_change_no_phone_result() {
    let mut alone = fusion();
    let mut mixed = fusion();
    for i in 0..6 {
        assert!(ingest(&mut mixed, observation(SourceType::Official, i % 2 == 0, "66jd2", T0)).is_ok());
        assert!(ingest(&mut mixed, observation(SourceType::Other(7), true, "66jd2", T0)).is_err());
        assert!(ingest(&mut mixed, phone("???", T0)).is_err());
        let a = ingest(&mut alone, phone("66jd2", T0 + i)).unwrap();
        let b = ingest(&mut mixed, phone("66jd2", T0 + i)).unwrap();
        assert_eq!(a.is_some(), i % 3 == 2);
        assert_eq!(a.map(|e| (e.obs_ids, e.origin_time_ns)), b.map(|e| (e.obs_ids, e.origin_time_ns)));
    }
}

#[test]
fn distances_decide_the_cluster() {
    let pick = |i: i64| BufferedPick {
        cell: decode_geohash("66jd2").unwrap(),
        t_ns: T0 + i,
        obs: phone("66jd2", T0 + i),
    };
    let times = |picks: &Vec<BufferedPick>| -> Vec<i64> {
        picks.iter().map(|p| p.t_ns - T0).collect()
    };
    let far = double(100.00000000000001);
    let near = double(100.0);
    let mut f = fusion();
    for i in 0..4 {
        f.join(pick(i));
    }
    let (company, newest) = f.part(&vec![far, near, far]);
    assert_eq!((times(&company), newest.t_ns), (vec![1], T0 + 3));
    assert!(f.settle(company, newest, &vec![vec![]]).is_none());
    // the near picks went to the end, after the others: 0, 2, 1, 3
    f.join(pick(4));
    let (company, newest) = f.part(&vec![near, far, near, near]);
    assert_eq!(times(&company), vec![0, 1, 3]);
    // 0 and 1 are far from each other, 3 is near both
    let cluster = f.settle(company, newest, &vec![vec![], vec![far], vec![near, near]]).unwrap();
    assert_eq!(times(&cluster), vec![0, 3, 4]);
    // 2 and 1 are left
    f.join(pick(5));
    let (company, newest) = f.part(&vec![near, near]);
    assert_eq!(times(&company), vec![2, 1]);
    let cluster = f.settle(company, newest, &vec![vec![], vec![near]]).unwrap();
    assert_eq!(times(&cluster), vec![2, 1, 5]);
}

#[test]
fn linked_items_are_chosen_early_first() {
    let links = |rows: &[&[u8]]| -> Vec<Vec<bool>> {
        rows.iter().map(|r| r.iter().map(|b| *b == 1).collect()).collect()
    };
    assert_eq!(choose_linked(&links(&[]), 0), Some(vec![]));
    assert_eq!(choose_linked(&links(&[]), 1), None);
    // 0 goes with 1 alone, 1 to 3 go together
    let rows: [&[u8]; 4] = [&[], &[1], &[0, 1], &[0, 1, 1]];
    assert_eq!(choose_linked(&links(&rows), 2), Some(vec![true, true, false, false]));
    assert_eq!(choose_linked(&links(&rows), 3), Some(vec![false, true, true, true]));
    assert_eq!(choose_linked(&links(&rows), 4), None);
    assert_eq!(choose_linked(&links(&[&[], &[1], &[1, 1]]), 1), Some(vec![true, true, true]));
}

#[test]
fn drafts_are_complete_but_unsigned() {
    let id = NodeIdentity::ephemeral();
    let e = draft_event(
        &id,
        7,
        &vec![phone("66jd2", 10), phone("66jd2", 20)],
        EvidenceKind::Consensus,
        vec![9; 16],
        55,
    );
    assert_eq!((e.protocol_version, e.origin_time_ns, e.issued_at_ns), (7, 10, 55));
    assert_eq!((e.num_observations, e.obs_ids.len()), (2, 2));
    assert_eq!(e.event_id, vec![9; 16]);
    assert!(e.signature.is_empty());
}

#[test]
fn a_pick_dated_ahead_does_not_evict_others() {
    let s = 1_000_000_000;
    let mut f = Fusion::new(NodeIdentity::ephemeral(), 2, double(100.0), 30, VERSION);
    assert!(ingest(&mut f, phone("66jd2", T0 + 1000 * s)).unwrap().is_none());
    assert!(ingest(&mut f, phone("66jd2", T0)).unwrap().is_none());
    let e = ingest(&mut f, phone("66jd2", T0 + s)).unwrap().unwrap();
    let ids: Vec<Vec<u8>> = [T0, T0 + s].iter().map(|t| t.to_be_bytes().to_vec()).collect();
    assert_eq!(e.obs_ids, ids);
    // the one dated ahead still waits for its time
    let e = ingest(&mut f, phone("66jd2", T0 + 1030 * s)).unwrap().unwrap();
    assert_eq!((e.num_observations, e.origin_time_ns), (2, T0 + 1000 * s));
}

#[test]
fn picks_older_by_more_than_the_window_leave() {
    let s = 1_000_000_000;
    let mut f = Fusion::new(NodeIdentity::ephemeral(), 2, double(100.0), 30, VERSION);
    assert!(ingest(&mut f, phone("66jd2", T0)).unwrap().is_none());
    assert!(ingest(&mut f, phone("66jd2", T0 + 30 * s + 1)).unwrap().is_none());
    // the first is gone, so a second at its time meets the later one only
    let e = ingest(&mut f, phone("66jd2", T0 + 1)).unwrap().unwrap();
    let ids: Vec<Vec<u8>> =
        [T0 + 30 * s + 1, T0 + 1].iter().map(|t| t.to_be_bytes().to_vec()).collect();
    assert_eq!(e.obs_ids, ids);
}

#[test]
fn returned_events_are_counted() {
    let mut f = fusion();
    let mut events = 0;
    for i in 0..20 {
        let obs = match i % 4 {
            0 => observation(SourceType::Official, i % 8 == 0, "66jd2", T0 + i),
            1 => observation(SourceType::Other(9), true, "66jd2", T0 + i),
            _ => phone("66jd2", T0 + i),
        };
        if let Ok(Some(_)) = ingest(&mut f, obs) {
            events += 1;
        }
        assert_eq!(f.emitted_count(), events);
    }
    assert_eq!(events, 6);
}

#[test]
fn many_picks_near_each_other_are_chosen() {
    let n = 400;
    let links: Vec<Vec<bool>> = (0..n).map(|j| vec![true; j]).collect();
    assert_eq!(choose_linked(&links, n), Some(vec![true; n]));
    // two groups that have nothing to do with each other, each one short
    let links: Vec<Vec<bool>> =
        (0..80).map(|j: usize| (0..j).map(|i| i / 40 == j / 40).collect()).collect();
    assert_eq!(choose_linked(&links, 41), None);
    assert_eq!(choose_linked(&links, 40), Some((0..80).map(|i| i < 40).collect()));
}
