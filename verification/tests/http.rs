use earthnet_node::double::{Double, Single};
use earthnet_node::fusion::{Fusion, IngestError};
use earthnet_node::geo::GeoCell;
use earthnet_node::message::{ConfirmedEvent, Location, Observation, SourceType};
use earthnet_node::server::{
    answer_fused, health, ingest, ingest_signal, process_observation, Action, Reply, Status,
};
use earthnet_node::NodeIdentity;
use ed25519_dalek::{Signature, Signer, SigningKey, Verifier, VerifyingKey};

const VERSION: u32 = 1;

fn fusion() -> Fusion {
    Fusion::new(
        NodeIdentity::ephemeral(),
        3,
        Double { bits: 100.0f64.to_bits() },
        30,
        VERSION,
    )
}

fn observation(source_type: SourceType, geohash: &str) -> Observation {
    Observation {
        protocol_version: VERSION,
        observation_id: vec![1u8; 16],
        source_type,
        captured_at_ns: 1_700_000_000_000_000_000,
        location: Some(Location { geohash: geohash.to_string(), precision_m: 100 }),
        p_wave_detected: true,
        reported_magnitude: Single { bits: 6.0f32.to_bits() },
    }
}

// a message is a kind, the signer's key and the signature of the two
fn signed(kind: u8) -> Vec<u8> {
    let id = NodeIdentity::ephemeral();
    let mut bytes = vec![kind];
    bytes.extend(id.pubkey());
    let signature = id.signing_key().sign(&bytes);
    bytes.extend(signature.to_bytes());
    bytes
}

fn decode_signal(body: &[u8]) -> Option<Vec<u8>> {
    if body.len() == 97 && body[0] < 4 {
        Some(body.to_vec())
    } else {
        None
    }
}

fn normalize(message: &Vec<u8>) -> Option<Observation> {
    match message[0] {
        0 => Some(observation(SourceType::Official, "66jd2")),
        1 => Some(observation(SourceType::Phone, "66jd2")),
        2 => Some(observation(SourceType::Phone, "nowhere")),
        _ => None,
    }
}

fn decode(body: &[u8]) -> Option<(Observation, Vec<u8>)> {
    let message = decode_signal(body)?;
    Some((normalize(&message)?, message))
}

fn verify(message: &Vec<u8>) -> bool {
    let mut key = [0u8; 32];
    key.copy_from_slice(&message[1..33]);
    let signature = Signature::from_slice(&message[33..]).unwrap();
    match VerifyingKey::from_bytes(&key) {
        Ok(k) => k.verify(&message[..33], &signature).is_ok(),
        Err(_) => false,
    }
}

fn distance_km(_: &GeoCell, _: &GeoCell) -> Double {
    Double { bits: 0 }
}

fn sign(key: &SigningKey, e: &ConfirmedEvent) -> Vec<u8> {
    key.sign(&e.event_id).to_bytes().to_vec()
}

fn post_observation(f: &mut Fusion, body: &[u8]) -> Reply {
    ingest(f, body, &decode, &verify, &distance_km, &sign)
}

fn post_signal(f: &mut Fusion, body: &[u8]) -> Reply {
    ingest_signal(f, body, &decode_signal, &verify, &normalize, &distance_km, &sign)
}

#[test]
fn health_ok() {
    assert_eq!(health(), "ok");
}

#[test]
fn post_valid_v02_signal_accepted() {
    let r = post_signal(&mut fusion(), &signed(0));
    assert_eq!(r.status, Status::Accepted);
    assert!(r.event.is_some());
}

#[test]
fn post_tampered_signal_unauthorized() {
    let mut bytes = signed(0);
    let last = bytes.len() - 1;
    bytes[last] ^= 0xff;
    let r = post_signal(&mut fusion(), &bytes);
    assert_eq!(r.status, Status::Unauthorized);
    assert_eq!(r.actions, vec![Action::CountError(IngestError::Signature)]);
}

#[test]
fn post_valid_observation_accepted() {
    let mut f = fusion();
    let r = post_observation(&mut f, &signed(0));
    assert_eq!(r.status, Status::Accepted);
    assert_eq!(r.status.code(), 202);
    assert_eq!(f.emitted_count(), 1);
}

#[test]
fn post_garbage_is_bad_request() {
    let r = post_observation(&mut fusion(), &[0xde, 0xad, 0xbe, 0xef]);
    assert_eq!(r.status, Status::BadRequest);
    assert_eq!(r.status.code(), 400);
    assert_eq!(r.actions, vec![Action::CountError(IngestError::Decode)]);
    let r = post_signal(&mut fusion(), &[0xde, 0xad, 0xbe, 0xef]);
    assert_eq!(r.status, Status::BadRequest);
}

#[test]
fn post_tampered_observation_unauthorized() {
    let mut bytes = signed(0);
    let last = bytes.len() - 1;
    bytes[last] ^= 0xff; // corrupt the signature
    let mut f = fusion();
    let r = post_observation(&mut f, &bytes);
    assert_eq!(r.status, Status::Unauthorized);
    assert_eq!(r.status.code(), 401);
    assert_eq!(f.emitted_count(), 0);
}

#[test]
fn official_event_is_recorded_and_forwarded() {
    let r = post_observation(&mut fusion(), &signed(0));
    assert_eq!(
        r.actions,
        vec![
            Action::CountObservation,
            Action::RecordObservation,
            Action::CountEvent,
            Action::RecordEvent,
            Action::ForwardEvent,
            Action::TimeRequest,
        ]
    );
}

#[test]
fn consensus_event_also_records_reputation() {
    let mut f = fusion();
    for _ in 0..2 {
        let r = post_observation(&mut f, &signed(1));
        assert_eq!(r.status, Status::Accepted);
        assert!(r.event.is_none());
        assert_eq!(
            r.actions,
            vec![Action::CountObservation, Action::RecordObservation, Action::TimeRequest]
        );
    }
    let r = post_signal(&mut f, &signed(1));
    assert_eq!(
        r.actions,
        vec![
            Action::CountObservation,
            Action::RecordObservation,
            Action::CountEvent,
            Action::RecordEvent,
            Action::RecordReputation,
            Action::ForwardEvent,
            Action::TimeRequest,
        ]
    );
}

#[test]
fn bad_fields_are_a_bad_request_yet_recorded() {
    let r = post_observation(&mut fusion(), &signed(2));
    assert_eq!(r.status, Status::BadRequest);
    assert_eq!(
        r.actions,
        vec![
            Action::CountObservation,
            Action::RecordObservation,
            Action::CountError(IngestError::BadFields),
            Action::TimeRequest,
        ]
    );
}

#[test]
fn other_modalities_are_accepted_and_not_fused() {
    let mut f = fusion();
    let r = post_signal(&mut f, &signed(3));
    assert_eq!(r.status, Status::Accepted);
    assert!(r.event.is_none());
    assert_eq!(r.actions, vec![Action::TimeRequest]);
    assert_eq!(f.emitted_count(), 0);
}

#[test]
fn processing_answers_what_fusion_made() {
    let mut f = fusion();
    let r = process_observation(
        &mut f,
        observation(SourceType::Official, "66jd2"),
        &distance_km,
        &sign,
    );
    assert!(r.event.is_some());
    assert_eq!(answer_fused(Err(IngestError::Decode)).status, Status::BadRequest);
    assert_eq!(answer_fused(Err(IngestError::Signature)).status, Status::BadRequest);
    assert_eq!(
        answer_fused(Err(IngestError::Signature)).actions,
        vec![Action::CountObservation, Action::RecordObservation]
    );
    assert_eq!(answer_fused(Ok(None)).status, Status::Accepted);
}
