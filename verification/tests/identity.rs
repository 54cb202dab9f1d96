use earthnet_node::hex_decode;
use earthnet_node::identity::{io_err, random_id, IoErrorKind, NodeIdentity};
use earthnet_node::fusion::{epoch_ns, now_ns};
use ed25519_dalek::{Signer, Verifier, VerifyingKey};

const SEED: &str = "9d61b19deffd5a60ba844af492ec2cc44449c5697b326919703bac031cae7f60";
const PUBKEY: &str = "d75a980182b10ab7d54bfed3c964073a0ee172f3daa62325af021a68f707511a";

#[test]
fn identity_persists_across_loads() {
    let a = NodeIdentity::load_or_create(None, None).unwrap();
    let stored = a.to_store.expect("a new identity is to be stored");
    let b = NodeIdentity::load_or_create(None, Some(&stored)).unwrap();
    assert!(b.to_store.is_none());
    assert_eq!(a.identity.pubkey(), b.identity.pubkey());
}

#[test]
fn identity_seed_hex_roundtrip() {
    let a = NodeIdentity::ephemeral();
    let b = NodeIdentity::from_seed_hex(&a.seed_hex()).unwrap();
    assert_eq!(a.pubkey(), b.pubkey());
}

#[test]
fn public_key_is_that_of_the_seed() {
    let id = NodeIdentity::from_seed_hex(SEED).unwrap();
    assert_eq!(id.seed_hex(), SEED);
    assert_eq!(id.pubkey_hex(), PUBKEY);
    assert_eq!(id.pubkey().len(), 32);
    assert_ne!(id.pubkey_hex(), id.seed_hex());
}

#[test]
fn identity_holds_the_seed_it_is_made_of() {
    let mut seed = [0u8; 32];
    seed[0] = 0xab;
    seed[31] = 0x01;
    let id = NodeIdentity::from_seed(seed);
    assert_eq!(id.seed_hex(), format!("ab{}01", "00".repeat(30)));
    assert_eq!(
        id.pubkey(),
        ed25519_dalek::SigningKey::from_bytes(&seed).verifying_key().to_bytes().to_vec()
    );
}

#[test]
fn signing_key_is_that_of_the_seed() {
    let id = NodeIdentity::from_seed_hex(SEED).unwrap();
    let signature = id.signing_key().sign(b"");
    assert_eq!(signature.to_bytes()[..4], [0xe5, 0x56, 0x43, 0x00]);
    let mut key = [0u8; 32];
    key.copy_from_slice(&id.pubkey());
    assert!(VerifyingKey::from_bytes(&key).unwrap().verify(b"", &signature).is_ok());
}

#[test]
fn white_space_around_a_seed_is_ignored() {
    let padded = format!("\u{3000}\t {SEED}\r\n\u{a0}");
    let id = NodeIdentity::from_seed_hex(&padded).unwrap();
    assert_eq!(id.pubkey_hex(), PUBKEY);
}

#[test]
fn seeds_that_are_not_32_bytes_of_hex_are_invalid_data() {
    let long = format!("{SEED}00");
    let inner = format!("{} {}", &SEED[..32], &SEED[32..]);
    for bad in ["", "  ", "00", &SEED[1..], &SEED[2..], &long, &inner, "a\u{e9}b", "zz"] {
        match NodeIdentity::from_seed_hex(bad) {
            Ok(_) => panic!("{bad:?} was accepted"),
            Err(e) => {
                assert_eq!(e.kind, IoErrorKind::InvalidData);
                assert_eq!(e.message, "seed must be 32 bytes (64 hex chars)");
            }
        }
    }
}

#[test]
fn a_plus_sign_is_no_digit_of_a_seed() {
    let plus = format!("+f{}", &SEED[2..]);
    assert!(NodeIdentity::from_seed_hex(&plus).is_err());
    assert!(NodeIdentity::from_seed_hex(&SEED.to_uppercase()).is_ok());
    assert!(NodeIdentity::load_or_create(Some(&plus), None).is_err());
    // elsewhere it is read as a leading zero
    assert_eq!(hex_decode("+f"), Some(vec![15]));
}

#[test]
fn the_environment_wins_over_the_stored_seed() {
    let stored = "00".repeat(32);
    let loaded = NodeIdentity::load_or_create(Some(SEED), Some(&stored)).unwrap();
    assert_eq!(loaded.identity.pubkey_hex(), PUBKEY);
    assert!(NodeIdentity::load_or_create(Some("bad"), Some(SEED)).is_err());
    assert!(NodeIdentity::load_or_create(None, Some("bad")).is_err());
}

#[test]
fn new_identities_and_identifiers_differ() {
    assert_ne!(NodeIdentity::ephemeral().seed_hex(), NodeIdentity::ephemeral().seed_hex());
    let (a, b) = (random_id(), random_id());
    assert_eq!((a.len(), b.len()), (16, 16));
    assert_ne!(a, b);
}

#[test]
fn errors_carry_their_message() {
    let e = io_err("no such thing");
    assert_eq!(e.message, "no such thing");
    assert_eq!(e.kind, IoErrorKind::InvalidData);
}

#[test]
fn clock_reads_nanoseconds_since_the_epoch() {
    assert!(now_ns() > 1_600_000_000_000_000_000);
    assert_eq!(epoch_ns(None), 0);
    assert_eq!(epoch_ns(Some(1_700_000_000_000_000_000)), 1_700_000_000_000_000_000);
    for n in [0, i64::MAX as u128, i64::MAX as u128 + 1, u64::MAX as u128, u64::MAX as u128 + 5] {
        assert_eq!(epoch_ns(Some(n)), n as i64);
    }
}
