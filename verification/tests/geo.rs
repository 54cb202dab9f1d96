use earthnet_node::double::Double;
use earthnet_node::geo::{decode_geohash, GeoCell};

fn midpoint(a: Double, b: Double) -> Double {
    Double {
        bits: ((f64::from_bits(a.bits) + f64::from_bits(b.bits)) / 2.0).to_bits(),
    }
}

fn degrees(cell: &GeoCell) -> (f64, f64) {
    let (lat, lon) = cell.centre(&midpoint);
    (f64::from_bits(lat.bits), f64::from_bits(lon.bits))
}

#[test]
fn decodes_known_geohash() {
    // "66jd2" is in northern Chile; check it lands in a sane bounding box.
    let (lat, lon) = degrees(&decode_geohash("66jd2").unwrap());
    assert!((-35.0..-15.0).contains(&lat), "lat={lat}");
    assert!((-75.0..-65.0).contains(&lon), "lon={lon}");
}

#[test]
fn invalid_char_returns_none() {
    assert!(decode_geohash("abcil").is_none()); // 'i', 'l' not in base32
}

#[test]
fn bits_alternate_from_longitude() {
    // 's' is 24, binary 11000
    let cell = decode_geohash("s").unwrap();
    assert_eq!(cell.lon, vec![true, false, false]);
    assert_eq!(cell.lat, vec![true, false]);
    assert_eq!(degrees(&cell), (22.5, 22.5));
}

#[test]
fn second_character_starts_with_latitude() {
    // "zg": 11111 01111
    let cell = decode_geohash("zg").unwrap();
    assert_eq!(cell.lon, vec![true, true, true, true, true]);
    assert_eq!(cell.lat, vec![true, true, false, true, true]);
}

#[test]
fn empty_geohash_is_the_globe() {
    let cell = decode_geohash("").unwrap();
    assert!(cell.lat.is_empty() && cell.lon.is_empty());
    assert_eq!(degrees(&cell), (0.0, 0.0));
}

#[test]
fn every_alphabet_character_decodes_to_its_position() {
    let alphabet = "0123456789bcdefghjkmnpqrstuvwxyz";
    for (value, c) in alphabet.chars().enumerate() {
        let cell = decode_geohash(&c.to_string()).unwrap();
        let bits = [cell.lon[0], cell.lat[0], cell.lon[1], cell.lat[1], cell.lon[2]];
        let read = bits.iter().fold(0usize, |n, b| 2 * n + usize::from(*b));
        assert_eq!(read, value);
    }
    for c in ["a", "i", "l", "o", "A", "Z", "-", " ", "\u{e9}", "\u{ff11}"] {
        assert!(decode_geohash(c).is_none(), "{c}");
    }
}

#[test]
fn longer_geohash_lies_within_the_shorter() {
    let outer = decode_geohash("66jd").unwrap();
    let inner = decode_geohash("66jd2xk").unwrap();
    assert_eq!(inner.lat[..outer.lat.len()], outer.lat[..]);
    assert_eq!(inner.lon[..outer.lon.len()], outer.lon[..]);
    let (lat, lon) = degrees(&outer);
    let (ilat, ilon) = degrees(&inner);
    assert!((lat - ilat).abs() <= 90.0 / 1024.0);
    assert!((lon - ilon).abs() <= 180.0 / 1024.0);
}

#[test]
fn different_geohashes_have_different_cells() {
    let a = decode_geohash("66jd2").unwrap();
    let b = decode_geohash("66jd3").unwrap();
    assert!(a.lat != b.lat || a.lon != b.lon);
}

#[test]
fn very_long_geohash_still_decodes() {
    let cell = decode_geohash(&"6".repeat(500)).unwrap();
    assert_eq!(cell.lat.len() + cell.lon.len(), 2500);
    let (lat, lon) = degrees(&cell);
    assert!(lat.is_finite() && lon.is_finite());
}
