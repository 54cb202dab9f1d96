use earthnet_node::hex_decode;
use earthnet_node::text::{hex_encode, parse_decimal, split_lines, write_decimal};

#[test]
fn hex_reads_pairs_in_either_case() {
    assert_eq!(hex_decode("00ff7Fa0"), Some(vec![0x00, 0xff, 0x7f, 0xa0]));
    assert_eq!(hex_decode(""), Some(vec![]));
}

#[test]
fn hex_rejects_odd_lengths_and_other_characters() {
    assert_eq!(hex_decode("abc"), None);
    assert_eq!(hex_decode("0g"), None);
    assert_eq!(hex_decode("-1"), None);
    assert_eq!(hex_decode("+-"), None);
    assert_eq!(hex_decode("a\u{e9}b"), None);
    assert_eq!(hex_decode("\u{e9}"), None);
}

#[test]
fn hex_takes_a_plus_sign_for_a_leading_zero() {
    assert_eq!(hex_decode("+f"), Some(vec![15]));
    assert_eq!(hex_decode("f+"), None);
}

#[test]
fn hex_pairs_agree_with_the_integer_parser() {
    for a in 0..128u8 {
        for b in 0..128u8 {
            let pair: String = [a as char, b as char].iter().collect();
            let parsed = u8::from_str_radix(&pair, 16).ok().map(|v| vec![v]);
            assert_eq!(hex_decode(&pair), parsed, "{pair:?}");
        }
    }
}

#[test]
fn hex_round_trips() {
    let bytes: Vec<u8> = (0..=255).collect();
    let text = hex_encode(&bytes);
    assert_eq!(&text[..8], "00010203");
    assert_eq!(&text[504..], "fcfdfeff");
    assert_eq!(hex_decode(&text), Some(bytes));
}

#[test]
fn decimals_agree_with_the_integer_parser() {
    for s in [
        "0", "-0", "+7", "-7", "007", "", "+", "-", "--1", "+-1", "1x", " 1", "1 ",
        "9223372036854775807", "9223372036854775808", "-9223372036854775808",
        "-9223372036854775809", "00000000000000000000000000000000000012",
        "99999999999999999999999999999999999999", "\u{0661}",
    ] {
        assert_eq!(parse_decimal(s), s.parse::<i64>().ok(), "{s:?}");
    }
}

#[test]
fn decimals_round_trip() {
    for n in [0, 9, 10, -1, -10, 1_700_000_000_000_000_000, i64::MAX, i64::MIN] {
        assert_eq!(write_decimal(n), n.to_string());
        assert_eq!(parse_decimal(&write_decimal(n)), Some(n));
    }
}

#[test]
fn lines_agree_with_the_standard_ones() {
    for s in ["", "\n", "a", "a\n", "a\r\nb", "a\r", "\r\n\r\n", "a\n\nb\n", "a\rb\n", "\r\r\n"] {
        let want: Vec<String> = s.lines().map(|l| l.to_string()).collect();
        assert_eq!(split_lines(s), want, "{s:?}");
    }
}
