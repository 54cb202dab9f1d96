use earthnet_node::double::Double;
use earthnet_node::reputation::{
    Reputation, DEFAULT_WEIGHT, HALF_LIFE_NS, MAX_WEIGHT, REWARD,
};

fn num(d: Double) -> f64 {
    f64::from_bits(d.bits)
}

fn fade(set: Double, elapsed_ns: u64) -> Double {
    let factor = (-(elapsed_ns as f64) / HALF_LIFE_NS as f64 * std::f64::consts::LN_2).exp();
    Double { bits: (1.0 + (num(set) - 1.0) * factor).to_bits() }
}

fn plus(a: Double, b: Double) -> Double {
    Double { bits: (num(a) + num(b)).to_bits() }
}

fn read_weight(text: &str) -> Option<Double> {
    text.parse::<f64>().ok().map(|w| Double { bits: w.to_bits() })
}

fn write_weight(w: Double) -> String {
    format!("{}", num(w))
}

#[test]
fn reward_then_decay_toward_default() {
    let mut r = Reputation::new();
    let pk = vec![1u8; 32];
    let t0 = 1_000_000_000_000_000_000;
    r.reward(&pk, t0, &fade, &plus); // 1.0 -> 1.5
    assert!((num(r.weight(&pk, t0, &fade)) - 1.5).abs() < 1e-9);
    // after one half-life, (1.5 - 1.0) halves -> 1.25
    let after = num(r.weight(&pk, t0 + HALF_LIFE_NS, &fade));
    assert!((after - 1.25).abs() < 1e-3, "after={after}");
}

#[test]
fn reward_is_capped() {
    let mut r = Reputation::new();
    let pk = vec![2u8; 32];
    let t = 1_000_000_000_000_000_000;
    for _ in 0..50 {
        r.reward(&pk, t, &fade, &plus);
    }
    assert!(num(r.weight(&pk, t, &fade)) <= f64::from_bits(MAX_WEIGHT));
    assert_eq!(num(r.weight(&pk, t, &fade)), 5.0);
}

#[test]
fn save_load_roundtrip() {
    let mut r = Reputation::new();
    let pk = vec![3u8; 32];
    let t = 1_700_000_000_000_000_000;
    r.reward(&pk, t, &fade, &plus);
    let text = r.save(&write_weight);
    let r2 = Reputation::load(Some(&text), &read_weight);
    assert!((num(r2.weight(&pk, t, &fade)) - num(r.weight(&pk, t, &fade))).abs() < 1e-9);
}

#[test]
fn saved_text_is_one_line_per_identity() {
    let mut r = Reputation::new();
    r.reward(&[0xab, 0x01], -5, &fade, &plus);
    r.reward(&[], 7, &fade, &plus);
    r.reward(&[0xab, 0x01], -5, &fade, &plus);
    assert_eq!(r.save(&write_weight), "ab01\t2\t-5\n\t1.5\t7\n");
}

#[test]
fn many_identities_survive_a_restart() {
    let mut r = Reputation::new();
    for i in 0..40u8 {
        for _ in 0..(i % 5) + 1 {
            r.reward(&[i, 9], i as i64 * 1000, &fade, &plus);
        }
    }
    let back = Reputation::load(Some(&r.save(&write_weight)), &read_weight);
    for i in 0..40u8 {
        let t = i as i64 * 1000 + 77;
        assert_eq!(r.weight(&[i, 9], t, &fade), back.weight(&[i, 9], t, &fade));
    }
    assert_eq!(back.save(&write_weight), r.save(&write_weight));
}

#[test]
fn unknown_identity_has_the_default_weight() {
    let r = Reputation::load(None, &read_weight);
    assert_eq!(num(r.weight(&[1], 0, &fade)), f64::from_bits(DEFAULT_WEIGHT));
    assert_eq!(num(r.weight(&[], i64::MAX, &fade)), 1.0);
    assert_eq!(r.save(&write_weight), "");
}

#[test]
fn the_past_does_not_decay() {
    let mut r = Reputation::new();
    r.reward(&[1], 100, &fade, &plus);
    assert_eq!(num(r.weight(&[1], 100, &fade)), 1.5);
    assert_eq!(num(r.weight(&[1], i64::MIN, &fade)), 1.5);
}

#[test]
fn elapsed_time_is_exact_at_the_extremes() {
    let mut r = Reputation::new();
    r.reward(&[1], i64::MIN, &fade, &plus);
    let elapsed = |_: Double, elapsed_ns: u64| Double { bits: elapsed_ns };
    assert_eq!(r.weight(&[1], i64::MAX, &elapsed).bits, u64::MAX);
    assert_eq!(r.weight(&[1], i64::MIN + 3, &elapsed).bits, 3);
}

#[test]
fn reward_leaves_others_alone() {
    let mut r = Reputation::new();
    r.reward(&[1], 0, &fade, &plus);
    r.reward(&[1, 1], 0, &fade, &plus);
    r.reward(&[1, 1], 0, &fade, &plus);
    assert_eq!(num(r.weight(&[1], 0, &fade)), 1.0 + f64::from_bits(REWARD));
    assert_eq!(num(r.weight(&[1, 1], 0, &fade)), 2.0);
    assert_eq!(num(r.weight(&[2], 0, &fade)), 1.0);
}

#[test]
fn a_sum_that_is_no_number_becomes_the_cap() {
    let mut r = Reputation::new();
    let nan = |_: Double, _: Double| Double { bits: f64::NAN.to_bits() };
    r.reward(&[1], 0, &fade, &nan);
    assert_eq!(num(r.weight(&[1], 0, &fade)), 5.0);
}

#[test]
fn malformed_lines_are_passed_over() {
    let text = "01\t2.5\t10\textra\r\n\
                02\t2.5\n\
                0g\t2.5\t10\n\
                03\theavy\t10\n\
                04\t2.5\tsoon\n\
                05\t2.5\t10 \n\
                \n\
                01\t3.5\t20\n\
                06\tinf\t-1";
    let r = Reputation::load(Some(text), &read_weight);
    assert_eq!(num(r.weight(&[1], 20, &fade)), 3.5);
    for unread in 2..=5u8 {
        assert_eq!(num(r.weight(&[unread], 10, &fade)), 1.0, "{unread}");
    }
    assert_eq!(num(r.weight(&[6], -1, &fade)), f64::INFINITY);
    assert_eq!(r.save(&write_weight), "01\t3.5\t20\n06\tinf\t-1\n");
}

#[test]
fn half_life_is_seven_days() {
    assert_eq!(HALF_LIFE_NS, 7 * 24 * 3600 * 1_000_000_000);
}

#[test]
fn weights_lie_between_the_default_and_the_cap() {
    let mut r = Reputation::new();
    let t0 = 1_000_000_000_000_000_000;
    for i in 0..40i64 {
        let pk = vec![(i % 3) as u8; 32];
        let now = t0 + i * HALF_LIFE_NS / 4;
        let before = num(r.weight(&pk, now, &fade));
        r.reward(&pk, now, &fade, &plus);
        assert_eq!(num(r.weight(&pk, now, &fade)), (before + 0.5).min(5.0));
        for k in 0..4u8 {
            for t in [t0, now, now + HALF_LIFE_NS, now + 50 * HALF_LIFE_NS] {
                let w = num(r.weight(&vec![k; 32], t, &fade));
                assert!((1.0..=5.0).contains(&w), "weight={w}");
            }
        }
    }
}
