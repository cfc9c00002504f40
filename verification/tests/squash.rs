use neat::fixed::{clamp, knot_value, ONE};
use neat::network::Network;

fn as_real(x: i32) -> f64 {
    x as f64 / ONE as f64
}

fn curve(x: f64) -> f64 {
    2.0 / (1.0 + (-x).exp()) - 1.0
}

#[test]
fn sigmoid_of_zero_is_zero() {
    assert_eq!(Network::sigmoid(0), 0);
}

#[test]
fn sigmoid_hits_the_knots() {
    assert_eq!(Network::sigmoid(8192), 4091);
    assert_eq!(Network::sigmoid(ONE), 30285);
    assert_eq!(Network::sigmoid(2 * ONE), 49912);
    assert_eq!(knot_value(0), 0);
    assert_eq!(knot_value(8), 30285);
    assert_eq!(knot_value(96), 65535);
}

#[test]
fn sigmoid_interpolates_between_knots() {
    // Halfway between the knots 0 and 4091.
    assert_eq!(Network::sigmoid(4096), 2045);
    // A quarter of the way from 4091 to 8150.
    assert_eq!(Network::sigmoid(8192 + 2048), 4091 + (8150 - 4091) * 2048 / 8192);
}

#[test]
fn sigmoid_is_odd() {
    for x in [1, 17, 4096, 8192, 65536, 300000, 786431, 786432, 5_000_000, i32::MAX] {
        assert_eq!(Network::sigmoid(-x), -Network::sigmoid(x));
    }
    assert_eq!(Network::sigmoid(i32::MIN), -65535);
}

#[test]
fn sigmoid_saturates_below_one() {
    assert_eq!(Network::sigmoid(12 * ONE), 65535);
    assert_eq!(Network::sigmoid(12 * ONE - 1), 65535);
    assert_eq!(Network::sigmoid(i32::MAX), 65535);
    assert_eq!(Network::sigmoid(-12 * ONE), -65535);
    assert!(Network::sigmoid(i32::MAX) < ONE);
    assert!(Network::sigmoid(i32::MIN) > -ONE);
}

#[test]
fn sigmoid_never_descends() {
    let mut last = Network::sigmoid(-900_000);
    let mut x = -900_000;
    while x <= 900_000 {
        let y = Network::sigmoid(x);
        assert!(y >= last, "descends at {}", x);
        last = y;
        x += 37;
    }
}

#[test]
fn sigmoid_follows_the_curve() {
    let mut x = -14 * ONE;
    while x <= 14 * ONE {
        let got = as_real(Network::sigmoid(x));
        let want = curve(as_real(x));
        assert!((got - want).abs() < 0.0005, "at {}: {} against {}", x, got, want);
        x += 101;
    }
}

#[test]
fn clamp_limits_both_ways() {
    assert_eq!(clamp(70000, -ONE, ONE), ONE);
    assert_eq!(clamp(-70000, -ONE, ONE), -ONE);
    assert_eq!(clamp(123, -ONE, ONE), 123);
    assert_eq!(clamp(i64::MAX, -5, 5), 5);
    assert_eq!(clamp(i64::MIN, -5, 5), -5);
}
