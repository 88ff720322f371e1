use earworm::binary32::{Binary32, NEG_INF_BITS, POS_INF_BITS, SIGN_BIT};

fn b(x: f32) -> Binary32 {
    Binary32 { bits: x.to_bits() }
}

#[test]
fn binary32_orders_like_the_operators() {
    assert!(b(1.0).lt(b(2.0)));
    assert!(!b(2.0).lt(b(1.0)));
    assert!(b(-3.5).lt(b(-1.0)));
    assert!(b(-1.0).lt(b(0.5)));
    assert!(!b(0.0).lt(b(-0.0)));
    assert!(!b(-0.0).lt(b(0.0)));
    assert!(b(0.0).ge(b(-0.0)));
    assert!(b(-0.0).le(b(0.0)));
    assert!(b(2.0).ge(b(2.0)));
    assert!(!b(1.0).ge(b(2.0)));
    assert!(b(1.0).le(b(1.0)));
    assert!(!b(3.0).le(b(1.0)));
}

#[test]
fn binary32_nan_compares_with_nothing() {
    let nan = b(f32::NAN);
    assert!(nan.is_nan());
    assert!(!b(1.0).is_nan());
    assert!(!Binary32 { bits: POS_INF_BITS }.is_nan());
    assert!(!nan.lt(b(1.0)));
    assert!(!b(1.0).lt(nan));
    assert!(!nan.ge(nan));
    assert!(!nan.le(b(0.0)));
}

#[test]
fn binary32_total_key_follows_total_cmp() {
    let xs = [f32::NEG_INFINITY, -2.0, -0.0, 0.0, 1.5, f32::INFINITY];
    for w in xs.windows(2) {
        assert!(b(w[0]).total_key() < b(w[1]).total_key());
        assert_eq!(w[0].total_cmp(&w[1]), std::cmp::Ordering::Less);
    }
    assert_eq!(b(0.0).total_key(), 0);
    assert_eq!(b(-0.0).total_key(), -1);
    assert!(Binary32 { bits: NEG_INF_BITS }.total_key() < b(-1.0e30).total_key());
}

#[test]
fn binary32_abs_clears_the_sign() {
    assert_eq!(b(-2.5).abs(), b(2.5));
    assert_eq!(b(2.5).abs(), b(2.5));
    assert_eq!(Binary32 { bits: SIGN_BIT }.abs(), b(0.0));
    assert_eq!(f32::from_bits(b(-0.75).abs().bits), 0.75);
}
