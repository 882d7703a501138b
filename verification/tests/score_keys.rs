use vecdb_core::score::{key_bits, order_key};

fn key(x: f32) -> u32 {
    order_key(x.to_bits())
}

#[test]
fn keys_follow_float_order() {
    let xs = [
        f32::NEG_INFINITY, -1e30, -2.5, -1.0, -1e-30, 0.0, 1e-30, 0.5, 1.0, 2.5, 1e30,
        f32::INFINITY,
    ];
    for i in 0..xs.len() {
        for j in 0..xs.len() {
            assert_eq!(xs[i] < xs[j], key(xs[i]) < key(xs[j]), "{} {}", xs[i], xs[j]);
        }
    }
}

#[test]
fn zero_signs_share_a_key() {
    assert_eq!(key(-0.0), key(0.0));
    assert_eq!(f32::from_bits(key_bits(key(-0.0))), 0.0);
}

#[test]
fn keys_round_trip() {
    for x in [1.0f32, -1.0, 0.75, -123.5, f32::MAX, f32::MIN, f32::MIN_POSITIVE] {
        assert_eq!(f32::from_bits(key_bits(key(x))), x);
    }
}

#[test]
fn nan_keys_lie_above_every_number() {
    let neg_nan = f32::from_bits(0xFFC0_0000);
    for nan in [f32::NAN, neg_nan] {
        for x in [f32::NEG_INFINITY, -1.0, 0.0, 1.0, f32::MAX, f32::INFINITY] {
            assert!(key(x) < key(nan));
        }
    }
    assert_eq!(key_bits(key(neg_nan)), 0x7FC0_0000);
    assert_eq!(key_bits(key(f32::NAN)), f32::NAN.to_bits());
}
