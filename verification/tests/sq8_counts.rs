use vecdb_core::quantize::sq8_dot_norms;

#[test]
fn dot_and_norms_of_bytes() {
    assert_eq!(sq8_dot_norms(&[1, 2, 3], &[4, 5, 6]), (32, 14, 77));
}

#[test]
fn only_shared_components_count() {
    assert_eq!(sq8_dot_norms(&[255, 255, 9], &[255]), (65025, 65025, 65025));
    assert_eq!(sq8_dot_norms(&[], &[1, 2]), (0, 0, 0));
}

use vecdb_core::quantize::{nearest_codes, F32_MAX_KEY};
use vecdb_core::score::order_key;

fn k(x: f32) -> u32 {
    order_key(x.to_bits())
}

#[test]
fn max_key_is_key_of_f32_max() {
    assert_eq!(F32_MAX_KEY, k(f32::MAX));
}

#[test]
fn nearest_code_is_first_smallest() {
    let keys = vec![
        vec![k(3.0), k(1.0), k(2.0), k(1.0)],
        vec![k(0.5)],
        vec![],
        vec![k(f32::INFINITY), k(f32::MAX)],
    ];
    assert_eq!(nearest_codes(&keys), vec![1, 0, 0, 0]);
}

#[test]
fn nearest_code_truncates_to_a_byte() {
    let mut row = vec![k(5.0); 300];
    row[260] = k(1.0);
    assert_eq!(nearest_codes(&vec![row]), vec![4]);
}

#[test]
fn nan_distance_is_never_nearest() {
    let neg_nan = f32::from_bits(0xFFC0_0000);
    assert_eq!(nearest_codes(&vec![vec![k(neg_nan), k(2.0), k(f32::NAN)]]), vec![1]);
    assert_eq!(nearest_codes(&vec![vec![k(f32::NAN), k(neg_nan)]]), vec![0]);
}
