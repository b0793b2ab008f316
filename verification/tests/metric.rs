use road_network::metric::{squared_distance, within_threshold};

#[test]
fn squared_distance_of_a_3_4_5_triangle() {
    assert_eq!(squared_distance((0, 0), (3, 4)), 25);
    assert_eq!(squared_distance((3, 4), (0, 0)), 25);
}

#[test]
fn squared_distance_between_the_far_corners_of_the_grid() {
    let d = squared_distance((i32::MIN, i32::MIN), (i32::MAX, i32::MAX));
    assert_eq!(d, 2 * 4294967295u128 * 4294967295u128);
}

#[test]
fn threshold_includes_the_boundary() {
    assert!(within_threshold((0, 0), (3, 4), 5));
    assert!(!within_threshold((0, 0), (3, 4), 4));
    assert!(within_threshold((7, 7), (7, 7), 0));
}
