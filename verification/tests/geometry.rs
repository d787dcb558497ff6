use traffic_sim::road::geometry::{
    integer_sqrt, interpolate_axis, piece_length_of, straight_line_distance, COORDINATE_LIMIT,
};

#[test]
fn integer_sqrt_rounds_down() {
    assert_eq!(integer_sqrt(0), 0);
    assert_eq!(integer_sqrt(1), 1);
    assert_eq!(integer_sqrt(2), 1);
    assert_eq!(integer_sqrt(3), 1);
    assert_eq!(integer_sqrt(4), 2);
    assert_eq!(integer_sqrt(15), 3);
    assert_eq!(integer_sqrt(16), 4);
    assert_eq!(integer_sqrt(17), 4);
    assert_eq!(integer_sqrt(900_000_000_000_000), 30_000_000);
    assert_eq!(integer_sqrt(899_999_999_999_999), 29_999_999);
}

#[test]
fn integer_sqrt_of_the_largest_number() {
    assert_eq!(integer_sqrt(u128::MAX), u64::MAX);
    assert_eq!(integer_sqrt((u64::MAX as u128) * (u64::MAX as u128)), u64::MAX);
    assert_eq!(integer_sqrt((u64::MAX as u128) * (u64::MAX as u128) - 1), u64::MAX - 1);
}

#[test]
fn straight_line_rounds_down() {
    assert_eq!(straight_line_distance(0, 0, 3, 4), 5);
    assert_eq!(straight_line_distance(0, 0, 1, 1), 1);
    assert_eq!(straight_line_distance(-2, -2, 2, 2), 5);
    assert_eq!(straight_line_distance(7, 7, 7, 7), 0);
    assert_eq!(straight_line_distance(10, 0, -10, 0), 20);
}

#[test]
fn piece_length_rounds_up() {
    assert_eq!(piece_length_of(0, 0, 3, 4), 5);
    assert_eq!(piece_length_of(0, 0, 1, 1), 2);
    assert_eq!(piece_length_of(-2, -2, 2, 2), 6);
    assert_eq!(piece_length_of(7, 7, 7, 7), 0);
    assert_eq!(piece_length_of(0, 10, 0, -10), 20);
}

#[test]
fn distances_at_the_edge_of_the_plane() {
    let l = COORDINATE_LIMIT;
    // the diagonal of the plane is 2 * sqrt(2) * 10^18 long
    assert_eq!(straight_line_distance(-l, -l, l, l), 2_828_427_124_746_190_097);
    assert_eq!(piece_length_of(-l, -l, l, l), 2_828_427_124_746_190_098);
    assert_eq!(piece_length_of(-l, 0, l, 0), 2_000_000_000_000_000_000);
}

#[test]
fn interpolation_rounds_towards_the_start() {
    assert_eq!(interpolate_axis(0, 10, 0, 4), 0);
    assert_eq!(interpolate_axis(0, 10, 1, 4), 2);
    assert_eq!(interpolate_axis(0, 10, 2, 4), 5);
    assert_eq!(interpolate_axis(0, 10, 3, 4), 7);
    assert_eq!(interpolate_axis(0, 10, 4, 4), 10);
    assert_eq!(interpolate_axis(0, -10, 1, 4), -2);
    assert_eq!(interpolate_axis(0, -10, 3, 4), -7);
    assert_eq!(interpolate_axis(0, -10, 4, 4), -10);
    assert_eq!(interpolate_axis(5, 5, 3, 4), 5);
}
