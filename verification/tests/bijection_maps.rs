use poly_orbits::bijection::{
    f3_bijection, f3_bijection_inverse, index_to_poly_map, next_f3, poly_next, poly_to_index_map,
};

#[test]
fn f3_round_trip_exhaustive_three_lanes() {
    // every index of the 3-lane domain survives the round trip
    for idx in 0..27u64 {
        let packed = f3_bijection(idx, 3);
        assert_eq!(f3_bijection_inverse(packed, 3), idx);
    }
}

#[test]
fn f3_round_trip_samples_wide() {
    let nl = 21usize;
    let samples: [u64; 6] = [0, 1, 2, 3, 1234567890, 10460353202];
    for &idx in samples.iter() {
        let packed = f3_bijection(idx, nl);
        assert_eq!(f3_bijection_inverse(packed, nl), idx);
    }
}

#[test]
fn f3_bijection_writes_digits_into_lanes() {
    // 14 = 2 + 1*3 + 1*9
    assert_eq!(f3_bijection(14, 3), 0b01_01_10);
    assert_eq!(f3_bijection_inverse(0b01_01_10, 3), 14);
}

#[test]
fn f2_maps_are_identities() {
    for idx in 0..16u64 {
        assert_eq!(index_to_poly_map(idx, 2, 4), idx);
        assert_eq!(poly_to_index_map(idx, 2, 4), idx);
    }
}

#[test]
fn next_f3_steps_through_every_packed_value_in_index_order() {
    let nl = 5usize;
    let mut bits: u64 = 0;
    for idx in 0..(243 - 1) as u64 {
        assert_eq!(f3_bijection_inverse(bits, nl), idx);
        bits = next_f3(bits);
    }
    assert_eq!(f3_bijection_inverse(bits, nl), 242);
}

#[test]
fn poly_next_matches_encode_of_successor() {
    let nl = 4usize;
    for idx in 0..80u64 {
        let cur = index_to_poly_map(idx, 3, nl);
        let nxt = poly_next(cur, 3, nl);
        assert_eq!(nxt, index_to_poly_map(idx + 1, 3, nl));
    }
    for idx in 0..15u64 {
        assert_eq!(poly_next(idx, 2, 4), idx + 1);
    }
}
