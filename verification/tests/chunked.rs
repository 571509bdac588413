use poly_orbits::algebraic_types::Matrix;
use poly_orbits::enumerate::{count_coeffs, enumerate_orbits, process_candidate};
use poly_orbits::polynomials::{generate_transform_lut, Polynomial};

fn size_profile(records: &[poly_orbits::enumerate::IsoPolynomial], q: u64, nl: usize) -> Vec<(u32, u32)> {
    let mut pairs: Vec<(u32, u32)> = records
        .iter()
        .map(|r| (count_coeffs(r.representative.bits, q, nl), r.size))
        .collect();
    pairs.sort();
    pairs
}

#[test]
fn sequential_and_chunked_agree_on_gf2_degree_one() {
    let seq = enumerate_orbits(1, 2, false, 4).unwrap();
    let chunked = enumerate_orbits(1, 2, true, 4).unwrap();
    assert_eq!(size_profile(&seq, 2, 3), size_profile(&chunked, 2, 3));
}

#[test]
fn sequential_and_chunked_agree_on_gf2_degree_two() {
    let seq = enumerate_orbits(2, 2, false, 8).unwrap();
    let chunked = enumerate_orbits(2, 2, true, 8).unwrap();
    let sp = size_profile(&seq, 2, 6);
    let cp = size_profile(&chunked, 2, 6);
    assert_eq!(sp, cp);
    let total: u32 = chunked.iter().map(|r| r.size).sum();
    assert_eq!(total, 63);
}

#[test]
fn sequential_and_chunked_agree_on_gf3_degree_one() {
    let seq = enumerate_orbits(1, 3, false, 5).unwrap();
    let chunked = enumerate_orbits(1, 3, true, 5).unwrap();
    assert_eq!(size_profile(&seq, 3, 3), size_profile(&chunked, 3, 3));
}

#[test]
fn chunk_size_does_not_change_the_outcome() {
    let base = enumerate_orbits(2, 2, true, 1).unwrap();
    for cs in [2usize, 3, 7, 64, 1000] {
        let other = enumerate_orbits(2, 2, true, cs).unwrap();
        assert_eq!(size_profile(&base, 2, 6), size_profile(&other, 2, 6));
    }
}

#[test]
fn candidate_step_claims_or_abandons() {
    // one matrix swapping x and z: images of y stay at y, images of x and z
    // swap places
    let swap = Matrix::new([[0, 0, 1], [0, 1, 0], [1, 0, 0]]);
    let normal = Polynomial::generate_default_lut(1);
    let lut = generate_transform_lut(&vec![swap], &normal, 2);
    // slots are z, y, x: the polynomial "x" (index 4) maps to "z" (index 1)
    let mut table = vec![false; 8];
    // candidate 4 abandons: its image 1 lies in an earlier region
    assert!(process_candidate(&mut table, 4, &lut, 2, 3).is_none());
    assert!(table.iter().all(|m| !m));
    // candidate 1 claims itself and its image 4
    let rec = process_candidate(&mut table, 1, &lut, 2, 3).unwrap();
    assert_eq!(rec.size, 2);
    assert_eq!(rec.representative.bits, 1);
    assert!(table[1] && table[4]);
    // a claimed candidate is skipped
    assert!(process_candidate(&mut table, 1, &lut, 2, 3).is_none());
}
