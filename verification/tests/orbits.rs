use poly_orbits::algebraic_types::Matrix;
use poly_orbits::enumerate::{count_coeffs, enumerate_orbits, generate_iso_polynomials};
use poly_orbits::polynomials::{generate_transform_lut, Polynomial};
use poly_orbits::OrbitError;

#[test]
fn gf2_degree_one_single_orbit_of_seven() {
    // 3 monomials, 7 nonzero linear forms, all equivalent under GL(3, 2)
    let records = enumerate_orbits(1, 2, false, 1024).unwrap();
    assert_eq!(records.len(), 1);
    let (rep, size) = records[0].deconstruct();
    assert_eq!(size, 7);
    assert_eq!(count_coeffs(rep.bits, 2, 3), 1);
    assert_eq!(rep.bits, 1);
}

#[test]
fn gf3_degree_one_single_orbit_of_twentysix() {
    // the determinant-1 subgroup still acts transitively on nonzero forms
    let records = enumerate_orbits(1, 3, false, 1024).unwrap();
    let total: u32 = records.iter().map(|r| r.size).sum();
    assert_eq!(total, 26);
    assert_eq!(records.len(), 1);
    assert_eq!(records[0].size, 26);
    assert_eq!(count_coeffs(records[0].representative.bits, 3, 3), 1);
}

#[test]
fn gf2_degree_two_partitions_the_space() {
    // 6 monomials: the orbit sizes must sum to 2^6 - 1
    let records = enumerate_orbits(2, 2, false, 1024).unwrap();
    let total: u32 = records.iter().map(|r| r.size).sum();
    assert_eq!(total, 63);
}

#[test]
fn representative_is_minimal_within_its_orbit() {
    // recompute each orbit from its representative and look for a smaller
    // member, first by nonzero-coefficient count, then by packed value
    let group = Matrix::generate_pgl3_f2();
    let normal = Polynomial::generate_default_lut(2);
    let lut = generate_transform_lut(&group, &normal, 2);
    let records = generate_iso_polynomials(&lut, 2, 6);
    for rec in records.iter() {
        let rep = rec.representative;
        let rep_count = count_coeffs(rep.bits, 2, 6);
        for row in lut.iter() {
            let image = rep.transform_by_matrix(row, 2);
            let image_count = count_coeffs(image.bits, 2, 6);
            assert!(
                image_count > rep_count
                    || (image_count == rep_count && image.bits >= rep.bits)
            );
        }
    }
}

#[test]
fn unsupported_field_order_is_reported() {
    assert_eq!(enumerate_orbits(1, 5, false, 64).unwrap_err(), OrbitError::UnsupportedFieldOrder);
    assert_eq!(enumerate_orbits(1, 0, false, 64).unwrap_err(), OrbitError::UnsupportedFieldOrder);
}

#[test]
fn oversized_width_is_reported() {
    // degree 7 over GF(3) needs 36 two-bit lanes: more than one word
    assert_eq!(enumerate_orbits(7, 3, false, 64).unwrap_err(), OrbitError::WidthExceeded);
    // degree 12 over GF(2) needs 91 lanes
    assert_eq!(enumerate_orbits(12, 2, false, 64).unwrap_err(), OrbitError::WidthExceeded);
}
