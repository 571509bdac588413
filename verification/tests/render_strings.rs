use poly_orbits::algebraic_types::PackedBool;
use poly_orbits::enumerate::IsoPolynomial;
use poly_orbits::polynomials::{Polynomial, Term};
use poly_orbits::render::u64_dec_string;

#[test]
fn decimal_rendering() {
    assert_eq!(u64_dec_string(0), "0");
    assert_eq!(u64_dec_string(7), "7");
    assert_eq!(u64_dec_string(10), "10");
    assert_eq!(u64_dec_string(1234567890), "1234567890");
    assert_eq!(u64_dec_string(u64::MAX), "18446744073709551615");
}

#[test]
fn term_rendering() {
    let t = Term { x_deg: 1, y_deg: 0, z_deg: 0, constant: 1 };
    assert_eq!(t.str(), "1_100");
    let u = Term { x_deg: 0, y_deg: 2, z_deg: 3, constant: 2 };
    assert_eq!(u.str(), "2_023");
}

#[test]
fn polynomial_rendering() {
    let lut = Polynomial::generate_default_lut(1);
    // slots for degree 1 are (0,0,1), (0,1,0), (1,0,0)
    let p = Polynomial::new(0b101);
    assert_eq!(p.str(&lut, 2), "1_001 1_100");
    let z = Polynomial::new(0);
    assert_eq!(z.str(&lut, 2), "");
    let q3 = Polynomial::new(0b10_00_01);
    assert_eq!(q3.str(&lut, 3), "1_001 2_100");
}

#[test]
fn record_rendering() {
    let lut = Polynomial::generate_default_lut(1);
    let rec = IsoPolynomial { representative: Polynomial::new(0b001), size: 7 };
    assert_eq!(rec.to_string(&lut, 2), "1_001 | 7");
}

#[test]
fn packed_bool_set_and_get() {
    let mut pack = PackedBool::new(100);
    for i in [0usize, 1, 7, 8, 63, 64, 99] {
        assert!(!pack.get(i));
    }
    pack.set(9, true);
    pack.set(64, true);
    assert!(pack.get(9));
    assert!(pack.get(64));
    assert!(!pack.get(8));
    assert!(!pack.get(10));
    assert!(!pack.get(65));
    pack.set(9, false);
    assert!(!pack.get(9));
    assert!(pack.get(64));
}
