use poly_orbits::field::{internal_add, internal_add_f2, internal_add_f3, internal_add_f3_fast};
use poly_orbits::polynomials::Polynomial;

fn lanes3(vals: &[u64]) -> u64 {
    let mut x: u64 = 0;
    for (i, v) in vals.iter().enumerate() {
        x |= v << (2 * i);
    }
    x
}

#[test]
fn add_f3_matches_per_lane_addition_exhaustively() {
    // every pair of three-lane GF(3) vectors
    for a0 in 0..3u64 {
        for a1 in 0..3u64 {
            for a2 in 0..3u64 {
                for b0 in 0..3u64 {
                    for b1 in 0..3u64 {
                        for b2 in 0..3u64 {
                            let a = lanes3(&[a0, a1, a2]);
                            let b = lanes3(&[b0, b1, b2]);
                            let expect = lanes3(&[(a0 + b0) % 3, (a1 + b1) % 3, (a2 + b2) % 3]);
                            assert_eq!(internal_add_f3_fast(a, b), expect);
                            assert_eq!(internal_add_f3(a, b), expect);
                            assert_eq!(internal_add(a, b, 3), expect);
                        }
                    }
                }
            }
        }
    }
}

#[test]
fn add_f3_high_lanes() {
    // the same lane arithmetic at the top of the word
    let a = 2u64 << 62 | 1u64 << 60;
    let b = 2u64 << 62 | 2u64 << 60;
    let expect = 1u64 << 62 | 0u64 << 60;
    assert_eq!(internal_add_f3_fast(a, b), expect);
    assert_eq!(internal_add_f3(a, b), expect);
}

#[test]
fn add_f2_is_xor() {
    assert_eq!(internal_add_f2(0b1010, 0b0110), 0b1100);
    assert_eq!(internal_add(0xDEAD_BEEF, 0xFFFF_0000, 2), 0xDEAD_BEEF ^ 0xFFFF_0000);
}

#[test]
fn add_commutative_and_associative() {
    let xs = [lanes3(&[1, 2, 0, 1]), lanes3(&[2, 2, 1, 0]), lanes3(&[0, 1, 2, 2])];
    for &a in xs.iter() {
        for &b in xs.iter() {
            assert_eq!(internal_add(a, b, 3), internal_add(b, a, 3));
            for &c in xs.iter() {
                let l = internal_add(internal_add(a, b, 3), c, 3);
                let r = internal_add(a, internal_add(b, c, 3), 3);
                assert_eq!(l, r);
            }
        }
        assert_eq!(internal_add(a, 0, 3), a);
        assert_eq!(internal_add(a, a, 2), 0);
    }
}

#[test]
fn multiply_by_two_swaps_one_and_two() {
    for v in 0..3u64 {
        for pos in [0usize, 7, 31] {
            let x = v << (2 * pos);
            let expect = ((2 * v) % 3) << (2 * pos);
            assert_eq!(Polynomial::multiply_bits_by_2_f3(x), expect);
        }
    }
}

#[test]
fn multiply_bits_by_constant_cases() {
    let x = lanes3(&[1, 2, 0, 1]);
    assert_eq!(Polynomial::multiply_bits_by_constant(x, 0, 3), 0);
    assert_eq!(Polynomial::multiply_bits_by_constant(x, 1, 3), x);
    assert_eq!(Polynomial::multiply_bits_by_constant(x, 2, 3), lanes3(&[2, 1, 0, 2]));
    assert_eq!(Polynomial::multiply_bits_by_constant(x, 3, 3), 0);
    assert_eq!(Polynomial::multiply_bits_by_constant(0b101, 1, 2), 0b101);
    assert_eq!(Polynomial::multiply_bits_by_constant(0b101, 2, 2), 0);
}

#[test]
fn mul_constant_wraps_multiply() {
    let p = Polynomial::new(lanes3(&[2, 1, 1]));
    assert_eq!(p.mul_constant(2, 3).bits, lanes3(&[1, 2, 2]));
}

#[test]
fn leading_coeff_normalization() {
    // led by a 2: doubling swaps 1 and 2 everywhere
    let p = Polynomial::new(lanes3(&[1, 0, 2]));
    assert_eq!(p.multiply_leading_coeff_to_unit(3).bits, lanes3(&[2, 0, 1]));
    // already led by a 1: untouched
    let u = Polynomial::new(lanes3(&[2, 0, 1]));
    assert_eq!(u.multiply_leading_coeff_to_unit(3).bits, u.bits);
    // GF(2): always untouched
    let w = Polynomial::new(0b110);
    assert_eq!(w.multiply_leading_coeff_to_unit(2).bits, 0b110);
}
