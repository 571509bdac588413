use poly_orbits::algebraic_types::Matrix;
use poly_orbits::OrbitError;

#[test]
fn gl3_f2_has_168_elements() {
    let g = Matrix::generate_pgl3_f2();
    assert_eq!(g.len(), 168);
    for m in g.iter() {
        let det = m.determinant();
        assert!(det.rem_euclid(2) == 1);
        for r in 0..3 {
            for c in 0..3 {
                assert!(m.data[r][c] < 2);
            }
        }
    }
}

#[test]
fn sl3_f3_has_5616_elements() {
    // determinant congruent to 1 mod 3: the special linear group over GF(3)
    let g = Matrix::generate_pgl3_f3();
    assert_eq!(g.len(), 5616);
    for m in g.iter() {
        assert_eq!(m.determinant().rem_euclid(3), 1);
        for r in 0..3 {
            for c in 0..3 {
                assert!(m.data[r][c] < 3);
            }
        }
    }
}

#[test]
fn generate_pgl3_dispatches_and_rejects() {
    assert_eq!(Matrix::generate_pgl3(2).unwrap().len(), 168);
    assert_eq!(Matrix::generate_pgl3(3).unwrap().len(), 5616);
    assert_eq!(Matrix::generate_pgl3(5).unwrap_err(), OrbitError::UnsupportedFieldOrder);
    assert_eq!(Matrix::generate_pgl3(0).unwrap_err(), OrbitError::UnsupportedFieldOrder);
}

#[test]
fn determinant_of_known_matrices() {
    let id = Matrix::new([[1, 0, 0], [0, 1, 0], [0, 0, 1]]);
    assert_eq!(id.determinant(), 1);
    let swap = Matrix::new([[0, 1, 0], [1, 0, 0], [0, 0, 1]]);
    assert_eq!(swap.determinant(), -1);
    let m = Matrix::new([[2, 1, 0], [1, 2, 1], [0, 1, 2]]);
    assert_eq!(m.determinant(), 4);
    let singular = Matrix::new([[1, 1, 1], [1, 1, 1], [0, 1, 2]]);
    assert_eq!(singular.determinant(), 0);
}
