//! 3x3 matrices over GF(2) and GF(3) and the generation of the acting
//! group: every matrix whose determinant satisfies the group's membership
//! predicate (nonzero mod 2, respectively congruent to 1 mod 3).

use vstd::prelude::*;

use crate::bijection::{lemma_tern_digit_bound, tern_digit};
use vstd::arithmetic::div_mod::lemma_mod_multiples_vanish;

verus! {

/// A 3x3 matrix of field elements, acting on polynomials by substituting
/// each variable with the linear form given by the matching row.
#[derive(Debug, Copy, Clone, PartialEq, Hash, Eq)]
pub struct Matrix {
    pub data: [[u8; 3]; 3],
}

/// Every entry is a field element: strictly below the field order.
pub open spec fn mat_wf(m: Matrix, q: u64) -> bool {
    forall|i: int, j: int| 0 <= i < 3 && 0 <= j < 3 ==> #[trigger] m.data[i][j] < q
}

/// The determinant of a 3x3 matrix, expanded along the first row, as an
/// integer (before any reduction mod q).
pub open spec fn spec_det(m: Matrix) -> int {
    m.data[0][0] * (m.data[1][1] * m.data[2][2] - m.data[1][2] * m.data[2][1]) - m.data[0][1] * (
    m.data[1][0] * m.data[2][2] - m.data[1][2] * m.data[2][0]) + m.data[0][2] * (m.data[1][0]
        * m.data[2][1] - m.data[1][1] * m.data[2][0])
}

/// The 0/1 matrix encoded by the low 9 bits of `code`, row-major.
pub open spec fn f2_matrix_of(code: u32) -> Matrix {
    Matrix {
        data: [
            [((code >> 0u32) & 1) as u8, ((code >> 1u32) & 1) as u8, ((code >> 2u32) & 1) as u8],
            [((code >> 3u32) & 1) as u8, ((code >> 4u32) & 1) as u8, ((code >> 5u32) & 1) as u8],
            [((code >> 6u32) & 1) as u8, ((code >> 7u32) & 1) as u8, ((code >> 8u32) & 1) as u8],
        ],
    }
}

/// The matrix over GF(3) encoded by the low 9 ternary digits of `code`,
/// row-major.
pub open spec fn f3_matrix_of(code: u64) -> Matrix {
    Matrix {
        data: [
            [
                tern_digit(code, 0) as u8,
                tern_digit(code, 1) as u8,
                tern_digit(code, 2) as u8,
            ],
            [
                tern_digit(code, 3) as u8,
                tern_digit(code, 4) as u8,
                tern_digit(code, 5) as u8,
            ],
            [
                tern_digit(code, 6) as u8,
                tern_digit(code, 7) as u8,
                tern_digit(code, 8) as u8,
            ],
        ],
    }
}

/// The matrices over GF(2) with odd determinant, among the codes below `n`,
/// in code order.
pub open spec fn pgl3_f2_prefix(n: nat) -> Seq<Matrix>
    decreases n,
{
    if n == 0 {
        Seq::empty()
    } else {
        let s = pgl3_f2_prefix((n - 1) as nat);
        if spec_det(f2_matrix_of((n - 1) as u32)) % 2 == 1 {
            s.push(f2_matrix_of((n - 1) as u32))
        } else {
            s
        }
    }
}

/// The matrices over GF(3) with determinant congruent to 1 mod 3, among
/// the codes below `n`, in code order.
pub open spec fn pgl3_f3_prefix(n: nat) -> Seq<Matrix>
    decreases n,
{
    if n == 0 {
        Seq::empty()
    } else {
        let s = pgl3_f3_prefix((n - 1) as nat);
        if spec_det(f3_matrix_of((n - 1) as u64)) % 3 == 1 {
            s.push(f3_matrix_of((n - 1) as u64))
        } else {
            s
        }
    }
}

impl Matrix {
    /// Wraps a raw 3x3 entry array.
    pub fn new(data: [[u8; 3]; 3]) -> (m: Matrix)
        ensures
            m.data == data,
    {
        Matrix { data: data }
    }

    /// The determinant, computed over the integers.
    pub fn determinant(&self) -> (d: i32)
        requires
            mat_wf(*self, 3),
        ensures
            d == spec_det(*self),
            -24 <= d <= 24,
    {
        let a = self.data[0][0] as i32;
        let b = self.data[0][1] as i32;
        let c = self.data[0][2] as i32;
        let d_ = self.data[1][0] as i32;
        let e = self.data[1][1] as i32;
        let f = self.data[1][2] as i32;
        let g = self.data[2][0] as i32;
        let h = self.data[2][1] as i32;
        let k = self.data[2][2] as i32;
        proof {
            assert(a <= 2 && b <= 2 && c <= 2 && d_ <= 2 && e <= 2 && f <= 2 && g <= 2 && h <= 2
                && k <= 2);
            assert(e * k <= 4 && e * k >= 0 && f * h <= 4 && f * h >= 0 && d_ * k <= 4 && d_ * k
                >= 0 && f * g <= 4 && f * g >= 0 && d_ * h <= 4 && d_ * h >= 0 && e * g <= 4 && e
                * g >= 0) by (nonlinear_arith)
                requires
                    0 <= e <= 2,
                    0 <= k <= 2,
                    0 <= f <= 2,
                    0 <= h <= 2,
                    0 <= d_ <= 2,
                    0 <= g <= 2,
            ;
            assert(a * (e * k - f * h) <= 8 && a * (e * k - f * h) >= -8 && b * (d_ * k - f * g)
                <= 8 && b * (d_ * k - f * g) >= -8 && c * (d_ * h - e * g) <= 8 && c * (d_ * h - e
                * g) >= -8) by (nonlinear_arith)
                requires
                    0 <= a <= 2,
                    0 <= b <= 2,
                    0 <= c <= 2,
                    -4 <= e * k - f * h <= 4,
                    -4 <= d_ * k - f * g <= 4,
                    -4 <= d_ * h - e * g <= 4,
            ;
        }
        a * (e * k - f * h) - b * (d_ * k - f * g) + c * (d_ * h - e * g)
    }

    /// Enumerates the matrices of the acting group for field order `q`, or
    /// reports that the field order is unsupported.
    pub fn generate_pgl3(q: u64) -> (r: Result<Vec<Matrix>, crate::OrbitError>)
        ensures
            q == 2 ==> r is Ok && r->Ok_0@ == pgl3_f2_prefix(512),
            q == 3 ==> r is Ok && r->Ok_0@ == pgl3_f3_prefix(19683),
            q != 2 && q != 3 ==> r is Err && r->Err_0 == crate::OrbitError::UnsupportedFieldOrder,
    {
        match q {
            2 => Ok(Matrix::generate_pgl3_f2()),
            3 => Ok(Matrix::generate_pgl3_f3()),
            _ => Err(crate::OrbitError::UnsupportedFieldOrder),
        }
    }

    /// All invertible 3x3 matrices over GF(2): every 0/1 assignment whose
    /// determinant is odd, in code order.
    pub fn generate_pgl3_f2() -> (r: Vec<Matrix>)
        ensures
            r@ == pgl3_f2_prefix(512),
    {
        let mut out: Vec<Matrix> = Vec::new();
        let mut i: u32 = 0;
        while i < 512
            invariant
                i <= 512,
                out@ == pgl3_f2_prefix(i as nat),
            decreases 512 - i,
        {
            let m = Matrix {
                data: [
                    [
                        ((i >> 0u32) & 1) as u8,
                        ((i >> 1u32) & 1) as u8,
                        ((i >> 2u32) & 1) as u8,
                    ],
                    [
                        ((i >> 3u32) & 1) as u8,
                        ((i >> 4u32) & 1) as u8,
                        ((i >> 5u32) & 1) as u8,
                    ],
                    [
                        ((i >> 6u32) & 1) as u8,
                        ((i >> 7u32) & 1) as u8,
                        ((i >> 8u32) & 1) as u8,
                    ],
                ],
            };
            proof {
                assert(m == f2_matrix_of(i));
                assert(forall|c: u32, s: u32| ((c >> s) & 1) < 2) by (bit_vector);
                assert(mat_wf(m, 3));
            }
            let det = m.determinant();
            let dm = (det + 48) % 2;
            proof {
                lemma_mod_multiples_vanish(24, det as int, 2);
                assert((det + 48) % 2 == spec_det(m) % 2);
            }
            if dm != 0 {
                proof {
                    assert(0 <= spec_det(m) % 2 < 2);
                }
                out.push(m);
            }
            i = i + 1;
        }
        out
    }

    /// The matrices over GF(3) with determinant congruent to 1 mod 3 (a
    /// proper subgroup of the full linear group), in code order.
    pub fn generate_pgl3_f3() -> (r: Vec<Matrix>)
        ensures
            r@ == pgl3_f3_prefix(19683),
    {
        let mut out: Vec<Matrix> = Vec::new();
        let mut i: u64 = 0;
        while i < 19683
            invariant
                i <= 19683,
                out@ == pgl3_f3_prefix(i as nat),
            decreases 19683 - i,
        {
            let m = Matrix {
                data: [
                    [
                        Matrix::get_ternary_digit(i, 0),
                        Matrix::get_ternary_digit(i, 1),
                        Matrix::get_ternary_digit(i, 2),
                    ],
                    [
                        Matrix::get_ternary_digit(i, 3),
                        Matrix::get_ternary_digit(i, 4),
                        Matrix::get_ternary_digit(i, 5),
                    ],
                    [
                        Matrix::get_ternary_digit(i, 6),
                        Matrix::get_ternary_digit(i, 7),
                        Matrix::get_ternary_digit(i, 8),
                    ],
                ],
            };
            proof {
                assert(m == f3_matrix_of(i));
                assert(mat_wf(m, 3)) by {
                    assert forall|r_: int, c: int| 0 <= r_ < 3 && 0 <= c < 3 implies #[trigger] m
                        .data[r_][c] < 3 by {
                        lemma_tern_digit_bound(i, (r_ * 3 + c) as u64);
                    }
                }
            }
            let det = m.determinant();
            let dm = (det + 48) % 3;
            proof {
                lemma_mod_multiples_vanish(16, det as int, 3);
                assert((det + 48) % 3 == spec_det(m) % 3);
            }
            if dm == 1 {
                out.push(m);
            }
            i = i + 1;
        }
        out
    }

    /// Ternary digit `bit_index` of `digit`.
    fn get_ternary_digit(digit: u64, bit_index: usize) -> (r: u8)
        requires
            bit_index < 9,
        ensures
            r == tern_digit(digit, bit_index as u64),
            r < 3,
    {
        let mut v: u64 = digit;
        let mut k: usize = 0;
        while k < bit_index
            invariant
                k <= bit_index,
                tern_digit(v, (bit_index - k) as u64) == tern_digit(digit, bit_index as u64),
            decreases bit_index - k,
        {
            v = v / 3;
            k = k + 1;
        }
        proof {
            lemma_tern_digit_bound(digit, bit_index as u64);
        }
        (v % 3) as u8
    }
}

} // verus!

verus! {

/// A dense bit-packed table of booleans, eight to a byte.
#[derive(Debug, Clone)]
pub struct PackedBool {
    pub data: Vec<u8>,
}

impl PackedBool {
    /// The boolean stored at `index`.
    pub open spec fn bit_at(self, i: int) -> bool {
        (self.data@[i / 8] >> ((i % 8) as u8)) & 1 == 1
    }

    /// Allocates a table with room for `size` booleans, all unset.
    pub fn new(size: usize) -> (r: PackedBool)
        requires
            size / 8 + 8 <= usize::MAX,
        ensures
            r.data@.len() == size / 8 + 8,
            forall|i: int| 0 <= i && i / 8 < r.data@.len() ==> !r.bit_at(i),
    {
        let mut data: Vec<u8> = Vec::new();
        let total = size / 8 + 8;
        let mut k: usize = 0;
        while k < total
            invariant
                k <= total,
                data@.len() == k,
                forall|j: int| 0 <= j < k ==> #[trigger] data@[j] == 0,
            decreases total - k,
        {
            data.push(0);
            k = k + 1;
        }
        let pack = PackedBool { data };
        proof {
            assert forall|i: int| 0 <= i && i / 8 < pack.data@.len() implies !pack.bit_at(i) by {
                vstd::arithmetic::div_mod::lemma_mod_bound(i, 8);
                let s = (i % 8) as u8;
                assert((0u8 >> s) & 1 == 0) by (bit_vector);
            }
        }
        pack
    }

    /// Reads one boolean.
    pub fn get(&self, index: usize) -> (r: bool)
        requires
            index / 8 < self.data@.len(),
        ensures
            r == self.bit_at(index as int),
    {
        let partial = self.data[index / 8];
        (partial >> ((index % 8) as u8)) & 1 == 1
    }

    /// Writes one boolean, leaving every other position unchanged.
    pub fn set(&mut self, index: usize, value: bool)
        requires
            index / 8 < old(self).data@.len(),
        ensures
            final(self).data@.len() == old(self).data@.len(),
            final(self).bit_at(index as int) == value,
            forall|j: int|
                0 <= j && j / 8 < final(self).data@.len() && j != index
                    ==> #[trigger] final(self).bit_at(j) == old(self).bit_at(j),
    {
        let byte = index / 8;
        let sh = (index % 8) as u8;
        let partial = self.data[byte];
        let updated = if value {
            partial | (1u8 << sh)
        } else {
            partial & (0xFFu8 ^ (1u8 << sh))
        };
        self.data.set(byte, updated);
        proof {
            let s = sh;
            assert forall|j: int|
                0 <= j && j / 8 < self.data@.len() && j != index implies #[trigger] self.bit_at(j)
                == old(self).bit_at(j) by {
                assert(old(self).data@[j / 8] == (if j / 8 == byte {
                    partial
                } else {
                    self.data@[j / 8]
                }));
                vstd::arithmetic::div_mod::lemma_mod_bound(j, 8);
                if j / 8 == byte {
                    let t = (j % 8) as u8;
                    assert(t != s) by {
                        vstd::arithmetic::div_mod::lemma_fundamental_div_mod(j, 8);
                        vstd::arithmetic::div_mod::lemma_fundamental_div_mod(index as int, 8);
                    }
                    assert(t < 8 && s < 8 && t != s ==> ((partial | (1u8 << s)) >> t) & 1 == (
                    partial >> t) & 1 && ((partial & (0xFFu8 ^ (1u8 << s))) >> t) & 1 == (partial
                        >> t) & 1) by (bit_vector);
                }
            }
            assert(s < 8 ==> ((partial | (1u8 << s)) >> s) & 1 == 1 && ((partial & (0xFFu8 ^ (1u8
                << s))) >> s) & 1 == 0) by (bit_vector);
            vstd::arithmetic::div_mod::lemma_mod_bound(index as int, 8);
        }
    }
}

} // verus!
