//! Packed polynomials, monomial terms, and the action-table machinery: the
//! image of a monomial under a matrix substitution, precomputed once per
//! (matrix, slot) pair, and the image of a whole polynomial as a
//! field-weighted sum of table entries.

use vstd::prelude::*;

use crate::algebraic_types::{mat_wf, Matrix};
use crate::field::{
    f2_lane, f3_lane, f3_lanes_valid, internal_add, lane_of, lemma_lane_below_order, num_lanes,
    packed_valid, LANE_HIGH_BITS, LANE_LOW_BITS,
};
use vstd::arithmetic::div_mod::{
    lemma_add_mod_noop, lemma_mod_multiples_vanish, lemma_mul_mod_noop_right, lemma_small_mod,
};

verus! {

/// A packed polynomial: one coefficient lane per monomial slot.
#[derive(Debug, Copy, Clone, PartialEq)]
pub struct Polynomial {
    pub bits: u64,
}

/// One monomial with a coefficient: `constant * x^x_deg y^y_deg z^z_deg`.
#[derive(Debug, Copy, Clone, PartialEq, Hash, Eq)]
pub struct Term {
    pub x_deg: u8,
    pub y_deg: u8,
    pub z_deg: u8,
    pub constant: u8,
}

/// How many bits one coefficient lane occupies for field order `q`.
pub open spec fn coeff_bits(q: u64) -> u64 {
    if q == 2 {
        1
    } else {
        2
    }
}

proof fn lemma_f3_double_lane(bits: u64, r: u64, i: u64)
    by (bit_vector)
    requires
        i < 32,
        bits & (bits >> 1) & 0x5555_5555_5555_5555u64 == 0,
        r == ((bits & 0xAAAA_AAAA_AAAA_AAAAu64) >> 1) | ((bits & 0x5555_5555_5555_5555u64) << 1),
    ensures
        f3_lane(r, i) == (f3_lane(bits, i) * 2) % 3,
        r & (r >> 1) & 0x5555_5555_5555_5555u64 == 0,
{
}

impl Polynomial {
    /// Wraps raw packed bits.
    pub fn new(bits: u64) -> (p: Polynomial)
        ensures
            p.bits == bits,
    {
        Polynomial { bits: bits }
    }

    /// Multiplies every GF(3) lane by 2 at once, by swapping the two bits
    /// of each lane (2*0=0, 2*1=2, 2*2=1).
    pub fn multiply_bits_by_2_f3(bits: u64) -> (r: u64)
        requires
            f3_lanes_valid(bits),
        ensures
            f3_lanes_valid(r),
            forall|i: u64| i < 32 ==> #[trigger] f3_lane(r, i) == (f3_lane(bits, i) * 2) % 3,
    {
        let a1 = (bits & LANE_HIGH_BITS) >> 1u64;
        let a2 = (bits & LANE_LOW_BITS) << 1u64;
        let r = a1 | a2;
        proof {
            assert forall|i: u64| i < 32 implies #[trigger] f3_lane(r, i) == (f3_lane(bits, i) * 2)
                % 3 by {
                lemma_f3_double_lane(bits, r, i);
            }
            lemma_f3_double_lane(bits, r, 0);
        }
        r
    }

    /// Multiplies every lane by `constant` modulo q, lane-wise.
    pub fn multiply_bits_by_constant(bits: u64, constant: u64, q: u64) -> (r: u64)
        requires
            q == 2 || q == 3,
            packed_valid(bits, q),
        ensures
            packed_valid(r, q),
            forall|i: u64|
                i < num_lanes(q) ==> #[trigger] lane_of(r, i, q) == (lane_of(bits, i, q)
                    * constant) % (q as int),
    {
        let cm = constant % q;
        let r = if cm == 0 {
            0u64
        } else if cm == 1 {
            bits
        } else {
            if q == 2 {
                bits
            } else {
                Polynomial::multiply_bits_by_2_f3(bits)
            }
        };
        proof {
            if q == 2 {
                crate::field::lemma_zero_packed();
            } else {
                crate::field::lemma_zero_packed();
            }
            assert forall|i: u64| i < num_lanes(q) implies #[trigger] lane_of(r, i, q) == (lane_of(
                bits,
                i,
                q,
            ) * constant) % (q as int) by {
                let l = lane_of(bits, i, q) as int;
                lemma_lane_below_order(bits, i, q);
                lemma_mul_mod_noop_right(l, constant as int, q as int);
                assert((l * (constant as int % (q as int))) % (q as int) == (l * constant) % (
                q as int));
                if cm == 0 {
                    assert(l * 0 == 0) by (nonlinear_arith);
                    assert(0 as int % (q as int) == 0);
                } else if cm == 1 {
                    assert(l * 1 == l) by (nonlinear_arith);
                    lemma_small_mod(l as nat, q as nat);
                } else {
                    assert(q == 3 && cm == 2);
                }
            }
        }
        r
    }

    /// Multiplies the whole polynomial by a scalar.
    pub fn mul_constant(self, constant: u64, q: u64) -> (r: Polynomial)
        requires
            q == 2 || q == 3,
            packed_valid(self.bits, q),
        ensures
            packed_valid(r.bits, q),
            forall|i: u64|
                i < num_lanes(q) ==> #[trigger] lane_of(r.bits, i, q) == (lane_of(self.bits, i, q)
                    * constant) % (q as int),
    {
        Polynomial { bits: Polynomial::multiply_bits_by_constant(self.bits, constant, q) }
    }
}

/// Coefficient of monomial slot `j` in the image of `bits` under the
/// matrix whose action table is `lut`: the field-weighted sum, over the
/// first `k` slots, of (coefficient of `bits` at the slot) times (the
/// table entry's coefficient at `j`).
pub open spec fn transform_lane(bits: u64, lut: Seq<u64>, k: int, j: u64, q: u64) -> u64
    decreases k,
{
    if k <= 0 {
        0
    } else {
        (((transform_lane(bits, lut, k - 1, j, q) + lane_of(bits, (k - 1) as u64, q) * lane_of(
            lut[k - 1],
            j,
            q,
        )) % (q as int)) as u64)
    }
}

impl Polynomial {
    /// The image of this polynomial under one matrix, computed as a linear
    /// combination of precomputed single-monomial images: coefficient `j`
    /// of the result is the mod-q sum over slots `i` of
    /// `coeff_i(self) * coeff_j(lut[i])`.
    pub fn transform_by_matrix(self, transform_lut: &Vec<u64>, q: u64) -> (r: Polynomial)
        requires
            q == 2 || q == 3,
            packed_valid(self.bits, q),
            transform_lut@.len() <= num_lanes(q),
            forall|s: int|
                0 <= s < transform_lut@.len() ==> packed_valid(#[trigger] transform_lut@[s], q),
        ensures
            packed_valid(r.bits, q),
            forall|j: u64|
                j < num_lanes(q) ==> #[trigger] lane_of(r.bits, j, q) == transform_lane(
                    self.bits,
                    transform_lut@,
                    transform_lut@.len() as int,
                    j,
                    q,
                ),
    {
        let cb: u64 = if q == 2 {
            1
        } else {
            2
        };
        let mask: u64 = if q == 2 {
            1
        } else {
            3
        };
        let mut bits: u64 = 0;
        let mut i: usize = 0;
        proof {
            if q == 2 {
                crate::field::lemma_zero_packed();
            } else {
                crate::field::lemma_zero_packed();
            }
        }
        while i < transform_lut.len()
            invariant
                q == 2 || q == 3,
                cb == coeff_bits(q),
                mask == (if q == 2 {
                    1u64
                } else {
                    3u64
                }),
                i <= transform_lut@.len(),
                transform_lut@.len() <= num_lanes(q),
                packed_valid(self.bits, q),
                forall|s: int|
                    0 <= s < transform_lut@.len() ==> packed_valid(#[trigger] transform_lut@[s], q),
                packed_valid(bits, q),
                forall|j: u64|
                    j < num_lanes(q) ==> #[trigger] lane_of(bits, j, q) == transform_lane(
                        self.bits,
                        transform_lut@,
                        i as int,
                        j,
                        q,
                    ),
            decreases transform_lut@.len() - i,
        {
            let coeff = (self.bits >> ((i as u64) * cb)) & mask;
            proof {
                assert(coeff == lane_of(self.bits, i as u64, q));
                lemma_lane_below_order(self.bits, i as u64, q);
            }
            let ghost bits0 = bits;
            if coeff > 0 {
                let new_bits = Polynomial::multiply_bits_by_constant(transform_lut[i], coeff, q);
                bits = internal_add(bits, new_bits, q);
                proof {
                    assert forall|j: u64| j < num_lanes(q) implies #[trigger] lane_of(bits, j, q)
                        == transform_lane(self.bits, transform_lut@, (i + 1) as int, j, q) by {
                        let prev = lane_of(bits0, j, q) as int;
                        let lj = lane_of(transform_lut@[i as int], j, q) as int;
                        let ci = lane_of(self.bits, i as u64, q) as int;
                        lemma_lane_below_order(bits0, j, q);
                        vstd::arithmetic::mul::lemma_mul_is_commutative(ci, lj);
                        assert(lane_of(bits, j, q) == (prev + (ci * lj) % (q as int)) % (q as int));
                        lemma_add_mod_noop(prev, ci * lj, q as int);
                        lemma_small_mod(prev as nat, q as nat);
                        assert((prev + (ci * lj) % (q as int)) % (q as int) == (prev + ci * lj) % (
                        q as int));
                    }
                }
            } else {
                proof {
                    assert forall|j: u64| j < num_lanes(q) implies #[trigger] lane_of(bits, j, q)
                        == transform_lane(self.bits, transform_lut@, (i + 1) as int, j, q) by {
                        let prev = lane_of(bits0, j, q) as int;
                        let lj = lane_of(transform_lut@[i as int], j, q) as int;
                        lemma_lane_below_order(bits0, j, q);
                        assert(lane_of(self.bits, i as u64, q) * lj == 0) by (nonlinear_arith)
                            requires
                                lane_of(self.bits, i as u64, q) == 0,
                        ;
                        lemma_small_mod(prev as nat, q as nat);
                    }
                }
            }
            i = i + 1;
        }
        Polynomial { bits: bits }
    }
}

} // verus!

verus! {

/// `n` factorial.
pub open spec fn spec_fact(n: nat) -> nat
    decreases n,
{
    if n == 0 {
        1
    } else {
        n * spec_fact((n - 1) as nat)
    }
}

/// Factorials are positive.
pub proof fn lemma_fact_pos(n: nat)
    ensures
        spec_fact(n) >= 1,
    decreases n,
{
    if n > 0 {
        lemma_fact_pos((n - 1) as nat);
        assert(n * spec_fact((n - 1) as nat) >= 1) by (nonlinear_arith)
            requires
                n >= 1,
                spec_fact((n - 1) as nat) >= 1,
        ;
    }
}

/// Factorials grow with their argument.
proof fn lemma_fact_mono(a: nat, b: nat)
    requires
        a <= b,
    ensures
        spec_fact(a) <= spec_fact(b),
    decreases b,
{
    if a < b {
        lemma_fact_mono(a, (b - 1) as nat);
        lemma_fact_pos((b - 1) as nat);
        assert(spec_fact((b - 1) as nat) <= b * spec_fact((b - 1) as nat)) by (nonlinear_arith)
            requires
                b >= 1,
                spec_fact((b - 1) as nat) >= 0,
        ;
    }
}

/// A product of factorials is bounded by the factorial of the sum.
proof fn lemma_fact_mul_le(a: nat, b: nat)
    ensures
        spec_fact(a) as int * spec_fact(b) as int <= spec_fact(a + b) as int,
    decreases b,
{
    if b == 0 {
        lemma_fact_pos(a);
        assert(spec_fact(a) as int * spec_fact(b) as int == spec_fact(a)) by (nonlinear_arith)
            requires
                spec_fact(b) == 1,
        ;
    } else {
        lemma_fact_mul_le(a, (b - 1) as nat);
        lemma_fact_pos(a);
        lemma_fact_pos((b - 1) as nat);
        lemma_fact_pos((a + b - 1) as nat);
        assert(spec_fact(a + b) == (a + b) * spec_fact((a + b - 1) as nat));
        assert(spec_fact(b) == b * spec_fact((b - 1) as nat));
        assert(spec_fact(a) * (b * spec_fact((b - 1) as nat)) == b * (spec_fact(a) * spec_fact(
            (b - 1) as nat,
        ))) by (nonlinear_arith);
        assert(b * (spec_fact(a) * spec_fact((b - 1) as nat)) <= b * spec_fact((a + b - 1) as nat))
            by (nonlinear_arith)
            requires
                b >= 1,
                spec_fact(a) * spec_fact((b - 1) as nat) <= spec_fact((a + b - 1) as nat),
        ;
        assert(b * spec_fact((a + b - 1) as nat) <= (a + b) * spec_fact((a + b - 1) as nat))
            by (nonlinear_arith)
            requires
                b <= a + b,
                spec_fact((a + b - 1) as nat) >= 1,
        ;
        assert(a + ((b - 1) as nat) == (a + b - 1) as nat);
        assert(spec_fact(a) * spec_fact((b - 1) as nat) <= spec_fact((a + b - 1) as nat));
        assert(spec_fact(a) * spec_fact(b) <= spec_fact(a + b)) by (nonlinear_arith)
            requires
                spec_fact(b) == b * spec_fact((b - 1) as nat),
                spec_fact(a + b) == (a + b) * spec_fact((a + b - 1) as nat),
                spec_fact(a) * spec_fact((b - 1) as nat) <= spec_fact((a + b - 1) as nat),
                b >= 1,
                spec_fact((a + b - 1) as nat) >= 1,
                spec_fact(a) >= 1,
        ;
    }
}

/// The numeric value of 20!, the largest factorial the engine computes.
#[verifier::rlimit(100)]
pub proof fn lemma_fact_20_value()
    ensures
        spec_fact(20) == 2432902008176640000,
{
    reveal_with_fuel(spec_fact, 21);
    assert(spec_fact(0) == 1);
    assert(spec_fact(1) == 1);
    assert(spec_fact(2) == 2);
    assert(spec_fact(3) == 6);
    assert(spec_fact(4) == 24);
    assert(spec_fact(5) == 120);
    assert(spec_fact(6) == 720);
    assert(spec_fact(7) == 5040);
    assert(spec_fact(8) == 40320);
    assert(spec_fact(9) == 362880);
    assert(spec_fact(10) == 3628800);
    assert(spec_fact(11) == 39916800);
    assert(spec_fact(12) == 479001600);
    assert(spec_fact(13) == 6227020800);
    assert(spec_fact(14) == 87178291200);
    assert(spec_fact(15) == 1307674368000);
    assert(spec_fact(16) == 20922789888000);
    assert(spec_fact(17) == 355687428096000);
    assert(spec_fact(18) == 6402373705728000);
    assert(spec_fact(19) == 121645100408832000);
    assert(spec_fact(20) == 2432902008176640000);
}

/// `n` factorial, computed iteratively.
pub fn factorial(n: u8) -> (r: u64)
    requires
        n <= 20,
    ensures
        r == spec_fact(n as nat),
{
    let mut result: u64 = 1;
    let mut i: u64 = 1;
    while i <= n as u64
        invariant
            1 <= i <= n + 1,
            n <= 20,
            result == spec_fact((i - 1) as nat),
        decreases n as u64 + 1 - i,
    {
        proof {
            assert(spec_fact(i as nat) == i * spec_fact((i - 1) as nat));
            assert(result * i == i * result) by (nonlinear_arith);
            lemma_fact_mono(i as nat, 20);
            lemma_fact_20_value();
        }
        result = result * i;
        i = i + 1;
    }
    result
}

/// The multinomial coefficient m! / (k1! k2! k3!).
pub open spec fn spec_multinom(m: nat, k1: nat, k2: nat, k3: nat) -> int {
    spec_fact(m) as int / (spec_fact(k1) * spec_fact(k2) * spec_fact(k3)) as int
}

/// The multinomial coefficient of the exponent triple (k1, k2, k3).
pub fn binomial_coefficient(m: u8, k1: u8, k2: u8, k3: u8) -> (r: u64)
    requires
        m <= 20,
        k1 + k2 + k3 == m,
    ensures
        r as int == spec_multinom(m as nat, k1 as nat, k2 as nat, k3 as nat),
{
    let fm = factorial(m);
    let f1 = factorial(k1);
    let f2 = factorial(k2);
    let f3 = factorial(k3);
    proof {
        lemma_fact_pos(k1 as nat);
        lemma_fact_pos(k2 as nat);
        lemma_fact_pos(k3 as nat);
        lemma_fact_mul_le(k1 as nat, k2 as nat);
        lemma_fact_mul_le((k1 + k2) as nat, k3 as nat);
        lemma_fact_mono((k1 + k2) as nat, 20);
        lemma_fact_mono(m as nat, 20);
        lemma_fact_20_value();
        assert(f1 * f2 <= spec_fact((k1 + k2) as nat));
        assert((f1 * f2) * f3 <= spec_fact((k1 + k2) as nat) * f3) by (nonlinear_arith)
            requires
                f1 * f2 <= spec_fact((k1 + k2) as nat),
                f3 >= 1,
        ;
        assert((f1 * f2) * f3 >= 1) by (nonlinear_arith)
            requires
                f1 >= 1,
                f2 >= 1,
                f3 >= 1,
        ;
    }
    let denom = f1 * f2 * f3;
    fm / denom
}

/// Raises a field element to a power, reduced mod q at every step.
fn pow_mod(base: u8, e: u8, q: u64) -> (r: u64)
    requires
        q == 2 || q == 3,
        base < q,
    ensures
        r as int == vstd::arithmetic::power::pow(base as int, e as nat) % (q as int),
        r < q,
        base != 0 || e == 0 ==> r != 0,
{
    let mut acc: u64 = 1 % q;
    let mut i: u8 = 0;
    proof {
        vstd::arithmetic::power::lemma_pow0(base as int);
    }
    while i < e
        invariant
            q == 2 || q == 3,
            base < q,
            i <= e,
            acc < q,
            acc as int == vstd::arithmetic::power::pow(base as int, i as nat) % (q as int),
            base != 0 ==> acc != 0,
            i == 0 ==> acc != 0,
        decreases e - i,
    {
        proof {
            if base != 0 {
                assert((acc * (base as u64)) % (q as int) != 0) by (nonlinear_arith)
                    requires
                        1 <= acc < q,
                        1 <= base < q,
                        q == 2 || q == 3,
                ;
            }
        }
        proof {
            let p = vstd::arithmetic::power::pow(base as int, i as nat);
            assert(acc * (base as u64) <= 9) by (nonlinear_arith)
                requires
                    acc < 3,
                    base < 3,
            ;
            assert(vstd::arithmetic::power::pow(base as int, (i + 1) as nat) == p * base) by {
                reveal(vstd::arithmetic::power::pow);
                vstd::arithmetic::mul::lemma_mul_is_commutative(base as int, p);
            }
            vstd::arithmetic::div_mod::lemma_mul_mod_noop_left(p, base as int, q as int);
            assert((acc * base) as int == (p % (q as int)) * base);
        }
        acc = (acc * base as u64) % q;
        i = i + 1;
    }
    acc
}

} // verus!

verus! {

/// The exponent triples match: same monomial, whatever the coefficients.
pub open spec fn is_similar_spec(s: Term, t: Term) -> bool {
    s.x_deg == t.x_deg && s.y_deg == t.y_deg && s.z_deg == t.z_deg
}

impl Term {
    /// Whether two terms name the same monomial.
    pub fn is_similar(&self, t: Term) -> (r: bool)
        ensures
            r == is_similar_spec(*self, t),
    {
        self.x_deg == t.x_deg && self.y_deg == t.y_deg && self.z_deg == t.z_deg
    }

    /// The same monomial with another coefficient.
    pub fn create_similar(&self, constant: u8) -> (r: Term)
        ensures
            r.x_deg == self.x_deg,
            r.y_deg == self.y_deg,
            r.z_deg == self.z_deg,
            r.constant == constant,
    {
        Term { x_deg: self.x_deg, y_deg: self.y_deg, z_deg: self.z_deg, constant: constant }
    }
}

/// The coefficient of the term for exponent pair (k1, k2) in the expansion
/// of (ax + by + cz)^m over GF(q): the multinomial coefficient times the
/// matching powers of the row entries, reduced mod q.
pub open spec fn expansion_constant(a: u8, b: u8, c: u8, m: u8, k1: int, k2: int, q: u64) -> int {
    ((((spec_multinom(m as nat, k1 as nat, k2 as nat, (m - k1 - k2) as nat) % (q as int))
        * vstd::arithmetic::power::pow(a as int, k1 as nat)) * vstd::arithmetic::power::pow(
        b as int,
        k2 as nat,
    )) * vstd::arithmetic::power::pow(c as int, (m - k1 - k2) as nat)) % (q as int)
}

/// Whether the reference expansion drops the (k1, k2) term: multinomial
/// zero mod q, or a base variable that is zero raised to a nonzero power.
pub open spec fn expansion_skips(a: u8, b: u8, c: u8, m: u8, k1: int, k2: int, q: u64) -> bool {
    spec_multinom(m as nat, k1 as nat, k2 as nat, (m - k1 - k2) as nat) % (q as int) == 0 || (k1
        > 0 && a == 0) || (k2 > 0 && b == 0) || (m - k1 - k2 > 0 && c == 0)
}

/// The expansion terms of (ax + by + cz)^m from exponent pair (k1, k2)
/// onward, in the order the expansion emits them.
pub open spec fn expansion_from(a: u8, b: u8, c: u8, m: u8, q: u64, k1: int, k2: int) -> Seq<Term>
    decreases m + 1 - k1, m + 1 - k1 - k2,
{
    if k1 > m {
        Seq::empty()
    } else if k2 > m - k1 {
        expansion_from(a, b, c, m, q, k1 + 1, 0)
    } else {
        let rest = expansion_from(a, b, c, m, q, k1, k2 + 1);
        if expansion_skips(a, b, c, m, k1, k2, q) {
            rest
        } else {
            seq![
                Term {
                    x_deg: k1 as u8,
                    y_deg: k2 as u8,
                    z_deg: (m - k1 - k2) as u8,
                    constant: expansion_constant(a, b, c, m, k1, k2, q) as u8,
                },
            ] + rest
        }
    }
}

/// All terms of the expansion of (ax + by + cz)^m over GF(q).
pub open spec fn expansion(a: u8, b: u8, c: u8, m: u8, q: u64) -> Seq<Term> {
    expansion_from(a, b, c, m, q, 0, 0)
}

/// Expands (ax + by + cz)^m over GF(q) by the trinomial theorem, dropping
/// terms whose coefficient vanishes.
pub fn exponentiate_linear_polynomial(a: u8, b: u8, c: u8, m: u8, q: u64) -> (r: Vec<Term>)
    requires
        q == 2 || q == 3,
        a < q,
        b < q,
        c < q,
        m <= 20,
    ensures
        r@ == expansion(a, b, c, m, q),
        forall|i: int|
            0 <= i < r@.len() ==> 0 < #[trigger] r@[i].constant < q && r@[i].x_deg <= m
                && r@[i].y_deg <= m && r@[i].z_deg <= m,
{
    let mut out: Vec<Term> = Vec::new();
    let mut k1: u8 = 0;
    while k1 <= m
        invariant
            q == 2 || q == 3,
            a < q,
            b < q,
            c < q,
            m <= 20,
            k1 <= m + 1,
            out@ + expansion_from(a, b, c, m, q, k1 as int, 0) == expansion(a, b, c, m, q),
            forall|i: int|
                0 <= i < out@.len() ==> 0 < #[trigger] out@[i].constant < q && out@[i].x_deg <= m
                    && out@[i].y_deg <= m && out@[i].z_deg <= m,
        decreases m + 1 - k1,
    {
        let mut k2: u8 = 0;
        while k2 <= m - k1
            invariant
                q == 2 || q == 3,
                a < q,
                b < q,
                c < q,
                m <= 20,
                k1 <= m,
                k2 <= m - k1 + 1,
                out@ + expansion_from(a, b, c, m, q, k1 as int, k2 as int) == expansion(a, b, c, m, q),
                forall|i: int|
                    0 <= i < out@.len() ==> 0 < #[trigger] out@[i].constant < q && out@[i].x_deg
                        <= m && out@[i].y_deg <= m && out@[i].z_deg <= m,
            decreases m + 1 - k2,
        {
            let k3 = m - k1 - k2;
            let bin = binomial_coefficient(m, k1, k2, k3);
            let coeffm = bin % q;
            let ghost out0 = out@;
            if !(coeffm == 0 || (k1 > 0 && a == 0) || (k2 > 0 && b == 0) || (k3 > 0 && c == 0)) {
                let pa = pow_mod(a, k1, q);
                let pb = pow_mod(b, k2, q);
                let pc = pow_mod(c, k3, q);
                proof {
                    assert(coeffm * pa <= 9 && coeffm * pa >= 0) by (nonlinear_arith)
                        requires
                            coeffm < 3,
                            pa < 3,
                    ;
                }
                let f1 = (coeffm * pa) % q;
                proof {
                    assert(f1 * pb <= 9 && f1 * pb >= 0) by (nonlinear_arith)
                        requires
                            f1 < 3,
                            pb < 3,
                    ;
                    assert(f1 != 0) by (nonlinear_arith)
                        requires
                            1 <= coeffm < q,
                            1 <= pa < q,
                            q == 2 || q == 3,
                            f1 == (coeffm * pa) % (q as int),
                    ;
                }
                let f2 = (f1 * pb) % q;
                proof {
                    assert(f2 * pc <= 9 && f2 * pc >= 0) by (nonlinear_arith)
                        requires
                            f2 < 3,
                            pc < 3,
                    ;
                    assert(f2 != 0) by (nonlinear_arith)
                        requires
                            1 <= f1 < q,
                            1 <= pb < q,
                            q == 2 || q == 3,
                            f2 == (f1 * pb) % (q as int),
                    ;
                }
                proof {
                    assert((f2 * pc) % (q as int) != 0) by (nonlinear_arith)
                        requires
                            1 <= f2 < q,
                            1 <= pc < q,
                            q == 2 || q == 3,
                    ;
                }
                let f3 = (f2 * pc) % q;
                let t = Term { x_deg: k1, y_deg: k2, z_deg: k3, constant: f3 as u8 };
                proof {
                    let qi = q as int;
                    let mm = spec_multinom(m as nat, k1 as nat, k2 as nat, (m - k1 - k2) as nat);
                    let xa = vstd::arithmetic::power::pow(a as int, k1 as nat);
                    let xb = vstd::arithmetic::power::pow(b as int, k2 as nat);
                    let xc = vstd::arithmetic::power::pow(c as int, k3 as nat);
                    lemma_mul_mod_noop_right(mm % qi, xa, qi);
                    assert(f1 as int == ((mm % qi) * xa) % qi);
                    vstd::arithmetic::div_mod::lemma_mul_mod_noop((mm % qi) * xa, xb, qi);
                    assert(f2 as int == (((mm % qi) * xa) * xb) % qi);
                    vstd::arithmetic::div_mod::lemma_mul_mod_noop(((mm % qi) * xa) * xb, xc, qi);
                    assert(f3 as int == ((((mm % qi) * xa) * xb) * xc) % qi);
                    assert(f3 as int == expansion_constant(a, b, c, m, k1 as int, k2 as int, q));
                    vstd::arithmetic::div_mod::lemma_mod_bound(
                        (((mm % qi) * xa) * xb) * xc,
                        qi,
                    );
                    assert(t.constant == expansion_constant(a, b, c, m, k1 as int, k2 as int, q));
                    assert(!expansion_skips(a, b, c, m, k1 as int, k2 as int, q));
                    assert(expansion_from(a, b, c, m, q, k1 as int, k2 as int) == seq![t]
                        + expansion_from(a, b, c, m, q, k1 as int, k2 as int + 1));
                }
                out.push(t);
                proof {
                    assert(out@ == out0.push(t));
                    assert(out0.push(t) + expansion_from(a, b, c, m, q, k1 as int, k2 as int + 1)
                        =~= (out0 + expansion_from(a, b, c, m, q, k1 as int, k2 as int)));
                }
            } else {
                proof {
                    assert(expansion_skips(a, b, c, m, k1 as int, k2 as int, q));
                    assert(expansion_from(a, b, c, m, q, k1 as int, k2 as int) == expansion_from(
                        a,
                        b,
                        c,
                        m,
                        q,
                        k1 as int,
                        k2 as int + 1,
                    ));
                }
            }
            k2 = k2 + 1;
        }
        proof {
            assert(expansion_from(a, b, c, m, q, k1 as int, k2 as int) == expansion_from(
                a,
                b,
                c,
                m,
                q,
                k1 as int + 1,
                0,
            ));
        }
        k1 = k1 + 1;
    }
    proof {
        assert(expansion_from(a, b, c, m, q, k1 as int, 0) =~= Seq::<Term>::empty());
        assert(out@ + Seq::<Term>::empty() =~= out@);
    }
    out
}

} // verus!

verus! {

/// The product of three single terms: exponents add, coefficients multiply
/// mod q.
pub open spec fn combined_term(t1: Term, t2: Term, t3: Term, q: u64) -> Term {
    Term {
        x_deg: (t1.x_deg + t2.x_deg + t3.x_deg) as u8,
        y_deg: (t1.y_deg + t2.y_deg + t3.y_deg) as u8,
        z_deg: (t1.z_deg + t2.z_deg + t3.z_deg) as u8,
        constant: (((t1.constant * t2.constant) * t3.constant) % (q as int)) as u8,
    }
}

/// The term-by-term product of three expansions, from position (i1, i2,
/// i3) onward, in the order the triple loop emits them.
pub open spec fn product_from(
    sa: Seq<Term>,
    sb: Seq<Term>,
    sc: Seq<Term>,
    q: u64,
    i1: int,
    i2: int,
    i3: int,
) -> Seq<Term>
    decreases sa.len() - i1, sb.len() - i2, sc.len() - i3,
{
    if i1 >= sa.len() {
        Seq::empty()
    } else if i2 >= sb.len() {
        product_from(sa, sb, sc, q, i1 + 1, 0, 0)
    } else if i3 >= sc.len() {
        product_from(sa, sb, sc, q, i1, i2 + 1, 0)
    } else {
        seq![combined_term(sa[i1], sb[i2], sc[i3], q)] + product_from(sa, sb, sc, q, i1, i2, i3 + 1)
    }
}

/// All pairwise products of the terms of three expansions.
pub open spec fn product_terms(sa: Seq<Term>, sb: Seq<Term>, sc: Seq<Term>, q: u64) -> Seq<Term> {
    product_from(sa, sb, sc, q, 0, 0, 0)
}

/// Multiplies out three term lists (the expansions of the three substituted
/// variables), term by term.
pub fn polynomial_product(a: Vec<Term>, b: Vec<Term>, c: Vec<Term>, q: u64) -> (r: Vec<Term>)
    requires
        q == 2 || q == 3,
        forall|i: int|
            0 <= i < a@.len() ==> #[trigger] a@[i].constant < q && a@[i].x_deg <= 60
                && a@[i].y_deg <= 60 && a@[i].z_deg <= 60,
        forall|i: int|
            0 <= i < b@.len() ==> #[trigger] b@[i].constant < q && b@[i].x_deg <= 60
                && b@[i].y_deg <= 60 && b@[i].z_deg <= 60,
        forall|i: int|
            0 <= i < c@.len() ==> #[trigger] c@[i].constant < q && c@[i].x_deg <= 60
                && c@[i].y_deg <= 60 && c@[i].z_deg <= 60,
    ensures
        r@ == product_terms(a@, b@, c@, q),
{
    let mut out: Vec<Term> = Vec::new();
    let mut i1: usize = 0;
    while i1 < a.len()
        invariant
            q == 2 || q == 3,
            i1 <= a@.len(),
            forall|i: int|
                0 <= i < a@.len() ==> #[trigger] a@[i].constant < q && a@[i].x_deg <= 60
                    && a@[i].y_deg <= 60 && a@[i].z_deg <= 60,
            forall|i: int|
                0 <= i < b@.len() ==> #[trigger] b@[i].constant < q && b@[i].x_deg <= 60
                    && b@[i].y_deg <= 60 && b@[i].z_deg <= 60,
            forall|i: int|
                0 <= i < c@.len() ==> #[trigger] c@[i].constant < q && c@[i].x_deg <= 60
                    && c@[i].y_deg <= 60 && c@[i].z_deg <= 60,
            out@ + product_from(a@, b@, c@, q, i1 as int, 0, 0) == product_terms(a@, b@, c@, q),
        decreases a@.len() - i1,
    {
        let mut i2: usize = 0;
        while i2 < b.len()
            invariant
                q == 2 || q == 3,
                i1 < a@.len(),
                i2 <= b@.len(),
                forall|i: int|
                    0 <= i < a@.len() ==> #[trigger] a@[i].constant < q && a@[i].x_deg <= 60
                        && a@[i].y_deg <= 60 && a@[i].z_deg <= 60,
                forall|i: int|
                    0 <= i < b@.len() ==> #[trigger] b@[i].constant < q && b@[i].x_deg <= 60
                        && b@[i].y_deg <= 60 && b@[i].z_deg <= 60,
                forall|i: int|
                    0 <= i < c@.len() ==> #[trigger] c@[i].constant < q && c@[i].x_deg <= 60
                        && c@[i].y_deg <= 60 && c@[i].z_deg <= 60,
                out@ + product_from(a@, b@, c@, q, i1 as int, i2 as int, 0) == product_terms(
                    a@,
                    b@,
                    c@,
                    q,
                ),
            decreases b@.len() - i2,
        {
            let mut i3: usize = 0;
            while i3 < c.len()
                invariant
                    q == 2 || q == 3,
                    i1 < a@.len(),
                    i2 < b@.len(),
                    i3 <= c@.len(),
                    forall|i: int|
                        0 <= i < a@.len() ==> #[trigger] a@[i].constant < q && a@[i].x_deg <= 60
                            && a@[i].y_deg <= 60 && a@[i].z_deg <= 60,
                    forall|i: int|
                        0 <= i < b@.len() ==> #[trigger] b@[i].constant < q && b@[i].x_deg <= 60
                            && b@[i].y_deg <= 60 && b@[i].z_deg <= 60,
                    forall|i: int|
                        0 <= i < c@.len() ==> #[trigger] c@[i].constant < q && c@[i].x_deg <= 60
                            && c@[i].y_deg <= 60 && c@[i].z_deg <= 60,
                    out@ + product_from(a@, b@, c@, q, i1 as int, i2 as int, i3 as int)
                        == product_terms(a@, b@, c@, q),
                decreases c@.len() - i3,
            {
                let t1 = a[i1];
                let t2 = b[i2];
                let t3 = c[i3];
                proof {
                    assert(t1.constant * t2.constant <= 4) by (nonlinear_arith)
                        requires
                            t1.constant < 3,
                            t2.constant < 3,
                    ;
                    assert((t1.constant * t2.constant) * t3.constant <= 12) by (nonlinear_arith)
                        requires
                            t1.constant * t2.constant <= 4,
                            t3.constant < 3,
                            t1.constant * t2.constant >= 0,
                    ;
                }
                let term = Term {
                    x_deg: t1.x_deg + t2.x_deg + t3.x_deg,
                    y_deg: t1.y_deg + t2.y_deg + t3.y_deg,
                    z_deg: t1.z_deg + t2.z_deg + t3.z_deg,
                    constant: ((t1.constant * t2.constant * t3.constant) as u64 % q) as u8,
                };
                let ghost out0 = out@;
                proof {
                    assert(term == combined_term(a@[i1 as int], b@[i2 as int], c@[i3 as int], q));
                    assert(product_from(a@, b@, c@, q, i1 as int, i2 as int, i3 as int) == seq![
                        term,
                    ] + product_from(a@, b@, c@, q, i1 as int, i2 as int, i3 as int + 1));
                }
                out.push(term);
                proof {
                    assert(out@ == out0.push(term));
                    assert(out0.push(term) + product_from(
                        a@,
                        b@,
                        c@,
                        q,
                        i1 as int,
                        i2 as int,
                        i3 as int + 1,
                    ) =~= (out0 + product_from(a@, b@, c@, q, i1 as int, i2 as int, i3 as int)));
                }
                i3 = i3 + 1;
            }
            proof {
                assert(product_from(a@, b@, c@, q, i1 as int, i2 as int, i3 as int)
                    == product_from(a@, b@, c@, q, i1 as int, i2 as int + 1, 0));
            }
            i2 = i2 + 1;
        }
        proof {
            assert(product_from(a@, b@, c@, q, i1 as int, i2 as int, 0) == product_from(
                a@,
                b@,
                c@,
                q,
                i1 as int + 1,
                0,
                0,
            ));
        }
        i1 = i1 + 1;
    }
    proof {
        assert(product_from(a@, b@, c@, q, i1 as int, 0, 0) =~= Seq::<Term>::empty());
        assert(out@ + Seq::<Term>::empty() =~= out@);
    }
    out
}

} // verus!

verus! {

/// What one product term contributes to lane `j`: its coefficient if slot
/// `j` of the monomial table names the same monomial, else nothing.
pub open spec fn term_contrib(t: Term, lut: Seq<Term>, j: u64) -> int {
    if j < lut.len() && is_similar_spec(lut[j as int], t) {
        t.constant as int
    } else {
        0
    }
}

/// Coefficient at lane `j` after folding the first `k` product terms into
/// the packed accumulator, mod q.
pub open spec fn pack_terms_lane(terms: Seq<Term>, lut: Seq<Term>, k: int, j: u64, q: u64) -> u64
    decreases k,
{
    if k <= 0 {
        0
    } else {
        (((pack_terms_lane(terms, lut, k - 1, j, q) + term_contrib(terms[k - 1], lut, j)) % (
        q as int)) as u64)
    }
}

/// Lanes past the monomial table never receive a contribution.
pub proof fn lemma_pack_lane_high_zero(terms: Seq<Term>, lut: Seq<Term>, k: int, j: u64, q: u64)
    requires
        j >= lut.len(),
        q == 2 || q == 3,
    ensures
        pack_terms_lane(terms, lut, k, j, q) == 0,
    decreases k,
{
    if k > 0 {
        lemma_pack_lane_high_zero(terms, lut, k - 1, j, q);
    }
}

/// The fold stays below q at every lane.
pub proof fn lemma_pack_lane_bound(terms: Seq<Term>, lut: Seq<Term>, k: int, j: u64, q: u64)
    requires
        q == 2 || q == 3,
    ensures
        pack_terms_lane(terms, lut, k, j, q) < q,
{
    if k <= 0 {
    } else {
        vstd::arithmetic::div_mod::lemma_mod_bound(
            pack_terms_lane(terms, lut, k - 1, j, q) + term_contrib(terms[k - 1], lut, j),
            q as int,
        );
    }
}

proof fn lemma_f3_single_lane(c: u64, i: u64, j: u64)
    by (bit_vector)
    requires
        c < 3,
        i < 32,
        j < 32,
    ensures
        f3_lane((c << ((i * 2) as u64)), i) == c,
        j != i ==> f3_lane((c << ((i * 2) as u64)), j) == 0,
        (c << ((i * 2) as u64)) & ((c << ((i * 2) as u64)) >> 1) & 0x5555_5555_5555_5555u64 == 0,
{
}

proof fn lemma_f2_single_lane(c: u64, i: u64, j: u64)
    by (bit_vector)
    requires
        c < 2,
        i < 64,
        j < 64,
    ensures
        f2_lane((c << i), i) == c,
        j != i ==> f2_lane((c << i), j) == 0,
{
}

/// The lane-wise image of one monomial term under one matrix: expand each
/// substituted variable by the trinomial theorem, multiply the three
/// expansions out, and fold the products into the packed accumulator.
pub open spec fn term_image_lane(t: Term, m: Matrix, lut: Seq<Term>, j: u64, q: u64) -> u64 {
    if t.constant == 0 {
        0
    } else {
        let p = product_terms(
            expansion(m.data[0][0], m.data[0][1], m.data[0][2], t.x_deg, q),
            expansion(m.data[1][0], m.data[1][1], m.data[1][2], t.y_deg, q),
            expansion(m.data[2][0], m.data[2][1], m.data[2][2], t.z_deg, q),
            q,
        );
        pack_terms_lane(p, lut, p.len() as int, j, q)
    }
}

impl Term {
    /// The packed image of this single monomial under a matrix
    /// substitution: coefficient `j` of the result is the fold of all
    /// expansion products that land on slot `j` of the monomial table.
    pub fn transform_by_matrix(self, matrix: &Matrix, lut: &Vec<Term>, q: u64) -> (r: u64)
        requires
            q == 2 || q == 3,
            mat_wf(*matrix, q),
            self.x_deg <= 20,
            self.y_deg <= 20,
            self.z_deg <= 20,
            lut@.len() <= num_lanes(q),
        ensures
            packed_valid(r, q),
            forall|j: u64|
                j < num_lanes(q) ==> #[trigger] lane_of(r, j, q) == term_image_lane(
                    self,
                    *matrix,
                    lut@,
                    j,
                    q,
                ),
    {
        if self.constant == 0 {
            proof {
                if q == 2 {
                    crate::field::lemma_zero_packed();
                } else {
                    crate::field::lemma_zero_packed();
                }
            }
            return 0;
        }
        let p1 = exponentiate_linear_polynomial(
            matrix.data[0][0],
            matrix.data[0][1],
            matrix.data[0][2],
            self.x_deg,
            q,
        );
        let p2 = exponentiate_linear_polynomial(
            matrix.data[1][0],
            matrix.data[1][1],
            matrix.data[1][2],
            self.y_deg,
            q,
        );
        let p3 = exponentiate_linear_polynomial(
            matrix.data[2][0],
            matrix.data[2][1],
            matrix.data[2][2],
            self.z_deg,
            q,
        );
        let terms = polynomial_product(p1, p2, p3, q);
        let cb: u64 = if q == 2 {
            1
        } else {
            2
        };
        let mut result: u64 = 0;
        let mut k: usize = 0;
        proof {
            if q == 2 {
                crate::field::lemma_zero_packed();
            } else {
                crate::field::lemma_zero_packed();
            }
        }
        while k < terms.len()
            invariant
                q == 2 || q == 3,
                cb == coeff_bits(q),
                k <= terms@.len(),
                lut@.len() <= num_lanes(q),
                packed_valid(result, q),
                forall|j: u64|
                    j < num_lanes(q) ==> #[trigger] lane_of(result, j, q) == pack_terms_lane(
                        terms@,
                        lut@,
                        k as int,
                        j,
                        q,
                    ),
            decreases terms@.len() - k,
        {
            let t = terms[k];
            let ghost res0 = result;
            let mut i: usize = 0;
            while i < lut.len()
                invariant
                    q == 2 || q == 3,
                    cb == coeff_bits(q),
                    k < terms@.len(),
                    t == terms@[k as int],
                    i <= lut@.len(),
                    lut@.len() <= num_lanes(q),
                    packed_valid(result, q),
                    packed_valid(res0, q),
                    forall|j: u64|
                        j < num_lanes(q) ==> #[trigger] lane_of(result, j, q) == (if j < i
                            && is_similar_spec(lut@[j as int], t) {
                            (((lane_of(res0, j, q) + t.constant) % (q as int)) as u64)
                        } else {
                            lane_of(res0, j, q)
                        }),
                decreases lut@.len() - i,
            {
                if lut[i].is_similar(t) {
                    let cq = (t.constant as u64) % q;
                    let add_bits = cq << ((i as u64) * cb);
                    let ghost res1 = result;
                    proof {
                        if q == 2 {
                            lemma_f2_single_lane(cq, i as u64, 0);
                        } else {
                            lemma_f3_single_lane(cq, i as u64, 0);
                        }
                    }
                    result = internal_add(result, add_bits, q);
                    proof {
                        assert forall|j: u64| j < num_lanes(q) implies #[trigger] lane_of(
                            result,
                            j,
                            q,
                        ) == (if j < i + 1 && is_similar_spec(lut@[j as int], t) {
                            (((lane_of(res0, j, q) + t.constant) % (q as int)) as u64)
                        } else {
                            lane_of(res0, j, q)
                        }) by {
                            if q == 2 {
                                lemma_f2_single_lane(cq, i as u64, j);
                            } else {
                                lemma_f3_single_lane(cq, i as u64, j);
                            }
                            lemma_lane_below_order(res1, j, q);
                            lemma_lane_below_order(res0, j, q);
                            let prev = lane_of(res1, j, q) as int;
                            if j == i {
                                // this slot receives the coefficient
                                assert(lane_of(add_bits, j, q) == cq);
                                lemma_add_mod_noop(
                                    lane_of(res0, j, q) as int,
                                    t.constant as int,
                                    q as int,
                                );
                                lemma_small_mod(lane_of(res0, j, q) as nat, q as nat);
                            } else {
                                assert(lane_of(add_bits, j, q) == 0);
                                lemma_small_mod(prev as nat, q as nat);
                            }
                        }
                    }
                } else {
                    proof {
                        assert forall|j: u64| j < num_lanes(q) implies #[trigger] lane_of(
                            result,
                            j,
                            q,
                        ) == (if j < i + 1 && is_similar_spec(lut@[j as int], t) {
                            (((lane_of(res0, j, q) + t.constant) % (q as int)) as u64)
                        } else {
                            lane_of(res0, j, q)
                        }) by {
                        }
                    }
                }
                i = i + 1;
            }
            proof {
                assert forall|j: u64| j < num_lanes(q) implies #[trigger] lane_of(result, j, q)
                    == pack_terms_lane(terms@, lut@, k as int + 1, j, q) by {
                    lemma_lane_below_order(res0, j, q);
                    lemma_small_mod(lane_of(res0, j, q) as nat, q as nat);
                    assert(pack_terms_lane(terms@, lut@, k as int + 1, j, q) == (((pack_terms_lane(
                        terms@,
                        lut@,
                        k as int,
                        j,
                        q,
                    ) + term_contrib(terms@[k as int], lut@, j)) % (q as int)) as u64));
                }
            }
            k = k + 1;
        }
        result
    }
}

} // verus!

verus! {

/// A slot of the monomial table: coefficient 1, exponents within the
/// degree.
pub open spec fn mono_wf(t: Term, degree: u8) -> bool {
    t.constant == 1 && t.x_deg <= degree && t.y_deg <= degree && t.z_deg <= degree
}

/// The monomial table from exponent pair (a, b) onward: exponent triples
/// (a, b, degree-a-b) in the canonical slot order, all with coefficient 1.
pub open spec fn monomials_from(degree: u8, a: int, b: int) -> Seq<Term>
    decreases degree + 1 - a, degree + 1 - a - b,
{
    if a > degree {
        Seq::empty()
    } else if b > degree - a {
        monomials_from(degree, a + 1, 0)
    } else {
        seq![
            Term { x_deg: a as u8, y_deg: b as u8, z_deg: (degree - a - b) as u8, constant: 1 },
        ] + monomials_from(degree, a, b + 1)
    }
}

/// The full monomial table of the given degree.
pub open spec fn monomial_table(degree: u8) -> Seq<Term> {
    monomials_from(degree, 0, 0)
}

impl Polynomial {
    /// Builds the monomial table: one slot per exponent triple summing to
    /// the degree, in canonical order, each with coefficient 1.
    #[verifier::rlimit(100)]
    pub fn generate_default_lut(degree: u8) -> (r: Vec<Term>)
        requires
            degree <= 20,
        ensures
            r@ == monomial_table(degree),
            forall|i: int| 0 <= i < r@.len() ==> mono_wf(#[trigger] r@[i], degree),
    {
        let mut out: Vec<Term> = Vec::new();
        let mut a: u8 = 0;
        while a <= degree
            invariant
                degree <= 20,
                a <= degree + 1,
                out@ + monomials_from(degree, a as int, 0) == monomial_table(degree),
                forall|i: int| 0 <= i < out@.len() ==> mono_wf(#[trigger] out@[i], degree),
            decreases degree + 1 - a,
        {
            let mut b: u8 = 0;
            while b <= degree - a
                invariant
                    degree <= 20,
                    a <= degree,
                    b <= degree - a + 1,
                    out@ + monomials_from(degree, a as int, b as int) == monomial_table(degree),
                    forall|i: int| 0 <= i < out@.len() ==> mono_wf(#[trigger] out@[i], degree),
                decreases degree + 1 - b,
            {
                let t = Term { x_deg: a, y_deg: b, z_deg: degree - a - b, constant: 1 };
                let ghost out0 = out@;
                proof {
                    assert(monomials_from(degree, a as int, b as int) == seq![t] + monomials_from(
                        degree,
                        a as int,
                        b as int + 1,
                    ));
                }
                out.push(t);
                proof {
                    assert(out@ == out0.push(t));
                    assert(out0.push(t) + monomials_from(degree, a as int, b as int + 1) =~= (out0
                        + monomials_from(degree, a as int, b as int)));
                }
                b = b + 1;
            }
            proof {
                assert(monomials_from(degree, a as int, b as int) == monomials_from(
                    degree,
                    a as int + 1,
                    0,
                ));
            }
            a = a + 1;
        }
        proof {
            assert(monomials_from(degree, a as int, 0) =~= Seq::<Term>::empty());
            assert(out@ + Seq::<Term>::empty() =~= out@);
        }
        out
    }
}

/// Builds the whole action table: for every group matrix and every
/// monomial slot, the packed image of that single monomial under the
/// matrix.
pub fn generate_transform_lut(pgl3: &Vec<Matrix>, lut: &Vec<Term>, q: u64) -> (r: Vec<Vec<u64>>)
    requires
        q == 2 || q == 3,
        forall|mi: int| 0 <= mi < pgl3@.len() ==> mat_wf(#[trigger] pgl3@[mi], q),
        lut@.len() <= num_lanes(q),
        forall|s: int|
            0 <= s < lut@.len() ==> #[trigger] lut@[s].x_deg <= 20 && lut@[s].y_deg <= 20
                && lut@[s].z_deg <= 20,
    ensures
        r@.len() == pgl3@.len(),
        forall|mi: int| 0 <= mi < r@.len() ==> #[trigger] r@[mi]@.len() == lut@.len(),
        forall|mi: int, s: int|
            0 <= mi < r@.len() && 0 <= s < lut@.len() ==> packed_valid(#[trigger] r@[mi]@[s], q),
        forall|mi: int, s: int, j: u64|
            0 <= mi < r@.len() && 0 <= s < lut@.len() && j < num_lanes(q)
                ==> #[trigger] lane_of(r@[mi]@[s], j, q) == term_image_lane(
                lut@[s],
                pgl3@[mi],
                lut@,
                j,
                q,
            ),
{
    let mut result: Vec<Vec<u64>> = Vec::new();
    let mut mi: usize = 0;
    while mi < pgl3.len()
        invariant
            q == 2 || q == 3,
            mi <= pgl3@.len(),
            forall|k: int| 0 <= k < pgl3@.len() ==> mat_wf(#[trigger] pgl3@[k], q),
            lut@.len() <= num_lanes(q),
            forall|s: int|
                0 <= s < lut@.len() ==> #[trigger] lut@[s].x_deg <= 20 && lut@[s].y_deg <= 20
                    && lut@[s].z_deg <= 20,
            result@.len() == mi,
            forall|k: int| 0 <= k < result@.len() ==> #[trigger] result@[k]@.len() == lut@.len(),
            forall|k: int, s: int|
                0 <= k < result@.len() && 0 <= s < lut@.len() ==> packed_valid(
                    #[trigger] result@[k]@[s],
                    q,
                ),
            forall|k: int, s: int, j: u64|
                0 <= k < result@.len() && 0 <= s < lut@.len() && j < num_lanes(q)
                    ==> #[trigger] lane_of(result@[k]@[s], j, q) == term_image_lane(
                    lut@[s],
                    pgl3@[k],
                    lut@,
                    j,
                    q,
                ),
        decreases pgl3@.len() - mi,
    {
        let m = pgl3[mi];
        let mut row: Vec<u64> = Vec::new();
        let mut s: usize = 0;
        while s < lut.len()
            invariant
                q == 2 || q == 3,
                mi < pgl3@.len(),
                m == pgl3@[mi as int],
                mat_wf(m, q),
                s <= lut@.len(),
                lut@.len() <= num_lanes(q),
                forall|t: int|
                    0 <= t < lut@.len() ==> #[trigger] lut@[t].x_deg <= 20 && lut@[t].y_deg <= 20
                        && lut@[t].z_deg <= 20,
                row@.len() == s,
                forall|t: int| 0 <= t < row@.len() ==> packed_valid(#[trigger] row@[t], q),
                forall|t: int, j: u64|
                    0 <= t < row@.len() && j < num_lanes(q) ==> #[trigger] lane_of(row@[t], j, q)
                        == term_image_lane(lut@[t], m, lut@, j, q),
            decreases lut@.len() - s,
        {
            let entry = lut[s].transform_by_matrix(&m, lut, q);
            row.push(entry);
            s = s + 1;
        }
        result.push(row);
        mi = mi + 1;
    }
    result
}

} // verus!

verus! {

/// The text of one term: `constant_xyz`, the coefficient and the three
/// exponents in decimal, the coefficient set off by an underscore.
pub open spec fn term_render(t: Term) -> Seq<char> {
    crate::render::spec_dec(t.constant as nat) + seq!['_'] + crate::render::spec_dec(
        t.x_deg as nat,
    ) + crate::render::spec_dec(t.y_deg as nat) + crate::render::spec_dec(t.z_deg as nat)
}

impl Term {
    /// Renders the term as `constant_xyz`.
    pub fn str(self) -> (r: String)
        ensures
            r@ == term_render(self),
    {
        let mut s = crate::render::u64_dec_string(self.constant as u64);
        proof {
            reveal_strlit("_");
        }
        s.append("_");
        let sx = crate::render::u64_dec_string(self.x_deg as u64);
        s.append(sx.as_str());
        let sy = crate::render::u64_dec_string(self.y_deg as u64);
        s.append(sy.as_str());
        let sz = crate::render::u64_dec_string(self.z_deg as u64);
        s.append(sz.as_str());
        proof {
            assert(s@ =~= term_render(self));
        }
        s
    }
}

/// The rendered polynomial over the first `k` slots: the nonzero
/// coefficients' terms, space-separated, in slot order.
pub open spec fn poly_render(bits: u64, lut: Seq<Term>, k: int, q: u64) -> Seq<char>
    decreases k,
{
    if k <= 0 {
        Seq::empty()
    } else {
        let prev = poly_render(bits, lut, k - 1, q);
        let c = lane_of(bits, (k - 1) as u64, q);
        if c == 0 {
            prev
        } else {
            let ts = term_render(
                Term {
                    x_deg: lut[k - 1].x_deg,
                    y_deg: lut[k - 1].y_deg,
                    z_deg: lut[k - 1].z_deg,
                    constant: c as u8,
                },
            );
            if prev.len() == 0 {
                ts
            } else {
                prev + seq![' '] + ts
            }
        }
    }
}

impl Polynomial {
    /// Renders the polynomial: one `constant_xyz` token per nonzero
    /// coefficient, space-joined, in slot order; empty when all
    /// coefficients vanish.
    pub fn str(&self, lut: &Vec<Term>, q: u64) -> (r: String)
        requires
            q == 2 || q == 3,
            lut@.len() <= num_lanes(q),
        ensures
            r@ == poly_render(self.bits, lut@, lut@.len() as int, q),
    {
        let cb: u64 = if q == 2 {
            1
        } else {
            2
        };
        let mask: u64 = if q == 2 {
            1
        } else {
            3
        };
        let mut poly_str = String::new();
        let mut empty = true;
        let mut i: usize = 0;
        while i < lut.len()
            invariant
                q == 2 || q == 3,
                cb == coeff_bits(q),
                mask == (if q == 2 {
                    1u64
                } else {
                    3u64
                }),
                i <= lut@.len(),
                lut@.len() <= num_lanes(q),
                poly_str@ == poly_render(self.bits, lut@, i as int, q),
                empty <==> poly_str@.len() == 0,
            decreases lut@.len() - i,
        {
            let constant = (self.bits >> ((i as u64) * cb)) & mask;
            proof {
                assert(constant == lane_of(self.bits, i as u64, q));
            }
            if constant > 0 {
                let t = lut[i].create_similar(constant as u8);
                let ts = t.str();
                if empty {
                    poly_str = ts;
                    empty = false;
                } else {
                    proof {
                        reveal_strlit(" ");
                    }
                    poly_str.append(" ");
                    poly_str.append(ts.as_str());
                }
                proof {
                    assert(poly_str@ =~= poly_render(self.bits, lut@, i as int + 1, q));
                    assert(term_render(t).len() >= 1) by {
                        assert(crate::render::spec_dec(t.constant as nat).len() >= 1);
                    }
                }
            }
            i = i + 1;
        }
        poly_str
    }
}

} // verus!

verus! {

/// The highest nonzero GF(3) coefficient among the low `n` lanes (0 when
/// all are zero).
pub open spec fn f3_leading_coeff(x: u64, n: int) -> u64
    decreases n,
{
    if n <= 0 {
        0
    } else if f3_lane(x, (n - 1) as u64) != 0 {
        f3_lane(x, (n - 1) as u64)
    } else {
        f3_leading_coeff(x, n - 1)
    }
}

impl Polynomial {
    /// Whether the highest nonzero coefficient is already 1 (over GF(2)
    /// every nonzero coefficient is).
    fn is_leading_coeff_unit(poly: Polynomial, q: u64) -> (r: bool)
        requires
            q == 2 || q == 3,
            packed_valid(poly.bits, q),
        ensures
            q == 2 ==> r == true,
            q == 3 ==> r == (f3_leading_coeff(poly.bits, 32) == 1),
    {
        if q == 2 {
            return true;
        }
        let mut i: usize = 32;
        while i > 0
            invariant
                q == 3,
                i <= 32,
                f3_leading_coeff(poly.bits, 32) == f3_leading_coeff(poly.bits, i as int),
            decreases i,
        {
            let lane = (poly.bits >> (((i - 1) as u64) * 2)) & 3;
            proof {
                assert(lane == f3_lane(poly.bits, (i - 1) as u64));
            }
            if lane != 0 {
                return lane == 1;
            }
            i = i - 1;
        }
        false
    }

    /// Scales the polynomial so that its highest nonzero coefficient
    /// becomes 1: over GF(3), a polynomial led by a 2 is doubled, which
    /// swaps the coefficients 1 and 2 everywhere.
    pub fn multiply_leading_coeff_to_unit(self, q: u64) -> (r: Polynomial)
        requires
            q == 2 || q == 3,
            packed_valid(self.bits, q),
        ensures
            q == 2 ==> r == self,
            q == 3 && f3_leading_coeff(self.bits, 32) == 1 ==> r == self,
            q == 3 && f3_leading_coeff(self.bits, 32) != 1 ==> f3_lanes_valid(r.bits) && forall|
                i: u64,
            |
                i < 32 ==> #[trigger] f3_lane(r.bits, i) == (f3_lane(self.bits, i) * 2) % 3,
    {
        if q == 2 {
            self
        } else {
            if !Polynomial::is_leading_coeff_unit(self, q) {
                Polynomial::new(Polynomial::multiply_bits_by_2_f3(self.bits))
            } else {
                self
            }
        }
    }
}

} // verus!

verus! {

/// The image of a single monomial has no coefficient past the monomial
/// table: every product term lands on a slot of the table or nowhere.
pub proof fn lemma_pack_lane_high_zero_for_image(t: Term, m: Matrix, lut: Seq<Term>, j: u64, q: u64)
    requires
        q == 2 || q == 3,
        j >= lut.len(),
    ensures
        term_image_lane(t, m, lut, j, q) == 0,
{
    if t.constant != 0 {
        let p = product_terms(
            expansion(m.data[0][0], m.data[0][1], m.data[0][2], t.x_deg, q),
            expansion(m.data[1][0], m.data[1][1], m.data[1][2], t.y_deg, q),
            expansion(m.data[2][0], m.data[2][1], m.data[2][2], t.z_deg, q),
            q,
        );
        lemma_pack_lane_high_zero(p, lut, p.len() as int, j, q);
    }
}

} // verus!

verus! {

proof fn lemma_monomials_from_len(degree: u8, a: int, b: int)
    requires
        0 <= a <= degree + 1,
        0 <= b,
        a <= degree ==> b <= degree - a + 1,
        a == degree + 1 ==> b == 0,
    ensures
        2 * monomials_from(degree, a, b).len() == (degree + 1 - a) * (degree + 2 - a) - 2 * b,
    decreases degree + 1 - a, degree + 1 - a - b,
{
    if a > degree {
        assert((degree + 1 - a) * (degree + 2 - a) == 0) by (nonlinear_arith)
            requires
                a == degree + 1,
        ;
    } else if b > degree - a {
        lemma_monomials_from_len(degree, a + 1, 0);
        let u = degree - a;
        assert((u + 1) * (u + 2) - 2 * (u + 1) == u * (u + 1)) by (nonlinear_arith);
    } else {
        lemma_monomials_from_len(degree, a, b + 1);
    }
}

/// The monomial table holds exactly (degree+1)(degree+2)/2 slots.
pub proof fn lemma_monomial_table_len(degree: u8)
    ensures
        2 * monomial_table(degree).len() == (degree + 1) * (degree + 2),
{
    lemma_monomials_from_len(degree, 0, 0);
}

} // verus!
