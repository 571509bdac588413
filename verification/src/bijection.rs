//! The bijection between dense enumeration indices and packed polynomials.
//!
//! Over GF(2) the packed representation is itself the index.  Over GF(3) an
//! index is read as a base-3 number and each base-3 digit is written into
//! its own 2-bit lane; the inverse reads the lanes back as base-3 digits.
//! A direct bit-domain successor advances a packed GF(3) value to the
//! encoding of the next index without a full decode/increment/encode trip.

use vstd::prelude::*;

use crate::field::{f2_lane, f3_lane, f3_lanes_valid, packed_valid};
use crate::field::{lemma_f3_lane_ext, lemma_lane_below_order, LANE_HIGH_BITS, LANE_LOW_BITS};
use vstd::arithmetic::div_mod::{
    lemma_div_denominator, lemma_div_multiples_vanish_fancy, lemma_mod_breakdown,
    lemma_mod_multiples_vanish, lemma_small_mod,
};
use vstd::arithmetic::power::{lemma_pow_adds, lemma_pow_increases, lemma_pow_positive, pow};

verus! {

/// Digit `i` of `x` written in base 3.
pub open spec fn tern_digit(x: u64, i: u64) -> u64
    decreases i,
{
    if i == 0 {
        x % 3
    } else {
        tern_digit(x / 3, (i - 1) as u64)
    }
}

/// The index encoded by the low `n` lanes of a packed GF(3) value: the
/// lane digits reassembled with base-3 positional weights.
pub open spec fn f3_index_of(x: u64, n: nat) -> int
    decreases n,
{
    if n == 0 {
        0
    } else {
        f3_index_of(x, (n - 1) as nat) + f3_lane(x, (n - 1) as u64) * pow(3, (n - 1) as nat)
    }
}

/// The value `x` restricted to its low `n` base-3 digits.
pub open spec fn tern_value(x: u64, n: nat) -> int
    decreases n,
{
    if n == 0 {
        0
    } else {
        tern_value(x, (n - 1) as nat) + tern_digit(x, (n - 1) as u64) * pow(3, (n - 1) as nat)
    }
}

/// A packed value lies in the `nl`-lane GF(3) domain: lanes are valid
/// digits and every lane past `nl` is zero.
pub open spec fn f3_in_domain(x: u64, nl: nat) -> bool {
    f3_lanes_valid(x) && forall|i: u64| nl <= i < 32 ==> f3_lane(x, i) == 0
}

/// The numeric value of `3^32`, the largest power the lane domain needs.
#[verifier::rlimit(100)]
pub proof fn lemma_pow3_32_value()
    ensures
        pow(3, 32) == 1853020188851841,
{
    reveal_with_fuel(pow, 33);
}

/// Base-3 digits are digits.
pub proof fn lemma_tern_digit_bound(x: u64, i: u64)
    ensures
        tern_digit(x, i) < 3,
    decreases i,
{
    if i == 0 {
    } else {
        lemma_tern_digit_bound(x / 3, (i - 1) as u64);
    }
}

/// A base-3 digit is the quotient by the matching power of 3, reduced mod 3.
proof fn lemma_tern_digit_is_div(x: u64, i: u64)
    ensures
        tern_digit(x, i) == (x as int / pow(3, i as nat)) % 3,
    decreases i,
{
    reveal(pow);
    if i == 0 {
        assert(pow(3, 0) == 1);
    } else {
        lemma_tern_digit_is_div(x / 3, (i - 1) as u64);
        lemma_pow_positive(3, (i - 1) as nat);
        lemma_div_denominator(x as int, 3, pow(3, (i - 1) as nat));
        assert(3 * pow(3, (i - 1) as nat) == pow(3, i as nat)) by {
            reveal(pow);
        }
    }
}

/// The low `n` base-3 digits of `x` reassemble to `x mod 3^n`.
proof fn lemma_tern_value_is_mod(x: u64, n: nat)
    requires
        n <= 32,
    ensures
        tern_value(x, n) == x as int % pow(3, n),
    decreases n,
{
    reveal(pow);
    if n == 0 {
        assert(pow(3, 0) == 1);
        assert(x as int % 1 == 0) by (nonlinear_arith);
    } else {
        let y = pow(3, (n - 1) as nat);
        lemma_tern_value_is_mod(x, (n - 1) as nat);
        lemma_pow_positive(3, (n - 1) as nat);
        lemma_mod_breakdown(x as int, y, 3);
        assert(x as int % (y * 3) == y * ((x as int / y) % 3) + x as int % y);
        lemma_tern_digit_is_div(x, (n - 1) as u64);
        assert(tern_digit(x, (n - 1) as u64) * y == y * ((x as int / y) % 3)) by {
            vstd::arithmetic::mul::lemma_mul_is_commutative(tern_digit(x, (n - 1) as u64) as int, y);
        }
        assert(y * 3 == pow(3, n)) by {
            reveal(pow);
        }
    }
}

/// Any value below `3^n` is exactly the reassembly of its `n` digits.
pub proof fn lemma_tern_value_id(x: u64, n: nat)
    requires
        n <= 32,
        x < pow(3, n),
    ensures
        tern_value(x, n) == x,
{
    lemma_tern_value_is_mod(x, n);
    lemma_small_mod(x as nat, pow(3, n) as nat);
}

/// If the low `n` lanes of `p` hold the base-3 digits of `idx`, the lanes
/// reassemble to `idx mod 3^n`.
pub proof fn lemma_index_of_digits(p: u64, idx: u64, n: nat)
    requires
        forall|i: u64| i < n ==> #[trigger] f3_lane(p, i) == tern_digit(idx, i),
    ensures
        f3_index_of(p, n) == tern_value(idx, n),
    decreases n,
{
    if n > 0 {
        lemma_index_of_digits(p, idx, (n - 1) as nat);
    }
}

/// `f3_index_of` is bounded by `3^n` whenever the lanes are valid digits.
pub proof fn lemma_f3_index_of_bound(x: u64, n: nat)
    requires
        n <= 32,
        f3_lanes_valid(x),
    ensures
        0 <= f3_index_of(x, n) < pow(3, n),
    decreases n,
{
    reveal(pow);
    if n == 0 {
        assert(pow(3, 0) == 1);
    } else {
        lemma_f3_index_of_bound(x, (n - 1) as nat);
        lemma_lane_below_order(x, (n - 1) as u64, 3);
        lemma_pow_positive(3, (n - 1) as nat);
        assert(f3_lane(x, (n - 1) as u64) * pow(3, (n - 1) as nat) <= 2 * pow(
            3,
            (n - 1) as nat,
        )) by (nonlinear_arith)
            requires
                f3_lane(x, (n - 1) as u64) <= 2,
                pow(3, (n - 1) as nat) > 0,
        ;
        assert(pow(3, n) == 3 * pow(3, (n - 1) as nat));
    }
}

/// The base-3 digits of a reassembled valid packed value are its lanes.
#[verifier::rlimit(50)]
pub proof fn lemma_digits_of_index_of(x: u64, n: nat, i: u64)
    requires
        n <= 32,
        f3_lanes_valid(x),
        i < n,
    ensures
        tern_digit((f3_index_of(x, n)) as u64, i) == f3_lane(x, i),
    decreases n,
{
    let v = f3_index_of(x, n);
    let vp = f3_index_of(x, (n - 1) as nat);
    let l = f3_lane(x, (n - 1) as u64) as int;
    lemma_f3_index_of_bound(x, n);
    lemma_f3_index_of_bound(x, (n - 1) as nat);
    lemma_lane_below_order(x, (n - 1) as u64, 3);
    lemma_pow_positive(3, (n - 1) as nat);
    assert(pow(3, n) <= pow(3, 32)) by {
        lemma_pow_increases(3, n, 32);
    }
    lemma_pow3_32_value();
    assert((v as u64) as int == v);
    lemma_tern_digit_is_div(v as u64, i);
    let pi = pow(3, i as nat);
    lemma_pow_positive(3, i as nat);
    if i == n - 1 {
        // v / 3^(n-1) == l, and l < 3
        assert(v == pi * l + vp);
        lemma_div_multiples_vanish_fancy(l, vp, pi);
        assert(v / pi == l);
        lemma_small_mod(l as nat, 3);
    } else {
        // digit i of v agrees with digit i of the prefix sum vp
        lemma_digits_of_index_of(x, (n - 1) as nat, i);
        lemma_tern_digit_is_div(vp as u64, i);
        let w = l * pow(3, (n - 1 - i - 1) as nat);
        assert(l * pow(3, (n - 1) as nat) == pi * (3 * w)) by {
            reveal(pow);
            lemma_pow_adds(3, i as nat, (n - 1 - i) as nat);
            lemma_pow_adds(3, 1, (n - 1 - i - 1) as nat);
            assert(l * (pi * (3 * pow(3, (n - 1 - i - 1) as nat))) == pi * (3 * (l * pow(
                3,
                (n - 1 - i - 1) as nat,
            )))) by (nonlinear_arith);
        }
        assert(v == vp + (3 * w) * pi);
        vstd::arithmetic::div_mod::lemma_hoist_over_denominator(vp, 3 * w, pi as nat);
        assert(v / pi == vp / pi + 3 * w);
        lemma_mod_multiples_vanish(w, vp / pi, 3);
        assert((3 * w + vp / pi) % 3 == (vp / pi) % 3);
    }
}

} // verus!

verus! {

proof fn lemma_f3_set_lane(res: u64, d: u64, i: u64, j: u64)
    by (bit_vector)
    requires
        i < 32,
        j < 32,
        d < 3,
        res >> ((i * 2) as u64) == 0,
        res & (res >> 1) & 0x5555_5555_5555_5555u64 == 0,
    ensures
        res + (d << ((i * 2) as u64)) <= u64::MAX,
        j < i ==> f3_lane((res + (d << ((i * 2) as u64))) as u64, j) == f3_lane(res, j),
        f3_lane((res + (d << ((i * 2) as u64))) as u64, i) == d,
        j > i ==> f3_lane((res + (d << ((i * 2) as u64))) as u64, j) == 0,
        i + 1 < 32 ==> ((res + (d << ((i * 2) as u64))) as u64) >> (((i + 1) * 2) as u64) == 0,
        ((res + (d << ((i * 2) as u64))) as u64) & (((res + (d << ((i * 2) as u64))) as u64) >> 1)
            & 0x5555_5555_5555_5555u64 == 0,
{
}

/// Takes an index to a packed polynomial: each base-3 digit of `index` is
/// written into its own 2-bit lane.
#[verifier::rlimit(50)]
pub fn f3_bijection(index: u64, nl: usize) -> (r: u64)
    requires
        nl <= 32,
    ensures
        f3_lanes_valid(r),
        forall|i: u64| i < nl ==> #[trigger] f3_lane(r, i) == tern_digit(index, i),
        forall|i: u64| nl <= i < 32 ==> #[trigger] f3_lane(r, i) == 0,
        index < pow(3, nl as nat) ==> f3_index_of(r, nl as nat) == index,
{
    let mut res: u64 = 0;
    let mut idx = index;
    let mut i: usize = 0;
    proof {
        vstd::arithmetic::power::lemma_pow0(3);
        crate::field::lemma_zero_packed();
        assert(0u64 >> 0 == 0) by (bit_vector);
        assert(forall|j: u64| f3_lane(0, j) == 0) by (bit_vector);
    }
    while i < nl
        invariant
            i <= nl,
            nl <= 32,
            f3_lanes_valid(res),
            idx as int == index as int / pow(3, i as nat),
            forall|j: u64| j < i ==> #[trigger] f3_lane(res, j) == tern_digit(index, j),
            forall|j: u64| i <= j < 32 ==> #[trigger] f3_lane(res, j) == 0,
            i < 32 ==> res >> (((i * 2)) as u64) == 0,
        decreases nl - i,
    {
        let ghost r0 = res;
        let ghost idx0 = idx;
        let d = idx % 3;
        proof {
            lemma_f3_set_lane(r0, d, i as u64, 0);
            assert((2 * i) as u64 == ((i as u64) * 2) as u64);
        }
        res = res + (d << ((2 * i) as u64));
        idx = idx / 3;
        proof {
            lemma_tern_digit_is_div(index, i as u64);
            assert(d == tern_digit(index, i as u64));
            assert forall|j: u64| j < i + 1 implies #[trigger] f3_lane(res, j) == tern_digit(
                index,
                j,
            ) by {
                lemma_f3_set_lane(r0, d, i as u64, j);
            }
            assert forall|j: u64| i + 1 <= j < 32 implies #[trigger] f3_lane(res, j) == 0 by {
                lemma_f3_set_lane(r0, d, i as u64, j);
            }
            lemma_f3_set_lane(r0, d, i as u64, 0);
            // the quotient steps down one power of 3
            lemma_pow_positive(3, i as nat);
            lemma_div_denominator(index as int, pow(3, i as nat), 3);
            assert(pow(3, (i + 1) as nat) == pow(3, i as nat) * 3) by {
                reveal(pow);
                vstd::arithmetic::mul::lemma_mul_is_commutative(3, pow(3, i as nat));
            }
        }
        i = i + 1;
    }
    proof {
        if index < pow(3, nl as nat) {
            lemma_index_of_digits(res, index, nl as nat);
            lemma_tern_value_id(index, nl as nat);
        }
    }
    res
}

/// Takes a packed polynomial to its index: reads each 2-bit lane back as a
/// base-3 digit and reassembles the index with positional weights.
pub fn f3_bijection_inverse(poly: u64, nl: usize) -> (r: u64)
    requires
        nl <= 32,
    ensures
        r as int == f3_index_of(poly, nl as nat),
        f3_lanes_valid(poly) ==> (r as int) < pow(3, nl as nat),
{
    let mut mult: u64 = 1;
    let mut res: u64 = 0;
    let mut i: usize = 0;
    proof {
        vstd::arithmetic::power::lemma_pow0(3);
    }
    while i < nl
        invariant
            i <= nl,
            nl <= 32,
            mult as int == pow(3, i as nat),
            res as int == f3_index_of(poly, i as nat),
            2 * res as int <= 3 * (pow(3, i as nat) - 1),
        decreases nl - i,
    {
        let d = (poly >> ((2 * i) as u64)) & 3;
        proof {
            assert((2 * i) as u64 == ((i as u64) * 2) as u64);
            assert(d == f3_lane(poly, i as u64));
            assert((poly >> ((2 * i) as u64)) & 3 <= 3) by (bit_vector);
            lemma_pow_positive(3, i as nat);
            lemma_pow_increases(3, (i + 1) as nat, 32);
            lemma_pow3_32_value();
            assert(pow(3, (i + 1) as nat) == 3 * pow(3, i as nat)) by {
                reveal(pow);
            }
            assert(mult as int * d <= 3 * pow(3, i as nat)) by (nonlinear_arith)
                requires
                    mult as int == pow(3, i as nat),
                    d <= 3,
                    pow(3, i as nat) > 0,
            ;
            vstd::arithmetic::mul::lemma_mul_is_commutative(
                f3_lane(poly, i as u64) as int,
                pow(3, i as nat),
            );
            assert(f3_index_of(poly, (i + 1) as nat) == f3_index_of(poly, i as nat) + f3_lane(
                poly,
                i as u64,
            ) * pow(3, i as nat));
        }
        res = res + mult * d;
        mult = mult * 3;
        i = i + 1;
        proof {
            lemma_pow_positive(3, (i - 1) as nat);
        }
    }
    proof {
        if f3_lanes_valid(poly) {
            lemma_f3_index_of_bound(poly, nl as nat);
        }
    }
    res
}

} // verus!

verus! {

/// The lanes of `b` strictly below lane `i` all hold the digit 2.
pub open spec fn f3_prefix_all_twos(b: u64, i: u64) -> bool {
    b & (((1u64 << ((i * 2) as u64)) - 1) as u64) == 0xAAAA_AAAA_AAAA_AAAAu64 & (((1u64 << ((i * 2)
        as u64)) - 1) as u64)
}

/// What the successor leaves in lane `i`: digits carry like a base-3
/// increment, bumping lane `i` exactly when every lower lane was a 2.
pub open spec fn f3_succ_lane(b: u64, i: u64) -> u64 {
    if f3_prefix_all_twos(b, i) {
        ((f3_lane(b, i) + 1) % 3) as u64
    } else {
        f3_lane(b, i)
    }
}

proof fn lemma_prefix_step(b: u64, i: u64)
    by (bit_vector)
    requires
        i < 31,
    ensures
        f3_prefix_all_twos(b, (i + 1) as u64) == (f3_prefix_all_twos(b, i) && f3_lane(b, i) == 2),
{
}

proof fn lemma_prefix_zero(b: u64)
    by (bit_vector)
    ensures
        f3_prefix_all_twos(b, 0),
{
}

/// The bitmask prefix test agrees with the lane-by-lane reading.
proof fn lemma_prefix_iff(b: u64, i: u64)
    requires
        i <= 31,
    ensures
        f3_prefix_all_twos(b, i) <==> (forall|j: u64| j < i ==> #[trigger] f3_lane(b, j) == 2),
    decreases i,
{
    if i == 0 {
        lemma_prefix_zero(b);
    } else {
        lemma_prefix_iff(b, (i - 1) as u64);
        lemma_prefix_step(b, (i - 1) as u64);
        if f3_prefix_all_twos(b, i) {
            assert forall|j: u64| j < i implies #[trigger] f3_lane(b, j) == 2 by {
                if j < i - 1 {
                } else {
                    assert(j == i - 1);
                }
            }
        }
    }
}

proof fn lemma_next_f3_lane(bits: u64, r: u64, i: u64)
    by (bit_vector)
    requires
        i < 32,
        bits & (bits >> 1) & 0x5555_5555_5555_5555u64 == 0,
        (bits >> 62u64) & 3 == 0,
        bits >= (((bits ^ 0xAAAA_AAAA_AAAA_AAAAu64) | 0x5555_5555_5555_5555u64) >> 1) ==> r == ((
        bits - (((bits ^ 0xAAAA_AAAA_AAAA_AAAAu64) | 0x5555_5555_5555_5555u64) >> 1)) as u64) & (((
        bits ^ 0xAAAA_AAAA_AAAA_AAAAu64) | 0x5555_5555_5555_5555u64) >> 1),
        bits < (((bits ^ 0xAAAA_AAAA_AAAA_AAAAu64) | 0x5555_5555_5555_5555u64) >> 1) ==> r == ((
        bits - (((bits ^ 0xAAAA_AAAA_AAAA_AAAAu64) | 0x5555_5555_5555_5555u64) >> 1)
            + 0x1_0000_0000_0000_0000) as u64) & (((bits ^ 0xAAAA_AAAA_AAAA_AAAAu64)
            | 0x5555_5555_5555_5555u64) >> 1),
    ensures
        f3_lane(r, i) == f3_succ_lane(bits, i),
        r & (r >> 1) & 0x5555_5555_5555_5555u64 == 0,
{
}

/// Advances a packed GF(3) value to the encoding of the next index, purely
/// in the bit domain: each lane carries like a base-3 digit increment.
pub fn next_f3(bits: u64) -> (r: u64)
    requires
        f3_lanes_valid(bits),
        f3_lane(bits, 31) == 0,
    ensures
        f3_lanes_valid(r),
        forall|i: u64| i < 32 ==> #[trigger] f3_lane(r, i) == f3_succ_lane(bits, i),
{
    let t = ((bits ^ LANE_HIGH_BITS) | LANE_LOW_BITS) >> 1u64;
    let r = bits.wrapping_sub(t) & t;
    proof {
        assert((bits >> 62u64) & 3 == f3_lane(bits, 31));
        assert forall|i: u64| i < 32 implies #[trigger] f3_lane(r, i) == f3_succ_lane(
            bits,
            i,
        ) by {
            lemma_next_f3_lane(bits, r, i);
        }
        lemma_next_f3_lane(bits, r, 0);
    }
    r
}

/// The bit-domain successor really is the index successor: inside the
/// `nl`-lane domain, any `r` whose lanes carry like a base-3 increment of
/// `bits` encodes exactly the next index, as long as `bits` was not the
/// last value of the domain.
pub proof fn lemma_next_f3_is_successor(bits: u64, r: u64, nl: nat)
    requires
        nl <= 32,
        f3_in_domain(bits, nl),
        f3_index_of(bits, nl) < pow(3, nl) - 1,
        f3_lanes_valid(r),
        forall|i: u64| i < 32 ==> #[trigger] f3_lane(r, i) == f3_succ_lane(bits, i),
    ensures
        f3_in_domain(r, nl),
        f3_index_of(r, nl) == f3_index_of(bits, nl) + 1,
{
    lemma_f3_index_of_bound(bits, nl);
    lemma_next_f3_cases(bits, r, nl);
    if forall|j: u64| j < nl ==> #[trigger] f3_lane(bits, j) == 2 {
        // then the index would already be the last of the domain
        lemma_all_twos_max(bits, nl);
        assert(false);
    }
    // lanes at and above nl stay zero
    assert forall|i: u64| nl <= i < 32 implies #[trigger] f3_lane(r, i) == 0 by {
        lemma_prefix_iff(bits, (if i <= 31 { i } else { 31 }) as u64);
        if f3_prefix_all_twos(bits, i) {
            let jw = choose|j: u64| j < nl && f3_lane(bits, j) != 2;
            assert(f3_lane(bits, jw) == 2);
        }
    }
}

/// If every lane below `nl` holds a 2, the encoded index is the largest of
/// the domain.
proof fn lemma_all_twos_max(bits: u64, nl: nat)
    requires
        nl <= 32,
        forall|j: u64| j < nl ==> #[trigger] f3_lane(bits, j) == 2,
    ensures
        f3_index_of(bits, nl) == pow(3, nl) - 1,
    decreases nl,
{
    reveal(pow);
    if nl == 0 {
    } else {
        lemma_all_twos_max(bits, (nl - 1) as nat);
    }
}

/// The two outcomes of a lane-wise base-3 increment on the low `n` lanes:
/// a wrap to zero past the last value, or a step to the next index.
proof fn lemma_next_f3_cases(bits: u64, r: u64, n: nat)
    requires
        n <= 32,
        f3_lanes_valid(bits),
        forall|i: u64| i < 32 ==> #[trigger] f3_lane(r, i) == f3_succ_lane(bits, i),
    ensures
        (forall|j: u64| j < n ==> #[trigger] f3_lane(bits, j) == 2) ==> f3_index_of(r, n) == 0,
        !(forall|j: u64| j < n ==> #[trigger] f3_lane(bits, j) == 2) ==> f3_index_of(r, n)
            == f3_index_of(bits, n) + 1,
    decreases n,
{
    reveal(pow);
    if n == 0 {
    } else {
        lemma_next_f3_cases(bits, r, (n - 1) as nat);
        let nm = (n - 1) as u64;
        let l = f3_lane(bits, nm);
        let p = pow(3, (n - 1) as nat);
        lemma_pow_positive(3, (n - 1) as nat);
        lemma_lane_below_order(bits, nm, 3);
        lemma_prefix_iff(bits, (if nm <= 31 { nm } else { 31 }) as u64);
        if forall|j: u64| j < n ==> #[trigger] f3_lane(bits, j) == 2 {
            assert(f3_prefix_all_twos(bits, nm));
            assert(f3_lane(r, nm) == 0);
            assert(f3_index_of(r, n) == f3_index_of(r, (n - 1) as nat) + 0 * p);
        } else {
            if forall|j: u64| j < n - 1 ==> #[trigger] f3_lane(bits, j) == 2 {
                // the first non-2 lane is exactly n-1
                assert(l != 2) by {
                    assert(exists|j: u64| j < n && f3_lane(bits, j) != 2);
                    let jw = choose|j: u64| j < n && f3_lane(bits, j) != 2;
                    assert(jw == nm);
                }
                assert(f3_prefix_all_twos(bits, nm));
                assert(f3_lane(r, nm) == l + 1);
                lemma_all_twos_max(bits, (n - 1) as nat);
                assert(f3_index_of(bits, (n - 1) as nat) == p - 1);
                assert(f3_index_of(r, n) == 0 + (l + 1) * p);
                assert(f3_index_of(bits, n) + 1 == p - 1 + l * p + 1);
                assert((l + 1) * p == l * p + p) by (nonlinear_arith);
            } else {
                // a non-2 lane lies below n-1
                assert(!f3_prefix_all_twos(bits, nm)) by {
                    if f3_prefix_all_twos(bits, nm) {
                        let jw = choose|j: u64| j < n - 1 && f3_lane(bits, j) != 2;
                        assert(f3_lane(bits, jw) == 2);
                    }
                }
                assert(f3_lane(r, nm) == l);
            }
        }
    }
}

} // verus!

verus! {

/// The enumeration index encoded by a packed polynomial for field order `q`.
pub open spec fn packed_index_of(x: u64, q: u64, nl: nat) -> int {
    if q == 2 {
        x as int
    } else {
        f3_index_of(x, nl)
    }
}

/// The packed value lies in the `nl`-lane domain for field order `q`.
pub open spec fn packed_in_domain(x: u64, q: u64, nl: nat) -> bool {
    if q == 2 {
        (x as int) < pow(2, nl)
    } else {
        f3_in_domain(x, nl)
    }
}

/// The largest lane count the bit-domain iteration supports for order `q`.
pub open spec fn max_lanes(q: u64) -> nat {
    if q == 2 {
        63
    } else {
        31
    }
}

/// Takes an index to the packed polynomial that encodes it.
pub fn index_to_poly_map(index: u64, q: u64, nl: usize) -> (r: u64)
    requires
        q == 2 || q == 3,
        nl as nat <= max_lanes(q),
        (index as int) < pow(q as int, nl as nat),
    ensures
        packed_valid(r, q),
        packed_in_domain(r, q, nl as nat),
        packed_index_of(r, q, nl as nat) == index,
{
    if q == 2 {
        index
    } else {
        f3_bijection(index, nl)
    }
}

/// Takes a packed polynomial back to its index.
pub fn poly_to_index_map(poly: u64, q: u64, nl: usize) -> (r: u64)
    requires
        q == 2 || q == 3,
        nl as nat <= max_lanes(q),
        packed_valid(poly, q),
    ensures
        r as int == packed_index_of(poly, q, nl as nat),
        packed_in_domain(poly, q, nl as nat) ==> (r as int) < pow(q as int, nl as nat),
{
    if q == 2 {
        poly
    } else {
        f3_bijection_inverse(poly, nl)
    }
}

/// Advances a packed polynomial to the encoding of the next index.
pub fn poly_next(poly: u64, q: u64, nl: usize) -> (r: u64)
    requires
        q == 2 || q == 3,
        nl as nat <= max_lanes(q),
        packed_valid(poly, q),
        packed_in_domain(poly, q, nl as nat),
        packed_index_of(poly, q, nl as nat) < pow(q as int, nl as nat) - 1,
    ensures
        packed_valid(r, q),
        packed_in_domain(r, q, nl as nat),
        packed_index_of(r, q, nl as nat) == packed_index_of(poly, q, nl as nat) + 1,
{
    if q == 2 {
        proof {
            lemma_pow_increases(2, nl as nat, 63);
            assert(pow(2, 63) == 0x8000_0000_0000_0000) by {
                vstd::arithmetic::power2::lemma2_to64_rest();
                vstd::arithmetic::power2::lemma_pow2(63);
            }
        }
        poly + 1
    } else {
        proof {
            assert(f3_lane(poly, 31) == 0);
        }
        let r = next_f3(poly);
        proof {
            lemma_next_f3_is_successor(poly, r, nl as nat);
        }
        r
    }
}

} // verus!

verus! {

proof fn lemma_f2_shift_step(x: u64, k: u64)
    by (bit_vector)
    requires
        k < 63,
        x >> ((k + 1) as u64) == 0,
        (x >> k) & 1 == 0,
    ensures
        x >> k == 0,
{
}

proof fn lemma_f2_shift_zero(x: u64, k: u64)
    requires
        k <= 63,
        forall|j: u64| k <= j < 64 ==> #[trigger] f2_lane(x, j) == 0,
    ensures
        x >> k == 0,
    decreases 64 - k,
{
    if k == 63 {
        assert(f2_lane(x, 63) == 0);
        assert((x >> 63u64) & 1 == 0 ==> x >> 63u64 == 0) by (bit_vector);
    } else {
        lemma_f2_shift_zero(x, (k + 1) as u64);
        assert(f2_lane(x, k) == 0);
        lemma_f2_shift_step(x, k);
    }
}

/// A GF(2)-packed value whose lanes at and past `nl` are clear is below
/// `2^nl`.
pub proof fn lemma_f2_lanes_give_bound(x: u64, nl: nat)
    requires
        nl <= 63,
        forall|j: u64| nl <= j < 64 ==> #[trigger] f2_lane(x, j) == 0,
    ensures
        (x as int) < pow(2, nl),
{
    lemma_f2_shift_zero(x, nl as u64);
    vstd::bits::lemma_u64_shr_is_div(x, nl as u64);
    vstd::arithmetic::power2::lemma_pow2_pos(nl);
    vstd::arithmetic::div_mod::lemma_fundamental_div_mod(
        x as int,
        vstd::arithmetic::power2::pow2(nl) as int,
    );
    vstd::arithmetic::div_mod::lemma_mod_bound(x as int, vstd::arithmetic::power2::pow2(nl) as int);
    vstd::arithmetic::power2::lemma_pow2(nl);
}

/// A GF(2)-packed value below `2^nl` has no lane set at or past `nl`.
pub proof fn lemma_f2_bound_gives_lanes(x: u64, nl: nat, j: u64)
    requires
        nl <= 63,
        (x as int) < pow(2, nl),
        nl <= j < 64,
    ensures
        f2_lane(x, j) == 0,
{
    vstd::bits::lemma_u64_shr_is_div(x, j);
    vstd::arithmetic::power2::lemma_pow2_pos(j as nat);
    vstd::arithmetic::power2::lemma_pow2(j as nat);
    vstd::arithmetic::power2::lemma_pow2(nl);
    vstd::arithmetic::power::lemma_pow_increases(2, nl, j as nat);
    vstd::arithmetic::div_mod::lemma_basic_div(
        x as int,
        vstd::arithmetic::power2::pow2(j as nat) as int,
    );
    assert(x >> j == 0);
    assert((0u64) & 1 == 0) by (bit_vector);
}

/// The all-zero word encodes index 0.
pub proof fn lemma_f3_index_of_zero(n: nat)
    ensures
        f3_index_of(0, n) == 0,
    decreases n,
{
    if n > 0 {
        lemma_f3_index_of_zero((n - 1) as nat);
        let i = (n - 1) as u64;
        crate::field::lemma_zero_packed();
        assert(0 * pow(3, (n - 1) as nat) == 0) by (nonlinear_arith);
    }
}

/// Only the all-zero word encodes index 0.
pub proof fn lemma_f3_index_zero_lanes(x: u64, n: nat)
    requires
        n <= 32,
        f3_lanes_valid(x),
        f3_index_of(x, n) == 0,
    ensures
        forall|i: u64| i < n ==> #[trigger] f3_lane(x, i) == 0,
    decreases n,
{
    if n > 0 {
        lemma_f3_index_of_bound(x, (n - 1) as nat);
        lemma_pow_positive(3, (n - 1) as nat);
        crate::field::lemma_lane_below_order(x, (n - 1) as u64, 3);
        assert(f3_lane(x, (n - 1) as u64) * pow(3, (n - 1) as nat) >= 0) by (nonlinear_arith)
            requires
                f3_lane(x, (n - 1) as u64) >= 0,
                pow(3, (n - 1) as nat) > 0,
        ;
        assert(f3_lane(x, (n - 1) as u64) * pow(3, (n - 1) as nat) == 0);
        assert(f3_lane(x, (n - 1) as u64) == 0) by (nonlinear_arith)
            requires
                f3_lane(x, (n - 1) as u64) * pow(3, (n - 1) as nat) == 0,
                pow(3, (n - 1) as nat) > 0,
                f3_lane(x, (n - 1) as u64) >= 0,
        ;
        lemma_f3_index_zero_lanes(x, (n - 1) as nat);
        assert forall|i: u64| i < n implies #[trigger] f3_lane(x, i) == 0 by {
            if i < n - 1 {
            } else {
                assert(i == n - 1);
            }
        }
    }
}

} // verus!

verus! {

/// Round trip on the packed side: a packed value that holds the base-3
/// digits of another in-domain value's index is that value itself — so
/// re-encoding `f3_bijection_inverse`'s result with `f3_bijection` gives
/// back exactly the polynomial it came from.
pub proof fn lemma_f3_round_trip_packed(x: u64, p: u64, nl: nat)
    requires
        nl <= 32,
        f3_in_domain(x, nl),
        f3_lanes_valid(p),
        forall|i: u64|
            i < nl ==> #[trigger] f3_lane(p, i) == tern_digit((f3_index_of(x, nl)) as u64, i),
        forall|i: u64| nl <= i < 32 ==> #[trigger] f3_lane(p, i) == 0,
    ensures
        p == x,
{
    assert forall|i: u64| i < 32 implies #[trigger] f3_lane(p, i) == f3_lane(x, i) by {
        if i < nl {
            lemma_digits_of_index_of(x, nl, i);
        }
    }
    lemma_f3_lane_ext(p, x);
}

} // verus!
