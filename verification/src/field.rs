//! Packed (SWAR) arithmetic over GF(2) and GF(3).
//!
//! A `u64` holds many field elements at once: 64 one-bit lanes over GF(2),
//! 32 two-bit lanes over GF(3).  Over GF(3) a lane stores the digit 0, 1 or
//! 2; the bit pattern `11` is invalid and no operation here ever produces it
//! from valid inputs.  Every operation acts on all lanes simultaneously
//! through bit masks, and its contract states the effect lane by lane.

use vstd::prelude::*;

verus! {

/// Mask of the low bit of every 2-bit lane.
pub const LANE_LOW_BITS: u64 = 0x5555_5555_5555_5555;

/// Mask of the high bit of every 2-bit lane.
pub const LANE_HIGH_BITS: u64 = 0xAAAA_AAAA_AAAA_AAAA;

/// The GF(3) digit stored in lane `i` (2 bits per lane).
pub open spec fn f3_lane(x: u64, i: u64) -> u64 {
    (x >> ((i * 2) as u64)) & 3
}

/// The GF(2) digit stored in lane `i` (1 bit per lane).
pub open spec fn f2_lane(x: u64, i: u64) -> u64 {
    (x >> i) & 1
}

/// Every 2-bit lane holds 0, 1 or 2 — never the invalid pattern `11`.
pub open spec fn f3_lanes_valid(x: u64) -> bool {
    x & (x >> 1) & LANE_LOW_BITS == 0
}

/// How many coefficient lanes a `u64` holds for field order `q`.
pub open spec fn num_lanes(q: u64) -> u64 {
    if q == 2 {
        64
    } else {
        32
    }
}

/// The digit stored in lane `i` for field order `q`.
pub open spec fn lane_of(x: u64, i: u64, q: u64) -> u64 {
    if q == 2 {
        f2_lane(x, i)
    } else {
        f3_lane(x, i)
    }
}

/// All lanes hold digits below `q`.
pub open spec fn packed_valid(x: u64, q: u64) -> bool {
    if q == 2 {
        true
    } else {
        f3_lanes_valid(x)
    }
}

/// The zero word is a valid packed vector with every lane zero.
pub proof fn lemma_zero_packed()
    by (bit_vector)
    ensures
        forall|j: u64| #[trigger] f2_lane(0, j) == 0,
        forall|j: u64| #[trigger] f3_lane(0, j) == 0,
        0u64 & (0u64 >> 1) & 0x5555_5555_5555_5555u64 == 0,
{
}

/// A lane is valid exactly when its digit is below 3.
proof fn lemma_f3_valid_lane(x: u64, i: u64)
    by (bit_vector)
    requires
        i < 32,
        x & (x >> 1) & 0x5555_5555_5555_5555u64 == 0,
    ensures
        (x >> ((i * 2) as u64)) & 3 < 3,
{
}

/// Validity of a packed value bounds every lane digit by the field order.
pub proof fn lemma_lane_below_order(x: u64, i: u64, q: u64)
    requires
        q == 2 || q == 3,
        i < num_lanes(q),
        packed_valid(x, q),
    ensures
        lane_of(x, i, q) < q,
{
    if q == 2 {
        assert((x >> i) & 1 < 2) by (bit_vector);
    } else {
        lemma_f3_valid_lane(x, i);
    }
}

proof fn lemma_f3_add_fast_lane(a: u64, b: u64, r: u64, i: u64)
    by (bit_vector)
    requires
        i < 32,
        a & (a >> 1) & 0x5555_5555_5555_5555u64 == 0,
        b & (b >> 1) & 0x5555_5555_5555_5555u64 == 0,
        r == !((((((0xAAAA_AAAA_AAAA_AAAAu64 & !a) >> 1) & !a) << 1 | ((0xAAAA_AAAA_AAAA_AAAAu64
            & !a) >> 1) & !a) | ((((0xAAAA_AAAA_AAAA_AAAAu64 & !b) >> 1) & !b) << 1 | ((
        0xAAAA_AAAA_AAAA_AAAAu64 & !b) >> 1) & !b)) ^ (a | b)),
    ensures
        (r >> ((i * 2) as u64)) & 3 == (((a >> ((i * 2) as u64)) & 3) + ((b >> ((i * 2) as u64))
            & 3)) % 3,
        r & (r >> 1) & 0x5555_5555_5555_5555u64 == 0,
{
}

/// Packed addition over GF(2): each 1-bit lane is added modulo 2.
pub fn internal_add_f2(a: u64, b: u64) -> (r: u64)
    ensures
        r == a ^ b,
        forall|i: u64| i < 64 ==> f2_lane(r, i) == (f2_lane(a, i) + f2_lane(b, i)) % 2,
{
    proof {
        assert forall|i: u64| i < 64 implies f2_lane(a ^ b, i) == (f2_lane(a, i) + f2_lane(b, i))
            % 2 by {
            assert(((a ^ b) >> i) & 1 == (((a >> i) & 1) + ((b >> i) & 1)) % 2) by (bit_vector);
        }
    }
    a ^ b
}

/// Packed addition over GF(3): each 2-bit lane is added modulo 3, with no
/// lane ever unpacked.
pub fn internal_add_f3_fast(a: u64, b: u64) -> (r: u64)
    requires
        f3_lanes_valid(a),
        f3_lanes_valid(b),
    ensures
        f3_lanes_valid(r),
        forall|i: u64| i < 32 ==> f3_lane(r, i) == (f3_lane(a, i) + f3_lane(b, i)) % 3,
{
    let na = !a;
    let nb = !b;
    let a4 = ((LANE_HIGH_BITS & na) >> 1u64) & na;
    let b4 = ((LANE_HIGH_BITS & nb) >> 1u64) & nb;
    let r = !(((a4 << 1u64 | a4) | (b4 << 1u64 | b4)) ^ (a | b));
    proof {
        assert forall|i: u64| i < 32 implies f3_lane(r, i) == (f3_lane(a, i) + f3_lane(b, i))
            % 3 by {
            lemma_f3_add_fast_lane(a, b, r, i);
        }
        lemma_f3_add_fast_lane(a, b, r, 0);
    }
    r
}

} // verus!

verus! {

proof fn lemma_f3_ext_witness(x: u64, y: u64)
    by (bit_vector)
    requires
        f3_lane(x, 0) == f3_lane(y, 0),
        f3_lane(x, 1) == f3_lane(y, 1),
        f3_lane(x, 2) == f3_lane(y, 2),
        f3_lane(x, 3) == f3_lane(y, 3),
        f3_lane(x, 4) == f3_lane(y, 4),
        f3_lane(x, 5) == f3_lane(y, 5),
        f3_lane(x, 6) == f3_lane(y, 6),
        f3_lane(x, 7) == f3_lane(y, 7),
        f3_lane(x, 8) == f3_lane(y, 8),
        f3_lane(x, 9) == f3_lane(y, 9),
        f3_lane(x, 10) == f3_lane(y, 10),
        f3_lane(x, 11) == f3_lane(y, 11),
        f3_lane(x, 12) == f3_lane(y, 12),
        f3_lane(x, 13) == f3_lane(y, 13),
        f3_lane(x, 14) == f3_lane(y, 14),
        f3_lane(x, 15) == f3_lane(y, 15),
        f3_lane(x, 16) == f3_lane(y, 16),
        f3_lane(x, 17) == f3_lane(y, 17),
        f3_lane(x, 18) == f3_lane(y, 18),
        f3_lane(x, 19) == f3_lane(y, 19),
        f3_lane(x, 20) == f3_lane(y, 20),
        f3_lane(x, 21) == f3_lane(y, 21),
        f3_lane(x, 22) == f3_lane(y, 22),
        f3_lane(x, 23) == f3_lane(y, 23),
        f3_lane(x, 24) == f3_lane(y, 24),
        f3_lane(x, 25) == f3_lane(y, 25),
        f3_lane(x, 26) == f3_lane(y, 26),
        f3_lane(x, 27) == f3_lane(y, 27),
        f3_lane(x, 28) == f3_lane(y, 28),
        f3_lane(x, 29) == f3_lane(y, 29),
        f3_lane(x, 30) == f3_lane(y, 30),
        f3_lane(x, 31) == f3_lane(y, 31),
    ensures
        x == y,
{
}

/// Two words with the same digit in every 2-bit lane are equal.
pub proof fn lemma_f3_lane_ext(x: u64, y: u64)
    requires
        forall|i: u64| i < 32 ==> #[trigger] f3_lane(x, i) == f3_lane(y, i),
    ensures
        x == y,
{
        assert(f3_lane(x, 0) == f3_lane(y, 0));
        assert(f3_lane(x, 1) == f3_lane(y, 1));
        assert(f3_lane(x, 2) == f3_lane(y, 2));
        assert(f3_lane(x, 3) == f3_lane(y, 3));
        assert(f3_lane(x, 4) == f3_lane(y, 4));
        assert(f3_lane(x, 5) == f3_lane(y, 5));
        assert(f3_lane(x, 6) == f3_lane(y, 6));
        assert(f3_lane(x, 7) == f3_lane(y, 7));
        assert(f3_lane(x, 8) == f3_lane(y, 8));
        assert(f3_lane(x, 9) == f3_lane(y, 9));
        assert(f3_lane(x, 10) == f3_lane(y, 10));
        assert(f3_lane(x, 11) == f3_lane(y, 11));
        assert(f3_lane(x, 12) == f3_lane(y, 12));
        assert(f3_lane(x, 13) == f3_lane(y, 13));
        assert(f3_lane(x, 14) == f3_lane(y, 14));
        assert(f3_lane(x, 15) == f3_lane(y, 15));
        assert(f3_lane(x, 16) == f3_lane(y, 16));
        assert(f3_lane(x, 17) == f3_lane(y, 17));
        assert(f3_lane(x, 18) == f3_lane(y, 18));
        assert(f3_lane(x, 19) == f3_lane(y, 19));
        assert(f3_lane(x, 20) == f3_lane(y, 20));
        assert(f3_lane(x, 21) == f3_lane(y, 21));
        assert(f3_lane(x, 22) == f3_lane(y, 22));
        assert(f3_lane(x, 23) == f3_lane(y, 23));
        assert(f3_lane(x, 24) == f3_lane(y, 24));
        assert(f3_lane(x, 25) == f3_lane(y, 25));
        assert(f3_lane(x, 26) == f3_lane(y, 26));
        assert(f3_lane(x, 27) == f3_lane(y, 27));
        assert(f3_lane(x, 28) == f3_lane(y, 28));
        assert(f3_lane(x, 29) == f3_lane(y, 29));
        assert(f3_lane(x, 30) == f3_lane(y, 30));
        assert(f3_lane(x, 31) == f3_lane(y, 31));
        lemma_f3_ext_witness(x, y);
}

proof fn lemma_f2_ext_witness(x: u64, y: u64)
    by (bit_vector)
    requires
        f2_lane(x, 0) == f2_lane(y, 0),
        f2_lane(x, 1) == f2_lane(y, 1),
        f2_lane(x, 2) == f2_lane(y, 2),
        f2_lane(x, 3) == f2_lane(y, 3),
        f2_lane(x, 4) == f2_lane(y, 4),
        f2_lane(x, 5) == f2_lane(y, 5),
        f2_lane(x, 6) == f2_lane(y, 6),
        f2_lane(x, 7) == f2_lane(y, 7),
        f2_lane(x, 8) == f2_lane(y, 8),
        f2_lane(x, 9) == f2_lane(y, 9),
        f2_lane(x, 10) == f2_lane(y, 10),
        f2_lane(x, 11) == f2_lane(y, 11),
        f2_lane(x, 12) == f2_lane(y, 12),
        f2_lane(x, 13) == f2_lane(y, 13),
        f2_lane(x, 14) == f2_lane(y, 14),
        f2_lane(x, 15) == f2_lane(y, 15),
        f2_lane(x, 16) == f2_lane(y, 16),
        f2_lane(x, 17) == f2_lane(y, 17),
        f2_lane(x, 18) == f2_lane(y, 18),
        f2_lane(x, 19) == f2_lane(y, 19),
        f2_lane(x, 20) == f2_lane(y, 20),
        f2_lane(x, 21) == f2_lane(y, 21),
        f2_lane(x, 22) == f2_lane(y, 22),
        f2_lane(x, 23) == f2_lane(y, 23),
        f2_lane(x, 24) == f2_lane(y, 24),
        f2_lane(x, 25) == f2_lane(y, 25),
        f2_lane(x, 26) == f2_lane(y, 26),
        f2_lane(x, 27) == f2_lane(y, 27),
        f2_lane(x, 28) == f2_lane(y, 28),
        f2_lane(x, 29) == f2_lane(y, 29),
        f2_lane(x, 30) == f2_lane(y, 30),
        f2_lane(x, 31) == f2_lane(y, 31),
        f2_lane(x, 32) == f2_lane(y, 32),
        f2_lane(x, 33) == f2_lane(y, 33),
        f2_lane(x, 34) == f2_lane(y, 34),
        f2_lane(x, 35) == f2_lane(y, 35),
        f2_lane(x, 36) == f2_lane(y, 36),
        f2_lane(x, 37) == f2_lane(y, 37),
        f2_lane(x, 38) == f2_lane(y, 38),
        f2_lane(x, 39) == f2_lane(y, 39),
        f2_lane(x, 40) == f2_lane(y, 40),
        f2_lane(x, 41) == f2_lane(y, 41),
        f2_lane(x, 42) == f2_lane(y, 42),
        f2_lane(x, 43) == f2_lane(y, 43),
        f2_lane(x, 44) == f2_lane(y, 44),
        f2_lane(x, 45) == f2_lane(y, 45),
        f2_lane(x, 46) == f2_lane(y, 46),
        f2_lane(x, 47) == f2_lane(y, 47),
        f2_lane(x, 48) == f2_lane(y, 48),
        f2_lane(x, 49) == f2_lane(y, 49),
        f2_lane(x, 50) == f2_lane(y, 50),
        f2_lane(x, 51) == f2_lane(y, 51),
        f2_lane(x, 52) == f2_lane(y, 52),
        f2_lane(x, 53) == f2_lane(y, 53),
        f2_lane(x, 54) == f2_lane(y, 54),
        f2_lane(x, 55) == f2_lane(y, 55),
        f2_lane(x, 56) == f2_lane(y, 56),
        f2_lane(x, 57) == f2_lane(y, 57),
        f2_lane(x, 58) == f2_lane(y, 58),
        f2_lane(x, 59) == f2_lane(y, 59),
        f2_lane(x, 60) == f2_lane(y, 60),
        f2_lane(x, 61) == f2_lane(y, 61),
        f2_lane(x, 62) == f2_lane(y, 62),
        f2_lane(x, 63) == f2_lane(y, 63),
    ensures
        x == y,
{
}

/// Two words with the same bit in every 1-bit lane are equal.
pub proof fn lemma_f2_lane_ext(x: u64, y: u64)
    requires
        forall|i: u64| i < 64 ==> #[trigger] f2_lane(x, i) == f2_lane(y, i),
    ensures
        x == y,
{
        assert(f2_lane(x, 0) == f2_lane(y, 0));
        assert(f2_lane(x, 1) == f2_lane(y, 1));
        assert(f2_lane(x, 2) == f2_lane(y, 2));
        assert(f2_lane(x, 3) == f2_lane(y, 3));
        assert(f2_lane(x, 4) == f2_lane(y, 4));
        assert(f2_lane(x, 5) == f2_lane(y, 5));
        assert(f2_lane(x, 6) == f2_lane(y, 6));
        assert(f2_lane(x, 7) == f2_lane(y, 7));
        assert(f2_lane(x, 8) == f2_lane(y, 8));
        assert(f2_lane(x, 9) == f2_lane(y, 9));
        assert(f2_lane(x, 10) == f2_lane(y, 10));
        assert(f2_lane(x, 11) == f2_lane(y, 11));
        assert(f2_lane(x, 12) == f2_lane(y, 12));
        assert(f2_lane(x, 13) == f2_lane(y, 13));
        assert(f2_lane(x, 14) == f2_lane(y, 14));
        assert(f2_lane(x, 15) == f2_lane(y, 15));
        assert(f2_lane(x, 16) == f2_lane(y, 16));
        assert(f2_lane(x, 17) == f2_lane(y, 17));
        assert(f2_lane(x, 18) == f2_lane(y, 18));
        assert(f2_lane(x, 19) == f2_lane(y, 19));
        assert(f2_lane(x, 20) == f2_lane(y, 20));
        assert(f2_lane(x, 21) == f2_lane(y, 21));
        assert(f2_lane(x, 22) == f2_lane(y, 22));
        assert(f2_lane(x, 23) == f2_lane(y, 23));
        assert(f2_lane(x, 24) == f2_lane(y, 24));
        assert(f2_lane(x, 25) == f2_lane(y, 25));
        assert(f2_lane(x, 26) == f2_lane(y, 26));
        assert(f2_lane(x, 27) == f2_lane(y, 27));
        assert(f2_lane(x, 28) == f2_lane(y, 28));
        assert(f2_lane(x, 29) == f2_lane(y, 29));
        assert(f2_lane(x, 30) == f2_lane(y, 30));
        assert(f2_lane(x, 31) == f2_lane(y, 31));
        assert(f2_lane(x, 32) == f2_lane(y, 32));
        assert(f2_lane(x, 33) == f2_lane(y, 33));
        assert(f2_lane(x, 34) == f2_lane(y, 34));
        assert(f2_lane(x, 35) == f2_lane(y, 35));
        assert(f2_lane(x, 36) == f2_lane(y, 36));
        assert(f2_lane(x, 37) == f2_lane(y, 37));
        assert(f2_lane(x, 38) == f2_lane(y, 38));
        assert(f2_lane(x, 39) == f2_lane(y, 39));
        assert(f2_lane(x, 40) == f2_lane(y, 40));
        assert(f2_lane(x, 41) == f2_lane(y, 41));
        assert(f2_lane(x, 42) == f2_lane(y, 42));
        assert(f2_lane(x, 43) == f2_lane(y, 43));
        assert(f2_lane(x, 44) == f2_lane(y, 44));
        assert(f2_lane(x, 45) == f2_lane(y, 45));
        assert(f2_lane(x, 46) == f2_lane(y, 46));
        assert(f2_lane(x, 47) == f2_lane(y, 47));
        assert(f2_lane(x, 48) == f2_lane(y, 48));
        assert(f2_lane(x, 49) == f2_lane(y, 49));
        assert(f2_lane(x, 50) == f2_lane(y, 50));
        assert(f2_lane(x, 51) == f2_lane(y, 51));
        assert(f2_lane(x, 52) == f2_lane(y, 52));
        assert(f2_lane(x, 53) == f2_lane(y, 53));
        assert(f2_lane(x, 54) == f2_lane(y, 54));
        assert(f2_lane(x, 55) == f2_lane(y, 55));
        assert(f2_lane(x, 56) == f2_lane(y, 56));
        assert(f2_lane(x, 57) == f2_lane(y, 57));
        assert(f2_lane(x, 58) == f2_lane(y, 58));
        assert(f2_lane(x, 59) == f2_lane(y, 59));
        assert(f2_lane(x, 60) == f2_lane(y, 60));
        assert(f2_lane(x, 61) == f2_lane(y, 61));
        assert(f2_lane(x, 62) == f2_lane(y, 62));
        assert(f2_lane(x, 63) == f2_lane(y, 63));
        lemma_f2_ext_witness(x, y);
}

/// Two packed vectors with the same digit in every lane are equal.
pub proof fn lemma_lane_ext(x: u64, y: u64, q: u64)
    requires
        q == 2 || q == 3,
        forall|i: u64| i < num_lanes(q) ==> #[trigger] lane_of(x, i, q) == lane_of(y, i, q),
    ensures
        x == y,
{
    if q == 2 {
        assert forall|i: u64| i < 64 implies #[trigger] f2_lane(x, i) == f2_lane(y, i) by {
            assert(lane_of(x, i, q) == lane_of(y, i, q));
        }
        lemma_f2_lane_ext(x, y);
    } else {
        assert forall|i: u64| i < 32 implies #[trigger] f3_lane(x, i) == f3_lane(y, i) by {
            assert(lane_of(x, i, q) == lane_of(y, i, q));
        }
        lemma_f3_lane_ext(x, y);
    }
}

} // verus!

verus! {

proof fn lemma_f3_add_slow_lane(a: u64, b: u64, r: u64, i: u64)
    by (bit_vector)
    requires
        i < 32,
        a & (a >> 1) & 0x5555_5555_5555_5555u64 == 0,
        b & (b >> 1) & 0x5555_5555_5555_5555u64 == 0,
        r == ((((((a & 0xAAAA_AAAA_AAAA_AAAAu64) >> 1) & b | ((b & 0xAAAA_AAAA_AAAA_AAAAu64)
            >> 1) & a) * 3) as u64 ^ (a ^ b)) | ((a & b & 0x5555_5555_5555_5555u64) << 1) | ((a
            & b & 0xAAAA_AAAA_AAAA_AAAAu64) >> 1)),
    ensures
        (r >> ((i * 2) as u64)) & 3 == (((a >> ((i * 2) as u64)) & 3) + ((b >> ((i * 2) as u64))
            & 3)) % 3,
        r & (r >> 1) & 0x5555_5555_5555_5555u64 == 0,
{
}

/// Packed addition over GF(3), the carry-propagation variant: same contract
/// as [`internal_add_f3_fast`].
pub fn internal_add_f3(a: u64, b: u64) -> (r: u64)
    requires
        f3_lanes_valid(a),
        f3_lanes_valid(b),
    ensures
        f3_lanes_valid(r),
        forall|i: u64| i < 32 ==> f3_lane(r, i) == (f3_lane(a, i) + f3_lane(b, i)) % 3,
{
    let xor = a ^ b;
    let and = a & b;
    let one = (and & LANE_LOW_BITS) << 1u64;
    let two = (and & LANE_HIGH_BITS) >> 1u64;
    let ab = ((a & LANE_HIGH_BITS) >> 1u64) & b;
    let ba = ((b & LANE_HIGH_BITS) >> 1u64) & a;
    proof {
        assert((((a & 0xAAAA_AAAA_AAAA_AAAAu64) >> 1) & b | ((b & 0xAAAA_AAAA_AAAA_AAAAu64) >> 1)
            & a) * 3 <= u64::MAX) by (bit_vector);
    }
    let mul = (ab | ba) * 3;
    let r = (mul ^ xor) | one | two;
    proof {
        assert forall|i: u64| i < 32 implies f3_lane(r, i) == (f3_lane(a, i) + f3_lane(b, i))
            % 3 by {
            lemma_f3_add_slow_lane(a, b, r, i);
        }
        lemma_f3_add_slow_lane(a, b, r, 0);
    }
    r
}

/// Packed addition over GF(q): each lane is added modulo q independently.
pub fn internal_add(a: u64, b: u64, q: u64) -> (r: u64)
    requires
        q == 2 || q == 3,
        packed_valid(a, q),
        packed_valid(b, q),
    ensures
        packed_valid(r, q),
        forall|i: u64|
            i < num_lanes(q) ==> #[trigger] lane_of(r, i, q) == (lane_of(a, i, q) + lane_of(
                b,
                i,
                q,
            )) % (q as int),
{
    if q == 2 {
        internal_add_f2(a, b)
    } else {
        internal_add_f3_fast(a, b)
    }
}

/// Packed addition is commutative: results of adding (a, b) and (b, a)
/// lane-wise modulo q are the same vector.
pub proof fn lemma_add_commutative(a: u64, b: u64, x: u64, y: u64, q: u64)
    requires
        q == 2 || q == 3,
        forall|i: u64|
            i < num_lanes(q) ==> #[trigger] lane_of(x, i, q) == (lane_of(a, i, q) + lane_of(
                b,
                i,
                q,
            )) % (q as int),
        forall|i: u64|
            i < num_lanes(q) ==> #[trigger] lane_of(y, i, q) == (lane_of(b, i, q) + lane_of(
                a,
                i,
                q,
            )) % (q as int),
    ensures
        x == y,
{
    lemma_lane_ext(x, y, q);
}

/// Packed addition is associative: adding (a + b) + c and a + (b + c)
/// lane-wise modulo q gives the same vector.
pub proof fn lemma_add_associative(a: u64, b: u64, c: u64, ab: u64, bc: u64, x: u64, y: u64, q: u64)
    requires
        q == 2 || q == 3,
        packed_valid(a, q),
        packed_valid(b, q),
        packed_valid(c, q),
        forall|i: u64|
            i < num_lanes(q) ==> #[trigger] lane_of(ab, i, q) == (lane_of(a, i, q) + lane_of(
                b,
                i,
                q,
            )) % (q as int),
        forall|i: u64|
            i < num_lanes(q) ==> #[trigger] lane_of(bc, i, q) == (lane_of(b, i, q) + lane_of(
                c,
                i,
                q,
            )) % (q as int),
        forall|i: u64|
            i < num_lanes(q) ==> #[trigger] lane_of(x, i, q) == (lane_of(ab, i, q) + lane_of(
                c,
                i,
                q,
            )) % (q as int),
        forall|i: u64|
            i < num_lanes(q) ==> #[trigger] lane_of(y, i, q) == (lane_of(a, i, q) + lane_of(
                bc,
                i,
                q,
            )) % (q as int),
    ensures
        x == y,
{
    assert forall|i: u64| i < num_lanes(q) implies #[trigger] lane_of(x, i, q) == lane_of(
        y,
        i,
        q,
    ) by {
        lemma_lane_below_order(a, i, q);
        lemma_lane_below_order(b, i, q);
        lemma_lane_below_order(c, i, q);
        let la = lane_of(a, i, q) as int;
        let lb = lane_of(b, i, q) as int;
        let lc = lane_of(c, i, q) as int;
        assert(((la + lb) % (q as int) + lc) % (q as int) == (la + (lb + lc) % (q as int)) % (
        q as int)) by (nonlinear_arith)
            requires
                q == 2 || q == 3,
                0 <= la < q,
                0 <= lb < q,
                0 <= lc < q,
        ;
    }
    lemma_lane_ext(x, y, q);
}

/// The zero vector is the identity of packed addition: adding (a, 0)
/// lane-wise modulo q gives back a.
pub proof fn lemma_add_identity(a: u64, x: u64, q: u64)
    requires
        q == 2 || q == 3,
        packed_valid(a, q),
        forall|i: u64|
            i < num_lanes(q) ==> #[trigger] lane_of(x, i, q) == (lane_of(a, i, q) + lane_of(
                0,
                i,
                q,
            )) % (q as int),
    ensures
        x == a,
{
    assert forall|i: u64| i < num_lanes(q) implies #[trigger] lane_of(x, i, q) == lane_of(
        a,
        i,
        q,
    ) by {
        lemma_lane_below_order(a, i, q);
        if q == 2 {
            assert((0u64 >> i) & 1 == 0) by (bit_vector);
        } else {
            assert((0u64 >> ((i * 2) as u64)) & 3 == 0) by (bit_vector);
        }
    }
    lemma_lane_ext(x, a, q);
}

} // verus!
