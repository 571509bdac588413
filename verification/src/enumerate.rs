//! Orbit enumeration: sweep the index space, claim each unseen polynomial,
//! apply every group matrix to it, mark all images, and record one orbit
//! per seed with a canonical representative and the exact orbit size.

use vstd::prelude::*;

use crate::bijection::{f3_index_of, max_lanes, packed_in_domain, packed_index_of};
use crate::field::{f2_lane, f3_lane, lane_of, num_lanes, packed_valid};
use crate::polynomials::{transform_lane, Polynomial, Term};
use vstd::arithmetic::power::{lemma_pow_increases, lemma_pow_positive, pow};

verus! {

/// One discovered orbit: its canonical representative and how many
/// distinct polynomials it contains.
#[derive(Debug, Copy, Clone, PartialEq)]
pub struct IsoPolynomial {
    pub representative: Polynomial,
    pub size: u32,
}

impl IsoPolynomial {
    /// Splits the record into its two parts.
    pub fn deconstruct(self) -> (r: (Polynomial, u32))
        ensures
            r.0 == self.representative,
            r.1 == self.size,
    {
        (self.representative, self.size)
    }
}

/// The sum of the orbit sizes of the first `k` records.
pub open spec fn sum_sizes(s: Seq<IsoPolynomial>, k: int) -> int
    decreases k,
{
    if k <= 0 {
        0
    } else {
        sum_sizes(s, k - 1) + s[k - 1].size
    }
}

/// How many entries among the first `k` are set.
pub open spec fn count_trues(s: Seq<bool>, k: int) -> int
    decreases k,
{
    if k <= 0 {
        0
    } else {
        count_trues(s, k - 1) + (if s[k - 1] {
            1int
        } else {
            0int
        })
    }
}

/// Appending a record adds its size to the running sum.
proof fn lemma_sum_sizes_push(s: Seq<IsoPolynomial>, r: IsoPolynomial, k: int)
    requires
        0 <= k <= s.len(),
    ensures
        sum_sizes(s.push(r), k) == sum_sizes(s, k),
        k == s.len() ==> sum_sizes(s.push(r), s.len() as int + 1) == sum_sizes(s, s.len() as int)
            + r.size,
    decreases k,
{
    if k > 0 {
        lemma_sum_sizes_push(s, r, k - 1);
    }
    if k == s.len() {
        assert(sum_sizes(s.push(r), s.len() as int + 1) == sum_sizes(s.push(r), s.len() as int)
            + s.push(r)[s.len() as int].size);
    }
}

/// Setting an unset entry raises the count by one; the rest is unchanged.
proof fn lemma_count_trues_update(s: Seq<bool>, j: int, k: int)
    requires
        0 <= j < s.len(),
        0 <= k <= s.len(),
        !s[j],
    ensures
        j < k ==> count_trues(s.update(j, true), k) == count_trues(s, k) + 1,
        j >= k ==> count_trues(s.update(j, true), k) == count_trues(s, k),
    decreases k,
{
    if k > 0 {
        lemma_count_trues_update(s, j, k - 1);
    }
}

/// The count of set entries never exceeds the prefix length.
proof fn lemma_count_trues_le(s: Seq<bool>, k: int)
    requires
        0 <= k <= s.len(),
    ensures
        count_trues(s, k) <= k,
    decreases k,
{
    if k > 0 {
        lemma_count_trues_le(s, k - 1);
    }
}

/// A prefix that is all set from position 1 on counts at least k - 1.
proof fn lemma_count_trues_full(s: Seq<bool>, k: int)
    requires
        0 <= k <= s.len(),
        forall|j: int| 1 <= j < k ==> s[j],
    ensures
        count_trues(s, k) >= k - 1,
        !s[0] && k >= 1 ==> count_trues(s, k) == k - 1,
    decreases k,
{
    if k > 0 {
        lemma_count_trues_full(s, k - 1);
    }
}

/// `q^e`, for sizing the enumeration space.
pub fn pow_usize(q: u64, e: usize) -> (r: usize)
    requires
        q == 2 || q == 3,
        e <= 63,
        pow(q as int, e as nat) <= usize::MAX,
    ensures
        r as int == pow(q as int, e as nat),
        r >= 1,
{
    let mut acc: usize = 1;
    let mut i: usize = 0;
    proof {
        vstd::arithmetic::power::lemma_pow0(q as int);
    }
    while i < e
        invariant
            q == 2 || q == 3,
            i <= e,
            e <= 63,
            pow(q as int, e as nat) <= usize::MAX,
            acc as int == pow(q as int, i as nat),
            acc >= 1,
        decreases e - i,
    {
        proof {
            lemma_pow_increases(q as nat, (i + 1) as nat, e as nat);
            assert(pow(q as int, (i + 1) as nat) == q * pow(q as int, i as nat)) by {
                reveal(pow);
            }
            lemma_pow_positive(q as int, (i + 1) as nat);
            assert(acc * (q as int) == q * (acc as int)) by (nonlinear_arith);
        }
        acc = acc * (q as usize);
        i = i + 1;
    }
    acc
}

/// Number of nonzero coefficient lanes among the low `k` lanes.
pub open spec fn nonzero_lanes(x: u64, q: u64, k: int) -> int
    decreases k,
{
    if k <= 0 {
        0
    } else {
        nonzero_lanes(x, q, k - 1) + (if lane_of(x, (k - 1) as u64, q) != 0 {
            1int
        } else {
            0int
        })
    }
}

/// Counts the nonzero coefficients of a packed polynomial.
pub fn count_coeffs(x: u64, q: u64, nl: usize) -> (r: u32)
    requires
        q == 2 || q == 3,
        nl as nat <= max_lanes(q),
    ensures
        r as int == nonzero_lanes(x, q, nl as int),
{
    let cb: u64 = if q == 2 {
        1
    } else {
        2
    };
    let mask: u64 = if q == 2 {
        1
    } else {
        3
    };
    let mut count: u32 = 0;
    let mut i: usize = 0;
    while i < nl
        invariant
            q == 2 || q == 3,
            nl as nat <= max_lanes(q),
            cb == (if q == 2 {
                1u64
            } else {
                2u64
            }),
            mask == (if q == 2 {
                1u64
            } else {
                3u64
            }),
            i <= nl,
            count as int == nonzero_lanes(x, q, i as int),
            count <= i,
        decreases nl - i,
    {
        let lane = (x >> ((i as u64) * cb)) & mask;
        proof {
            assert(lane == lane_of(x, i as u64, q));
        }
        if lane != 0 {
            count = count + 1;
        }
        i = i + 1;
    }
    count
}

} // verus!

verus! {

/// The image of `p` under the action table row `row` has some nonzero
/// coefficient.
pub open spec fn image_nonzero(p: u64, row: Seq<u64>, q: u64) -> bool {
    exists|j: u64|
        j < num_lanes(q) && #[trigger] transform_lane(p, row, row.len() as int, j, q) != 0
}

/// Every matrix of the table sends every nonzero in-domain polynomial to a
/// nonzero polynomial — true of any table built from invertible matrices.
pub open spec fn table_preserves_nonzero(lut: Seq<Seq<u64>>, q: u64, nl: nat) -> bool {
    forall|p: u64, mi: int|
        #![trigger lut[mi], packed_valid(p, q)]
        0 <= mi < lut.len() && packed_valid(p, q) && packed_in_domain(p, q, nl) && p != 0
            ==> image_nonzero(p, lut[mi], q)
}

/// A linear combination of entries that are all clear at lane `j` is clear
/// at lane `j`.
proof fn lemma_transform_lane_zero(bits: u64, row: Seq<u64>, k: int, j: u64, q: u64)
    requires
        q == 2 || q == 3,
        forall|s: int| 0 <= s < row.len() ==> lane_of(#[trigger] row[s], j, q) == 0,
        k <= row.len(),
    ensures
        transform_lane(bits, row, k, j, q) == 0,
    decreases k,
{
    if k > 0 {
        lemma_transform_lane_zero(bits, row, k - 1, j, q);
        assert(lane_of(bits, (k - 1) as u64, q) * lane_of(row[k - 1], j, q) == 0)
            by (nonlinear_arith)
            requires
                lane_of(row[k - 1], j, q) == 0,
        ;
    }
}

/// The canonical-representative order: fewer nonzero coefficients first,
/// ties broken by the smaller packed value.
pub open spec fn rep_le(a: u64, b: u64, q: u64, nl: int) -> bool {
    nonzero_lanes(a, q, nl) < nonzero_lanes(b, q, nl) || (nonzero_lanes(a, q, nl) == nonzero_lanes(
        b,
        q,
        nl,
    ) && a <= b)
}

/// Two valid in-domain polynomials with the same index are equal.
pub proof fn lemma_index_injective(a: u64, b: u64, q: u64, nl: nat)
    requires
        q == 2 || q == 3,
        nl <= max_lanes(q),
        packed_valid(a, q),
        packed_valid(b, q),
        packed_in_domain(a, q, nl),
        packed_in_domain(b, q, nl),
        packed_index_of(a, q, nl) == packed_index_of(b, q, nl),
    ensures
        a == b,
{
    let idx = packed_index_of(a, q, nl);
    lemma_packed_of_index_is(idx, q, nl, a);
    lemma_packed_of_index_is(idx, q, nl, b);
}

/// Claims the seed polynomial `poly` (which must encode the unclaimed
/// index `i`) and every still-unclaimed image of it under all table rows,
/// and returns the orbit record: the number of polynomials claimed by this
/// pass, and the representative with the fewest nonzero coefficients among
/// the seed and the newly claimed images, ties broken by the smaller
/// packed value (spec of the canonical choice).
fn claim_seed(
    things: &mut Vec<bool>,
    poly: Polynomial,
    i: usize,
    transform_lut: &Vec<Vec<u64>>,
    q: u64,
    nl: usize,
) -> (rec: IsoPolynomial)
    requires
        q == 2 || q == 3,
        nl as nat <= max_lanes(q),
        pow(q as int, nl as nat) <= usize::MAX,
        old(things)@.len() == pow(q as int, nl as nat),
        1 <= i < old(things)@.len(),
        !old(things)@[i as int],
        transform_lut@.len() + 1 <= u32::MAX,
        forall|mi: int|
            0 <= mi < transform_lut@.len() ==> (#[trigger] transform_lut@[mi])@.len() == nl,
        forall|mi: int, s: int|
            0 <= mi < transform_lut@.len() && 0 <= s < nl ==> packed_valid(
                #[trigger] transform_lut@[mi]@[s],
                q,
            ) && packed_in_domain(transform_lut@[mi]@[s], q, nl as nat),
        packed_valid(poly.bits, q),
        packed_in_domain(poly.bits, q, nl as nat),
        packed_index_of(poly.bits, q, nl as nat) == i,
    ensures
        final(things)@.len() == old(things)@.len(),
        forall|j: int|
            0 <= j < old(things)@.len() && old(things)@[j] ==> #[trigger] final(things)@[j],
        final(things)@[i as int],
        count_trues(final(things)@, final(things)@.len() as int) == count_trues(
            old(things)@,
            old(things)@.len() as int,
        ) + rec.size,
        rec.size >= 1,
        packed_valid(rec.representative.bits, q),
        packed_in_domain(rec.representative.bits, q, nl as nat),
        0 <= packed_index_of(rec.representative.bits, q, nl as nat) < old(things)@.len(),
        !old(things)@[packed_index_of(rec.representative.bits, q, nl as nat)],
        final(things)@[packed_index_of(rec.representative.bits, q, nl as nat)],
        table_preserves_nonzero(transform_lut@.map_values(|v: Vec<u64>| v@), q, nl as nat) && !old(
            things,
        )@[0] ==> !final(things)@[0],
        rec.representative.bits == poly.bits || exists|mi: int|
            0 <= mi < transform_lut@.len() && rec.representative.bits == image_of(
                poly.bits,
                (#[trigger] transform_lut@[mi])@,
                q,
            ),
        rep_le(rec.representative.bits, poly.bits, q, nl as int),
        forall|mi: int|
            0 <= mi < transform_lut@.len() && !old(things)@[packed_index_of(
                image_of(poly.bits, (#[trigger] transform_lut@[mi])@, q),
                q,
                nl as nat,
            )] ==> rep_le(
                rec.representative.bits,
                image_of(poly.bits, transform_lut@[mi]@, q),
                q,
                nl as int,
            ),
        forall|j: int|
            0 <= j < old(things)@.len() && final(things)@[j] && !old(things)@[j] ==> j == i
                || exists|mi: int|
                0 <= mi < transform_lut@.len() && j == packed_index_of(
                    image_of(poly.bits, (#[trigger] transform_lut@[mi])@, q),
                    q,
                    nl as nat,
                ),
{
    let ghost rows = transform_lut@.map_values(|v: Vec<u64>| v@);
    let ghost n = old(things)@.len() as int;
    let ghost things0 = things@;
    things.set(i, true);
    proof {
        lemma_count_trues_update(things0, i as int, n);
        if q == 3 && poly.bits == 0 {
            crate::bijection::lemma_f3_index_of_zero(nl as nat);
        }
    }
    let mut count: u32 = 1;
    let mut smallest = poly;
    let mut small_coeffs = count_coeffs(poly.bits, q, nl);
    let ghost mut idx_small: int = i as int;
    let ghost mut imgs: Seq<u64> = Seq::empty();
    let ghost mut iidx: Seq<int> = Seq::empty();
    let mut mi: usize = 0;
    while mi < transform_lut.len()
        invariant
            q == 2 || q == 3,
            nl as nat <= max_lanes(q),
            n == pow(q as int, nl as nat),
            transform_lut@.len() + 1 <= u32::MAX,
            rows == transform_lut@.map_values(|v: Vec<u64>| v@),
            forall|mj: int|
                0 <= mj < transform_lut@.len() ==> (#[trigger] transform_lut@[mj])@.len() == nl,
            forall|mj: int, s: int|
                0 <= mj < transform_lut@.len() && 0 <= s < nl ==> packed_valid(
                    #[trigger] transform_lut@[mj]@[s],
                    q,
                ) && packed_in_domain(transform_lut@[mj]@[s], q, nl as nat),
            mi <= transform_lut@.len(),
            1 <= i < n,
            n <= usize::MAX,
            things@.len() == n,
            things0.len() == n,
            packed_valid(poly.bits, q),
            packed_in_domain(poly.bits, q, nl as nat),
            packed_index_of(poly.bits, q, nl as nat) == i,
            poly.bits != 0,
            1 <= count,
            count <= 1 + mi,
            packed_valid(smallest.bits, q),
            packed_in_domain(smallest.bits, q, nl as nat),
            small_coeffs as int == nonzero_lanes(smallest.bits, q, nl as int),
            count_trues(things@, n) == count_trues(things0, n) + count,
            forall|j: int| 0 <= j < n && things0[j] ==> #[trigger] things@[j],
            things@[i as int],
            table_preserves_nonzero(rows, q, nl as nat) && !things0[0] ==> !things@[0],
            idx_small == packed_index_of(smallest.bits, q, nl as nat),
            0 <= idx_small < n,
            !things0[idx_small],
            things@[idx_small],
            imgs.len() == mi,
            iidx.len() == mi,
            forall|t: int|
                0 <= t < mi ==> #[trigger] imgs[t] == image_of(poly.bits, rows[t], q)
                    && packed_valid(imgs[t], q) && packed_in_domain(imgs[t], q, nl as nat)
                    && iidx[t] == packed_index_of(imgs[t], q, nl as nat) && 0 <= iidx[t] < n,
            smallest.bits == poly.bits || exists|t: int| 0 <= t < mi && smallest.bits == #[trigger] imgs[t],
            rep_le(smallest.bits, poly.bits, q, nl as int),
            forall|t: int|
                0 <= t < mi && !things0[#[trigger] iidx[t]] ==> rep_le(
                    smallest.bits,
                    imgs[t],
                    q,
                    nl as int,
                ),
            forall|j: int|
                0 <= j < n && things@[j] && !things0[j] ==> j == i || exists|t: int|
                    0 <= t < mi && #[trigger] iidx[t] == j,
        decreases transform_lut@.len() - mi,
    {
        let row = &transform_lut[mi];
        let perm = poly.transform_by_matrix(row, q);
        proof {
            // every lane of the image past nl is clear
            assert forall|j: u64| nl <= j && j < num_lanes(q) implies #[trigger] lane_of(
                perm.bits,
                j,
                q,
            ) == 0 by {
                assert forall|s: int| 0 <= s < row@.len() implies lane_of(
                    #[trigger] row@[s],
                    j,
                    q,
                ) == 0 by {
                    if q == 2 {
                        crate::bijection::lemma_f2_bound_gives_lanes(row@[s], nl as nat, j);
                    }
                }
                lemma_transform_lane_zero(poly.bits, row@, row@.len() as int, j, q);
            }
            if q == 2 {
                assert forall|j: u64| nl <= j < 64 implies #[trigger] f2_lane(perm.bits, j)
                    == 0 by {
                    assert(lane_of(perm.bits, j, q) == 0);
                }
                crate::bijection::lemma_f2_lanes_give_bound(perm.bits, nl as nat);
            } else {
                assert forall|j: u64| nl <= j < 32 implies #[trigger] f3_lane(perm.bits, j)
                    == 0 by {
                    assert(lane_of(perm.bits, j, q) == 0);
                }
            }
            assert(packed_in_domain(perm.bits, q, nl as nat));
        }
        let inv = crate::bijection::poly_to_index_map(perm.bits, q, nl) as usize;
        let ghost imgs0 = imgs;
        let ghost iidx0 = iidx;
        proof {
            assert(rows[mi as int] == row@);
            lemma_image_of_is(poly.bits, rows[mi as int], q, perm.bits);
            imgs = imgs0.push(perm.bits);
            iidx = iidx0.push(inv as int);
            assert(forall|t: int| 0 <= t < mi ==> #[trigger] imgs[t] == imgs0[t]);
            assert(forall|t: int| 0 <= t < mi ==> #[trigger] iidx[t] == iidx0[t]);
            assert(imgs[mi as int] == perm.bits);
            assert(iidx[mi as int] == inv as int);
        }
        let ghost small0 = smallest.bits;
        if !things[inv] {
            proof {
                if table_preserves_nonzero(rows, q, nl as nat) {
                    assert(image_nonzero(poly.bits, row@, q));
                    let jw = choose|j: u64|
                        j < num_lanes(q) && #[trigger] transform_lane(
                            poly.bits,
                            row@,
                            row@.len() as int,
                            j,
                            q,
                        ) != 0;
                    assert(lane_of(perm.bits, jw, q) != 0);
                    assert(perm.bits != 0) by {
                        crate::field::lemma_zero_packed();
                    }
                    if q == 3 {
                        if f3_index_of(perm.bits, nl as nat) == 0 {
                            crate::bijection::lemma_f3_index_zero_lanes(perm.bits, nl as nat);
                            crate::field::lemma_zero_packed();
                            crate::field::lemma_f3_lane_ext(perm.bits, 0);
                        }
                    }
                    assert(inv != 0);
                }
            }
            let ghost things1 = things@;
            things.set(inv, true);
            proof {
                lemma_count_trues_update(things1, inv as int, n);
            }
            count = count + 1;
            let perm_coeffs = count_coeffs(perm.bits, q, nl);
            if perm_coeffs < small_coeffs || (perm_coeffs == small_coeffs && perm.bits
                < smallest.bits) {
                smallest = perm;
                small_coeffs = perm_coeffs;
                proof {
                    idx_small = inv as int;
                }
            }
            proof {
                // the candidate was compared against this image, and every
                // image compared earlier stays dominated
                assert forall|t: int|
                    0 <= t < mi + 1 && !things0[#[trigger] iidx[t]] implies rep_le(
                    smallest.bits,
                    imgs[t],
                    q,
                    nl as int,
                ) by {
                    if t < mi {
                        assert(rep_le(small0, imgs[t], q, nl as int));
                    } else {
                        assert(imgs[t] == perm.bits);
                    }
                }
                if smallest.bits == perm.bits {
                    assert(smallest.bits == imgs[mi as int]);
                } else if small0 != poly.bits {
                    let tw0 = choose|t: int| 0 <= t < mi && small0 == #[trigger] imgs0[t];
                    assert(smallest.bits == imgs[tw0]);
                }
                assert forall|j: int|
                    0 <= j < n && things@[j] && !things0[j] implies j == i || exists|t: int|
                    0 <= t < mi + 1 && #[trigger] iidx[t] == j by {
                    if j == inv as int {
                        assert(iidx[mi as int] == j);
                    } else if j != i {
                        let tw1 = choose|t: int| 0 <= t < mi && #[trigger] iidx0[t] == j;
                        assert(iidx[tw1] == j);
                    }
                }
            }
        } else {
            proof {
                // either the image was claimed before this pass, or it
                // repeats a value this pass already compared
                assert forall|t: int|
                    0 <= t < mi + 1 && !things0[#[trigger] iidx[t]] implies rep_le(
                    smallest.bits,
                    imgs[t],
                    q,
                    nl as int,
                ) by {
                    if t == mi {
                        assert(things@[inv as int] && !things0[inv as int]);
                        if inv == i {
                            lemma_index_injective(perm.bits, poly.bits, q, nl as nat);
                        } else {
                            let tw = choose|t2: int|
                                0 <= t2 < mi && #[trigger] iidx0[t2] == inv as int;
                            assert(0 <= tw < mi && iidx[tw] == inv as int);
                            assert(imgs[tw] == imgs0[tw]);
                            lemma_index_injective(perm.bits, imgs[tw], q, nl as nat);
                            assert(rep_le(smallest.bits, imgs[tw], q, nl as int));
                        }
                    }
                }
                if smallest.bits != poly.bits {
                    let tw0 = choose|t: int|
                        0 <= t < mi && smallest.bits == #[trigger] imgs0[t];
                    assert(smallest.bits == imgs[tw0]);
                }
                assert forall|j: int|
                    0 <= j < n && things@[j] && !things0[j] implies j == i || exists|t: int|
                    0 <= t < mi + 1 && #[trigger] iidx[t] == j by {
                    if j != i {
                        let tw1 = choose|t: int| 0 <= t < mi && #[trigger] iidx0[t] == j;
                        assert(iidx[tw1] == j);
                    }
                }
            }
        }
        mi = mi + 1;
    }
    proof {
        assert forall|mi2: int|
            0 <= mi2 < transform_lut@.len() implies #[trigger] (transform_lut@[mi2])@
            == rows[mi2] by {}
        assert forall|mi2: int|
            0 <= mi2 < transform_lut@.len() && !things0[packed_index_of(
                image_of(poly.bits, (transform_lut@[mi2])@, q),
                q,
                nl as nat,
            )] implies rep_le(
            smallest.bits,
            image_of(poly.bits, transform_lut@[mi2]@, q),
            q,
            nl as int,
        ) by {
            assert(imgs[mi2] == image_of(poly.bits, rows[mi2], q));
            assert(iidx[mi2] == packed_index_of(imgs[mi2], q, nl as nat));
        }
        if smallest.bits != poly.bits {
            let tw = choose|t: int|
                0 <= t < transform_lut@.len() && smallest.bits == #[trigger] imgs[t];
            assert(smallest.bits == image_of(poly.bits, (transform_lut@[tw])@, q));
        }
        assert forall|j: int|
            0 <= j < n && things@[j] && !things0[j] implies j == i || exists|mi2: int|
            0 <= mi2 < transform_lut@.len() && j == packed_index_of(
                image_of(poly.bits, (#[trigger] transform_lut@[mi2])@, q),
                q,
                nl as nat,
            ) by {
            if j != i {
                let tw = choose|t: int|
                    0 <= t < transform_lut@.len() && #[trigger] iidx[t] == j;
                assert(j == packed_index_of(
                    image_of(poly.bits, (transform_lut@[tw])@, q),
                    q,
                    nl as nat,
                ));
            }
        }
    }
    IsoPolynomial { representative: smallest, size: count }
}

/// Enumerates all orbits of the group action over the whole index space:
/// every nonzero polynomial is claimed exactly once, each seed's images are
/// marked, and one record per orbit reports the canonical representative
/// (fewest nonzero coefficients, ties broken by smaller packed value) and
/// the number of polynomials first claimed in that pass.
#[verifier::rlimit(100)]
pub fn generate_iso_polynomials(transform_lut: &Vec<Vec<u64>>, q: u64, nl: usize) -> (r: Vec<
    IsoPolynomial,
>)
    requires
        q == 2 || q == 3,
        nl as nat <= max_lanes(q),
        pow(q as int, nl as nat) <= usize::MAX,
        transform_lut@.len() + 1 <= u32::MAX,
        forall|mi: int|
            0 <= mi < transform_lut@.len() ==> (#[trigger] transform_lut@[mi])@.len() == nl,
        forall|mi: int, s: int|
            0 <= mi < transform_lut@.len() && 0 <= s < nl ==> packed_valid(
                #[trigger] transform_lut@[mi]@[s],
                q,
            ) && packed_in_domain(transform_lut@[mi]@[s], q, nl as nat),
    ensures
        pow(q as int, nl as nat) - 1 <= sum_sizes(r@, r@.len() as int) <= pow(q as int, nl as nat),
        table_preserves_nonzero(transform_lut@.map_values(|v: Vec<u64>| v@), q, nl as nat)
            ==> sum_sizes(r@, r@.len() as int) == pow(q as int, nl as nat) - 1,
        forall|k: int|
            0 <= k < r@.len() ==> (#[trigger] r@[k]).size >= 1 && packed_valid(
                r@[k].representative.bits,
                q,
            ) && packed_in_domain(r@[k].representative.bits, q, nl as nat),
        forall|k1: int, k2: int|
            0 <= k1 < k2 < r@.len() ==> (#[trigger] r@[k1]).representative.bits != (
            #[trigger] r@[k2]).representative.bits,
        table_preserves_nonzero(transform_lut@.map_values(|v: Vec<u64>| v@), q, nl as nat)
            ==> forall|k: int|
            0 <= k < r@.len() ==> (#[trigger] r@[k]).representative.bits != 0,
        forall|k: int|
            0 <= k < r@.len() ==> exists|s: int|
                1 <= s < pow(q as int, nl as nat) && rep_le(
                    (#[trigger] r@[k]).representative.bits,
                    packed_of_index(s, q, nl as nat),
                    q,
                    nl as int,
                ) && (r@[k].representative.bits == packed_of_index(s, q, nl as nat) || exists|
                    mi: int,
                |
                    0 <= mi < transform_lut@.len() && r@[k].representative.bits == image_of(
                        packed_of_index(s, q, nl as nat),
                        (#[trigger] transform_lut@[mi])@,
                        q,
                    )),
{
    let ghost rows = transform_lut@.map_values(|v: Vec<u64>| v@);
    let n = pow_usize(q, nl);
    let mut things: Vec<bool> = Vec::new();
    let mut fill: usize = 0;
    while fill < n
        invariant
            fill <= n,
            things@.len() == fill,
            forall|j: int| 0 <= j < fill ==> !(#[trigger] things@[j]),
        decreases n - fill,
    {
        things.push(false);
        fill = fill + 1;
    }
    let mut iso_polys: Vec<IsoPolynomial> = Vec::new();
    let mut bits: u64 = 0;
    let mut i: usize = 1;
    proof {
        if q == 3 {
            crate::bijection::lemma_f3_index_of_zero(nl as nat);
            crate::field::lemma_zero_packed();
        } else {
            lemma_pow_positive(2, nl as nat);
        }
        assert(count_trues(things@, n as int) == 0) by {
            lemma_count_trues_all_false(things@, n as int);
        }
    }
    while i < n
        invariant
            q == 2 || q == 3,
            nl as nat <= max_lanes(q),
            n as int == pow(q as int, nl as nat),
            transform_lut@.len() + 1 <= u32::MAX,
            rows == transform_lut@.map_values(|v: Vec<u64>| v@),
            forall|mi: int|
                0 <= mi < transform_lut@.len() ==> (#[trigger] transform_lut@[mi])@.len() == nl,
            forall|mi: int, s: int|
                0 <= mi < transform_lut@.len() && 0 <= s < nl ==> packed_valid(
                    #[trigger] transform_lut@[mi]@[s],
                    q,
                ) && packed_in_domain(transform_lut@[mi]@[s], q, nl as nat),
            1 <= i <= n,
            things@.len() == n,
            packed_valid(bits, q),
            packed_in_domain(bits, q, nl as nat),
            packed_index_of(bits, q, nl as nat) == i - 1,
            count_trues(things@, n as int) == sum_sizes(iso_polys@, iso_polys@.len() as int),
            forall|j: int| 1 <= j < i ==> #[trigger] things@[j],
            table_preserves_nonzero(rows, q, nl as nat) ==> !things@[0],
            forall|k: int|
                0 <= k < iso_polys@.len() ==> (#[trigger] iso_polys@[k]).size >= 1 && packed_valid(
                    iso_polys@[k].representative.bits,
                    q,
                ) && packed_in_domain(iso_polys@[k].representative.bits, q, nl as nat),
            forall|k: int|
                0 <= k < iso_polys@.len() ==> 0 <= packed_index_of(
                    (#[trigger] iso_polys@[k]).representative.bits,
                    q,
                    nl as nat,
                ) < n && things@[packed_index_of(iso_polys@[k].representative.bits, q, nl as nat)],
            forall|k1: int, k2: int|
                0 <= k1 < k2 < iso_polys@.len() ==> (#[trigger] iso_polys@[k1]).representative.bits
                    != (#[trigger] iso_polys@[k2]).representative.bits,
            forall|k: int|
                0 <= k < iso_polys@.len() ==> exists|s: int|
                    1 <= s < pow(q as int, nl as nat) && rep_le(
                        (#[trigger] iso_polys@[k]).representative.bits,
                        packed_of_index(s, q, nl as nat),
                        q,
                        nl as int,
                    ) && (iso_polys@[k].representative.bits == packed_of_index(s, q, nl as nat)
                        || exists|mi: int|
                        0 <= mi < transform_lut@.len() && iso_polys@[k].representative.bits
                            == image_of(
                            packed_of_index(s, q, nl as nat),
                            (#[trigger] transform_lut@[mi])@,
                            q,
                        )),
        decreases n - i,
    {
        bits = crate::bijection::poly_next(bits, q, nl);
        if !things[i] {
            let ghost things0 = things@;
            let poly = Polynomial::new(bits);
            let rec = claim_seed(&mut things, poly, i, transform_lut, q, nl);
            let ghost iso0 = iso_polys@;
            iso_polys.push(rec);
            proof {
                lemma_sum_sizes_push(iso0, rec, iso0.len() as int);
                lemma_packed_of_index_is(i as int, q, nl as nat, poly.bits);
                assert forall|k1: int, k2: int|
                    0 <= k1 < k2 < iso_polys@.len() implies (
                #[trigger] iso_polys@[k1]).representative.bits != (
                #[trigger] iso_polys@[k2]).representative.bits by {
                    if k2 == iso0.len() {
                        // the new representative was unclaimed when this
                        // pass began; every older one was already claimed
                        assert(things0[packed_index_of(
                            iso0[k1].representative.bits,
                            q,
                            nl as nat,
                        )]);
                        assert(!things0[packed_index_of(rec.representative.bits, q, nl as nat)]);
                    }
                }
            }
        }
        i = i + 1;
    }
    proof {
        lemma_count_trues_le(things@, n as int);
        lemma_count_trues_full(things@, n as int);
        if table_preserves_nonzero(rows, q, nl as nat) {
            // index 0 is never claimed, so no representative is the zero
            // polynomial
            assert forall|k: int| 0 <= k < iso_polys@.len() implies (
            #[trigger] iso_polys@[k]).representative.bits != 0 by {
                if iso_polys@[k].representative.bits == 0 {
                    if q == 3 {
                        crate::bijection::lemma_f3_index_of_zero(nl as nat);
                    }
                    assert(things@[0]);
                }
            }
        }
    }
    iso_polys
}

/// An all-false table counts zero.
proof fn lemma_count_trues_all_false(s: Seq<bool>, k: int)
    requires
        k <= s.len(),
        forall|j: int| 0 <= j < s.len() ==> !(#[trigger] s[j]),
    ensures
        count_trues(s, k) == 0,
    decreases k,
{
    if k > 0 {
        lemma_count_trues_all_false(s, k - 1);
    }
}

} // verus!

verus! {

impl IsoPolynomial {
    /// Renders the record as `representative | size`.
    pub fn to_string(&self, normal: &Vec<Term>, q: u64) -> (r: String)
        requires
            q == 2 || q == 3,
            normal@.len() <= num_lanes(q),
        ensures
            r@ == crate::polynomials::poly_render(
                self.representative.bits,
                normal@,
                normal@.len() as int,
                q,
            ) + seq![' ', '|', ' '] + crate::render::spec_dec(self.size as nat),
    {
        let mut s = self.representative.str(normal, q);
        proof {
            reveal_strlit(" | ");
        }
        s.append(" | ");
        let num = crate::render::u64_dec_string(self.size as u64);
        s.append(num.as_str());
        proof {
            assert(s@ =~= crate::polynomials::poly_render(
                self.representative.bits,
                normal@,
                normal@.len() as int,
                q,
            ) + seq![' ', '|', ' '] + crate::render::spec_dec(self.size as nat));
        }
        s
    }
}

/// The packed image of `p` under one action-table row: the unique valid
/// vector whose coefficient at every slot is the row's linear combination.
pub open spec fn image_of(p: u64, row: Seq<u64>, q: u64) -> u64 {
    choose|y: u64|
        packed_valid(y, q) && (forall|j: u64|
            j < num_lanes(q) ==> #[trigger] lane_of(y, j, q) == transform_lane(
                p,
                row,
                row.len() as int,
                j,
                q,
            ))
}

/// Any valid vector carrying exactly the transformed coefficients is the
/// image.
pub proof fn lemma_image_of_is(p: u64, row: Seq<u64>, q: u64, y: u64)
    requires
        q == 2 || q == 3,
        packed_valid(y, q),
        forall|j: u64|
            j < num_lanes(q) ==> #[trigger] lane_of(y, j, q) == transform_lane(
                p,
                row,
                row.len() as int,
                j,
                q,
            ),
    ensures
        image_of(p, row, q) == y,
{
    assert(packed_valid(y, q) && (forall|j: u64|
        j < num_lanes(q) ==> #[trigger] lane_of(y, j, q) == transform_lane(
            p,
            row,
            row.len() as int,
            j,
            q,
        )));
    let w = image_of(p, row, q);
    assert(packed_valid(w, q) && (forall|j: u64|
        j < num_lanes(q) ==> #[trigger] lane_of(w, j, q) == transform_lane(
            p,
            row,
            row.len() as int,
            j,
            q,
        ))) by {
        assert(exists|c: u64|
            packed_valid(c, q) && (forall|j: u64|
                j < num_lanes(q) ==> #[trigger] lane_of(c, j, q) == transform_lane(
                    p,
                    row,
                    row.len() as int,
                    j,
                    q,
                )));
    }
    assert forall|j: u64| j < num_lanes(q) implies #[trigger] lane_of(w, j, q) == lane_of(
        y,
        j,
        q,
    ) by {}
    crate::field::lemma_lane_ext(w, y, q);
}

/// The packed polynomial that encodes a given enumeration index.
pub open spec fn packed_of_index(idx: int, q: u64, nl: nat) -> u64 {
    choose|p: u64|
        packed_valid(p, q) && packed_in_domain(p, q, nl) && packed_index_of(p, q, nl) == idx
}

/// Any valid in-domain vector encoding the index is that polynomial.
pub proof fn lemma_packed_of_index_is(idx: int, q: u64, nl: nat, p: u64)
    requires
        q == 2 || q == 3,
        nl <= max_lanes(q),
        packed_valid(p, q),
        packed_in_domain(p, q, nl),
        packed_index_of(p, q, nl) == idx,
    ensures
        packed_of_index(idx, q, nl) == p,
{
    let w = packed_of_index(idx, q, nl);
    assert(packed_valid(w, q) && packed_in_domain(w, q, nl) && packed_index_of(w, q, nl)
        == idx) by {
        assert(exists|c: u64|
            packed_valid(c, q) && packed_in_domain(c, q, nl) && packed_index_of(c, q, nl) == idx);
    }
    if q == 2 {
        assert(w == p);
    } else {
        assert forall|j: u64| j < 32 implies #[trigger] f3_lane(w, j) == f3_lane(p, j) by {
            if j < nl {
                crate::bijection::lemma_digits_of_index_of(w, nl, j);
                crate::bijection::lemma_digits_of_index_of(p, nl, j);
            }
        }
        crate::field::lemma_f3_lane_ext(w, p);
    }
}

/// The candidate at index `i` abandons: some image of its polynomial
/// belongs to a strictly earlier region of the index space.
pub open spec fn candidate_abandons(i: int, lut: Seq<Seq<u64>>, q: u64, nl: nat) -> bool {
    exists|mi: int|
        0 <= mi < lut.len() && packed_index_of(
            image_of(packed_of_index(i, q, nl), #[trigger] lut[mi], q),
            q,
            nl,
        ) < i
}

/// Claims the orbit of candidate `i` if it is unclaimed and no image of it
/// belongs to an earlier region of the index space; a worker of the
/// chunked sweep runs this for every index of its chunk.  Marks exactly
/// the polynomials the returned record counts.
pub fn process_candidate(
    things: &mut Vec<bool>,
    i: usize,
    transform_lut: &Vec<Vec<u64>>,
    q: u64,
    nl: usize,
) -> (r: Option<IsoPolynomial>)
    requires
        q == 2 || q == 3,
        nl as nat <= max_lanes(q),
        pow(q as int, nl as nat) <= usize::MAX,
        old(things)@.len() == pow(q as int, nl as nat),
        1 <= i < old(things)@.len(),
        transform_lut@.len() + 1 <= u32::MAX,
        forall|mi: int|
            0 <= mi < transform_lut@.len() ==> (#[trigger] transform_lut@[mi])@.len() == nl,
        forall|mi: int, s: int|
            0 <= mi < transform_lut@.len() && 0 <= s < nl ==> packed_valid(
                #[trigger] transform_lut@[mi]@[s],
                q,
            ) && packed_in_domain(transform_lut@[mi]@[s], q, nl as nat),
    ensures
        final(things)@.len() == old(things)@.len(),
        forall|j: int|
            0 <= j < old(things)@.len() && old(things)@[j] ==> #[trigger] final(things)@[j],
        !old(things)@[0] ==> !final(things)@[0],
        r is Some ==> count_trues(final(things)@, final(things)@.len() as int) == count_trues(
            old(things)@,
            old(things)@.len() as int,
        ) + r->Some_0.size,
        r is None ==> final(things)@ == old(things)@,
        r is Some ==> r->Some_0.size >= 1 && packed_valid(r->Some_0.representative.bits, q)
            && packed_in_domain(r->Some_0.representative.bits, q, nl as nat),
        r is Some ==> 0 <= packed_index_of(r->Some_0.representative.bits, q, nl as nat) < old(
            things,
        )@.len() && !old(things)@[packed_index_of(r->Some_0.representative.bits, q, nl as nat)]
            && final(things)@[packed_index_of(r->Some_0.representative.bits, q, nl as nat)],
        r is None <==> old(things)@[i as int] || candidate_abandons(
            i as int,
            transform_lut@.map_values(|v: Vec<u64>| v@),
            q,
            nl as nat,
        ),
        r is Some ==> final(things)@[i as int],
        r is Some ==> r->Some_0.representative.bits == packed_of_index(i as int, q, nl as nat)
            || exists|mi: int|
            0 <= mi < transform_lut@.len() && r->Some_0.representative.bits == image_of(
                packed_of_index(i as int, q, nl as nat),
                (#[trigger] transform_lut@[mi])@,
                q,
            ),
        r is Some ==> rep_le(
            r->Some_0.representative.bits,
            packed_of_index(i as int, q, nl as nat),
            q,
            nl as int,
        ),
{
    let ghost n = old(things)@.len() as int;
    let ghost rows = transform_lut@.map_values(|v: Vec<u64>| v@);
    if things[i] {
        return None;
    }
    let poly = Polynomial::new(crate::bijection::index_to_poly_map(i as u64, q, nl));
    proof {
        lemma_packed_of_index_is(i as int, q, nl as nat, poly.bits);
    }
    // first pass: compute every image and its index; abandon the candidate
    // if any image lies in an earlier region
    let mut idxs: Vec<usize> = Vec::new();
    let mut perms: Vec<u64> = Vec::new();
    let mut mi: usize = 0;
    while mi < transform_lut.len()
        invariant
            q == 2 || q == 3,
            nl as nat <= max_lanes(q),
            pow(q as int, nl as nat) <= usize::MAX,
            mi <= transform_lut@.len(),
            forall|mj: int|
                0 <= mj < transform_lut@.len() ==> (#[trigger] transform_lut@[mj])@.len() == nl,
            forall|mj: int, s: int|
                0 <= mj < transform_lut@.len() && 0 <= s < nl ==> packed_valid(
                    #[trigger] transform_lut@[mj]@[s],
                    q,
                ) && packed_in_domain(transform_lut@[mj]@[s], q, nl as nat),
            packed_valid(poly.bits, q),
            packed_in_domain(poly.bits, q, nl as nat),
            idxs@.len() == mi,
            perms@.len() == mi,
            forall|k: int|
                0 <= k < mi ==> (#[trigger] idxs@[k]) < pow(q as int, nl as nat) && i <= idxs@[k],
            forall|k: int|
                0 <= k < mi ==> packed_valid(#[trigger] perms@[k], q) && packed_in_domain(
                    perms@[k],
                    q,
                    nl as nat,
                ),
            forall|k: int|
                0 <= k < mi ==> (#[trigger] idxs@[k]) as int == packed_index_of(
                    perms@[k],
                    q,
                    nl as nat,
                ),
            rows == transform_lut@.map_values(|v: Vec<u64>| v@),
            poly.bits == packed_of_index(i as int, q, nl as nat),
            packed_index_of(poly.bits, q, nl as nat) == i,
            1 <= i,
            forall|k: int|
                0 <= k < mi ==> #[trigger] perms@[k] == image_of(poly.bits, rows[k], q),
        decreases transform_lut@.len() - mi,
    {
        let row = &transform_lut[mi];
        let perm = poly.transform_by_matrix(row, q);
        proof {
            assert forall|j: u64| nl <= j && j < num_lanes(q) implies #[trigger] lane_of(
                perm.bits,
                j,
                q,
            ) == 0 by {
                assert forall|s: int| 0 <= s < row@.len() implies lane_of(
                    #[trigger] row@[s],
                    j,
                    q,
                ) == 0 by {
                    if q == 2 {
                        crate::bijection::lemma_f2_bound_gives_lanes(row@[s], nl as nat, j);
                    }
                }
                lemma_transform_lane_zero(poly.bits, row@, row@.len() as int, j, q);
            }
            if q == 2 {
                assert forall|j: u64| nl <= j < 64 implies #[trigger] f2_lane(perm.bits, j)
                    == 0 by {
                    assert(lane_of(perm.bits, j, q) == 0);
                }
                crate::bijection::lemma_f2_lanes_give_bound(perm.bits, nl as nat);
            } else {
                assert forall|j: u64| nl <= j < 32 implies #[trigger] f3_lane(perm.bits, j)
                    == 0 by {
                    assert(lane_of(perm.bits, j, q) == 0);
                }
            }
            assert(packed_in_domain(perm.bits, q, nl as nat));
        }
        let inv = crate::bijection::poly_to_index_map(perm.bits, q, nl) as usize;
        proof {
            assert(rows[mi as int] == row@);
            lemma_image_of_is(poly.bits, rows[mi as int], q, perm.bits);
        }
        if inv < i {
            // the orbit's canonical seed lies in an earlier region
            proof {
                assert(packed_index_of(
                    image_of(packed_of_index(i as int, q, nl as nat), rows[mi as int], q),
                    q,
                    nl as nat,
                ) < i);
                assert(candidate_abandons(i as int, rows, q, nl as nat));
            }
            return None;
        }
        idxs.push(inv);
        perms.push(perm.bits);
        mi = mi + 1;
    }
    proof {
        // no image points to an earlier region: the candidate does not abandon
        assert(!candidate_abandons(i as int, rows, q, nl as nat)) by {
            if candidate_abandons(i as int, rows, q, nl as nat) {
                let mw = choose|mi: int|
                    0 <= mi < rows.len() && packed_index_of(
                        image_of(packed_of_index(i as int, q, nl as nat), #[trigger] rows[mi], q),
                        q,
                        nl as nat,
                    ) < i;
                assert(perms@[mw] == image_of(poly.bits, rows[mw], q));
                assert(idxs@[mw] as int == packed_index_of(perms@[mw], q, nl as nat));
                assert(i <= idxs@[mw]);
            }
        }
    }
    // claim the candidate and every still-unclaimed image
    let rec = claim_seed(things, poly, i, transform_lut, q, nl);
    proof {
        // new claims land on the seed or on image indexes, all at least i,
        // so position 0 is never newly claimed
        if !old(things)@[0] && things@[0] {
            assert(0 == i as int || exists|mi2: int|
                0 <= mi2 < transform_lut@.len() && 0 == packed_index_of(
                    image_of(poly.bits, (#[trigger] transform_lut@[mi2])@, q),
                    q,
                    nl as nat,
                ));
            let mw = choose|mi2: int|
                0 <= mi2 < transform_lut@.len() && 0 == packed_index_of(
                    image_of(poly.bits, (#[trigger] transform_lut@[mi2])@, q),
                    q,
                    nl as nat,
                );
            assert(perms@[mw] == image_of(poly.bits, rows[mw], q));
            assert(idxs@[mw] as int == packed_index_of(perms@[mw], q, nl as nat));
            assert(i <= idxs@[mw]);
            assert(false);
        }
    }
    Some(rec)
}

/// The chunked orbit sweep: the index space is cut into fixed-size chunks
/// served last-in-first-out from a work queue, and every index of every
/// chunk runs the claim-or-abandon step against the shared presence
/// table.  When the queue is empty the coordinator makes one completion
/// pass over the index space, claiming any candidate that was abandoned
/// toward an earlier region but never claimed from there — with a genuine
/// group table that pass finds nothing left, and in every case the records
/// end up partitioning the claimed polynomials exactly as the sequential
/// sweep's census states.
pub fn generate_iso_polynomials_chunked(
    transform_lut: &Vec<Vec<u64>>,
    q: u64,
    nl: usize,
    chunk_size: usize,
) -> (r: Vec<IsoPolynomial>)
    requires
        q == 2 || q == 3,
        nl as nat <= max_lanes(q),
        pow(q as int, nl as nat) <= usize::MAX,
        chunk_size >= 1,
        transform_lut@.len() + 1 <= u32::MAX,
        forall|mi: int|
            0 <= mi < transform_lut@.len() ==> (#[trigger] transform_lut@[mi])@.len() == nl,
        forall|mi: int, s: int|
            0 <= mi < transform_lut@.len() && 0 <= s < nl ==> packed_valid(
                #[trigger] transform_lut@[mi]@[s],
                q,
            ) && packed_in_domain(transform_lut@[mi]@[s], q, nl as nat),
    ensures
        pow(q as int, nl as nat) - 1 <= sum_sizes(r@, r@.len() as int) <= pow(q as int, nl as nat),
        table_preserves_nonzero(transform_lut@.map_values(|v: Vec<u64>| v@), q, nl as nat)
            ==> sum_sizes(r@, r@.len() as int) == pow(q as int, nl as nat) - 1,
        forall|k: int|
            0 <= k < r@.len() ==> (#[trigger] r@[k]).size >= 1 && packed_valid(
                r@[k].representative.bits,
                q,
            ) && packed_in_domain(r@[k].representative.bits, q, nl as nat),
        forall|k1: int, k2: int|
            0 <= k1 < k2 < r@.len() ==> (#[trigger] r@[k1]).representative.bits != (
            #[trigger] r@[k2]).representative.bits,
        table_preserves_nonzero(transform_lut@.map_values(|v: Vec<u64>| v@), q, nl as nat)
            ==> forall|k: int|
            0 <= k < r@.len() ==> (#[trigger] r@[k]).representative.bits != 0,
        forall|k: int|
            0 <= k < r@.len() ==> exists|s: int|
                1 <= s < pow(q as int, nl as nat) && rep_le(
                    (#[trigger] r@[k]).representative.bits,
                    packed_of_index(s, q, nl as nat),
                    q,
                    nl as int,
                ) && (r@[k].representative.bits == packed_of_index(s, q, nl as nat) || exists|
                    mi: int,
                |
                    0 <= mi < transform_lut@.len() && r@[k].representative.bits == image_of(
                        packed_of_index(s, q, nl as nat),
                        (#[trigger] transform_lut@[mi])@,
                        q,
                    )),
{
    let ghost rows = transform_lut@.map_values(|v: Vec<u64>| v@);
    let n = pow_usize(q, nl);
    let mut things: Vec<bool> = Vec::new();
    let mut fill: usize = 0;
    while fill < n
        invariant
            fill <= n,
            things@.len() == fill,
            forall|j: int| 0 <= j < fill ==> !(#[trigger] things@[j]),
        decreases n - fill,
    {
        things.push(false);
        fill = fill + 1;
    }
    proof {
        lemma_count_trues_all_false(things@, n as int);
    }
    // build the chunk queue
    let mut queue: Vec<(usize, usize)> = Vec::new();
    let mut start: usize = 1;
    while start < n
        invariant
            1 <= start,
            chunk_size >= 1,
            forall|c: int|
                0 <= c < queue@.len() ==> 1 <= (#[trigger] queue@[c]).0 && queue@[c].1 <= n,
        decreases n - start,
    {
        let end = if n - start < chunk_size {
            n
        } else {
            start + chunk_size
        };
        queue.push((start, end));
        start = end;
    }
    // drain it last-in-first-out
    let mut iso_polys: Vec<IsoPolynomial> = Vec::new();
    loop
        invariant
            q == 2 || q == 3,
            nl as nat <= max_lanes(q),
            pow(q as int, nl as nat) <= usize::MAX,
            n as int == pow(q as int, nl as nat),
            transform_lut@.len() + 1 <= u32::MAX,
            forall|mi: int|
                0 <= mi < transform_lut@.len() ==> (#[trigger] transform_lut@[mi])@.len() == nl,
            forall|mi: int, s: int|
                0 <= mi < transform_lut@.len() && 0 <= s < nl ==> packed_valid(
                    #[trigger] transform_lut@[mi]@[s],
                    q,
                ) && packed_in_domain(transform_lut@[mi]@[s], q, nl as nat),
            things@.len() == n,
            forall|c: int|
                0 <= c < queue@.len() ==> 1 <= (#[trigger] queue@[c]).0 && queue@[c].1 <= n,
            count_trues(things@, n as int) == sum_sizes(iso_polys@, iso_polys@.len() as int),
            !things@[0],
            forall|k: int|
                0 <= k < iso_polys@.len() ==> (#[trigger] iso_polys@[k]).size >= 1 && packed_valid(
                    iso_polys@[k].representative.bits,
                    q,
                ) && packed_in_domain(iso_polys@[k].representative.bits, q, nl as nat),
            forall|k: int|
                0 <= k < iso_polys@.len() ==> 0 <= packed_index_of(
                    (#[trigger] iso_polys@[k]).representative.bits,
                    q,
                    nl as nat,
                ) < n && things@[packed_index_of(iso_polys@[k].representative.bits, q, nl as nat)],
            forall|k1: int, k2: int|
                0 <= k1 < k2 < iso_polys@.len() ==> (#[trigger] iso_polys@[k1]).representative.bits
                    != (#[trigger] iso_polys@[k2]).representative.bits,
            forall|k: int|
                0 <= k < iso_polys@.len() ==> exists|s: int|
                    1 <= s < pow(q as int, nl as nat) && rep_le(
                        (#[trigger] iso_polys@[k]).representative.bits,
                        packed_of_index(s, q, nl as nat),
                        q,
                        nl as int,
                    ) && (iso_polys@[k].representative.bits == packed_of_index(s, q, nl as nat)
                        || exists|mi: int|
                        0 <= mi < transform_lut@.len() && iso_polys@[k].representative.bits
                            == image_of(
                            packed_of_index(s, q, nl as nat),
                            (#[trigger] transform_lut@[mi])@,
                            q,
                        )),
        ensures
            queue@.len() == 0,
        decreases queue@.len(),
    {
        if queue.len() == 0 {
            break;
        }
        let chunk = queue.pop().unwrap();
        let mut i: usize = chunk.0;
        while i < chunk.1
            invariant
                q == 2 || q == 3,
                nl as nat <= max_lanes(q),
                pow(q as int, nl as nat) <= usize::MAX,
                n as int == pow(q as int, nl as nat),
                transform_lut@.len() + 1 <= u32::MAX,
                forall|mi: int|
                    0 <= mi < transform_lut@.len() ==> (
                    #[trigger] transform_lut@[mi])@.len() == nl,
                forall|mi: int, s: int|
                    0 <= mi < transform_lut@.len() && 0 <= s < nl ==> packed_valid(
                        #[trigger] transform_lut@[mi]@[s],
                        q,
                    ) && packed_in_domain(transform_lut@[mi]@[s], q, nl as nat),
                things@.len() == n,
                1 <= i,
                chunk.1 <= n,
                count_trues(things@, n as int) == sum_sizes(iso_polys@, iso_polys@.len() as int),
                !things@[0],
                forall|k: int|
                    0 <= k < iso_polys@.len() ==> (#[trigger] iso_polys@[k]).size >= 1
                        && packed_valid(iso_polys@[k].representative.bits, q) && packed_in_domain(
                        iso_polys@[k].representative.bits,
                        q,
                        nl as nat,
                    ),
            forall|k: int|
                0 <= k < iso_polys@.len() ==> 0 <= packed_index_of(
                    (#[trigger] iso_polys@[k]).representative.bits,
                    q,
                    nl as nat,
                ) < n && things@[packed_index_of(iso_polys@[k].representative.bits, q, nl as nat)],
            forall|k1: int, k2: int|
                0 <= k1 < k2 < iso_polys@.len() ==> (#[trigger] iso_polys@[k1]).representative.bits
                    != (#[trigger] iso_polys@[k2]).representative.bits,
            forall|k: int|
                0 <= k < iso_polys@.len() ==> exists|s: int|
                    1 <= s < pow(q as int, nl as nat) && rep_le(
                        (#[trigger] iso_polys@[k]).representative.bits,
                        packed_of_index(s, q, nl as nat),
                        q,
                        nl as int,
                    ) && (iso_polys@[k].representative.bits == packed_of_index(s, q, nl as nat)
                        || exists|mi: int|
                        0 <= mi < transform_lut@.len() && iso_polys@[k].representative.bits
                            == image_of(
                            packed_of_index(s, q, nl as nat),
                            (#[trigger] transform_lut@[mi])@,
                            q,
                        )),
            decreases chunk.1 - i,
        {
            let step = process_candidate(&mut things, i, transform_lut, q, nl);
            match step {
                Some(rec) => {
                    let ghost iso0 = iso_polys@;
                    let ghost before = things@;
                    iso_polys.push(rec);
                    proof {
                        lemma_sum_sizes_push(iso0, rec, iso0.len() as int);
                        assert forall|k1: int, k2: int|
                            0 <= k1 < k2 < iso_polys@.len() implies (
                        #[trigger] iso_polys@[k1]).representative.bits != (
                        #[trigger] iso_polys@[k2]).representative.bits by {
                            if k2 == iso0.len() {
                                // the new representative was unclaimed
                                // before this step; every older one was
                                // already claimed
                                assert(before[packed_index_of(
                                    iso0[k1].representative.bits,
                                    q,
                                    nl as nat,
                                )]);
                            }
                        }
                    }
                },
                None => {},
            }
            i = i + 1;
        }
    }
    // completion pass: claim anything the abandonment step deferred to an
    // earlier region that never claimed it
    let mut bits: u64 = 0;
    let mut i: usize = 1;
    proof {
        if q == 3 {
            crate::bijection::lemma_f3_index_of_zero(nl as nat);
            crate::field::lemma_zero_packed();
        } else {
            lemma_pow_positive(2, nl as nat);
        }
    }
    while i < n
        invariant
            q == 2 || q == 3,
            nl as nat <= max_lanes(q),
            pow(q as int, nl as nat) <= usize::MAX,
            n as int == pow(q as int, nl as nat),
            transform_lut@.len() + 1 <= u32::MAX,
            rows == transform_lut@.map_values(|v: Vec<u64>| v@),
            forall|mi: int|
                0 <= mi < transform_lut@.len() ==> (#[trigger] transform_lut@[mi])@.len() == nl,
            forall|mi: int, s: int|
                0 <= mi < transform_lut@.len() && 0 <= s < nl ==> packed_valid(
                    #[trigger] transform_lut@[mi]@[s],
                    q,
                ) && packed_in_domain(transform_lut@[mi]@[s], q, nl as nat),
            1 <= i <= n,
            things@.len() == n,
            packed_valid(bits, q),
            packed_in_domain(bits, q, nl as nat),
            packed_index_of(bits, q, nl as nat) == i - 1,
            count_trues(things@, n as int) == sum_sizes(iso_polys@, iso_polys@.len() as int),
            forall|j: int| 1 <= j < i ==> #[trigger] things@[j],
            table_preserves_nonzero(rows, q, nl as nat) ==> !things@[0],
            forall|k: int|
                0 <= k < iso_polys@.len() ==> (#[trigger] iso_polys@[k]).size >= 1 && packed_valid(
                    iso_polys@[k].representative.bits,
                    q,
                ) && packed_in_domain(iso_polys@[k].representative.bits, q, nl as nat),
            forall|k: int|
                0 <= k < iso_polys@.len() ==> 0 <= packed_index_of(
                    (#[trigger] iso_polys@[k]).representative.bits,
                    q,
                    nl as nat,
                ) < n && things@[packed_index_of(iso_polys@[k].representative.bits, q, nl as nat)],
            forall|k1: int, k2: int|
                0 <= k1 < k2 < iso_polys@.len() ==> (#[trigger] iso_polys@[k1]).representative.bits
                    != (#[trigger] iso_polys@[k2]).representative.bits,
            forall|k: int|
                0 <= k < iso_polys@.len() ==> exists|s: int|
                    1 <= s < pow(q as int, nl as nat) && rep_le(
                        (#[trigger] iso_polys@[k]).representative.bits,
                        packed_of_index(s, q, nl as nat),
                        q,
                        nl as int,
                    ) && (iso_polys@[k].representative.bits == packed_of_index(s, q, nl as nat)
                        || exists|mi: int|
                        0 <= mi < transform_lut@.len() && iso_polys@[k].representative.bits
                            == image_of(
                            packed_of_index(s, q, nl as nat),
                            (#[trigger] transform_lut@[mi])@,
                            q,
                        )),
        decreases n - i,
    {
        bits = crate::bijection::poly_next(bits, q, nl);
        if !things[i] {
            let ghost things0 = things@;
            let poly = Polynomial::new(bits);
            let rec = claim_seed(&mut things, poly, i, transform_lut, q, nl);
            let ghost iso0 = iso_polys@;
            iso_polys.push(rec);
            proof {
                lemma_sum_sizes_push(iso0, rec, iso0.len() as int);
                lemma_packed_of_index_is(i as int, q, nl as nat, poly.bits);
                assert forall|k1: int, k2: int|
                    0 <= k1 < k2 < iso_polys@.len() implies (
                #[trigger] iso_polys@[k1]).representative.bits != (
                #[trigger] iso_polys@[k2]).representative.bits by {
                    if k2 == iso0.len() {
                        assert(things0[packed_index_of(
                            iso0[k1].representative.bits,
                            q,
                            nl as nat,
                        )]);
                        assert(!things0[packed_index_of(rec.representative.bits, q, nl as nat)]);
                    }
                }
            }
        }
        i = i + 1;
    }
    proof {
        lemma_count_trues_le(things@, n as int);
        lemma_count_trues_full(things@, n as int);
        if table_preserves_nonzero(rows, q, nl as nat) {
            assert forall|k: int| 0 <= k < iso_polys@.len() implies (
            #[trigger] iso_polys@[k]).representative.bits != 0 by {
                if iso_polys@[k].representative.bits == 0 {
                    if q == 3 {
                        crate::bijection::lemma_f3_index_of_zero(nl as nat);
                    }
                    assert(things@[0]);
                }
            }
        }
    }
    iso_polys
}

} // verus!

verus! {

/// `q^e` when it fits the machine word, and nothing otherwise.
fn checked_pow_usize(q: u64, e: usize) -> (r: Option<usize>)
    requires
        q == 2 || q == 3,
    ensures
        r is Some ==> r->0 as int == pow(q as int, e as nat) && pow(q as int, e as nat)
            <= usize::MAX,
        r is None ==> pow(q as int, e as nat) > usize::MAX,
{
    let mut acc: usize = 1;
    let mut i: usize = 0;
    proof {
        vstd::arithmetic::power::lemma_pow0(q as int);
    }
    while i < e
        invariant
            q == 2 || q == 3,
            i <= e,
            acc as int == pow(q as int, i as nat),
            acc >= 1,
        decreases e - i,
    {
        proof {
            assert(pow(q as int, (i + 1) as nat) == q * pow(q as int, i as nat)) by {
                reveal(pow);
            }
            assert(acc * (q as int) == q * (acc as int)) by (nonlinear_arith);
        }
        match acc.checked_mul(q as usize) {
            Some(next) => {
                proof {
                    lemma_pow_positive(q as int, (i + 1) as nat);
                }
                acc = next;
            },
            None => {
                proof {
                    lemma_pow_increases(q as nat, (i + 1) as nat, e as nat);
                }
                return None;
            },
        }
        i = i + 1;
    }
    Some(acc)
}

/// Every matrix the GF(2) generator emits has entries below 2.
proof fn lemma_pgl3_f2_prefix_wf(n: nat)
    ensures
        forall|k: int|
            0 <= k < crate::algebraic_types::pgl3_f2_prefix(n).len()
                ==> crate::algebraic_types::mat_wf(
                #[trigger] crate::algebraic_types::pgl3_f2_prefix(n)[k],
                2,
            ),
    decreases n,
{
    if n > 0 {
        lemma_pgl3_f2_prefix_wf((n - 1) as nat);
        let code = (n - 1) as u32;
        let mm = crate::algebraic_types::f2_matrix_of(code);
        assert forall|i2: int, j2: int| 0 <= i2 < 3 && 0 <= j2 < 3 implies #[trigger] mm.data[i2][j2]
            < 2 by {
            if i2 == 0 && j2 == 0 {
                assert(((code >> 0u32) & 1) < 2) by (bit_vector);
            }
            if i2 == 0 && j2 == 1 {
                assert(((code >> 1u32) & 1) < 2) by (bit_vector);
            }
            if i2 == 0 && j2 == 2 {
                assert(((code >> 2u32) & 1) < 2) by (bit_vector);
            }
            if i2 == 1 && j2 == 0 {
                assert(((code >> 3u32) & 1) < 2) by (bit_vector);
            }
            if i2 == 1 && j2 == 1 {
                assert(((code >> 4u32) & 1) < 2) by (bit_vector);
            }
            if i2 == 1 && j2 == 2 {
                assert(((code >> 5u32) & 1) < 2) by (bit_vector);
            }
            if i2 == 2 && j2 == 0 {
                assert(((code >> 6u32) & 1) < 2) by (bit_vector);
            }
            if i2 == 2 && j2 == 1 {
                assert(((code >> 7u32) & 1) < 2) by (bit_vector);
            }
            if i2 == 2 && j2 == 2 {
                assert(((code >> 8u32) & 1) < 2) by (bit_vector);
            }
        }
        assert(crate::algebraic_types::mat_wf(mm, 2));
        let prev = crate::algebraic_types::pgl3_f2_prefix((n - 1) as nat);
        let cur = crate::algebraic_types::pgl3_f2_prefix(n);
        assert forall|k: int| 0 <= k < cur.len() implies crate::algebraic_types::mat_wf(
            #[trigger] cur[k],
            2,
        ) by {
            if k < prev.len() {
                assert(cur[k] == prev[k]);
            } else {
                assert(cur[k] == mm);
            }
        }
    }
}

/// Every matrix the GF(3) generator emits has entries below 3.
proof fn lemma_pgl3_f3_prefix_wf(n: nat)
    ensures
        forall|k: int|
            0 <= k < crate::algebraic_types::pgl3_f3_prefix(n).len()
                ==> crate::algebraic_types::mat_wf(
                #[trigger] crate::algebraic_types::pgl3_f3_prefix(n)[k],
                3,
            ),
    decreases n,
{
    if n > 0 {
        lemma_pgl3_f3_prefix_wf((n - 1) as nat);
        let code = (n - 1) as u64;
        let mm = crate::algebraic_types::f3_matrix_of(code);
        assert forall|i2: int, j2: int| 0 <= i2 < 3 && 0 <= j2 < 3 implies #[trigger] mm.data[i2][j2]
            < 3 by {
            if i2 == 0 && j2 == 0 {
                crate::bijection::lemma_tern_digit_bound(code, 0);
            }
            if i2 == 0 && j2 == 1 {
                crate::bijection::lemma_tern_digit_bound(code, 1);
            }
            if i2 == 0 && j2 == 2 {
                crate::bijection::lemma_tern_digit_bound(code, 2);
            }
            if i2 == 1 && j2 == 0 {
                crate::bijection::lemma_tern_digit_bound(code, 3);
            }
            if i2 == 1 && j2 == 1 {
                crate::bijection::lemma_tern_digit_bound(code, 4);
            }
            if i2 == 1 && j2 == 2 {
                crate::bijection::lemma_tern_digit_bound(code, 5);
            }
            if i2 == 2 && j2 == 0 {
                crate::bijection::lemma_tern_digit_bound(code, 6);
            }
            if i2 == 2 && j2 == 1 {
                crate::bijection::lemma_tern_digit_bound(code, 7);
            }
            if i2 == 2 && j2 == 2 {
                crate::bijection::lemma_tern_digit_bound(code, 8);
            }
        }
        assert(crate::algebraic_types::mat_wf(mm, 3));
        let prev = crate::algebraic_types::pgl3_f3_prefix((n - 1) as nat);
        let cur = crate::algebraic_types::pgl3_f3_prefix(n);
        assert forall|k: int| 0 <= k < cur.len() implies crate::algebraic_types::mat_wf(
            #[trigger] cur[k],
            3,
        ) by {
            if k < prev.len() {
                assert(cur[k] == prev[k]);
            } else {
                assert(cur[k] == mm);
            }
        }
    }
}

/// The group generators emit at most one matrix per code.
proof fn lemma_pgl3_prefix_len(n: nat)
    ensures
        crate::algebraic_types::pgl3_f2_prefix(n).len() <= n,
        crate::algebraic_types::pgl3_f3_prefix(n).len() <= n,
    decreases n,
{
    if n > 0 {
        lemma_pgl3_prefix_len((n - 1) as nat);
    }
}

/// Whether the packed representation of the requested degree fits the
/// word and the index space fits the machine: exactly when enumeration
/// can be configured.
pub open spec fn config_fits(degree: u8, q: u64) -> bool {
    crate::polynomials::monomial_table(degree).len() <= max_lanes(q) && pow(
        q as int,
        crate::polynomials::monomial_table(degree).len() as nat,
    ) <= usize::MAX
}

/// The single entry point: builds the group, the monomial table and the
/// action table for the requested degree and field order, validates the
/// configuration, and enumerates the orbits sequentially or in the chunked
/// work-queue mode.  Reports `UnsupportedFieldOrder` for a field order
/// other than 2 or 3 and `WidthExceeded` when the packed representation
/// would not fit the 64-bit word, always before any enumeration work.
pub fn enumerate_orbits(
    degree: u8,
    field_order: u64,
    use_chunks: bool,
    chunk_size: usize,
) -> (r: Result<Vec<IsoPolynomial>, crate::OrbitError>)
    requires
        chunk_size >= 1,
    ensures
        field_order != 2 && field_order != 3 ==> r == Result::<
            Vec<IsoPolynomial>,
            crate::OrbitError,
        >::Err(crate::OrbitError::UnsupportedFieldOrder),
        r is Ok ==> field_order == 2 || field_order == 3,
        field_order == 2 || field_order == 3 ==> (r is Ok <==> config_fits(degree, field_order)),
        (field_order == 2 || field_order == 3) && !config_fits(degree, field_order) ==> r
            == Result::<Vec<IsoPolynomial>, crate::OrbitError>::Err(crate::OrbitError::WidthExceeded),
        r is Ok ==> sum_sizes(r->Ok_0@, r->Ok_0@.len() as int) <= pow(
            field_order as int,
            crate::polynomials::monomial_table(degree).len() as nat,
        ),
        r is Ok ==> forall|k: int|
            0 <= k < r->Ok_0@.len() ==> (#[trigger] r->Ok_0@[k]).size >= 1 && packed_valid(
                r->Ok_0@[k].representative.bits,
                field_order,
            ),
        r is Ok && !use_chunks ==> pow(
            field_order as int,
            crate::polynomials::monomial_table(degree).len() as nat,
        ) - 1 <= sum_sizes(r->Ok_0@, r->Ok_0@.len() as int),
{
    let q = field_order;
    if q != 2 && q != 3 {
        return Err(crate::OrbitError::UnsupportedFieldOrder);
    }
    if degree > 20 {
        proof {
            // 21 or more gives at least 253 monomial slots: wider than any
            // supported lane count
            crate::polynomials::lemma_monomial_table_len(degree);
            assert((degree + 1) * (degree + 2) >= 506) by (nonlinear_arith)
                requires
                    degree >= 21,
            ;
        }
        return Err(crate::OrbitError::WidthExceeded);
    }
    let group = match crate::algebraic_types::Matrix::generate_pgl3(q) {
        Ok(g) => g,
        Err(e) => {
            return Err(e);
        },
    };
    proof {
        if q == 2 {
            lemma_pgl3_f2_prefix_wf(512);
        } else {
            lemma_pgl3_f3_prefix_wf(19683);
        }
    }
    let normal = Polynomial::generate_default_lut(degree);
    let nl = normal.len();
    let max_nl: usize = if q == 2 {
        63
    } else {
        31
    };
    if nl > max_nl {
        return Err(crate::OrbitError::WidthExceeded);
    }
    match checked_pow_usize(q, nl) {
        Some(_) => {},
        None => {
            return Err(crate::OrbitError::WidthExceeded);
        },
    }
    proof {
        lemma_pgl3_prefix_len(512);
        lemma_pgl3_prefix_len(19683);
    }
    let lut = crate::polynomials::generate_transform_lut(&group, &normal, q);
    proof {
        // every action-table entry stays inside the nl-lane domain
        assert forall|mi: int, s: int|
            0 <= mi < lut@.len() && 0 <= s < nl implies packed_valid(#[trigger] lut@[mi]@[s], q)
            && packed_in_domain(lut@[mi]@[s], q, nl as nat) by {
            assert(packed_valid(lut@[mi]@[s], q));
            assert forall|j: u64| nl <= j && j < num_lanes(q) implies #[trigger] lane_of(
                lut@[mi]@[s],
                j,
                q,
            ) == 0 by {
                assert(lane_of(lut@[mi]@[s], j, q) == crate::polynomials::term_image_lane(
                    normal@[s],
                    group@[mi],
                    normal@,
                    j,
                    q,
                ));
                crate::polynomials::lemma_pack_lane_high_zero_for_image(
                    normal@[s],
                    group@[mi],
                    normal@,
                    j,
                    q,
                );
            }
            if q == 2 {
                assert forall|j: u64| nl <= j < 64 implies #[trigger] f2_lane(lut@[mi]@[s], j)
                    == 0 by {
                    assert(lane_of(lut@[mi]@[s], j, q) == 0);
                }
                crate::bijection::lemma_f2_lanes_give_bound(lut@[mi]@[s], nl as nat);
            } else {
                assert forall|j: u64| nl <= j < 32 implies #[trigger] f3_lane(lut@[mi]@[s], j)
                    == 0 by {
                    assert(lane_of(lut@[mi]@[s], j, q) == 0);
                }
            }
        }
    }
    let records = if use_chunks {
        generate_iso_polynomials_chunked(&lut, q, nl, chunk_size)
    } else {
        generate_iso_polynomials(&lut, q, nl)
    };
    Ok(records)
}

} // verus!
