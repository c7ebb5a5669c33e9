//! What holds of the determinant by elimination over an exact field: for a
//! square matrix it is the determinant by cofactor expansion, so it changes
//! sign when two rows change places and scales with a row.

use crate::arith::scaled_row;
use crate::cofactors::det;
use crate::cofactors::lemma_det_first_column;
use crate::cofactors::lemma_det_row_added;
use crate::cofactors::lemma_det_row_scaled;
use crate::cofactors::lemma_det_swap;
use crate::cofactors::lemma_neg;
use crate::cofactors::minor;
use crate::cofactors::row_added;
use crate::cofactors::row_scaled;
use crate::cofactors::square;
use crate::elimination::det_from;
use crate::elimination::det_step;
use crate::elimination::determinant_of;
use crate::elimination::last_candidate;
use crate::elimination::pivot_choice;
use crate::elimination::swapped;
use crate::field::exact_field;
use crate::field::lemma_add_neg;
use crate::field::lemma_add_zero;
use crate::field::lemma_exact;
use crate::field::lemma_mul_assoc;
use crate::field::lemma_mul_comm;
use crate::field::lemma_mul_neg;
use crate::field::lemma_mul_one;
use crate::field::lemma_mul_zero;
use crate::field::lemma_reciprocal;
use crate::scalar::near_zero;
use crate::scalar::Scalar;
use vstd::prelude::*;

verus! {

/// The block of `rows` from row `p` and column `p` on.
pub open spec fn trailing<T>(rows: Seq<Seq<T>>, p: int) -> Seq<Seq<T>> {
    Seq::new((rows.len() - p) as nat, |i: int| rows[p + i].skip(p))
}

/// What the search for the last candidate finds: a row after `p`, up to
/// `k`, whose entry in column `c` is not approximately zero, with every
/// row after it up to `k` approximately zero there; or no row, every row
/// after `p` up to `k` being approximately zero there.
proof fn lemma_last_candidate<T: Scalar>(rows: Seq<Seq<T>>, p: int, c: int, k: int)
    requires
        k < rows.len(),
    ensures
        last_candidate(rows, p, c, k) == rows.len() || (p < last_candidate(rows, p, c, k) <= k && !near_zero(
            rows[last_candidate(rows, p, c, k)][c],
        )),
        last_candidate(rows, p, c, k) == rows.len() ==> forall|i: int| p < i <= k ==> near_zero((#[trigger] rows[i])[c]),
    decreases k - p,
{
    if k > p && near_zero(rows[k][c]) {
        lemma_last_candidate(rows, p, c, k - 1);
    }
}

/// The trailing block with its first row scaled to a leading one and its
/// first column eliminated from the rows after the first, up to row `k`.
pub open spec fn partly_cleared<T: Scalar>(block: Seq<Seq<T>>, f: T, k: int) -> Seq<Seq<T>> {
    Seq::new(
        block.len(),
        |i: int|
            if i == 0 {
                unit_of(block, f)
            } else if i <= k {
                Seq::new(block[i].len(), |j: int| block[i][j].add_spec(unit_of(block, f)[j].mul_spec(block[i][0].neg_spec())))
            } else {
                block[i]
            },
    )
}

/// The first row of `block` times `f`.
pub open spec fn unit_of<T: Scalar>(block: Seq<Seq<T>>, f: T) -> Seq<T> {
    Seq::new(block[0].len(), |j: int| block[0][j].mul_spec(f))
}

/// Clearing the first column below a scaled first row multiplies the
/// determinant by the scale alone.
pub proof fn lemma_partly_cleared<T: Scalar>(block: Seq<Seq<T>>, m: nat, f: T, k: int)
    requires
        exact_field::<T>(),
        square(block, m),
        m >= 1,
        0 <= k < m,
    ensures
        square(partly_cleared(block, f, k), m),
        det(partly_cleared(block, f, k)) == det(block).mul_spec(f),
    decreases k,
{
    let now = partly_cleared(block, f, k);
    assert(block[0].len() == m);
    assert forall|i: int| 0 <= i < now.len() implies (#[trigger] now[i]).len() == m by {
        assert(block[i].len() == m);
    }
    if k == 0 {
        lemma_det_row_scaled(block, m, 0, f);
        assert(now =~~= row_scaled(block, 0, f));
    } else {
        let before = partly_cleared(block, f, k - 1);
        lemma_partly_cleared(block, m, f, k - 1);
        lemma_det_row_added(before, m, k, 0, block[k][0].neg_spec());
        assert(block[k].len() == m);
        assert(now =~~= row_added(before, k, 0, block[k][0].neg_spec()));
    }
}

/// The determinant by elimination, continued from the pivot position `p`
/// of a square matrix, is the product so far times the determinant of the
/// trailing block.
proof fn lemma_det_from<T: Scalar>(rows: Seq<Seq<T>>, p: int, n: nat, acc: T)
    requires
        exact_field::<T>(),
        square(rows, n),
        0 <= p <= n,
    ensures
        det_from(rows, p, p, n as int, acc) == acc.mul_spec(det(trailing(rows, p))),
    decreases n - p,
{
    let zero = T::zero_spec();
    let one = T::one_spec();
    let block = trailing(rows, p);
    let m = (n - p) as nat;
    assert(square(block, m)) by {
        assert forall|i: int| 0 <= i < block.len() implies (#[trigger] block[i]).len() == m by {
            assert(rows[p + i].len() == n);
        }
    }
    if p >= n {
        lemma_mul_one(acc);
    } else {
        assert(rows[p].len() == n);
        lemma_last_candidate(rows, p, p, n - 1);
        let j = pivot_choice(rows, p, p);
        if j >= n {
            // The first column of the trailing block is zero.
            assert forall|i: int| 0 <= i < m implies (#[trigger] block[i])[0] == zero by {
                assert(rows[p + i].len() == n);
                assert(near_zero(rows[p + i][p]));
                lemma_exact(rows[p + i][p], zero);
            }
            lemma_det_first_column(block, m);
            lemma_mul_zero(det(minor(block, 0)));
            lemma_mul_zero(acc);
        } else {
            let sorted = swapped(rows, p, j);
            assert(rows[j].len() == n);
            assert(square(sorted, n)) by {
                assert forall|i: int| 0 <= i < sorted.len() implies (#[trigger] sorted[i]).len() == n by {
                    assert(rows[i].len() == n);
                }
            }
            let sblock = trailing(sorted, p);
            assert(sblock =~~= swapped(block, 0, j - p)) by {
                assert forall|i: int| 0 <= i < m implies #[trigger] sblock[i] == swapped(block, 0, j - p)[i] by {
                    assert(rows[p + i].len() == n);
                }
            }
            assert(square(sblock, m));
            let signed = if j == p { acc } else { acc.neg_spec() };
            if j == p {
                assert(swapped(block, 0, 0) =~= block);
            } else {
                lemma_det_swap(block, m, 0, j - p);
            }
            let pv = sorted[p][p];
            lemma_exact(pv, zero);
            assert(pv != zero);
            let f = one.div_spec(pv);
            lemma_reciprocal(pv);
            let next = det_step(sorted, p, p);
            let scaled = scaled_row(sorted[p], f, p);
            let mid = sorted.update(p, scaled);
            assert(square(next, n)) by {
                assert forall|i: int| 0 <= i < next.len() implies (#[trigger] next[i]).len() == n by {
                    assert(sorted[i].len() == n);
                    assert(mid[i].len() == n);
                }
            }
            let nblock = trailing(next, p);
            lemma_partly_cleared(sblock, m, f, m - 1);
            assert(nblock =~~= partly_cleared(sblock, f, m - 1)) by {
                assert forall|i: int, k: int| 0 <= i < m && 0 <= k < m implies #[trigger] nblock[i][k] == partly_cleared(sblock, f, m - 1)[i][k] by {
                    assert(sorted[p + i].len() == n);
                    assert(sblock[i][k] == sorted[p + i][p + k]);
                    assert(sblock[0][k] == sorted[p][p + k]);
                    if i > 0 {
                        assert(mid[p + i] == sorted[p + i]);
                        let e = sorted[p + i][p];
                        assert(sblock[i][0] == e);
                        lemma_exact(e, zero);
                        if e == zero {
                            lemma_neg(e);
                            lemma_mul_zero(scaled[p + k]);
                            lemma_add_zero(sorted[p + i][p + k]);
                        }
                    }
                }
                assert forall|i: int| 0 <= i < m implies (#[trigger] nblock[i]).len() == partly_cleared(sblock, f, m - 1)[i].len() by {
                    assert(next[p + i].len() == n);
                    assert(sblock[i].len() == m);
                    assert(sblock[0].len() == m);
                }
            }
            // The first column of the new block is one, then zero.
            assert(nblock[0][0] == one);
            assert forall|i: int| 1 <= i < m implies (#[trigger] nblock[i])[0] == zero by {
                let e = sblock[i][0];
                assert(sblock[i].len() == m);
                assert(nblock[i][0] == e.add_spec(one.mul_spec(e.neg_spec())));
                lemma_mul_one(e.neg_spec());
                lemma_add_neg(e);
            }
            assert(square(nblock, m));
            lemma_det_first_column(nblock, m);
            lemma_mul_one(det(minor(nblock, 0)));
            assert(minor(nblock, 0) =~~= trailing(next, p + 1)) by {
                assert forall|i: int| 0 <= i < m - 1 implies #[trigger] minor(nblock, 0)[i] =~= trailing(next, p + 1)[i] by {
                    assert(next[p + 1 + i].len() == n);
                }
            }
            let acc2 = signed.mul_spec(pv);
            lemma_det_from(next, p + 1, n, acc2);
            // (signed·pv)·(d·f) == signed·d
            let d = det(sblock);
            lemma_mul_assoc(signed, pv, d.mul_spec(f));
            lemma_mul_comm(d, f);
            lemma_mul_assoc(pv, f, d);
            lemma_mul_one(d);
            if j != p {
                lemma_mul_neg(acc, det(block).neg_spec());
                lemma_mul_neg(acc, det(block));
                lemma_neg(acc.mul_spec(det(block)));
            }
        }
    }
}

/// The determinant by elimination is the determinant: over an exact field,
/// for a square matrix, it is the determinant by cofactor expansion.
pub proof fn lemma_determinant_is_det<T: Scalar>(a: Seq<Seq<T>>, n: nat)
    requires
        exact_field::<T>(),
        square(a, n),
    ensures
        determinant_of(a, n as int) == det(a),
{
    lemma_det_from(a, 0, n, T::one_spec());
    assert(trailing(a, 0) =~~= a);
    lemma_mul_one(det(a));
}

/// Exchanging two rows negates the determinant: over an exact field, for a
/// square matrix `a` and two of its rows.
pub proof fn lemma_determinant_swapped<T: Scalar>(a: Seq<Seq<T>>, n: nat, i: int, j: int)
    requires
        exact_field::<T>(),
        square(a, n),
        0 <= i < n,
        0 <= j < n,
        i != j,
    ensures
        determinant_of(swapped(a, i, j), n as int) == determinant_of(a, n as int).neg_spec(),
{
    let b = swapped(a, i, j);
    assert(square(b, n)) by {
        assert forall|k: int| 0 <= k < b.len() implies (#[trigger] b[k]).len() == n by {
            assert(a[k].len() == n && a[i].len() == n && a[j].len() == n);
        }
    }
    lemma_determinant_is_det(a, n);
    lemma_determinant_is_det(b, n);
    if i < j {
        lemma_det_swap(a, n, i, j);
    } else {
        lemma_det_swap(a, n, j, i);
    }
}

/// Scaling a row scales the determinant: over an exact field, for a square
/// matrix `a`, the determinant of `a` with row `r` multiplied by `k` is `k`
/// times the determinant of `a`.
pub proof fn lemma_determinant_scaled<T: Scalar>(a: Seq<Seq<T>>, n: nat, r: int, k: T)
    requires
        exact_field::<T>(),
        square(a, n),
        0 <= r < n,
    ensures
        determinant_of(row_scaled(a, r, k), n as int) == determinant_of(a, n as int).mul_spec(k),
        determinant_of(row_scaled(a, r, k), n as int) == k.mul_spec(determinant_of(a, n as int)),
{
    lemma_det_row_scaled(a, n, r, k);
    lemma_determinant_is_det(a, n);
    lemma_determinant_is_det(row_scaled(a, r, k), n);
    lemma_mul_comm(k, det(a));
}

} // verus!
