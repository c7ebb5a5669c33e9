//! What holds of back-substitution over an exact field: a staircase becomes
//! a reduced staircase, and what the rows state is kept.

use crate::array::rect;
use crate::echelon_laws::lemma_echelon_is_staircase;
use crate::echelon_laws::lemma_echelon_carries_from;
use crate::echelon_laws::lemma_echelon_states_from;
use crate::echelon_laws::staircase;
use crate::echelon_laws::stairs_to;
use crate::echelon_laws::zero_before;
use crate::elimination::cleared_above;
use crate::elimination::echelon;
use crate::elimination::leading;
use crate::elimination::reduced;
use crate::elimination::reduced_from;
use crate::field::exact_field;
use crate::field::lemma_add_neg;
use crate::field::lemma_add_zero;
use crate::field::lemma_exact;
use crate::field::lemma_mul_one;
use crate::field::lemma_mul_zero;
use crate::rows::annihilated;
use crate::rows::lemma_leading;
use crate::rows::lemma_leading_same;
use crate::rows::lemma_weighed_combined;
use crate::rows::weighed;
use crate::scalar::Scalar;
use vstd::prelude::*;

verus! {

/// The column of the leading entry of every row after row `from` is zero in
/// the rows above that row.
pub open spec fn cleared_after<T: Scalar>(rows: Seq<Seq<T>>, from: int, w: int) -> bool {
    forall|i: int, r: int|
        0 <= i < r < rows.len() && from < r && leading(rows[r]) < w ==> (#[trigger] rows[i])[leading(#[trigger] rows[r])]
            == T::zero_spec()
}

/// A matrix in reduced row-echelon form: a staircase in which the column of
/// every leading entry is zero in the rows above it.
pub open spec fn reduced_staircase<T: Scalar>(rows: Seq<Seq<T>>, w: int) -> bool {
    &&& staircase(rows, w)
    &&& cleared_after(rows, 0, w)
}

/// The entries of a row before its leading entry are zero.
pub proof fn lemma_zero_before_leading<T: Scalar>(row: Seq<T>)
    requires
        exact_field::<T>(),
    ensures
        zero_before(row, leading(row)),
        leading(row) < row.len() ==> row[leading(row)] != T::zero_spec(),
        0 <= leading(row) <= row.len(),
{
    lemma_leading(row);
    assert forall|j: int| 0 <= j < leading(row) && j < row.len() implies #[trigger] row[j] == T::zero_spec() by {
        lemma_exact(row[j], row[j]);
    }
    if leading(row) < row.len() {
        lemma_exact(row[leading(row)], row[leading(row)]);
    }
}

/// What clearing above row `r` does to a row above it: the multiple of row
/// `r` is added entry by entry, nothing changes before column `c`, the
/// leading column of row `r`, and the entry in that column becomes zero.
proof fn lemma_cleared_above_row<T: Scalar>(rows: Seq<Seq<T>>, r: int, i: int, w: nat)
    requires
        exact_field::<T>(),
        rect(rows, w),
        0 <= i < r < rows.len(),
        leading(rows[r]) < w,
        rows[r][leading(rows[r])] == T::one_spec(),
    ensures
        cleared_above(rows, r, leading(rows[r]))[i].len() == w,
        forall|j: int|
            0 <= j < w ==> #[trigger] cleared_above(rows, r, leading(rows[r]))[i][j] == rows[i][j].add_spec(
                rows[r][j].mul_spec(rows[i][leading(rows[r])].neg_spec()),
            ),
        forall|j: int| 0 <= j < leading(rows[r]) ==> #[trigger] cleared_above(rows, r, leading(rows[r]))[i][j] == rows[i][j],
        cleared_above(rows, r, leading(rows[r]))[i][leading(rows[r])] == T::zero_spec(),
{
    let c = leading(rows[r]);
    let g = rows[i][c].neg_spec();
    let out = cleared_above(rows, r, c)[i];
    lemma_zero_before_leading(rows[r]);
    assert(rows[i].len() == w && rows[r].len() == w);
    lemma_mul_zero(g);
    lemma_mul_one(g);
    lemma_add_neg(rows[i][c]);
    assert forall|j: int| 0 <= j < w implies #[trigger] out[j] == rows[i][j].add_spec(rows[r][j].mul_spec(g)) by {
        if j < c {
            assert(rows[r][j] == T::zero_spec());
            lemma_add_zero(rows[i][j]);
        }
    }
}

/// One step of back-substitution keeps the staircase and clears one more
/// column.
proof fn lemma_reduce_step<T: Scalar>(rows: Seq<Seq<T>>, r: int, w: nat)
    requires
        exact_field::<T>(),
        rect(rows, w),
        staircase(rows, w as int),
        cleared_after(rows, r, w as int),
        0 < r < rows.len(),
        leading(rows[r]) < w,
    ensures
        rect(cleared_above(rows, r, leading(rows[r])), w),
        staircase(cleared_above(rows, r, leading(rows[r])), w as int),
        cleared_after(cleared_above(rows, r, leading(rows[r])), r - 1, w as int),
        cleared_above(rows, r, leading(rows[r])).len() == rows.len(),
        forall|i: int| 0 <= i < rows.len() ==> leading(#[trigger] cleared_above(rows, r, leading(rows[r]))[i]) == leading(rows[i]),
{
    let zero = T::zero_spec();
    let c = leading(rows[r]);
    let next = cleared_above(rows, r, c);
    lemma_leading(rows[r]);
    assert(rows[r][c] == T::one_spec());
    assert forall|i: int| 0 <= i < rows.len() implies leading(#[trigger] next[i]) == leading(rows[i]) && next[i].len() == w
        && (leading(rows[i]) < w ==> next[i][leading(rows[i])] == rows[i][leading(rows[i])]) by {
        lemma_leading(rows[i]);
        if i < r {
            lemma_cleared_above_row(rows, r, i, w);
            assert(leading(rows[i]) < leading(rows[r]) || leading(rows[r]) == w);
            lemma_leading(rows[i]);
            lemma_leading_same(rows[i], next[i]);
        } else {
            assert(next[i] == rows[i]);
        }
    }
    assert(staircase(next, w as int)) by {
        assert forall|i: int| 0 <= i < next.len() && leading(#[trigger] next[i]) < w implies next[i][leading(next[i])] == T::one_spec() by {
            assert(leading(next[i]) == leading(rows[i]));
            assert(rows[i][leading(rows[i])] == T::one_spec());
        }
        assert forall|i: int, k: int| 0 <= i < k < next.len() implies leading(#[trigger] next[i]) < leading(#[trigger] next[k])
            || leading(next[k]) == w by {
            assert(leading(next[i]) == leading(rows[i]));
            assert(leading(next[k]) == leading(rows[k]));
            assert(leading(rows[i]) < leading(rows[k]) || leading(rows[k]) == w);
        }
    }
    assert forall|i: int, q: int| 0 <= i < q < next.len() && r - 1 < q && leading(next[q]) < w implies (#[trigger] next[i])[leading(
        #[trigger] next[q],
    )] == zero by {
        assert(leading(next[q]) == leading(rows[q]));
        let cq = leading(rows[q]);
        lemma_leading(rows[q]);
        if q == r {
            lemma_cleared_above_row(rows, r, i, w);
        } else if i < r {
            // Both the row and row `r` are zero in the column of a later
            // leading entry.
            assert(rows[i][leading(rows[q])] == zero);
            assert(rows[r][leading(rows[q])] == zero);
            lemma_cleared_above_row(rows, r, i, w);
            lemma_mul_zero(rows[i][c].neg_spec());
            lemma_add_zero(zero);
        } else {
            assert(next[i] == rows[i]);
            assert(rows[i][leading(rows[q])] == zero);
        }
    }
}

/// Back-substitution from row `r` upward makes a reduced staircase of a
/// staircase whose later columns are cleared, and keeps the leading columns.
pub proof fn lemma_reduced_from_structure<T: Scalar>(rows: Seq<Seq<T>>, r: int, w: nat)
    requires
        exact_field::<T>(),
        rect(rows, w),
        staircase(rows, w as int),
        cleared_after(rows, r, w as int),
        r < rows.len(),
    ensures
        rect(reduced_from(rows, r), w),
        reduced_from(rows, r).len() == rows.len(),
        reduced_staircase(reduced_from(rows, r), w as int),
        forall|i: int| 0 <= i < rows.len() ==> leading(#[trigger] reduced_from(rows, r)[i]) == leading(rows[i]),
    decreases r,
{
    if r <= 0 {
    } else {
        lemma_leading(rows[r]);
        assert(rows[r].len() == w);
        if leading(rows[r]) < rows[r].len() {
            lemma_reduce_step(rows, r, w);
            let next = cleared_above(rows, r, leading(rows[r]));
            lemma_reduced_from_structure(next, r - 1, w);
            assert forall|i: int| 0 <= i < rows.len() implies leading(#[trigger] reduced_from(rows, r)[i]) == leading(rows[i]) by {
                assert(leading(next[i]) == leading(rows[i]));
            }
        } else {
            lemma_reduced_from_structure(rows, r - 1, w);
        }
    }
}

/// Back-substitution keeps what the rows state: a vector and weight that
/// every row of the result makes zero, every row of the matrix made zero.
pub proof fn lemma_reduced_from_states<T: Scalar>(rows: Seq<Seq<T>>, r: int, w: nat, v: Seq<T>, n: nat, k: int, s: T)
    requires
        exact_field::<T>(),
        rect(rows, w),
        staircase(rows, w as int),
        cleared_after(rows, r, w as int),
        r < rows.len(),
        n <= w,
        0 <= k < w,
        annihilated(reduced_from(rows, r), v, n, k, s),
    ensures
        annihilated(rows, v, n, k, s),
    decreases r,
{
    if r <= 0 {
    } else {
        lemma_leading(rows[r]);
        assert(rows[r].len() == w);
        if leading(rows[r]) < rows[r].len() {
            let zero = T::zero_spec();
            let c = leading(rows[r]);
            let next = cleared_above(rows, r, c);
            lemma_reduce_step(rows, r, w);
            lemma_reduced_from_states(next, r - 1, w, v, n, k, s);
            assert(next[r] == rows[r]);
            assert(weighed(next[r], v, n, k, s) == zero);
            assert forall|i: int| 0 <= i < rows.len() implies weighed(#[trigger] rows[i], v, n, k, s) == zero by {
                assert(weighed(next[i], v, n, k, s) == zero);
                if i < r {
                    let g = rows[i][c].neg_spec();
                    lemma_cleared_above_row(rows, r, i, w);
                    lemma_weighed_combined(rows[i], rows[r], next[i], v, n, k, s, g);
                    lemma_mul_zero(g);
                    lemma_add_zero(weighed(rows[i], v, n, k, s));
                } else {
                    assert(next[i] == rows[i]);
                }
            }
        } else {
            lemma_reduced_from_states(rows, r - 1, w, v, n, k, s);
        }
    }
}

/// Over an exact field, the reduced row-echelon form of a matrix is a
/// reduced staircase of the same shape.
pub proof fn lemma_reduced_is_reduced_staircase<T: Scalar>(rows: Seq<Seq<T>>, w: nat)
    requires
        exact_field::<T>(),
        rect(rows, w),
    ensures
        reduced_staircase(reduced(rows, w as int), w as int),
        rect(reduced(rows, w as int), w),
        reduced(rows, w as int).len() == rows.len(),
{
    lemma_echelon_is_staircase(rows, w);
    let ech = echelon(rows, w as int);
    lemma_reduced_from_structure(ech, ech.len() - 1, w);
}

/// Over an exact field, elimination keeps what the rows state: a vector and
/// weight that every row of the reduced row-echelon form makes zero, every
/// row of the matrix made zero.
pub proof fn lemma_reduced_states<T: Scalar>(rows: Seq<Seq<T>>, w: nat, v: Seq<T>, n: nat, k: int, s: T)
    requires
        exact_field::<T>(),
        rect(rows, w),
        n <= w,
        0 <= k < w,
        annihilated(reduced(rows, w as int), v, n, k, s),
    ensures
        annihilated(rows, v, n, k, s),
{
    lemma_echelon_is_staircase(rows, w);
    let ech = echelon(rows, w as int);
    lemma_reduced_from_states(ech, ech.len() - 1, w, v, n, k, s);
    assert(stairs_to(rows, 0, 0, w));
    lemma_echelon_states_from(rows, 0, 0, w, v, n, k, s);
}

/// Back-substitution carries what the rows state: a vector and weight that
/// every row of the matrix makes zero, every row of the result makes zero.
pub proof fn lemma_reduced_from_carries<T: Scalar>(rows: Seq<Seq<T>>, r: int, w: nat, v: Seq<T>, n: nat, k: int, s: T)
    requires
        exact_field::<T>(),
        rect(rows, w),
        staircase(rows, w as int),
        cleared_after(rows, r, w as int),
        r < rows.len(),
        n <= w,
        0 <= k < w,
        annihilated(rows, v, n, k, s),
    ensures
        annihilated(reduced_from(rows, r), v, n, k, s),
    decreases r,
{
    if r <= 0 {
    } else {
        lemma_leading(rows[r]);
        assert(rows[r].len() == w);
        if leading(rows[r]) < rows[r].len() {
            let zero = T::zero_spec();
            let c = leading(rows[r]);
            let next = cleared_above(rows, r, c);
            lemma_reduce_step(rows, r, w);
            assert(weighed(rows[r], v, n, k, s) == zero);
            assert forall|i: int| 0 <= i < next.len() implies weighed(#[trigger] next[i], v, n, k, s) == zero by {
                assert(weighed(rows[i], v, n, k, s) == zero);
                if i < r {
                    let g = rows[i][c].neg_spec();
                    lemma_cleared_above_row(rows, r, i, w);
                    lemma_weighed_combined(rows[i], rows[r], next[i], v, n, k, s, g);
                    lemma_mul_zero(g);
                    lemma_add_zero(zero);
                } else {
                    assert(next[i] == rows[i]);
                }
            }
            lemma_reduced_from_carries(next, r - 1, w, v, n, k, s);
        } else {
            lemma_reduced_from_carries(rows, r - 1, w, v, n, k, s);
        }
    }
}

/// Over an exact field, elimination carries what the rows state: a vector
/// and weight that every row of a matrix makes zero, every row of its
/// reduced row-echelon form makes zero.
pub proof fn lemma_reduced_carries<T: Scalar>(rows: Seq<Seq<T>>, w: nat, v: Seq<T>, n: nat, k: int, s: T)
    requires
        exact_field::<T>(),
        rect(rows, w),
        n <= w,
        0 <= k < w,
        annihilated(rows, v, n, k, s),
    ensures
        annihilated(reduced(rows, w as int), v, n, k, s),
{
    assert(stairs_to(rows, 0, 0, w));
    lemma_echelon_carries_from(rows, 0, 0, w, v, n, k, s);
    lemma_echelon_is_staircase(rows, w);
    let ech = echelon(rows, w as int);
    lemma_reduced_from_carries(ech, ech.len() - 1, w, v, n, k, s);
}

} // verus!
