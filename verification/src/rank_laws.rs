//! What holds of the rank over an exact field: it is decided by what the
//! rows state, so neither elimination nor a reordering of the rows changes
//! it.

use crate::array::rect;
use crate::echelon_laws::lemma_echelon_is_staircase;
use crate::echelon_laws::staircase;
use crate::elimination::echelon;
use crate::elimination::leading;
use crate::elimination::nonzero_height;
use crate::elimination::rank_of;
use crate::elimination::reduced;
use crate::field::exact_field;
use crate::field::lemma_add_neg;
use crate::field::lemma_add_zero;
use crate::field::lemma_exact;
use crate::field::lemma_mul_one;
use crate::field::lemma_mul_zero;
use crate::reduction_laws::lemma_reduced_carries;
use crate::reduction_laws::lemma_reduced_from_structure;
use crate::reduction_laws::lemma_reduced_is_reduced_staircase;
use crate::reduction_laws::lemma_reduced_states;
use crate::reduction_laws::lemma_zero_before_leading;
use crate::reduction_laws::reduced_staircase;
use crate::rows::annihilated;
use crate::rows::lemma_leading;
use crate::rows::weighed;
use crate::scalar::Scalar;
use crate::solver::free_columns;
use crate::solver::is_free;
use crate::solver::lemma_owner;
use crate::solver::owner;
use crate::solver_laws::direction;
use crate::solver_laws::lemma_dot_sparse;
use crate::solver_laws::lemma_owner_is_the_row;
use vstd::prelude::*;

verus! {

/// The rows of `a` and of `b` make zero of the same vectors of `w` entries.
pub open spec fn same_kernel<T: Scalar>(a: Seq<Seq<T>>, b: Seq<Seq<T>>, w: nat) -> bool {
    forall|v: Seq<T>| #[trigger] annihilated(a, v, w, 0, T::zero_spec()) <==> annihilated(b, v, w, 0, T::zero_spec())
}

/// `v` shows column `j` to depend on the columns before it: it has one in
/// place `j` and zero in every later place.
pub open spec fn ends_at<T: Scalar>(v: Seq<T>, j: int, w: nat) -> bool {
    &&& v.len() == w
    &&& v[j] == T::one_spec()
    &&& forall|c: int| j < c < w ==> #[trigger] v[c] == T::zero_spec()
}

/// In a staircase, exactly `c` minus the number of free columns before `c`
/// rows lead before column `c`, and they stand first. Gives that number.
pub proof fn lemma_stair_walk<T: Scalar>(red: Seq<Seq<T>>, w: nat, c: int) -> (r: int)
    requires
        rect(red, w),
        staircase(red, w as int),
        0 <= c <= w,
    ensures
        0 <= r <= red.len(),
        r == c - free_columns(red, c).len(),
        forall|i: int| 0 <= i < r ==> leading(#[trigger] red[i]) < c,
        forall|i: int| r <= i < red.len() ==> leading(#[trigger] red[i]) >= c,
    decreases c,
{
    if c == 0 {
        assert forall|i: int| 0 <= i < red.len() implies leading(#[trigger] red[i]) >= 0 by {
            lemma_leading(red[i]);
        }
        0
    } else {
        let before = lemma_stair_walk(red, w, c - 1);
        lemma_owner(red, c - 1, 0);
        if before < red.len() && leading(red[before]) == c - 1 {
            lemma_owner_is_the_row(red, w as int, before);
            assert forall|i: int| before + 1 <= i < red.len() implies leading(#[trigger] red[i]) >= c by {
                assert(leading(red[before]) < leading(red[i]) || leading(red[i]) == w);
            }
            before + 1
        } else {
            assert forall|i: int| before <= i < red.len() implies leading(#[trigger] red[i]) >= c by {
                if i > before {
                    assert(leading(red[before]) < leading(red[i]) || leading(red[i]) == w);
                }
            }
            if owner(red, c - 1) < red.len() {
                let o = owner(red, c - 1);
                assert(leading(red[o]) == c - 1);
                assert(false);
            }
            before
        }
    }
}

/// Where the first `r` rows have a leading entry and the others have none,
/// `r` is the number of rows with a leading entry.
proof fn lemma_nonzero_height<T: Scalar>(red: Seq<Seq<T>>, w: nat, r: int, n: int)
    requires
        rect(red, w),
        0 <= r <= n <= red.len(),
        forall|i: int| 0 <= i < r ==> leading(#[trigger] red[i]) < w,
        forall|i: int| r <= i < red.len() ==> leading(#[trigger] red[i]) >= w,
    ensures
        nonzero_height(red, n) == r,
    decreases n,
{
    if n > 0 {
        assert(red[n - 1].len() == w);
        if n > r {
            assert(leading(red[n - 1]) >= w);
            lemma_nonzero_height(red, w, r, n - 1);
        } else {
            assert(leading(red[n - 1]) < w);
        }
    }
}

/// In a staircase of width `w`, the rows with a leading entry and the free
/// columns together number `w`.
pub proof fn lemma_pivots_and_free_columns<T: Scalar>(red: Seq<Seq<T>>, w: nat)
    requires
        rect(red, w),
        staircase(red, w as int),
    ensures
        nonzero_height(red, red.len() as int) + free_columns(red, w as int).len() == w,
{
    let r = lemma_stair_walk(red, w, w as int);
    lemma_nonzero_height(red, w, r, red.len() as int);
}

/// The negative of zero is zero.
proof fn lemma_neg_zero<T: Scalar>()
    requires
        exact_field::<T>(),
    ensures
        T::zero_spec().neg_spec() == T::zero_spec(),
{
    lemma_add_neg(T::zero_spec());
    lemma_add_zero(T::zero_spec().neg_spec());
}

/// In a reduced staircase, a column is free exactly if the rows make zero
/// of a vector that shows the column to depend on the columns before it.
proof fn lemma_free_by_kernel<T: Scalar>(red: Seq<Seq<T>>, w: nat, j: int)
    requires
        exact_field::<T>(),
        rect(red, w),
        reduced_staircase(red, w as int),
        0 <= j < w,
    ensures
        is_free(red, j) ==> ends_at(direction(red, w as int, j), j, w) && annihilated(
            red,
            direction(red, w as int, j),
            w,
            0,
            T::zero_spec(),
        ),
        !is_free(red, j) ==> forall|v: Seq<T>| ends_at(v, j, w) ==> !#[trigger] annihilated(red, v, w, 0, T::zero_spec()),
{
    let zero = T::zero_spec();
    let one = T::one_spec();
    lemma_add_zero(zero);
    if is_free(red, j) {
        let v = direction(red, w as int, j);
        assert(ends_at(v, j, w)) by {
            assert forall|c: int| j < c < w implies #[trigger] v[c] == zero by {
                if !is_free(red, c) {
                    lemma_owner(red, c, 0);
                    let o = owner(red, c);
                    lemma_zero_before_leading(red[o]);
                    assert(red[o].len() == w);
                    lemma_neg_zero::<T>();
                }
            }
        }
        assert forall|i: int| 0 <= i < red.len() implies weighed(#[trigger] red[i], v, w, 0, zero) == zero by {
            lemma_row_makes_zero_of_direction(red, w, j, i);
        }
    } else {
        lemma_owner(red, j, 0);
        let o = owner(red, j);
        let row = red[o];
        assert(row.len() == w);
        lemma_zero_before_leading(row);
        assert forall|v: Seq<T>| ends_at(v, j, w) implies !#[trigger] annihilated(red, v, w, 0, zero) by {
            assert forall|c: int| 0 <= c < w && c != j && c != -1 implies #[trigger] row[c].mul_spec(v[c]) == zero by {
                if c < j {
                    lemma_mul_zero(v[c]);
                } else {
                    lemma_mul_zero(row[c]);
                }
            }
            lemma_dot_sparse(row, v, w, j, -1);
            lemma_mul_one(one);
            lemma_add_zero(one);
            lemma_mul_zero(row[0]);
            lemma_exact(one, zero);
            assert(weighed(row, v, w, 0, zero) == one);
        }
    }
}

/// Every row of a reduced staircase makes zero of the free direction of a
/// free column.
proof fn lemma_row_makes_zero_of_direction<T: Scalar>(red: Seq<Seq<T>>, w: nat, q: int, i: int)
    requires
        exact_field::<T>(),
        rect(red, w),
        reduced_staircase(red, w as int),
        0 <= q < w,
        is_free(red, q),
        0 <= i < red.len(),
    ensures
        weighed(red[i], direction(red, w as int, q), w, 0, T::zero_spec()) == T::zero_spec(),
{
    let zero = T::zero_spec();
    let one = T::one_spec();
    let row = red[i];
    let v = direction(red, w as int, q);
    let lead = leading(row);
    assert(row.len() == w);
    lemma_zero_before_leading(row);
    lemma_add_zero(zero);
    lemma_mul_zero(row[0]);
    if lead >= w {
        assert forall|j: int| 0 <= j < w && j != -1 && j != -2 implies #[trigger] row[j].mul_spec(v[j]) == zero by {
            assert(row[j] == zero);
            lemma_mul_zero(v[j]);
        }
        lemma_dot_sparse(row, v, w, -1, -2);
    } else {
        lemma_owner_is_the_row(red, w as int, i);
        assert forall|j: int| 0 <= j < w && j != lead && j != q implies #[trigger] row[j].mul_spec(v[j]) == zero by {
            if is_free(red, j) {
                assert(v[j] == zero);
                lemma_mul_zero(row[j]);
            } else {
                lemma_owner(red, j, 0);
                crate::solver_laws::lemma_pivot_column(red, w, owner(red, j), i);
                lemma_mul_zero(v[j]);
            }
        }
        lemma_dot_sparse(row, v, w, lead, q);
        assert(v[lead] == row[q].neg_spec());
        assert(v[q] == one);
        assert(row[lead] == one);
        lemma_mul_one(row[q].neg_spec());
        lemma_mul_one(row[q]);
        lemma_add_neg(row[q]);
    }
}

/// Reduced staircases whose rows make zero of the same vectors have the
/// same free columns.
proof fn lemma_same_free_columns<T: Scalar>(x: Seq<Seq<T>>, y: Seq<Seq<T>>, w: nat, k: int)
    requires
        exact_field::<T>(),
        rect(x, w),
        rect(y, w),
        reduced_staircase(x, w as int),
        reduced_staircase(y, w as int),
        same_kernel(x, y, w),
        0 <= k <= w,
    ensures
        free_columns(x, k) == free_columns(y, k),
    decreases k,
{
    if k > 0 {
        lemma_same_free_columns(x, y, w, k - 1);
        let j = k - 1;
        lemma_free_by_kernel(x, w, j);
        lemma_free_by_kernel(y, w, j);
        if is_free(x, j) {
            let v = direction(x, w as int, j);
            assert(annihilated(x, v, w, 0, T::zero_spec()));
            assert(annihilated(y, v, w, 0, T::zero_spec()));
        }
        if is_free(y, j) {
            let v = direction(y, w as int, j);
            assert(annihilated(y, v, w, 0, T::zero_spec()));
            assert(annihilated(x, v, w, 0, T::zero_spec()));
        }
    }
}

/// The rank is the number of rows of the reduced row-echelon form that
/// have a leading entry, and with the free columns of that form it makes
/// up the width.
pub proof fn lemma_rank_counts_pivots<T: Scalar>(a: Seq<Seq<T>>, w: nat)
    requires
        exact_field::<T>(),
        rect(a, w),
    ensures
        rank_of(a, w as int) == nonzero_height(reduced(a, w as int), a.len() as int),
        rank_of(a, w as int) + free_columns(reduced(a, w as int), w as int).len() == w,
{
    lemma_echelon_is_staircase(a, w);
    let ech = echelon(a, w as int);
    lemma_reduced_from_structure(ech, ech.len() - 1, w);
    let red = reduced(a, w as int);
    lemma_pivots_and_free_columns(red, w);
    lemma_pivots_and_free_columns(ech, w);
    lemma_same_heights(ech, red, a.len() as int);
}

/// Matrices whose rows lead in the same columns have as many rows with a
/// leading entry.
proof fn lemma_same_heights<T: Scalar>(x: Seq<Seq<T>>, y: Seq<Seq<T>>, n: int)
    requires
        x.len() == y.len(),
        n <= x.len(),
        forall|i: int| 0 <= i < x.len() ==> leading(#[trigger] y[i]) == leading(x[i]) && y[i].len() == x[i].len(),
    ensures
        nonzero_height(x, n) == nonzero_height(y, n),
    decreases n,
{
    if n > 0 {
        assert(leading(y[n - 1]) == leading(x[n - 1]));
        lemma_same_heights(x, y, n - 1);
    }
}

/// Elimination keeps the kernel: over an exact field, the rows of a matrix
/// and the rows of its reduced row-echelon form make zero of the same
/// vectors.
pub proof fn lemma_reduced_same_kernel<T: Scalar>(a: Seq<Seq<T>>, w: nat)
    requires
        exact_field::<T>(),
        rect(a, w),
        w > 0,
    ensures
        same_kernel(a, reduced(a, w as int), w),
{
    let zero = T::zero_spec();
    let red = reduced(a, w as int);
    assert forall|v: Seq<T>| #[trigger] annihilated(a, v, w, 0, zero) <==> annihilated(red, v, w, 0, zero) by {
        if annihilated(a, v, w, 0, zero) {
            lemma_reduced_carries(a, w, v, w, 0, zero);
        }
        if annihilated(red, v, w, 0, zero) {
            lemma_reduced_states(a, w, v, w, 0, zero);
        }
    }
}

/// The rank is decided by the kernel: over an exact field, matrices of one
/// width whose rows make zero of the same vectors have the same rank.
pub proof fn lemma_rank_by_kernel<T: Scalar>(a: Seq<Seq<T>>, b: Seq<Seq<T>>, w: nat)
    requires
        exact_field::<T>(),
        rect(a, w),
        rect(b, w),
        same_kernel(a, b, w),
    ensures
        rank_of(a, w as int) == rank_of(b, w as int),
{
    lemma_rank_counts_pivots(a, w);
    lemma_rank_counts_pivots(b, w);
    if w > 0 {
        let x = reduced(a, w as int);
        let y = reduced(b, w as int);
        lemma_reduced_is_reduced_staircase(a, w);
        lemma_reduced_is_reduced_staircase(b, w);
        lemma_reduced_same_kernel(a, w);
        lemma_reduced_same_kernel(b, w);
        assert(same_kernel(x, y, w)) by {
            assert forall|v: Seq<T>| #[trigger] annihilated(x, v, w, 0, T::zero_spec()) <==> annihilated(y, v, w, 0, T::zero_spec()) by {
                assert(annihilated(a, v, w, 0, T::zero_spec()) <==> annihilated(x, v, w, 0, T::zero_spec()));
                assert(annihilated(b, v, w, 0, T::zero_spec()) <==> annihilated(y, v, w, 0, T::zero_spec()));
                assert(annihilated(a, v, w, 0, T::zero_spec()) <==> annihilated(b, v, w, 0, T::zero_spec()));
            }
        }
        lemma_same_free_columns(x, y, w, w as int);
    }
}

/// The rank of the reduced row-echelon form is the rank: over an exact
/// field, a matrix and its reduced row-echelon form have the same rank.
pub proof fn lemma_rank_of_reduced<T: Scalar>(a: Seq<Seq<T>>, w: nat)
    requires
        exact_field::<T>(),
        rect(a, w),
    ensures
        rank_of(reduced(a, w as int), w as int) == rank_of(a, w as int),
{
    lemma_reduced_is_reduced_staircase(a, w);
    if w > 0 {
        lemma_reduced_same_kernel(a, w);
        lemma_rank_by_kernel(a, reduced(a, w as int), w);
    } else {
        lemma_rank_counts_pivots(a, w);
        lemma_rank_counts_pivots(reduced(a, w as int), w);
    }
}

/// `b` holds the rows of `a` in some order: every row of one is a row of
/// the other.
pub open spec fn same_rows<T>(a: Seq<Seq<T>>, b: Seq<Seq<T>>) -> bool {
    &&& forall|i: int| 0 <= i < a.len() ==> exists|k: int| 0 <= k < b.len() && b[k] == #[trigger] a[i]
    &&& forall|k: int| 0 <= k < b.len() ==> exists|i: int| 0 <= i < a.len() && a[i] == #[trigger] b[k]
}

/// The rank does not depend on the order of the rows: over an exact field,
/// matrices that hold the same rows have the same rank.
pub proof fn lemma_rank_of_reordered<T: Scalar>(a: Seq<Seq<T>>, b: Seq<Seq<T>>, w: nat)
    requires
        exact_field::<T>(),
        rect(a, w),
        rect(b, w),
        same_rows(a, b),
    ensures
        rank_of(a, w as int) == rank_of(b, w as int),
{
    let zero = T::zero_spec();
    assert forall|v: Seq<T>| #[trigger] annihilated(a, v, w, 0, zero) <==> annihilated(b, v, w, 0, zero) by {
        if annihilated(a, v, w, 0, zero) {
            assert forall|k: int| 0 <= k < b.len() implies weighed(#[trigger] b[k], v, w, 0, zero) == zero by {
                let i = choose|i: int| 0 <= i < a.len() && a[i] == b[k];
                assert(weighed(a[i], v, w, 0, zero) == zero);
            }
        }
        if annihilated(b, v, w, 0, zero) {
            assert forall|i: int| 0 <= i < a.len() implies weighed(#[trigger] a[i], v, w, 0, zero) == zero by {
                let k = choose|k: int| 0 <= k < b.len() && b[k] == a[i];
                assert(weighed(b[k], v, w, 0, zero) == zero);
            }
        }
    }
    lemma_rank_by_kernel(a, b, w);
}

} // verus!
