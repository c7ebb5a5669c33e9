//! What holds of the inverse over an exact field: it is an inverse on both
//! sides.

use crate::arith::column;
use crate::arith::dot;
use crate::arith::identity_matrix;
use crate::arith::product;
use crate::array::rect;
use crate::echelon_laws::staircase;
use crate::elimination::leading;
use crate::elimination::reduced;
use crate::field::exact_field;
use crate::field::lemma_add_assoc;
use crate::field::lemma_add_cancel;
use crate::field::lemma_add_comm;
use crate::field::lemma_add_neg;
use crate::field::lemma_add_zero;
use crate::field::lemma_mul_neg;
use crate::field::lemma_mul_one;
use crate::field::lemma_mul_zero;
use crate::reduction_laws::lemma_reduced_carries;
use crate::reduction_laws::lemma_reduced_is_reduced_staircase;
use crate::rows::lemma_leading;
use crate::rows::weighed;
use crate::scalar::Scalar;
use crate::solver::augmented;
use crate::solver::free_columns;
use crate::solver::is_free;
use crate::solver::lemma_owner;
use crate::solver::owner;
use crate::solver::particular;
use crate::solver::solved;
use crate::solver_laws::lemma_dot_sparse;
use crate::solver_laws::lemma_pivot_column;
use crate::solver_laws::lemma_single_solves;
use crate::sums::lemma_dot_step;
use vstd::prelude::*;

verus! {

/// A dot product of `n + h` terms is that of the first `n` plus that of the
/// `h` after them.
pub proof fn lemma_dot_split<T: Scalar>(a: Seq<T>, b: Seq<T>, n: nat, h: nat)
    requires
        exact_field::<T>(),
        n + h <= a.len(),
        n + h <= b.len(),
    ensures
        dot(a, b, n + h) == dot(a, b, n).add_spec(dot(a.skip(n as int), b.skip(n as int), h)),
    decreases h,
{
    if h == 0 {
        lemma_add_zero(dot(a, b, n));
    } else {
        let g = (h - 1) as nat;
        lemma_dot_split(a, b, n, g);
        lemma_dot_step(a, b, n + g);
        lemma_dot_step(a.skip(n as int), b.skip(n as int), g);
        lemma_add_assoc(dot(a, b, n), dot(a.skip(n as int), b.skip(n as int), g), a[(n + g) as int].mul_spec(b[(n + g) as int]));
    }
}

/// Without free columns before column `k`, no column before `k` is free.
pub proof fn lemma_no_free_columns<T: Scalar>(red: Seq<Seq<T>>, k: int)
    requires
        free_columns(red, k).len() == 0,
    ensures
        forall|j: int| 0 <= j < k ==> !is_free(red, j),
    decreases k,
{
    if k > 0 {
        lemma_no_free_columns(red, k - 1);
    }
}

/// In a staircase, the leading column of row `i` is `i` or later, as far as
/// the width goes.
pub proof fn lemma_leading_grows<T: Scalar>(red: Seq<Seq<T>>, w: nat, i: int)
    requires
        rect(red, w),
        staircase(red, w as int),
        0 <= i < red.len(),
    ensures
        leading(red[i]) >= i || leading(red[i]) == w,
    decreases i,
{
    lemma_leading(red[i]);
    if i > 0 {
        lemma_leading_grows(red, w, i - 1);
        assert(leading(red[i - 1]) < leading(red[i]) || leading(red[i]) == w);
    }
}

/// In a staircase all of whose first `n` columns have a pivot, the pivot
/// row of column `j` is row `j`.
pub proof fn lemma_full_rank_rows<T: Scalar>(red: Seq<Seq<T>>, w: nat, n: nat, j: int)
    requires
        rect(red, w),
        staircase(red, w as int),
        n <= w,
        forall|q: int| 0 <= q < n ==> !is_free(red, q),
        0 <= j < n,
    ensures
        j < red.len(),
        owner(red, j) == j,
        leading(red[j]) == j,
    decreases j,
{
    let o = owner(red, j);
    lemma_owner(red, j, 0);
    assert(!is_free(red, j));
    lemma_leading_grows(red, w, o);
    if j > 0 {
        lemma_full_rank_rows(red, w, n, j - 1);
        // Row `j - 1` leads in column `j - 1`, so the row that leads in
        // column `j` stands after it.
        if o <= j - 1 {
            if o < j - 1 {
                assert(leading(red[o]) < leading(red[j - 1]) || leading(red[j - 1]) == w);
            }
        }
    }
}

/// Column `j` of `a` as a vector over the columns of the augmented matrix
/// `[a | I]`: minus one in the place of column `j`, and the entries of the
/// column in the places of the identity.
pub open spec fn column_witness<T: Scalar>(a: Seq<Seq<T>>, n: nat, j: int) -> Seq<T> {
    Seq::new(
        n + a.len(),
        |c: int|
            if c < n {
                if c == j {
                    T::one_spec().neg_spec()
                } else {
                    T::zero_spec()
                }
            } else {
                a[c - n][j]
            },
    )
}

/// The inverse is a right inverse: over an exact field, where `inv` finds
/// the inverse `x` of `a`, a matrix of `n` columns, the product `a·x` is
/// the identity.
pub proof fn lemma_inverse_right<T: Scalar>(a: Seq<Seq<T>>, n: nat)
    requires
        exact_field::<T>(),
        rect(a, n),
        solved(a, identity_matrix::<T>(a.len()), n as int, a.len() as int) is Single,
    ensures
        product(a, solved(a, identity_matrix::<T>(a.len()), n as int, a.len() as int)->Single_0, n, a.len()) == identity_matrix::<T>(
            a.len(),
        ),
{
    lemma_single_solves(a, identity_matrix::<T>(a.len()), n, a.len());
}

/// The inverse is a left inverse: over an exact field, where `inv` finds
/// the inverse `x` of `a`, a matrix of `n` columns, the product `x·a` is
/// the identity.
pub proof fn lemma_inverse_left<T: Scalar>(a: Seq<Seq<T>>, n: nat)
    requires
        exact_field::<T>(),
        rect(a, n),
        solved(a, identity_matrix::<T>(a.len()), n as int, a.len() as int) is Single,
    ensures
        product(solved(a, identity_matrix::<T>(a.len()), n as int, a.len() as int)->Single_0, a, a.len(), n) == identity_matrix::<T>(n),
{
    let zero = T::zero_spec();
    let one = T::one_spec();
    let h = a.len();
    let w = n + h;
    let unit = identity_matrix::<T>(h);
    let aug = augmented(a, unit);
    let red = reduced(aug, w as int);
    let x = particular(red, n as int, h as int);
    assert forall|i: int| 0 <= i < aug.len() implies (#[trigger] aug[i]).len() == w by {
        assert(a[i].len() == n && unit[i].len() == h);
    }
    lemma_reduced_is_reduced_staircase(aug, w);
    lemma_no_free_columns(red, n as int);
    lemma_add_zero(zero);
    assert forall|i: int, j: int| 0 <= i < n && 0 <= j < n implies dot(x[i], column(a, j), h) == #[trigger] identity_matrix::<T>(n)[i][j] by {
        let v = column_witness(a, n, j);
        // Every row of `[a | I]` makes zero of the witness.
        assert forall|r: int| 0 <= r < aug.len() implies weighed(#[trigger] aug[r], v, w, 0, zero) == zero by {
            let row = aug[r];
            assert(a[r].len() == n && unit[r].len() == h);
            assert forall|c: int| 0 <= c < w && c != j && c != n + r implies #[trigger] row[c].mul_spec(v[c]) == zero by {
                if c < n {
                    lemma_mul_zero(row[c]);
                } else {
                    assert(row[c] == unit[r][c - n]);
                    lemma_mul_zero(v[c]);
                }
            }
            lemma_dot_sparse(row, v, w, j, n + r);
            assert(row[j] == a[r][j]);
            assert(row[n + r] == unit[r][r]);
            lemma_mul_neg(a[r][j], one);
            lemma_mul_one(a[r][j]);
            lemma_add_neg(a[r][j]);
            lemma_add_comm(a[r][j].neg_spec(), a[r][j]);
            lemma_mul_zero(row[0]);
        }
        lemma_reduced_carries(aug, w, v, w, 0, zero);
        // Row `i` of the reduced matrix is row `i` of the identity, then
        // row `i` of the inverse.
        lemma_full_rank_rows(red, w, n, i);
        lemma_full_rank_rows(red, w, n, j);
        let row = red[i];
        assert(row.len() == w);
        assert(weighed(row, v, w, 0, zero) == zero);
        lemma_mul_zero(row[0]);
        lemma_add_zero(dot(row, v, w));
        lemma_dot_split(row, v, n, h);
        assert forall|c: int| 0 <= c < n && c != j && c != -1 implies #[trigger] row[c].mul_spec(v[c]) == zero by {
            lemma_mul_zero(row[c]);
        }
        lemma_dot_sparse(row, v, n, j, -1);
        assert(x[i] =~= row.skip(n as int));
        assert(column(a, j) =~= v.skip(n as int));
        let d = dot(x[i], column(a, j), h);
        // row[j]·(-1) + d == 0, with row[j] the identity's entry.
        lemma_mul_neg(row[j], one);
        lemma_mul_one(row[j]);
        lemma_add_zero(row[j].neg_spec());
        lemma_add_neg(row[j]);
        lemma_add_comm(row[j].neg_spec(), d);
        lemma_add_comm(row[j].neg_spec(), row[j]);
        lemma_add_cancel(d, row[j], row[j].neg_spec());
        if i != j {
            lemma_pivot_column(red, w, j, i);
        }
    }
    if n > 0 {
        lemma_full_rank_rows(red, w, n, n - 1);
    }
    assert(product(x, a, h, n) =~~= identity_matrix::<T>(n));
}

/// The identity is neutral on the left: the identity of `n` rows times a
/// matrix of `n` rows of `w` entries is that matrix.
pub proof fn lemma_identity_product<T: Scalar>(m: Seq<Seq<T>>, n: nat, w: nat)
    requires
        exact_field::<T>(),
        m.len() == n,
        rect(m, w),
    ensures
        product(identity_matrix::<T>(n), m, n, w) == m,
{
    let unit = identity_matrix::<T>(n);
    assert forall|i: int, j: int| 0 <= i < n && 0 <= j < w implies dot(unit[i], column(m, j), n) == #[trigger] m[i][j] by {
        let v = column(m, j);
        assert forall|c: int| 0 <= c < n && c != i && c != -1 implies #[trigger] unit[i][c].mul_spec(v[c]) == T::zero_spec() by {
            lemma_mul_zero(v[c]);
        }
        lemma_dot_sparse(unit[i], v, n, i, -1);
        lemma_mul_one(v[i]);
        lemma_add_zero(v[i]);
    }
    assert(product(unit, m, n, w) =~~= m);
}

/// Changing the basis keeps the vector: over an exact field, where `inv`
/// finds the inverse `x` of `basis_b`, the coordinates `(x·basis_a)·vec_a`
/// name in the basis `basis_b` the vector that `vec_a` names in the basis
/// `basis_a`: `basis_b` times them is `basis_a·vec_a`.
pub proof fn lemma_change_basis<T: Scalar>(basis_a: Seq<Seq<T>>, vec_a: Seq<Seq<T>>, basis_b: Seq<Seq<T>>, n: nat, k: nat, m: nat)
    requires
        exact_field::<T>(),
        rect(basis_b, n),
        basis_a.len() == basis_b.len(),
        rect(basis_a, k),
        vec_a.len() == k,
        rect(vec_a, m),
        solved(basis_b, identity_matrix::<T>(basis_b.len()), n as int, basis_b.len() as int) is Single,
    ensures
        product(
            basis_b,
            product(
                product(solved(basis_b, identity_matrix::<T>(basis_b.len()), n as int, basis_b.len() as int)->Single_0, basis_a, basis_a.len(), k),
                vec_a,
                k,
                m,
            ),
            n,
            m,
        ) == product(basis_a, vec_a, k, m),
{
    let h = basis_b.len();
    let x = solved(basis_b, identity_matrix::<T>(h), n as int, h as int)->Single_0;
    lemma_inverse_right(basis_b, n);
    let xa = product(x, basis_a, h, k);
    let av = product(basis_a, vec_a, k, m);
    // b·((x·a)·v) == (b·(x·a))·v == ((b·x)·a)·v == (I·a)·v == a·v
    assert(x.len() == n);
    assert(xa.len() == n);
    assert(rect(x, h)) by {
        let w = n + h;
        let aug = augmented(basis_b, identity_matrix::<T>(h));
        let red = reduced(aug, w as int);
        assert forall|i: int| 0 <= i < aug.len() implies (#[trigger] aug[i]).len() == w by {
            assert(basis_b[i].len() == n && identity_matrix::<T>(h)[i].len() == h);
        }
        lemma_reduced_is_reduced_staircase(aug, w);
        lemma_no_free_columns(red, n as int);
        assert forall|j: int| 0 <= j < x.len() implies (#[trigger] x[j]).len() == h by {
            lemma_full_rank_rows(red, w, n, j);
            assert(red[j].len() == w);
        }
    }
    assert(rect(xa, k));
    crate::lu_solve_laws::lemma_product_associates(basis_b, xa, vec_a, n, k, m);
    crate::lu_solve_laws::lemma_product_associates(basis_b, x, basis_a, n, h, k);
    lemma_identity_product(basis_a, h, k);
}

} // verus!
