//! What holds of solving by an LU factorization over an exact field: for a
//! square matrix that can be factored, substitution finds the one solution.

use crate::arith::column;
use crate::arith::dot;
use crate::arith::product;
use crate::arith::scaled_row;
use crate::array::rect;
use crate::cofactors::square;
use crate::echelon_laws::lemma_cleared;
use crate::echelon_laws::lemma_echelon_states_from;
use crate::echelon_laws::lemma_unit_row;
use crate::echelon_laws::staircase;
use crate::echelon_laws::stairs_to;
use crate::echelon_laws::zero_before;
use crate::elimination::cleared_above;
use crate::elimination::cycled;
use crate::elimination::echelon;
use crate::elimination::echelon_from;
use crate::elimination::eliminated;
use crate::elimination::has_pivot;
use crate::elimination::leading;
use crate::elimination::park;
use crate::elimination::unit_row;
use crate::factorizations::factored;
use crate::factorizations::forward_substituted;
use crate::factorizations::lu_solved;
use crate::factorizations::normalized_from;
use crate::field::exact_field;
use crate::field::lemma_add_cancel;
use crate::field::lemma_add_neg;
use crate::field::lemma_add_zero;
use crate::field::lemma_exact;
use crate::field::lemma_mul_cancel;
use crate::field::lemma_mul_comm;
use crate::field::lemma_mul_neg;
use crate::field::lemma_mul_one;
use crate::field::lemma_mul_zero;
use crate::field::lemma_reciprocal;
use crate::lu_laws::lemma_lu_round_trip;
use crate::lu_laws::lower_triangular;
use crate::lu_laws::unit_diagonal;
use crate::rows::annihilated;
use crate::rows::lemma_dot_combined;
use crate::rows::lemma_leading_at_least;
use crate::rows::lemma_weighed_combined;
use crate::rows::lemma_weighed_scaled;
use crate::rows::weighed;
use crate::scalar::Scalar;
use crate::solver::augmented;
use crate::solver::classified;
use crate::solver::free_columns;
use crate::solver::is_free;
use crate::solver::owner;
use crate::solver::particular;
use crate::solver::Solution;
use crate::solver_laws::lemma_dot_sparse;
use crate::solver_laws::lemma_owner_is_the_row;
use crate::sums::lemma_dot_same;
use crate::sums::lemma_dot_step;
use vstd::prelude::*;

verus! {

/// The first `n` entries of row `i` are those of row `i` of the identity.
pub open spec fn unit_at<T: Scalar>(row: Seq<T>, i: int, n: nat) -> bool {
    forall|j: int| 0 <= j < n ==> #[trigger] row[j] == (if j == i { T::one_spec() } else { T::zero_spec() })
}

/// The first `n` columns of `rows` are the identity.
pub open spec fn left_identity<T: Scalar>(rows: Seq<Seq<T>>, n: nat) -> bool {
    &&& rows.len() == n
    &&& forall|i: int| 0 <= i < n ==> unit_at(#[trigger] rows[i], i, n)
}

/// The right block of `rows` after its first `n` columns.
pub open spec fn right_block<T>(rows: Seq<Seq<T>>, n: nat) -> Seq<Seq<T>> {
    Seq::new(rows.len(), |i: int| rows[i].skip(n as int))
}

/// What holds of `[l | b]` when forward elimination has come to row `p`:
/// the rows before `p` begin with rows of the identity, and the rows from
/// `p` on are zero before column `p` and after the diagonal, on which they
/// are not zero.
spec fn lower_to<T: Scalar>(rows: Seq<Seq<T>>, p: int, n: nat, w: nat) -> bool {
    &&& rect(rows, w)
    &&& rows.len() == n
    &&& 0 <= p <= n
    &&& n <= w
    &&& forall|i: int| 0 <= i < p ==> unit_at(#[trigger] rows[i], i, n)
    &&& forall|i: int, j: int| p <= i < n && 0 <= j < n && (j < p || j > i) ==> #[trigger] rows[i][j] == T::zero_spec()
    &&& forall|i: int| p <= i < n ==> (#[trigger] rows[i])[i] != T::zero_spec()
}

/// Forward elimination of `[l | b]`, with `l` lower triangular, ends with
/// the identity in place of `l`.
proof fn lemma_forward_from<T: Scalar>(rows: Seq<Seq<T>>, p: int, n: nat, w: nat)
    requires
        exact_field::<T>(),
        lower_to(rows, p, n, w),
    ensures
        left_identity(echelon_from(rows, p, p, w as int), n),
        rect(echelon_from(rows, p, p, w as int), w),
    decreases n - p,
{
    let zero = T::zero_spec();
    let one = T::one_spec();
    if p < n {
        let row = rows[p];
        assert(row.len() == w);
        lemma_exact(row[p], zero);
        assert(park(rows, p, p, Seq::<Seq<T>>::empty()) == (rows, Seq::<Seq<T>>::empty()));
        assert(has_pivot(rows, p, p));
        assert(cycled(rows, p, p) =~= rows);
        assert(zero_before(row, p));
        lemma_unit_row(row, p);
        let ur = unit_row(row, p);
        let f = one.div_spec(row[p]);
        let next = eliminated(rows, p, p);
        let mid = rows.update(p, ur);
        lemma_mul_zero(f);
        assert forall|i: int| 0 <= i < n implies (#[trigger] next[i]).len() == w by {
            assert(rows[i].len() == w);
            if i > p {
                assert(mid[i] == rows[i]);
                lemma_cleared(rows[i], ur, p);
            }
        }
        assert forall|i: int| 0 <= i < p + 1 implies unit_at(#[trigger] next[i], i, n) by {
            if i < p {
                assert(next[i] == rows[i]);
            } else {
                assert forall|j: int| 0 <= j < n implies #[trigger] next[p][j] == (if j == p { one } else { zero }) by {
                    if j > p {
                        assert(rows[p][j] == zero);
                    }
                }
            }
        }
        assert forall|i: int, j: int| p + 1 <= i < n && 0 <= j < n && (j < p + 1 || j > i) implies #[trigger] next[i][j] == zero by {
            assert(mid[i] == rows[i]);
            assert(rows[i].len() == w);
            lemma_cleared(rows[i], ur, p);
            if j > p {
                assert(ur[j] == rows[p][j].mul_spec(f));
                assert(rows[p][j] == zero);
                lemma_mul_zero(rows[i][p].neg_spec());
                lemma_add_zero(rows[i][j]);
                assert(rows[i][j] == zero);
            } else if j < p {
                assert(rows[i][j] == zero);
            }
        }
        assert forall|i: int| p + 1 <= i < n implies (#[trigger] next[i])[i] != zero by {
            assert(mid[i] == rows[i]);
            assert(rows[i].len() == w);
            lemma_cleared(rows[i], ur, p);
            assert(ur[i] == rows[p][i].mul_spec(f));
            assert(rows[p][i] == zero);
            lemma_mul_zero(rows[i][p].neg_spec());
            lemma_add_zero(rows[i][i]);
        }
        lemma_forward_from(next, p + 1, n, w);
    }
}

/// Every row of a matrix that begins with the identity states column `t`
/// of its right block.
proof fn lemma_identity_states<T: Scalar>(rows: Seq<Seq<T>>, n: nat, m: nat, t: int)
    requires
        exact_field::<T>(),
        rect(rows, n + m),
        left_identity(rows, n),
        0 <= t < m,
    ensures
        annihilated(rows, column(right_block(rows, n), t), n, n + t, T::one_spec().neg_spec()),
{
    let zero = T::zero_spec();
    let one = T::one_spec();
    let v = column(right_block(rows, n), t);
    assert forall|i: int| 0 <= i < rows.len() implies weighed(#[trigger] rows[i], v, n, n + t, one.neg_spec()) == zero by {
        let row = rows[i];
        assert(row.len() == n + m);
        assert(unit_at(row, i, n));
        assert forall|j: int| 0 <= j < n && j != i && j != -1 implies #[trigger] row[j].mul_spec(v[j]) == zero by {
            lemma_mul_zero(v[j]);
        }
        lemma_dot_sparse(row, v, n, i, -1);
        let e = row[n + t];
        assert(v[i] == e);
        lemma_mul_one(e);
        lemma_add_zero(e);
        lemma_mul_neg(e, one);
        lemma_add_neg(e);
    }
}

/// Where every row of `[a | b]` states every column of `x`, the product
/// `a·x` is `b`.
proof fn lemma_stated_product<T: Scalar>(a: Seq<Seq<T>>, b: Seq<Seq<T>>, x: Seq<Seq<T>>, n: nat, m: nat)
    requires
        exact_field::<T>(),
        rect(a, n),
        rect(b, m),
        a.len() == b.len(),
        forall|t: int| 0 <= t < m ==> annihilated(augmented(a, b), #[trigger] column(x, t), n, n + t, T::one_spec().neg_spec()),
    ensures
        product(a, x, n, m) == b,
{
    let one = T::one_spec();
    let aug = augmented(a, b);
    assert forall|i: int, t: int| 0 <= i < a.len() && 0 <= t < m implies dot(a[i], column(x, t), n) == #[trigger] b[i][t] by {
        let v = column(x, t);
        assert(annihilated(aug, v, n, n + t, one.neg_spec()));
        assert(weighed(aug[i], v, n, n + t, one.neg_spec()) == T::zero_spec());
        assert(a[i].len() == n && b[i].len() == m);
        lemma_dot_same(aug[i], v, a[i], v, n);
        assert(aug[i][n + t] == b[i][t]);
        lemma_mul_neg(b[i][t], one);
        lemma_mul_one(b[i][t]);
        lemma_add_neg(b[i][t]);
        lemma_add_cancel(dot(a[i], v, n), b[i][t], b[i][t].neg_spec());
    }
    assert(product(a, x, n, m) =~~= b);
}

/// Forward substitution solves: over an exact field, for a square lower
/// triangular `l` with ones on its diagonal, what forward elimination on
/// `[l | b]` leaves in place of `b` is the `y` with `l·y == b`.
pub proof fn lemma_forward_solves<T: Scalar>(l: Seq<Seq<T>>, b: Seq<Seq<T>>, n: nat, m: nat)
    requires
        exact_field::<T>(),
        square(l, n),
        lower_triangular(l),
        unit_diagonal(l, n as int),
        rect(b, m),
        b.len() == n,
    ensures
        product(l, forward_substituted(l, b, n as int, m as int), n, m) == b,
        forward_substituted(l, b, n as int, m as int).len() == n,
        rect(forward_substituted(l, b, n as int, m as int), m),
{
    let zero = T::zero_spec();
    let one = T::one_spec();
    let w = n + m;
    let aug = augmented(l, b);
    let ech = echelon(aug, w as int);
    let y = forward_substituted(l, b, n as int, m as int);
    lemma_exact(one, zero);
    assert(lower_to(aug, 0, n, w)) by {
        assert forall|i: int| 0 <= i < aug.len() implies (#[trigger] aug[i]).len() == w by {
            assert(l[i].len() == n && b[i].len() == m);
        }
        assert forall|i: int, j: int| 0 <= i < n && 0 <= j < n && (j < 0 || j > i) implies #[trigger] aug[i][j] == zero by {
            assert(l[i].len() == n);
            assert(l[i][j] == zero);
        }
        assert forall|i: int| 0 <= i < n implies (#[trigger] aug[i])[i] != zero by {
            assert(l[i].len() == n);
            assert(l[i][i] == one);
        }
    }
    lemma_forward_from(aug, 0, n, w);
    assert(y =~~= right_block(ech, n));
    assert forall|i: int| 0 <= i < y.len() implies (#[trigger] y[i]).len() == m by {
        assert(ech[i].len() == w);
    }
    assert(stairs_to(aug, 0, 0, w));
    assert forall|t: int| 0 <= t < m implies annihilated(aug, #[trigger] column(y, t), n, n + t, one.neg_spec()) by {
        lemma_identity_states(ech, n, m, t);
        lemma_echelon_states_from(aug, 0, 0, w, column(y, t), n, n + t, one.neg_spec());
    }
    lemma_stated_product(l, b, y, n, m);
}

/// What holds of `[u | y]` when back-substitution has come to row `r`: the
/// rows after `r` begin with rows of the identity, and the rows up to `r`
/// are zero before the diagonal and after column `r`, and not zero on the
/// diagonal.
spec fn upper_to<T: Scalar>(rows: Seq<Seq<T>>, r: int, n: nat, w: nat) -> bool {
    &&& rect(rows, w)
    &&& rows.len() == n
    &&& -1 <= r < n
    &&& n <= w
    &&& forall|i: int| r < i < n ==> unit_at(#[trigger] rows[i], i, n)
    &&& forall|i: int, j: int| 0 <= i <= r && 0 <= j < n && (j < i || j > r) ==> #[trigger] rows[i][j] == T::zero_spec()
    &&& forall|i: int| 0 <= i <= r ==> (#[trigger] rows[i])[i] != T::zero_spec()
}

/// One step of back-substitution with normalization on `[u | y]`: row `r`
/// leads on the diagonal, the step keeps `upper_to`, and the rows after it
/// are the rows before it scaled and combined entry by entry.
proof fn lemma_backward_step<T: Scalar>(rows: Seq<Seq<T>>, r: int, n: nat, w: nat)
    requires
        exact_field::<T>(),
        upper_to(rows, r, n, w),
        0 <= r,
    ensures
        leading(rows[r]) == r,
        upper_to(cleared_above(rows.update(r, scaled_row(rows[r], T::one_spec().div_spec(rows[r][r]), r)), r, r), r - 1, n, w),
        forall|j: int|
            0 <= j < w ==> #[trigger] scaled_row(rows[r], T::one_spec().div_spec(rows[r][r]), r)[j] == rows[r][j].mul_spec(
                T::one_spec().div_spec(rows[r][r]),
            ),
        forall|i: int, j: int|
            0 <= i < r && 0 <= j < w ==> #[trigger] cleared_above(
                rows.update(r, scaled_row(rows[r], T::one_spec().div_spec(rows[r][r]), r)),
                r,
                r,
            )[i][j] == rows[i][j].add_spec(
                scaled_row(rows[r], T::one_spec().div_spec(rows[r][r]), r)[j].mul_spec(rows[i][r].neg_spec()),
            ),
{
    let zero = T::zero_spec();
    let one = T::one_spec();
    let row = rows[r];
    let f = one.div_spec(row[r]);
    let unit = scaled_row(row, f, r);
    let mid = rows.update(r, unit);
    let next = cleared_above(mid, r, r);
    assert(row.len() == w);
    lemma_reciprocal(row[r]);
    lemma_mul_zero(f);
    assert forall|j: int| 0 <= j < r implies crate::scalar::near_zero(#[trigger] row[j]) by {
        assert(row[j] == zero);
        lemma_exact(row[j], zero);
    }
    lemma_exact(row[r], zero);
    lemma_leading_at_least(row, r);
    assert forall|j: int| 0 <= j < w implies #[trigger] unit[j] == row[j].mul_spec(f) by {
        if j < r {
            assert(row[j] == zero);
        }
    }
    assert forall|i: int, j: int| 0 <= i < r && 0 <= j < w implies #[trigger] next[i][j] == rows[i][j].add_spec(
        unit[j].mul_spec(rows[i][r].neg_spec()),
    ) by {
        assert(rows[i].len() == w);
        assert(mid[i] == rows[i]);
        if j < r {
            assert(row[j] == zero);
            lemma_mul_zero(rows[i][r].neg_spec());
            lemma_add_zero(rows[i][j]);
        }
    }
    assert forall|i: int| 0 <= i < n implies (#[trigger] next[i]).len() == w by {
        assert(rows[i].len() == w);
        assert(mid[i].len() == w);
    }
    assert forall|i: int| r - 1 < i < n implies unit_at(#[trigger] next[i], i, n) by {
        if i > r {
            assert(next[i] == rows[i]);
        } else {
            assert forall|j: int| 0 <= j < n implies #[trigger] next[r][j] == (if j == r { one } else { zero }) by {
                assert(next[r][j] == unit[j]);
                if j != r {
                    assert(row[j] == zero);
                }
            }
        }
    }
    assert forall|i: int, j: int| 0 <= i <= r - 1 && 0 <= j < n && (j < i || j > r - 1) implies #[trigger] next[i][j] == zero by {
        assert(next[i][j] == rows[i][j].add_spec(unit[j].mul_spec(rows[i][r].neg_spec())));
        let g = rows[i][r].neg_spec();
        lemma_mul_zero(g);
        if j == r {
            lemma_mul_one(g);
            lemma_add_neg(rows[i][r]);
        } else {
            assert(row[j] == zero);
            assert(rows[i][j] == zero);
            lemma_add_zero(zero);
        }
    }
    assert forall|i: int| 0 <= i <= r - 1 implies (#[trigger] next[i])[i] != zero by {
        assert(next[i][i] == rows[i][i].add_spec(unit[i].mul_spec(rows[i][r].neg_spec())));
        assert(row[i] == zero);
        lemma_mul_zero(rows[i][r].neg_spec());
        lemma_add_zero(rows[i][i]);
    }
}

/// Back-substitution with normalization on `[u | y]`, with `u` upper
/// triangular, ends with the identity in place of `u`.
proof fn lemma_backward_from<T: Scalar>(rows: Seq<Seq<T>>, r: int, n: nat, w: nat)
    requires
        exact_field::<T>(),
        upper_to(rows, r, n, w),
    ensures
        left_identity(normalized_from(rows, r), n),
        rect(normalized_from(rows, r), w),
    decreases r + 1,
{
    if r >= 0 {
        assert(rows[r].len() == w);
        lemma_backward_step(rows, r, n, w);
        let unit = scaled_row(rows[r], T::one_spec().div_spec(rows[r][r]), r);
        lemma_backward_from(cleared_above(rows.update(r, unit), r, r), r - 1, n, w);
    }
}

/// Back-substitution with normalization keeps what the rows state.
proof fn lemma_backward_states<T: Scalar>(rows: Seq<Seq<T>>, r: int, n: nat, w: nat, v: Seq<T>, k: int, s: T)
    requires
        exact_field::<T>(),
        upper_to(rows, r, n, w),
        0 <= k < w,
        annihilated(normalized_from(rows, r), v, n, k, s),
    ensures
        annihilated(rows, v, n, k, s),
    decreases r + 1,
{
    if r >= 0 {
        let zero = T::zero_spec();
        let row = rows[r];
        let f = T::one_spec().div_spec(row[r]);
        let unit = scaled_row(row, f, r);
        let next = cleared_above(rows.update(r, unit), r, r);
        assert(row.len() == w);
        lemma_backward_step(rows, r, n, w);
        lemma_backward_states(next, r - 1, n, w, v, k, s);
        lemma_reciprocal(row[r]);
        assert(next[r] == unit);
        assert(weighed(next[r], v, n, k, s) == zero);
        lemma_weighed_scaled(row, unit, v, n, k, s, f);
        lemma_mul_zero(f);
        lemma_mul_cancel(weighed(row, v, n, k, s), zero, f);
        assert forall|i: int| 0 <= i < rows.len() implies weighed(#[trigger] rows[i], v, n, k, s) == zero by {
            assert(weighed(next[i], v, n, k, s) == zero);
            if i < r {
                let g = rows[i][r].neg_spec();
                lemma_weighed_combined(rows[i], unit, next[i], v, n, k, s, g);
                lemma_mul_zero(g);
                lemma_add_zero(weighed(rows[i], v, n, k, s));
            } else if i > r {
                assert(next[i] == rows[i]);
            }
        }
    }
}

/// Without free columns listed, none is free; and the other way round.
proof fn lemma_none_free<T: Scalar>(red: Seq<Seq<T>>, k: int)
    requires
        forall|j: int| 0 <= j < k ==> !is_free(red, j),
    ensures
        free_columns(red, k).len() == 0,
    decreases k,
{
    if k > 0 {
        lemma_none_free(red, k - 1);
    }
}

/// A reduced augmented matrix that begins with the identity has the one
/// solution that its right block holds.
proof fn lemma_identity_classified<T: Scalar>(rows: Seq<Seq<T>>, n: nat, m: nat)
    requires
        exact_field::<T>(),
        rect(rows, n + m),
        left_identity(rows, n),
    ensures
        classified(rows, n as int, m as int) == Solution::Single(right_block(rows, n)),
{
    let zero = T::zero_spec();
    let one = T::one_spec();
    let w = n + m;
    lemma_exact(one, zero);
    assert forall|i: int| 0 <= i < n implies leading(#[trigger] rows[i]) == i by {
        let row = rows[i];
        assert(unit_at(row, i, n));
        assert(row.len() == w);
        assert forall|j: int| 0 <= j < i implies crate::scalar::near_zero(#[trigger] row[j]) by {
            lemma_exact(row[j], zero);
        }
        lemma_exact(row[i], zero);
        lemma_leading_at_least(row, i);
    }
    assert(staircase(rows, w as int)) by {
        assert forall|i: int| 0 <= i < rows.len() && leading(#[trigger] rows[i]) < w implies rows[i][leading(rows[i])] == one by {
            assert(unit_at(rows[i], i, n));
        }
    }
    assert forall|j: int| 0 <= j < n implies owner(rows, j) == j by {
        lemma_owner_is_the_row(rows, w as int, j);
    }
    lemma_none_free(rows, n as int);
    assert(particular(rows, n as int, m as int) =~~= right_block(rows, n)) by {
        assert forall|j: int| 0 <= j < n implies #[trigger] particular(rows, n as int, m as int)[j] =~= right_block(rows, n)[j] by {
            assert(rows[j].len() == w);
            assert(owner(rows, j) == j);
        }
    }
}

/// The product of matrices is associative: `(l·u)·x == l·(u·x)`, for `l`
/// of `n` columns, `u` of `n` rows and `w` columns, and `x` of `w` rows and
/// `m` columns.
pub proof fn lemma_product_associates<T: Scalar>(l: Seq<Seq<T>>, u: Seq<Seq<T>>, x: Seq<Seq<T>>, n: nat, w: nat, m: nat)
    requires
        exact_field::<T>(),
        u.len() == n,
        rect(u, w),
    ensures
        product(product(l, u, n, w), x, w, m) == product(l, product(u, x, w, m), n, m),
{
    let lu = product(l, u, n, w);
    let ux = product(u, x, w, m);
    assert forall|i: int, t: int| 0 <= i < l.len() && 0 <= t < m implies dot(#[trigger] lu[i], #[trigger] column(x, t), w) == dot(
        l[i],
        column(ux, t),
        n,
    ) by {
        lemma_row_of_product(l[i], u, x, n, w, m, t, n);
        assert(lu[i] =~= partial_row(l[i], u, w, n));
    }
    assert(product(lu, x, w, m) =~~= product(l, ux, n, m));
}

/// The row `a·u`, with the sums cut after `g` terms.
spec fn partial_row<T: Scalar>(a: Seq<T>, u: Seq<Seq<T>>, w: nat, g: nat) -> Seq<T> {
    Seq::new(w, |j: int| dot(a, column(u, j), g))
}

/// The row `a·u`, cut after `g` terms, times column `t` of `x` is `a`
/// times column `t` of `u·x`, cut after `g` terms.
proof fn lemma_row_of_product<T: Scalar>(a: Seq<T>, u: Seq<Seq<T>>, x: Seq<Seq<T>>, n: nat, w: nat, m: nat, t: int, g: nat)
    requires
        exact_field::<T>(),
        u.len() == n,
        rect(u, w),
        0 <= t < m,
        g <= n,
    ensures
        dot(partial_row(a, u, w, g), column(x, t), w) == dot(a, column(product(u, x, w, m), t), g),
    decreases g,
{
    let zero = T::zero_spec();
    let xt = column(x, t);
    let now = partial_row(a, u, w, g);
    if g == 0 {
        assert forall|j: int| 0 <= j < w && j != -1 && j != -2 implies #[trigger] now[j].mul_spec(xt[j]) == zero by {
            lemma_mul_zero(xt[j]);
        }
        lemma_dot_sparse(now, xt, w, -1, -2);
        lemma_add_zero(zero);
    } else {
        let e = (g - 1) as nat;
        let before = partial_row(a, u, w, e);
        let ux = column(product(u, x, w, m), t);
        lemma_row_of_product(a, u, x, n, w, m, t, e);
        assert(u[e as int].len() == w);
        assert forall|j: int| 0 <= j < w implies now[j] == before[j].add_spec(u[e as int][j].mul_spec(a[e as int])) by {
            lemma_dot_step(a, column(u, j), e);
            lemma_mul_comm(a[e as int], u[e as int][j]);
        }
        lemma_dot_combined(before, u[e as int], now, xt, a[e as int], w);
        lemma_dot_step(a, ux, e);
        assert(ux[e as int] == dot(u[e as int], xt, w));
        lemma_mul_comm(a[e as int], dot(u[e as int], xt, w));
    }
}

/// Solving by an LU factorization solves: over an exact field, for a
/// square matrix `a` that can be factored and any constants `b`, forward
/// and back substitution find a single solution `x`, and `a·x` is `b`.
pub proof fn lemma_lu_solve_solves<T: Scalar>(a: Seq<Seq<T>>, b: Seq<Seq<T>>, n: nat, m: nat)
    requires
        exact_field::<T>(),
        square(a, n),
        rect(b, m),
        b.len() == n,
        factored(a, n as int) is Some,
    ensures
        lu_solved(factored(a, n as int)->Some_0.0, factored(a, n as int)->Some_0.1, b, n as int, m as int) is Single,
        product(
            a,
            lu_solved(factored(a, n as int)->Some_0.0, factored(a, n as int)->Some_0.1, b, n as int, m as int)->Single_0,
            n,
            m,
        ) == b,
{
    let zero = T::zero_spec();
    let one = T::one_spec();
    let w = n + m;
    let l = factored(a, n as int)->Some_0.0;
    let u = factored(a, n as int)->Some_0.1;
    lemma_lu_round_trip(a, n);
    lemma_forward_solves(l, b, n, m);
    let y = forward_substituted(l, b, n as int, m as int);
    let aug = augmented(u, y);
    assert(upper_to(aug, n - 1, n, w)) by {
        assert forall|i: int| 0 <= i < aug.len() implies (#[trigger] aug[i]).len() == w by {
            assert(u[i].len() == n && y[i].len() == m);
        }
        assert forall|i: int, j: int| 0 <= i <= n - 1 && 0 <= j < n && (j < i || j > n - 1) implies #[trigger] aug[i][j] == zero by {
            assert(u[i].len() == n);
            assert(u[i][j] == zero);
        }
        assert forall|i: int| 0 <= i <= n - 1 implies (#[trigger] aug[i])[i] != zero by {
            assert(u[i].len() == n);
            assert(u[i][i] != zero);
        }
    }
    let res = normalized_from(aug, n - 1);
    lemma_backward_from(aug, n - 1, n, w);
    lemma_identity_classified(res, n, m);
    let x = right_block(res, n);
    // u·x == y, as every row of the result states x.
    if w > 0 {
        assert forall|t: int| 0 <= t < m implies annihilated(aug, #[trigger] column(x, t), n, n + t, one.neg_spec()) by {
            lemma_identity_states(res, n, m, t);
            lemma_backward_states(aug, n - 1, n, w, column(x, t), n + t, one.neg_spec());
        }
    }
    lemma_stated_product(u, y, x, n, m);
    lemma_product_associates(l, u, x, n, n, m);
}

} // verus!
