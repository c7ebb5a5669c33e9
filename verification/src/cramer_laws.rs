//! What holds of Cramer's rule over an exact field: a square matrix with a
//! determinant other than zero has one solution, and the rule finds it.

use crate::arith::column;
use crate::arith::dot;
use crate::arith::product;
use crate::array::rect;
use crate::cofactors::det;
use crate::cofactors::square;
use crate::column_laws::lemma_det_column_linear;
use crate::column_laws::lemma_det_equal_columns;
use crate::column_laws::lemma_det_zero_column;
use crate::determinant_laws::lemma_determinant_is_det;
use crate::elimination::determinant_of;
use crate::elimination::leading;
use crate::elimination::reduced;
use crate::field::exact_field;
use crate::field::lemma_add_zero;
use crate::field::lemma_div;
use crate::field::lemma_mul_cancel;
use crate::field::lemma_mul_comm;
use crate::field::lemma_mul_one;
use crate::field::lemma_mul_zero;
use crate::rank_laws::lemma_stair_walk;
use crate::reduction_laws::lemma_reduced_is_reduced_staircase;
use crate::reduction_laws::lemma_reduced_states;
use crate::rows::weighed;
use crate::scalar::Scalar;
use crate::solver::augmented;
use crate::solver::contradicts;
use crate::solver::free_columns;
use crate::solver::inconsistent;
use crate::solver::replaced_column;
use crate::solver::solved;
use crate::solver::Solution;
use crate::solver_laws::direction;
use crate::solver_laws::lemma_free_is_free;
use crate::solver_laws::lemma_row_states_direction;
use crate::solver_laws::lemma_single_solves;
use crate::sums::lemma_dot_same;
use crate::sums::lemma_dot_step;
use vstd::prelude::*;

verus! {

/// `a` with column `c` replaced by the products of its rows with `x`, cut
/// after `g` terms.
spec fn with_partial_column<T: Scalar>(a: Seq<Seq<T>>, c: int, x: Seq<T>, g: nat) -> Seq<Seq<T>> {
    Seq::new(a.len(), |i: int| a[i].update(c, dot(a[i], x, g)))
}

/// `a` with column `c` replaced by its column `e`.
spec fn with_copied_column<T: Scalar>(a: Seq<Seq<T>>, c: int, e: int) -> Seq<Seq<T>> {
    Seq::new(a.len(), |i: int| a[i].update(c, a[i][e]))
}

/// The determinant of `a` with column `c` replaced by `a·x`, cut after `g`
/// terms: entry `c` of `x` times the determinant of `a`, once the sum has
/// passed column `c`, and zero before.
proof fn lemma_partial_column_det<T: Scalar>(a: Seq<Seq<T>>, n: nat, c: int, x: Seq<T>, g: nat)
    requires
        exact_field::<T>(),
        square(a, n),
        0 <= c < n,
        g <= n,
    ensures
        square(with_partial_column(a, c, x, g), n),
        det(with_partial_column(a, c, x, g)) == (if c < g { det(a).mul_spec(x[c]) } else { T::zero_spec() }),
    decreases g,
{
    let zero = T::zero_spec();
    let one = T::one_spec();
    let z = with_partial_column(a, c, x, g);
    assert forall|i: int| 0 <= i < z.len() implies (#[trigger] z[i]).len() == n by {
        assert(a[i].len() == n);
    }
    if g == 0 {
        lemma_det_zero_column(z, n, c);
    } else {
        let e = (g - 1) as nat;
        let before = with_partial_column(a, c, x, e);
        let copied = with_copied_column(a, c, e as int);
        lemma_partial_column_det(a, n, c, x, e);
        assert(square(copied, n)) by {
            assert forall|i: int| 0 <= i < copied.len() implies (#[trigger] copied[i]).len() == n by {
                assert(a[i].len() == n);
            }
        }
        assert forall|i: int, j: int| 0 <= i < n && 0 <= j < n && j != c implies #[trigger] before[i][j] == copied[i][j] && before[i][j]
            == z[i][j] by {
            assert(a[i].len() == n);
        }
        assert forall|i: int| 0 <= i < n implies (#[trigger] z[i])[c] == before[i][c].mul_spec(one).add_spec(copied[i][c].mul_spec(x[e as int])) by {
            assert(a[i].len() == n);
            lemma_dot_step(a[i], x, e);
            lemma_mul_one(before[i][c]);
        }
        lemma_det_column_linear(before, copied, z, n, c, one, x[e as int]);
        lemma_mul_one(det(before));
        if e == c {
            assert(copied =~~= a) by {
                assert forall|i: int| 0 <= i < n implies #[trigger] copied[i] =~= a[i] by {
                    assert(a[i].len() == n);
                }
            }
            lemma_add_zero(det(a).mul_spec(x[c]));
        } else {
            assert forall|i: int| 0 <= i < n implies (#[trigger] copied[i])[c] == copied[i][e as int] by {
                assert(a[i].len() == n);
            }
            if c < e {
                lemma_det_equal_columns(copied, n, c, e as int);
            } else {
                assert forall|i: int| 0 <= i < n implies (#[trigger] copied[i])[e as int] == copied[i][c] by {
                    assert(a[i].len() == n);
                }
                lemma_det_equal_columns(copied, n, e as int, c);
            }
            lemma_mul_zero(x[e as int]);
            lemma_add_zero(det(before));
        }
    }
}

/// A matrix that makes zero of a vector with a one in it has the
/// determinant zero.
pub proof fn lemma_kernel_gives_zero_det<T: Scalar>(a: Seq<Seq<T>>, n: nat, v: Seq<T>, q: int)
    requires
        exact_field::<T>(),
        square(a, n),
        0 <= q < n,
        v[q] == T::one_spec(),
        forall|i: int| 0 <= i < n ==> dot(#[trigger] a[i], v, n) == T::zero_spec(),
    ensures
        det(a) == T::zero_spec(),
{
    let z = with_partial_column(a, q, v, n);
    lemma_partial_column_det(a, n, q, v, n);
    assert forall|i: int| 0 <= i < n implies (#[trigger] z[i])[q] == T::zero_spec() by {
        assert(a[i].len() == n);
        assert(dot(a[i], v, n) == T::zero_spec());
    }
    lemma_det_zero_column(z, n, q);
    lemma_mul_one(det(a));
}

/// Cramer's identity: where `a·x` is the column `b`, the determinant of
/// `a` with column `c` replaced by `b` is entry `c` of `x` times the
/// determinant of `a`.
pub proof fn lemma_cramer_identity<T: Scalar>(a: Seq<Seq<T>>, n: nat, c: int, x: Seq<Seq<T>>, b: Seq<Seq<T>>)
    requires
        exact_field::<T>(),
        square(a, n),
        0 <= c < n,
        x.len() == n,
        product(a, x, n, 1) == b,
    ensures
        square(replaced_column(a, c, b), n),
        det(replaced_column(a, c, b)) == det(a).mul_spec(x[c][0]),
{
    let v = column(x, 0);
    lemma_partial_column_det(a, n, c, v, n);
    assert(replaced_column(a, c, b) =~~= with_partial_column(a, c, v, n)) by {
        assert forall|i: int| 0 <= i < n implies #[trigger] replaced_column(a, c, b)[i] == with_partial_column(a, c, v, n)[i] by {
            assert(product(a, x, n, 1)[i][0] == dot(a[i], v, n));
        }
    }
}

/// A determinant other than zero gives one solution: over an exact field,
/// for a square matrix `a` whose determinant is not zero, `solve` finds a
/// single solution of `a·x = b`, whatever `b`.
pub proof fn lemma_nonzero_det_solves<T: Scalar>(a: Seq<Seq<T>>, b: Seq<Seq<T>>, n: nat, m: nat)
    requires
        exact_field::<T>(),
        square(a, n),
        rect(b, m),
        b.len() == n,
        det(a) != T::zero_spec(),
    ensures
        solved(a, b, n as int, m as int) is Single,
{
    let zero = T::zero_spec();
    let w = n + m;
    let aug = augmented(a, b);
    let red = reduced(aug, w as int);
    assert forall|i: int| 0 <= i < aug.len() implies (#[trigger] aug[i]).len() == w by {
        assert(a[i].len() == n && b[i].len() == m);
    }
    lemma_reduced_is_reduced_staircase(aug, w);
    if !(solved(a, b, n as int, m as int) is Single) {
        // Some column is free.
        if inconsistent(red, n as int) {
            let i = choose|i: int| 0 <= i < red.len() && contradicts(#[trigger] red[i], n as int);
            let r = lemma_stair_walk(red, w, n as int);
            assert(leading(red[i]) >= n);
        }
        assert(free_columns(red, n as int).len() >= 1);
        lemma_free_is_free(red, n as int, 0);
        let q = free_columns(red, n as int)[0];
        let v = direction(red, n as int, q);
        assert forall|i: int| 0 <= i < red.len() implies weighed(#[trigger] red[i], v, n, 0, zero) == zero by {
            lemma_row_states_direction(red, n, m, q, i);
        }
        lemma_reduced_states(aug, w, v, n, 0, zero);
        assert forall|i: int| 0 <= i < n implies dot(#[trigger] a[i], v, n) == zero by {
            assert(weighed(aug[i], v, n, 0, zero) == zero);
            assert(a[i].len() == n);
            lemma_dot_same(aug[i], v, a[i], v, n);
            lemma_mul_zero(aug[i][0]);
            lemma_add_zero(dot(a[i], v, n));
        }
        lemma_kernel_gives_zero_det(a, n, v, q);
    }
}

/// What Cramer's rule computes for the square matrix `a` of `n` rows and
/// the column `b`.
pub open spec fn cramer_solution<T: Scalar>(a: Seq<Seq<T>>, b: Seq<Seq<T>>, n: nat) -> Seq<Seq<T>> {
    Seq::new(n, |i: int| seq![determinant_of(replaced_column(a, i, b), n as int).div_spec(determinant_of(a, n as int))])
}

/// Cramer's rule solves: over an exact field, for a square matrix `a`
/// whose determinant is not zero and a column `b`, what the rule computes
/// is the one solution of `a·x = b`.
pub proof fn lemma_cramer_solves<T: Scalar>(a: Seq<Seq<T>>, b: Seq<Seq<T>>, n: nat)
    requires
        exact_field::<T>(),
        square(a, n),
        rect(b, 1),
        b.len() == n,
        determinant_of(a, n as int) != T::zero_spec(),
    ensures
        product(a, cramer_solution(a, b, n), n, 1) == b,
        solved(a, b, n as int, 1) == Solution::Single(cramer_solution(a, b, n)),
{
    let d = det(a);
    lemma_determinant_is_det(a, n);
    lemma_nonzero_det_solves(a, b, n, 1);
    lemma_single_solves(a, b, n, 1);
    let x = solved(a, b, n as int, 1)->Single_0;
    let found = cramer_solution(a, b, n);
    assert(x.len() == n);
    // The one solution has rows of one entry.
    crate::solver_laws::lemma_single_shape(a, b, n, 1);
    assert forall|i: int| 0 <= i < n implies #[trigger] found[i] =~= x[i] by {
        lemma_cramer_identity(a, n, i, x, b);
        lemma_determinant_is_det(replaced_column(a, i, b), n);
        let top = d.mul_spec(x[i][0]);
        lemma_div(top, d);
        lemma_mul_comm(d, x[i][0]);
        lemma_mul_cancel(top.div_spec(d), x[i][0], d);
    }
    assert(found =~~= x);
}

} // verus!
