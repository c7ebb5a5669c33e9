//! What holds of an LU factorization over an exact field.

use crate::arith::column;
use crate::arith::dot;
use crate::arith::product;
use crate::array::rect;
use crate::factorizations::factored;
use crate::factorizations::lower_step;
use crate::factorizations::lu_from;
use crate::factorizations::upper_step;
use crate::field::exact_field;
use crate::field::lemma_add_assoc;
use crate::field::lemma_add_comm;
use crate::field::lemma_add_neg;
use crate::field::lemma_add_zero;
use crate::field::lemma_exact;
use crate::field::lemma_mul_assoc;
use crate::field::lemma_mul_comm;
use crate::field::lemma_mul_neg;
use crate::field::lemma_mul_one;
use crate::field::lemma_mul_zero;
use crate::field::lemma_reciprocal;
use crate::scalar::Scalar;
use crate::solver::constant_matrix;
use crate::sums::lemma_dot_same;
use crate::sums::lemma_dot_step;
use crate::sums::lemma_dot_zero_tail;
use vstd::prelude::*;

verus! {

/// Every entry of `m` above the diagonal is zero.
pub open spec fn lower_triangular<T: Scalar>(m: Seq<Seq<T>>) -> bool {
    forall|i: int, j: int| 0 <= i < m.len() && i < j < m[i].len() ==> #[trigger] m[i][j] == T::zero_spec()
}

/// Every entry of `m` below the diagonal is zero.
pub open spec fn upper_triangular<T: Scalar>(m: Seq<Seq<T>>) -> bool {
    forall|i: int, j: int| 0 <= i < m.len() && 0 <= j < i && j < m[i].len() ==> #[trigger] m[i][j] == T::zero_spec()
}

/// The first `k` entries on the diagonal of `m` are one.
pub open spec fn unit_diagonal<T: Scalar>(m: Seq<Seq<T>>, k: int) -> bool {
    forall|i: int| 0 <= i < k ==> (#[trigger] m[i])[i] == T::one_spec()
}

/// None of the first `k` entries on the diagonal of `m` is zero.
pub open spec fn nonzero_diagonal<T: Scalar>(m: Seq<Seq<T>>, k: int) -> bool {
    forall|i: int| 0 <= i < k ==> (#[trigger] m[i])[i] != T::zero_spec()
}

/// What holds of `l` and `u` after `k` steps of factoring `a`, a matrix of
/// `h` rows and `w` columns.
spec fn partial<T: Scalar>(a: Seq<Seq<T>>, l: Seq<Seq<T>>, u: Seq<Seq<T>>, k: int, h: nat, w: nat) -> bool {
    &&& 0 <= k <= h
    &&& k <= w
    &&& a.len() == h
    &&& l.len() == h
    &&& u.len() == h
    &&& rect(a, w)
    &&& rect(l, h)
    &&& rect(u, w)
    &&& forall|i: int, t: int| 0 <= i < h && 0 <= t < h && (t >= k || t > i) ==> #[trigger] l[i][t] == T::zero_spec()
    &&& forall|i: int, j: int| 0 <= i < h && 0 <= j < w && j < k && i > j ==> #[trigger] u[i][j] == T::zero_spec()
    &&& forall|i: int, j: int| 0 <= i < h && 0 <= j < w ==> #[trigger] a[i][j] == accounted(l, u, i, j, k)
    &&& unit_diagonal(l, k)
    &&& nonzero_diagonal(u, k)
}

/// Entry `(i, j)` of the factored matrix as `l` and `u` account for it
/// after `k` steps.
spec fn accounted<T: Scalar>(l: Seq<Seq<T>>, u: Seq<Seq<T>>, i: int, j: int, k: int) -> T {
    if i >= k {
        dot(l[i], column(u, j), k as nat).add_spec(u[i][j])
    } else {
        dot(l[i], column(u, j), (i + 1) as nat)
    }
}

/// The elimination of an entry `e` below a pivot `pv`: with `f` the pivot's
/// reciprocal, `pv * (f * -e)` is `-e`.
proof fn lemma_pivot_clears<T: Scalar>(pv: T, e: T)
    requires
        exact_field::<T>(),
        pv != T::zero_spec(),
    ensures
        pv.mul_spec(T::one_spec().div_spec(pv).mul_spec(e.neg_spec())) == e.neg_spec(),
        e.add_spec(pv.mul_spec(T::one_spec().div_spec(pv).mul_spec(e.neg_spec()))) == T::zero_spec(),
{
    let f = T::one_spec().div_spec(pv);
    lemma_reciprocal(pv);
    lemma_mul_assoc(pv, f, e.neg_spec());
    lemma_mul_one(e.neg_spec());
    lemma_add_neg(e);
}

/// What step `k` takes from an entry of `u` it gives to the product: with
/// `x = (e * f) * p`, the new entry is `uij + -x`, and `(s + x) + (uij + -x)`
/// is `s + uij`.
proof fn lemma_step_balance<T: Scalar>(s: T, e: T, f: T, p: T, uij: T)
    requires
        exact_field::<T>(),
    ensures
        s.add_spec(e.mul_spec(f).mul_spec(p)).add_spec(uij.add_spec(p.mul_spec(f.mul_spec(e.neg_spec())))) == s.add_spec(uij),
{
    let x = e.mul_spec(f).mul_spec(p);
    // p * (f * -e) == -x
    lemma_mul_neg(f, e);
    lemma_mul_neg(p, f.mul_spec(e));
    lemma_mul_comm(f, e);
    lemma_mul_comm(p, e.mul_spec(f));
    assert(p.mul_spec(f.mul_spec(e.neg_spec())) == x.neg_spec());
    // (s + x) + (uij + -x) == s + (x + (uij + -x)) == s + uij
    lemma_add_assoc(s, x, uij.add_spec(x.neg_spec()));
    lemma_add_comm(uij, x.neg_spec());
    lemma_add_assoc(x, x.neg_spec(), uij);
    lemma_add_neg(x);
    lemma_add_zero(uij);
}

/// One step of the factorization keeps `partial`.
proof fn lemma_partial_step<T: Scalar>(a: Seq<Seq<T>>, l: Seq<Seq<T>>, u: Seq<Seq<T>>, k: int, h: nat, w: nat)
    requires
        exact_field::<T>(),
        partial(a, l, u, k, h, w),
        k < h,
        k < w,
        u[k][k] != T::zero_spec(),
    ensures
        partial(a, lower_step(l, u, k), upper_step(u, k), k + 1, h, w),
{
    let l2 = lower_step(l, u, k);
    let u2 = upper_step(u, k);
    let pv = u[k][k];
    let f = T::one_spec().div_spec(pv);
    let zero = T::zero_spec();
    lemma_reciprocal(pv);
    assert forall|i: int| 0 <= i < h implies (#[trigger] l2[i]).len() == h && (#[trigger] u2[i]).len() == w && l[i].len() == h
        && u[i].len() == w by {}
    assert forall|i: int| 0 <= i < h implies u[i][k].eq_spec(zero) == (u[i][k] == zero) by {
        lemma_exact(u[i][k], zero);
    }
    assert forall|i: int, t: int| 0 <= i < h && 0 <= t < h && (t >= k + 1 || t > i) implies #[trigger] l2[i][t] == zero by {
        assert(l[i][t] == zero);
    }
    assert forall|i: int, j: int| 0 <= i < h && 0 <= j < w && j < k + 1 && i > j implies #[trigger] u2[i][j] == zero by {
        if j < k {
            assert(u[i][j] == zero);
        } else if u[i][k] != zero {
            lemma_pivot_clears(pv, u[i][k]);
        }
    }
    assert forall|i: int| 0 <= i < k + 1 implies (#[trigger] l2[i])[i] == T::one_spec() by {
        if i < k {
            assert(l[i][i] == T::one_spec());
        }
    }
    assert forall|i: int| 0 <= i < k + 1 implies (#[trigger] u2[i])[i] != zero by {
        if i < k {
            assert(u[i][i] != zero);
        }
    }
    assert forall|i: int, j: int| 0 <= i < h && 0 <= j < w implies #[trigger] a[i][j] == accounted(l2, u2, i, j, k + 1) by {
        assert(a[i][j] == accounted(l, u, i, j, k));
        let s = dot(l[i], column(u, j), k as nat);
        if i < k {
            lemma_dot_same(l[i], column(u, j), l2[i], column(u2, j), (i + 1) as nat);
        } else {
            lemma_dot_same(l[i], column(u, j), l2[i], column(u2, j), k as nat);
            lemma_dot_step(l2[i], column(u2, j), k as nat);
            let p = u[k][j];
            assert(column(u2, j)[k] == p);
            if i == k {
                lemma_mul_one(p);
            } else if u[i][k] == zero {
                assert(l[i][k] == zero);
                lemma_mul_zero(p);
                lemma_add_zero(s);
            } else if j < k {
                assert(u[k][j] == zero);
                lemma_mul_zero(l2[i][k]);
                lemma_add_zero(s);
            } else {
                lemma_step_balance(s, u[i][k], f, p, u[i][j]);
            }
        }
    }
}

/// From `partial` on, the factorization ends with factors whose product is
/// the matrix that was factored.
proof fn lemma_lu_from<T: Scalar>(a: Seq<Seq<T>>, l: Seq<Seq<T>>, u: Seq<Seq<T>>, k: int, h: nat, w: nat)
    requires
        exact_field::<T>(),
        partial(a, l, u, k, h, w),
        lu_from(l, u, k, w as int) is Some,
    ensures
        product(lu_from(l, u, k, w as int)->Some_0.0, lu_from(l, u, k, w as int)->Some_0.1, h, w) == a,
        lower_triangular(lu_from(l, u, k, w as int)->Some_0.0),
        upper_triangular(lu_from(l, u, k, w as int)->Some_0.1),
        rect(lu_from(l, u, k, w as int)->Some_0.0, h),
        rect(lu_from(l, u, k, w as int)->Some_0.1, w),
        lu_from(l, u, k, w as int)->Some_0.0.len() == h,
        lu_from(l, u, k, w as int)->Some_0.1.len() == h,
        unit_diagonal(lu_from(l, u, k, w as int)->Some_0.0, if h <= w { h as int } else { w as int }),
        nonzero_diagonal(lu_from(l, u, k, w as int)->Some_0.1, if h <= w { h as int } else { w as int }),
    decreases w - k,
{
    let zero = T::zero_spec();
    if k >= h || k >= w {
        assert forall|i: int, j: int| 0 <= i < h && 0 <= j < w implies dot(l[i], column(u, j), h) == #[trigger] a[i][j] by {
            assert(a[i][j] == accounted(l, u, i, j, k));
            if i < k {
                assert forall|t: int| i + 1 <= t < h implies l[i][t] == zero by {}
                lemma_dot_zero_tail(l[i], column(u, j), (i + 1) as nat, h);
            } else {
                assert(u[i][j] == zero);
                lemma_add_zero(dot(l[i], column(u, j), k as nat));
                assert forall|t: int| k <= t < h implies l[i][t] == zero by {}
                lemma_dot_zero_tail(l[i], column(u, j), k as nat, h);
            }
        }
        assert(product(l, u, h, w) =~~= a);
        assert(upper_triangular(u)) by {
            assert forall|i: int, j: int| 0 <= i < u.len() && 0 <= j < i && j < u[i].len() implies #[trigger] u[i][j] == zero by {
                assert(u[i].len() == w);
            }
        }
        assert(lower_triangular(l)) by {
            assert forall|i: int, j: int| 0 <= i < l.len() && i < j < l[i].len() implies #[trigger] l[i][j] == zero by {
                assert(l[i].len() == h);
            }
        }
    } else {
        assert(u[k].len() == w);
        lemma_exact(u[k][k], zero);
        lemma_partial_step(a, l, u, k, h, w);
        lemma_lu_from(a, lower_step(l, u, k), upper_step(u, k), k + 1, h, w);
    }
}

/// An LU factorization multiplies back: over an exact field, whenever a
/// matrix `a` of width `w` can be factored, the product of its factors is
/// `a`, the lower factor is lower triangular with ones on its diagonal and
/// the upper factor is upper triangular with no zero on its diagonal, as
/// far as the diagonal of `a` goes.
pub proof fn lemma_lu_round_trip<T: Scalar>(a: Seq<Seq<T>>, w: nat)
    requires
        exact_field::<T>(),
        rect(a, w),
        factored(a, w as int) is Some,
    ensures
        product(factored(a, w as int)->Some_0.0, factored(a, w as int)->Some_0.1, a.len(), w) == a,
        lower_triangular(factored(a, w as int)->Some_0.0),
        upper_triangular(factored(a, w as int)->Some_0.1),
        rect(factored(a, w as int)->Some_0.0, a.len()),
        rect(factored(a, w as int)->Some_0.1, w),
        factored(a, w as int)->Some_0.0.len() == a.len(),
        factored(a, w as int)->Some_0.1.len() == a.len(),
        unit_diagonal(factored(a, w as int)->Some_0.0, if a.len() <= w { a.len() as int } else { w as int }),
        nonzero_diagonal(factored(a, w as int)->Some_0.1, if a.len() <= w { a.len() as int } else { w as int }),
{
    let h = a.len();
    let l = constant_matrix(h, h, T::zero_spec());
    assert forall|i: int, j: int| 0 <= i < h && 0 <= j < w implies #[trigger] a[i][j] == accounted(l, a, i, j, 0) by {
        lemma_add_zero(a[i][j]);
    }
    lemma_lu_from(a, l, a, 0, h, w);
}

} // verus!
