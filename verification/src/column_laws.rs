//! How the determinant by cofactor expansion depends on the columns, over an
//! exact field.

use crate::cofactors::cofactor_terms;
use crate::cofactors::det;
use crate::cofactors::lemma_det_first_column;
use crate::cofactors::lemma_det_swap;
use crate::cofactors::lemma_expansion;
use crate::cofactors::lemma_minor_square;
use crate::cofactors::lemma_neg;
use crate::cofactors::lemma_total_linear;
use crate::cofactors::minor;
use crate::cofactors::sign;
use crate::cofactors::square;
use crate::determinant_laws::lemma_partly_cleared;
use crate::determinant_laws::partly_cleared;
use crate::elimination::swapped;
use crate::field::exact_field;
use crate::field::lemma_add_neg;
use crate::field::lemma_add_zero;
use crate::field::lemma_distribute;
use crate::field::lemma_mul_assoc;
use crate::field::lemma_mul_cancel;
use crate::field::lemma_mul_comm;
use crate::field::lemma_mul_one;
use crate::field::lemma_mul_zero;
use crate::field::lemma_reciprocal;
use crate::scalar::Scalar;
use vstd::prelude::*;

verus! {

/// `s·(p·f + q·g) == (s·p)·f + (s·q)·g`.
proof fn lemma_spread<T: Scalar>(s: T, p: T, q: T, f: T, g: T)
    requires
        exact_field::<T>(),
    ensures
        s.mul_spec(p.mul_spec(f).add_spec(q.mul_spec(g))) == s.mul_spec(p).mul_spec(f).add_spec(s.mul_spec(q).mul_spec(g)),
{
    lemma_distribute(s, p.mul_spec(f), q.mul_spec(g));
    lemma_mul_assoc(s, p, f);
    lemma_mul_assoc(s, q, g);
}

/// The determinant is linear in every column: where `z` is `x` and `y` but
/// for column `c`, which is `f` times that of `x` plus `g` times that of
/// `y`, the determinant of `z` is `f` times that of `x` plus `g` times that
/// of `y`.
pub proof fn lemma_det_column_linear<T: Scalar>(x: Seq<Seq<T>>, y: Seq<Seq<T>>, z: Seq<Seq<T>>, n: nat, c: int, f: T, g: T)
    requires
        exact_field::<T>(),
        square(x, n),
        square(y, n),
        square(z, n),
        0 <= c < n,
        forall|i: int, j: int| 0 <= i < n && 0 <= j < n && j != c ==> #[trigger] x[i][j] == y[i][j] && x[i][j] == z[i][j],
        forall|i: int| 0 <= i < n ==> (#[trigger] z[i])[c] == x[i][c].mul_spec(f).add_spec(y[i][c].mul_spec(g)),
    ensures
        det(z) == det(x).mul_spec(f).add_spec(det(y).mul_spec(g)),
    decreases n,
{
    let tx = cofactor_terms(x);
    let ty = cofactor_terms(y);
    let tz = cofactor_terms(z);
    assert forall|i: int| 0 <= i < n implies #[trigger] tz[i] == tx[i].mul_spec(f).add_spec(ty[i].mul_spec(g)) by {
        let s = sign::<T>(i);
        let mx = minor(x, i);
        let my = minor(y, i);
        let mz = minor(z, i);
        lemma_minor_square(x, n, i);
        lemma_minor_square(y, n, i);
        lemma_minor_square(z, n, i);
        assert(x[i].len() == n && y[i].len() == n && z[i].len() == n);
        if c == 0 {
            assert(mx =~~= my) by {
                assert forall|r: int, j: int| 0 <= r < n - 1 && 0 <= j < n - 1 implies #[trigger] mx[r][j] == my[r][j] by {
                    let from = if r < i { r } else { r + 1 };
                    assert(x[from].len() == n && y[from].len() == n);
                    assert(x[from][j + 1] == y[from][j + 1]);
                }
            }
            assert(mx =~~= mz) by {
                assert forall|r: int, j: int| 0 <= r < n - 1 && 0 <= j < n - 1 implies #[trigger] mx[r][j] == mz[r][j] by {
                    let from = if r < i { r } else { r + 1 };
                    assert(x[from].len() == n && z[from].len() == n);
                    assert(x[from][j + 1] == z[from][j + 1]);
                }
            }
            let d = det(mx);
            let x0 = x[i][0];
            let y0 = y[i][0];
            assert(z[i][0] == x0.mul_spec(f).add_spec(y0.mul_spec(g)));
            lemma_mul_comm(z[i][0], d);
            lemma_spread(d, x0, y0, f, g);
            lemma_mul_comm(d, x0);
            lemma_mul_comm(d, y0);
            lemma_spread(s, x0.mul_spec(d), y0.mul_spec(d), f, g);
        } else {
            assert forall|r: int, j: int| 0 <= r < n - 1 && 0 <= j < n - 1 && j != c - 1 implies #[trigger] mx[r][j] == my[r][j]
                && mx[r][j] == mz[r][j] by {
                let from = if r < i { r } else { r + 1 };
                assert(x[from].len() == n && y[from].len() == n && z[from].len() == n);
                assert(x[from][j + 1] == y[from][j + 1] && x[from][j + 1] == z[from][j + 1]);
            }
            assert forall|r: int| 0 <= r < n - 1 implies (#[trigger] mz[r])[c - 1] == mx[r][c - 1].mul_spec(f).add_spec(
                my[r][c - 1].mul_spec(g),
            ) by {
                let from = if r < i { r } else { r + 1 };
                assert(x[from].len() == n && y[from].len() == n && z[from].len() == n);
                assert(z[from][c] == x[from][c].mul_spec(f).add_spec(y[from][c].mul_spec(g)));
            }
            lemma_det_column_linear(mx, my, mz, (n - 1) as nat, c - 1, f, g);
            let a = x[i][0];
            assert(y[i][0] == a && z[i][0] == a);
            lemma_spread(a, det(mx), det(my), f, g);
            lemma_spread(s, a.mul_spec(det(mx)), a.mul_spec(det(my)), f, g);
        }
    }
    lemma_expansion(x, n as int);
    lemma_expansion(y, n as int);
    lemma_expansion(z, n as int);
    lemma_total_linear(tx, ty, tz, f, g, n as int);
}

/// A matrix with a zero column has the determinant zero.
pub proof fn lemma_det_zero_column<T: Scalar>(m: Seq<Seq<T>>, n: nat, c: int)
    requires
        exact_field::<T>(),
        square(m, n),
        0 <= c < n,
        forall|i: int| 0 <= i < n ==> (#[trigger] m[i])[c] == T::zero_spec(),
    ensures
        det(m) == T::zero_spec(),
{
    let zero = T::zero_spec();
    assert forall|i: int| 0 <= i < n implies (#[trigger] m[i])[c] == m[i][c].mul_spec(zero).add_spec(m[i][c].mul_spec(zero)) by {
        lemma_mul_zero(m[i][c]);
        lemma_add_zero(zero);
    }
    lemma_det_column_linear(m, m, m, n, c, zero, zero);
    lemma_mul_zero(det(m));
    lemma_add_zero(zero);
}

/// A matrix with two equal columns has the determinant zero.
pub proof fn lemma_det_equal_columns<T: Scalar>(m: Seq<Seq<T>>, n: nat, j: int, k: int)
    requires
        exact_field::<T>(),
        square(m, n),
        0 <= j < k < n,
        forall|i: int| 0 <= i < n ==> (#[trigger] m[i])[j] == m[i][k],
    ensures
        det(m) == T::zero_spec(),
    decreases n,
{
    let zero = T::zero_spec();
    let one = T::one_spec();
    if j >= 1 {
        let tm = cofactor_terms(m);
        assert forall|i: int| 0 <= i < n implies #[trigger] tm[i] == zero by {
            lemma_minor_square(m, n, i);
            let d = minor(m, i);
            assert forall|r: int| 0 <= r < n - 1 implies (#[trigger] d[r])[j - 1] == d[r][k - 1] by {
                let from = if r < i { r } else { r + 1 };
                assert(m[from].len() == n);
                assert(m[from][j] == m[from][k]);
            }
            lemma_det_equal_columns(d, (n - 1) as nat, j - 1, k - 1);
            lemma_mul_zero(m[i][0]);
            lemma_mul_zero(sign::<T>(i));
        }
        lemma_expansion(m, n as int);
        crate::cofactors::lemma_total_first(tm, n as int);
    } else if forall|i: int| 0 <= i < n ==> (#[trigger] m[i])[0] == zero {
        lemma_det_zero_column(m, n, 0);
    } else {
        let r = choose|r: int| 0 <= r < n && (#[trigger] m[r])[0] != zero;
        let m1 = swapped(m, 0, r);
        assert(m[0].len() == n && m[r].len() == n);
        assert(square(m1, n)) by {
            assert forall|i: int| 0 <= i < m1.len() implies (#[trigger] m1[i]).len() == n by {
                assert(m[i].len() == n);
            }
        }
        if r == 0 {
            assert(m1 =~= m);
        } else {
            lemma_det_swap(m, n, 0, r);
        }
        let pv = m1[0][0];
        let f = one.div_spec(pv);
        lemma_reciprocal(pv);
        let m2 = partly_cleared(m1, f, n - 1);
        lemma_partly_cleared(m1, n, f, n - 1);
        // The first column and column `k` of the cleared matrix are both
        // one, then zero.
        assert forall|i: int| 0 <= i < n implies (#[trigger] m2[i])[0] == (if i == 0 { one } else { zero }) && m2[i][k] == m2[i][0] by {
            assert(m1[i].len() == n);
            assert(m1[i][0] == m1[i][k]) by {
                assert(m[i][0] == m[i][k]);
                assert(m[r][0] == m[r][k]);
                assert(m[0][0] == m[0][k]);
            }
            assert(m1[0][0] == m1[0][k]) by {
                assert(m[r][0] == m[r][k]);
                assert(m[0][0] == m[0][k]);
            }
            if i > 0 {
                lemma_mul_one(m1[i][0].neg_spec());
                lemma_add_neg(m1[i][0]);
            }
        }
        lemma_det_first_column(m2, n);
        let rest = minor(m2, 0);
        lemma_minor_square(m2, n, 0);
        assert forall|i: int| 0 <= i < n - 1 implies (#[trigger] rest[i])[k - 1] == zero by {
            assert(m2[i + 1].len() == n);
            assert(m2[i + 1][k] == m2[i + 1][0]);
        }
        lemma_det_zero_column(rest, (n - 1) as nat, k - 1);
        lemma_mul_zero(m2[0][0]);
        // det(m1)·f == 0 == 0·f, so det(m1) == 0.
        lemma_mul_zero(f);
        lemma_mul_cancel(det(m1), zero, f);
        lemma_neg(det(m));
    }
}

} // verus!
