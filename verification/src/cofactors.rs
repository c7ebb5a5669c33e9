//! The determinant by cofactor expansion along the first column, and its
//! behaviour under row operations, over an exact field.

use crate::array::rect;
use crate::elimination::swapped;
use crate::field::exact_field;
use crate::field::lemma_add_assoc;
use crate::field::lemma_add_cancel;
use crate::field::lemma_add_comm;
use crate::field::lemma_add_neg;
use crate::field::lemma_add_zero;
use crate::field::lemma_distribute;
use crate::field::lemma_mul_assoc;
use crate::field::lemma_mul_comm;
use crate::field::lemma_mul_neg;
use crate::field::lemma_mul_one;
use crate::field::lemma_mul_zero;
use crate::scalar::Scalar;
use vstd::prelude::*;

verus! {

/// The sum of the first `k` entries of `s`.
pub open spec fn total<T: Scalar>(s: Seq<T>, k: int) -> T
    decreases k,
{
    if k <= 0 {
        T::zero_spec()
    } else {
        total(s, k - 1).add_spec(s[k - 1])
    }
}

/// The negative of zero is zero, and the negative of a negative is the
/// scalar itself.
pub proof fn lemma_neg<T: Scalar>(x: T)
    requires
        exact_field::<T>(),
    ensures
        T::zero_spec().neg_spec() == T::zero_spec(),
        x.neg_spec().neg_spec() == x,
{
    let zero = T::zero_spec();
    lemma_add_neg(zero);
    lemma_add_zero(zero.neg_spec());
    // x + -x == 0 == -(-x) + -x
    lemma_add_neg(x);
    lemma_add_neg(x.neg_spec());
    lemma_add_cancel(x, x.neg_spec().neg_spec(), x.neg_spec());
}

/// The negative of a sum is the sum of the negatives.
pub proof fn lemma_neg_sum<T: Scalar>(x: T, y: T)
    requires
        exact_field::<T>(),
    ensures
        x.add_spec(y).neg_spec() == x.neg_spec().add_spec(y.neg_spec()),
{
    let zero = T::zero_spec();
    let s = x.add_spec(y);
    let t = x.neg_spec().add_spec(y.neg_spec());
    // (-x + -y) + (x + y) == 0 == -(x + y) + (x + y)
    lemma_add_assoc(x.neg_spec(), y.neg_spec(), s);
    lemma_add_comm(x, y);
    lemma_add_assoc(y.neg_spec(), y, x);
    lemma_add_neg(y);
    lemma_add_zero(x);
    lemma_add_neg(x);
    lemma_add_neg(s);
    lemma_add_cancel(s.neg_spec(), t, s);
}

/// `(a·f + b·g) + (c·f + d·g) == (a + c)·f + (b + d)·g`.
pub proof fn lemma_bilinear<T: Scalar>(a: T, b: T, c: T, d: T, f: T, g: T)
    requires
        exact_field::<T>(),
    ensures
        a.mul_spec(f).add_spec(b.mul_spec(g)).add_spec(c.mul_spec(f).add_spec(d.mul_spec(g))) == a.add_spec(c).mul_spec(f).add_spec(
            b.add_spec(d).mul_spec(g),
        ),
{
    let af = a.mul_spec(f);
    let bg = b.mul_spec(g);
    let cf = c.mul_spec(f);
    let dg = d.mul_spec(g);
    lemma_distribute(f, a, c);
    lemma_distribute(g, b, d);
    // (af + bg) + (cf + dg) == af + (bg + (cf + dg)) == af + (cf + (bg + dg)) == (af + cf) + (bg + dg)
    lemma_add_assoc(af, bg, cf.add_spec(dg));
    lemma_add_assoc(bg, cf, dg);
    lemma_add_comm(bg, cf);
    lemma_add_assoc(cf, bg, dg);
    lemma_add_assoc(af, cf, bg.add_spec(dg));
}

/// A sum is linear in its terms.
pub proof fn lemma_total_linear<T: Scalar>(a: Seq<T>, b: Seq<T>, c: Seq<T>, f: T, g: T, k: int)
    requires
        exact_field::<T>(),
        forall|i: int| 0 <= i < k ==> #[trigger] c[i] == a[i].mul_spec(f).add_spec(b[i].mul_spec(g)),
    ensures
        total(c, k) == total(a, k).mul_spec(f).add_spec(total(b, k).mul_spec(g)),
    decreases k,
{
    if k <= 0 {
        lemma_mul_zero(f);
        lemma_mul_zero(g);
        lemma_add_zero(T::zero_spec());
    } else {
        lemma_total_linear(a, b, c, f, g, k - 1);
        lemma_bilinear(total(a, k - 1), total(b, k - 1), a[k - 1], b[k - 1], f, g);
    }
}

/// A sum of negated terms is the negated sum.
pub proof fn lemma_total_negated<T: Scalar>(a: Seq<T>, b: Seq<T>, k: int)
    requires
        exact_field::<T>(),
        forall|i: int| 0 <= i < k ==> #[trigger] b[i] == a[i].neg_spec(),
    ensures
        total(b, k) == total(a, k).neg_spec(),
    decreases k,
{
    if k <= 0 {
        lemma_neg(T::zero_spec());
    } else {
        lemma_total_negated(a, b, k - 1);
        lemma_neg_sum(total(a, k - 1), a[k - 1]);
    }
}

/// A sum of negated terms, two neighbours of which have changed places, is
/// the negated sum.
pub proof fn lemma_total_negated_swap<T: Scalar>(a: Seq<T>, b: Seq<T>, r: int, k: int)
    requires
        exact_field::<T>(),
        0 <= r,
        r + 2 <= k,
        forall|i: int| 0 <= i < k && i != r && i != r + 1 ==> #[trigger] b[i] == a[i].neg_spec(),
        b[r] == a[r + 1].neg_spec(),
        b[r + 1] == a[r].neg_spec(),
    ensures
        total(b, k) == total(a, k).neg_spec(),
    decreases k,
{
    if k == r + 2 {
        lemma_total_negated(a, b, r);
        let base = total(a, r);
        assert(total(a, r + 1) == base.add_spec(a[r]));
        assert(total(b, r + 1) == base.neg_spec().add_spec(b[r]));
        lemma_neg_sum(base.add_spec(a[r]), a[r + 1]);
        lemma_neg_sum(base, a[r]);
        // (-base + -a1) + -a0 == (-base + -a0) + -a1
        lemma_add_assoc(base.neg_spec(), a[r + 1].neg_spec(), a[r].neg_spec());
        lemma_add_comm(a[r + 1].neg_spec(), a[r].neg_spec());
        lemma_add_assoc(base.neg_spec(), a[r].neg_spec(), a[r + 1].neg_spec());
    } else {
        lemma_total_negated_swap(a, b, r, k - 1);
        lemma_neg_sum(total(a, k - 1), a[k - 1]);
    }
}

/// A sum all of whose terms vanish, but for two neighbours that cancel, is
/// zero.
pub proof fn lemma_total_cancels<T: Scalar>(a: Seq<T>, r: int, k: int)
    requires
        exact_field::<T>(),
        0 <= r,
        forall|i: int| 0 <= i < k && i != r && i != r + 1 ==> #[trigger] a[i] == T::zero_spec(),
        r + 1 < k ==> a[r + 1] == a[r].neg_spec(),
        k != r + 1,
    ensures
        total(a, k) == T::zero_spec(),
    decreases k,
{
    let zero = T::zero_spec();
    lemma_add_zero(zero);
    if k <= 0 {
    } else if k == r + 2 {
        lemma_total_cancels(a, r, r);
        assert(total(a, r + 1) == total(a, r).add_spec(a[r]));
        lemma_add_zero(a[r]);
        lemma_add_neg(a[r]);
    } else {
        lemma_total_cancels(a, r, k - 1);
    }
}

/// A sum all of whose terms vanish but the first is the first term.
pub proof fn lemma_total_first<T: Scalar>(a: Seq<T>, k: int)
    requires
        exact_field::<T>(),
        k >= 1,
        forall|i: int| 1 <= i < k ==> #[trigger] a[i] == T::zero_spec(),
    ensures
        total(a, k) == a[0],
    decreases k,
{
    if k == 1 {
        assert(total(a, 0) == T::zero_spec());
        lemma_add_zero(a[0]);
    } else {
        lemma_total_first(a, k - 1);
        lemma_add_zero(a[0]);
    }
}

/// The sign of place `i` in the expansion: one for an even place, minus one
/// for an odd one.
pub open spec fn sign<T: Scalar>(i: int) -> T
    decreases i,
{
    if i <= 0 {
        T::one_spec()
    } else {
        sign::<T>(i - 1).neg_spec()
    }
}

/// `m` without its row `i` and without its first column.
pub open spec fn minor<T>(m: Seq<Seq<T>>, i: int) -> Seq<Seq<T>> {
    Seq::new((m.len() - 1) as nat, |r: int| m[if r < i { r } else { r + 1 }].skip(1))
}

/// The sum of the first `k` terms of the expansion of the determinant of
/// `m` along its first column; one for a matrix without rows.
pub open spec fn expansion<T: Scalar>(m: Seq<Seq<T>>, k: int) -> T
    decreases m.len(), k,
{
    if m.len() == 0 {
        T::one_spec()
    } else if k <= 0 {
        T::zero_spec()
    } else {
        expansion(m, k - 1).add_spec(sign::<T>(k - 1).mul_spec(m[k - 1][0].mul_spec(expansion(minor(m, k - 1), m.len() - 1))))
    }
}

/// The determinant of the square matrix `m`, by expansion along its first
/// column.
pub open spec fn det<T: Scalar>(m: Seq<Seq<T>>) -> T {
    expansion(m, m.len() as int)
}

/// Term `i` of the expansion of the determinant of `m`.
pub open spec fn cofactor_term<T: Scalar>(m: Seq<Seq<T>>, i: int) -> T {
    sign::<T>(i).mul_spec(m[i][0].mul_spec(det(minor(m, i))))
}

/// The terms of the expansion of the determinant of `m`.
pub open spec fn cofactor_terms<T: Scalar>(m: Seq<Seq<T>>) -> Seq<T> {
    Seq::new(m.len(), |i: int| cofactor_term(m, i))
}

/// `m` has `n` rows of `n` entries.
pub open spec fn square<T>(m: Seq<Seq<T>>, n: nat) -> bool {
    m.len() == n && rect(m, n)
}

/// The expansion is the sum of its terms.
pub proof fn lemma_expansion<T: Scalar>(m: Seq<Seq<T>>, k: int)
    requires
        m.len() > 0,
        k <= m.len(),
    ensures
        expansion(m, k) == total(cofactor_terms(m), k),
    decreases k,
{
    if k > 0 {
        lemma_expansion(m, k - 1);
    }
}

/// A minor of a square matrix is square.
pub proof fn lemma_minor_square<T>(m: Seq<Seq<T>>, n: nat, i: int)
    requires
        square(m, n),
        n > 0,
        0 <= i < n,
    ensures
        square(minor(m, i), (n - 1) as nat),
{
    assert forall|r: int| 0 <= r < minor(m, i).len() implies (#[trigger] minor(m, i)[r]).len() == n - 1 by {
        assert(m[if r < i { r } else { r + 1 }].len() == n);
    }
}

/// `s·(p·f + q·g) == (s·p)·f + (s·q)·g`.
proof fn lemma_into_linear<T: Scalar>(s: T, p: T, q: T, f: T, g: T)
    requires
        exact_field::<T>(),
    ensures
        s.mul_spec(p.mul_spec(f).add_spec(q.mul_spec(g))) == s.mul_spec(p).mul_spec(f).add_spec(s.mul_spec(q).mul_spec(g)),
{
    lemma_distribute(s, p.mul_spec(f), q.mul_spec(g));
    lemma_mul_assoc(s, p, f);
    lemma_mul_assoc(s, q, g);
}

/// The determinant is linear in every row: where `z` is `x` and `y` but
/// for row `r`, which is `f` times that of `x` plus `g` times that of `y`,
/// the determinant of `z` is `f` times that of `x` plus `g` times that of
/// `y`.
pub proof fn lemma_det_linear<T: Scalar>(x: Seq<Seq<T>>, y: Seq<Seq<T>>, z: Seq<Seq<T>>, n: nat, r: int, f: T, g: T)
    requires
        exact_field::<T>(),
        square(x, n),
        square(y, n),
        square(z, n),
        0 <= r < n,
        forall|i: int| 0 <= i < n && i != r ==> #[trigger] x[i] == y[i] && x[i] == z[i],
        forall|j: int| 0 <= j < n ==> #[trigger] z[r][j] == x[r][j].mul_spec(f).add_spec(y[r][j].mul_spec(g)),
    ensures
        det(z) == det(x).mul_spec(f).add_spec(det(y).mul_spec(g)),
    decreases n,
{
    let tx = cofactor_terms(x);
    let ty = cofactor_terms(y);
    let tz = cofactor_terms(z);
    assert forall|i: int| 0 <= i < n implies #[trigger] tz[i] == tx[i].mul_spec(f).add_spec(ty[i].mul_spec(g)) by {
        let s = sign::<T>(i);
        let mx = minor(x, i);
        let my = minor(y, i);
        let mz = minor(z, i);
        lemma_minor_square(x, n, i);
        lemma_minor_square(y, n, i);
        lemma_minor_square(z, n, i);
        assert(x[i].len() == n && y[i].len() == n && z[i].len() == n);
        if i == r {
            assert(mx =~~= my);
            assert(mx =~~= mz);
            let d = det(mx);
            let x0 = x[r][0];
            let y0 = y[r][0];
            // (x0·f + y0·g)·d == (x0·d)·f + (y0·d)·g
            lemma_mul_comm(z[r][0], d);
            lemma_into_linear(d, x0, y0, f, g);
            lemma_mul_comm(d, x0);
            lemma_mul_comm(d, y0);
            lemma_into_linear(s, x0.mul_spec(d), y0.mul_spec(d), f, g);
        } else {
            let q = if r < i { r } else { r - 1 };
            assert forall|k: int| 0 <= k < n - 1 && k != q implies #[trigger] mx[k] == my[k] && mx[k] == mz[k] by {
                let from = if k < i { k } else { k + 1 };
                assert(x[from] == y[from] && x[from] == z[from]);
            }
            assert forall|j: int| 0 <= j < n - 1 implies #[trigger] mz[q][j] == mx[q][j].mul_spec(f).add_spec(my[q][j].mul_spec(g)) by {
                assert(x[r].len() == n && y[r].len() == n && z[r].len() == n);
                assert(z[r][j + 1] == x[r][j + 1].mul_spec(f).add_spec(y[r][j + 1].mul_spec(g)));
            }
            lemma_det_linear(mx, my, mz, (n - 1) as nat, q, f, g);
            let a = x[i][0];
            lemma_into_linear(a, det(mx), det(my), f, g);
            lemma_into_linear(s, a.mul_spec(det(mx)), a.mul_spec(det(my)), f, g);
        }
    }
    lemma_expansion(x, n as int);
    lemma_expansion(y, n as int);
    lemma_expansion(z, n as int);
    lemma_total_linear(tx, ty, tz, f, g, n as int);
}

/// Exchanging two neighbouring rows negates the determinant.
pub proof fn lemma_det_adjacent_swap<T: Scalar>(m: Seq<Seq<T>>, n: nat, r: int)
    requires
        exact_field::<T>(),
        square(m, n),
        0 <= r,
        r + 1 < n,
    ensures
        det(swapped(m, r, r + 1)) == det(m).neg_spec(),
    decreases n,
{
    let b = swapped(m, r, r + 1);
    let tm = cofactor_terms(m);
    let tb = cofactor_terms(b);
    let sr = sign::<T>(r);
    assert(sign::<T>(r + 1) == sr.neg_spec());
    assert forall|i: int| 0 <= i < n && i != r && i != r + 1 implies #[trigger] tb[i] == tm[i].neg_spec() by {
        let s = sign::<T>(i);
        lemma_minor_square(m, n, i);
        let q = if i < r { r - 1 } else { r };
        assert(minor(b, i) =~~= swapped(minor(m, i), q, q + 1));
        lemma_det_adjacent_swap(minor(m, i), (n - 1) as nat, q);
        let d = det(minor(m, i));
        lemma_mul_neg(m[i][0], d);
        lemma_mul_neg(s, m[i][0].mul_spec(d));
    }
    assert(tb[r] == tm[r + 1].neg_spec()) by {
        assert(minor(b, r) =~~= minor(m, r + 1));
        let x = m[r + 1][0].mul_spec(det(minor(m, r + 1)));
        lemma_mul_neg(sr, x);
        lemma_neg(sr.mul_spec(x));
    }
    assert(tb[r + 1] == tm[r].neg_spec()) by {
        assert(minor(b, r + 1) =~~= minor(m, r));
        let y = m[r][0].mul_spec(det(minor(m, r)));
        lemma_mul_neg(sr, y);
    }
    lemma_expansion(m, n as int);
    lemma_expansion(b, n as int);
    lemma_total_negated_swap(tm, tb, r, n as int);
}

/// A matrix with two equal neighbouring rows has the determinant zero.
pub proof fn lemma_det_adjacent_equal<T: Scalar>(m: Seq<Seq<T>>, n: nat, r: int)
    requires
        exact_field::<T>(),
        square(m, n),
        0 <= r,
        r + 1 < n,
        m[r] == m[r + 1],
    ensures
        det(m) == T::zero_spec(),
    decreases n,
{
    let zero = T::zero_spec();
    let tm = cofactor_terms(m);
    let sr = sign::<T>(r);
    assert(sign::<T>(r + 1) == sr.neg_spec());
    assert forall|i: int| 0 <= i < n && i != r && i != r + 1 implies #[trigger] tm[i] == zero by {
        lemma_minor_square(m, n, i);
        let q = if i < r { r - 1 } else { r };
        assert(minor(m, i)[q] == minor(m, i)[q + 1]);
        lemma_det_adjacent_equal(minor(m, i), (n - 1) as nat, q);
        lemma_mul_zero(m[i][0]);
        lemma_mul_zero(sign::<T>(i));
    }
    assert(tm[r + 1] == tm[r].neg_spec()) by {
        assert(minor(m, r) =~~= minor(m, r + 1));
        let x = m[r][0].mul_spec(det(minor(m, r)));
        lemma_mul_neg(sr, x);
    }
    lemma_expansion(m, n as int);
    lemma_total_cancels(tm, r, n as int);
}

/// Exchanging two rows negates the determinant.
pub proof fn lemma_det_swap<T: Scalar>(m: Seq<Seq<T>>, n: nat, i: int, j: int)
    requires
        exact_field::<T>(),
        square(m, n),
        0 <= i < j < n,
    ensures
        det(swapped(m, i, j)) == det(m).neg_spec(),
        det(swapped(m, j, i)) == det(m).neg_spec(),
    decreases j - i,
{
    assert(swapped(m, j, i) =~= swapped(m, i, j));
    if j == i + 1 {
        lemma_det_adjacent_swap(m, n, i);
    } else {
        let b = swapped(m, i, i + 1);
        let c = swapped(b, i + 1, j);
        let d = swapped(c, i, i + 1);
        assert(d =~= swapped(m, i, j));
        assert(square(b, n)) by {
            assert forall|k: int| 0 <= k < b.len() implies (#[trigger] b[k]).len() == n by {
                assert(m[k].len() == n && m[i].len() == n && m[i + 1].len() == n);
            }
        }
        assert(square(c, n)) by {
            assert forall|k: int| 0 <= k < c.len() implies (#[trigger] c[k]).len() == n by {
                assert(b[k].len() == n && b[j].len() == n && b[i + 1].len() == n);
            }
        }
        lemma_det_adjacent_swap(m, n, i);
        lemma_det_swap(b, n, i + 1, j);
        lemma_det_adjacent_swap(c, n, i);
        lemma_neg(det(m));
    }
}

/// A matrix with two equal rows has the determinant zero.
pub proof fn lemma_det_equal_rows<T: Scalar>(m: Seq<Seq<T>>, n: nat, i: int, j: int)
    requires
        exact_field::<T>(),
        square(m, n),
        0 <= i < j < n,
        m[i] == m[j],
    ensures
        det(m) == T::zero_spec(),
{
    if j == i + 1 {
        lemma_det_adjacent_equal(m, n, i);
    } else {
        let b = swapped(m, i + 1, j);
        assert(square(b, n)) by {
            assert forall|k: int| 0 <= k < b.len() implies (#[trigger] b[k]).len() == n by {
                assert(m[k].len() == n && m[j].len() == n && m[i + 1].len() == n);
            }
        }
        lemma_det_swap(m, n, i + 1, j);
        lemma_det_adjacent_equal(b, n, i);
        lemma_neg(det(m));
    }
}

/// `m` with `g` times row `s` added to row `r`.
pub open spec fn row_added<T: Scalar>(m: Seq<Seq<T>>, r: int, s: int, g: T) -> Seq<Seq<T>> {
    m.update(r, Seq::new(m[r].len(), |j: int| m[r][j].add_spec(m[s][j].mul_spec(g))))
}

/// `m` with row `r` multiplied by `k`.
pub open spec fn row_scaled<T: Scalar>(m: Seq<Seq<T>>, r: int, k: T) -> Seq<Seq<T>> {
    m.update(r, Seq::new(m[r].len(), |j: int| m[r][j].mul_spec(k)))
}

/// Adding a multiple of one row to another keeps the determinant.
pub proof fn lemma_det_row_added<T: Scalar>(m: Seq<Seq<T>>, n: nat, r: int, s: int, g: T)
    requires
        exact_field::<T>(),
        square(m, n),
        0 <= r < n,
        0 <= s < n,
        r != s,
    ensures
        det(row_added(m, r, s, g)) == det(m),
        square(row_added(m, r, s, g), n),
{
    let z = row_added(m, r, s, g);
    let y = m.update(r, m[s]);
    assert(m[r].len() == n && m[s].len() == n);
    assert(square(z, n)) by {
        assert forall|k: int| 0 <= k < z.len() implies (#[trigger] z[k]).len() == n by {
            assert(m[k].len() == n);
        }
    }
    assert(square(y, n)) by {
        assert forall|k: int| 0 <= k < y.len() implies (#[trigger] y[k]).len() == n by {
            assert(m[k].len() == n);
        }
    }
    assert forall|j: int| 0 <= j < n implies #[trigger] z[r][j] == m[r][j].mul_spec(T::one_spec()).add_spec(y[r][j].mul_spec(g)) by {
        lemma_mul_one(m[r][j]);
    }
    lemma_det_linear(m, y, z, n, r, T::one_spec(), g);
    if r < s {
        lemma_det_equal_rows(y, n, r, s);
    } else {
        lemma_det_equal_rows(y, n, s, r);
    }
    lemma_mul_one(det(m));
    lemma_mul_zero(g);
    lemma_add_zero(det(m));
}

/// Multiplying a row by `k` multiplies the determinant by `k`.
pub proof fn lemma_det_row_scaled<T: Scalar>(m: Seq<Seq<T>>, n: nat, r: int, k: T)
    requires
        exact_field::<T>(),
        square(m, n),
        0 <= r < n,
    ensures
        det(row_scaled(m, r, k)) == det(m).mul_spec(k),
        square(row_scaled(m, r, k), n),
{
    let zero = T::zero_spec();
    let z = row_scaled(m, r, k);
    assert(m[r].len() == n);
    let scaled = Seq::new(m[r].len(), |j: int| m[r][j].mul_spec(k));
    assert(z == m.update(r, scaled));
    assert(scaled.len() == n);
    assert(square(z, n)) by {
        assert forall|i: int| 0 <= i < z.len() implies (#[trigger] z[i]).len() == n by {
            assert(m[i].len() == n);
            if i == r {
                assert(z[i] == scaled);
            }
        }
    }
    assert forall|j: int| 0 <= j < n implies #[trigger] z[r][j] == m[r][j].mul_spec(k).add_spec(m[r][j].mul_spec(zero)) by {
        lemma_mul_zero(m[r][j]);
        lemma_add_zero(m[r][j].mul_spec(k));
    }
    lemma_det_linear(m, m, z, n, r, k, zero);
    lemma_mul_zero(det(m));
    lemma_add_zero(det(m).mul_spec(k));
}

/// The determinant of a matrix whose first column is zero below its first
/// entry is that entry times the determinant of the rest.
pub proof fn lemma_det_first_column<T: Scalar>(m: Seq<Seq<T>>, n: nat)
    requires
        exact_field::<T>(),
        square(m, n),
        n >= 1,
        forall|i: int| 1 <= i < n ==> (#[trigger] m[i])[0] == T::zero_spec(),
    ensures
        det(m) == m[0][0].mul_spec(det(minor(m, 0))),
{
    let tm = cofactor_terms(m);
    assert forall|i: int| 1 <= i < n implies #[trigger] tm[i] == T::zero_spec() by {
        assert(m[i][0] == T::zero_spec());
        lemma_mul_zero(det(minor(m, i)));
        lemma_mul_zero(sign::<T>(i));
    }
    lemma_expansion(m, n as int);
    lemma_total_first(tm, n as int);
    lemma_mul_one(m[0][0].mul_spec(det(minor(m, 0))));
}

} // verus!
