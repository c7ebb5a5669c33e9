//! Rows as linear equations: what a row states of a vector, and how the row
//! operations of elimination act on that.

use crate::arith::dot;
use crate::elimination::leading;
use crate::elimination::leading_from;
use crate::field::exact_field;
use crate::field::lemma_add_assoc;
use crate::field::lemma_add_comm;
use crate::field::lemma_add_zero;
use crate::field::lemma_distribute;
use crate::field::lemma_mul_assoc;
use crate::field::lemma_mul_comm;
use crate::field::lemma_mul_zero;
use crate::scalar::near_zero;
use crate::scalar::Scalar;
use crate::sums::lemma_dot_step;
use vstd::prelude::*;

verus! {

/// What the row `r` makes of the vector `v` and the weight `s`: the dot
/// product of its first `n` entries with `v`, plus `s` times its entry `k`.
pub open spec fn weighed<T: Scalar>(r: Seq<T>, v: Seq<T>, n: nat, k: int, s: T) -> T {
    dot(r, v, n).add_spec(r[k].mul_spec(s))
}

/// Every row of `rows` makes zero of `v` and `s`.
pub open spec fn annihilated<T: Scalar>(rows: Seq<Seq<T>>, v: Seq<T>, n: nat, k: int, s: T) -> bool {
    forall|i: int| 0 <= i < rows.len() ==> weighed(#[trigger] rows[i], v, n, k, s) == T::zero_spec()
}

/// `(a + b·g) + (c + d·g) == (a + c) + (b + d)·g`.
pub proof fn lemma_regroup<T: Scalar>(a: T, b: T, c: T, d: T, g: T)
    requires
        exact_field::<T>(),
    ensures
        a.add_spec(b.mul_spec(g)).add_spec(c.add_spec(d.mul_spec(g))) == a.add_spec(c).add_spec(b.add_spec(d).mul_spec(g)),
{
    let bg = b.mul_spec(g);
    let dg = d.mul_spec(g);
    lemma_distribute(g, b, d);
    // (a + bg) + (c + dg) == a + (bg + (c + dg)) == a + (c + (bg + dg)) == (a + c) + (bg + dg)
    lemma_add_assoc(a, bg, c.add_spec(dg));
    lemma_add_assoc(bg, c, dg);
    lemma_add_comm(bg, c);
    lemma_add_assoc(c, bg, dg);
    lemma_add_assoc(a, c, bg.add_spec(dg));
}

/// A dot product is linear in its first argument: scaling.
pub proof fn lemma_dot_scaled<T: Scalar>(r: Seq<T>, r2: Seq<T>, v: Seq<T>, f: T, n: nat)
    requires
        exact_field::<T>(),
        forall|j: int| 0 <= j < n ==> r2[j] == r[j].mul_spec(f),
    ensures
        dot(r2, v, n) == dot(r, v, n).mul_spec(f),
    decreases n,
{
    if n == 0 {
        lemma_mul_zero(f);
    } else {
        let m = (n - 1) as nat;
        lemma_dot_scaled(r, r2, v, f, m);
        lemma_dot_step(r, v, m);
        lemma_dot_step(r2, v, m);
        lemma_distribute(f, dot(r, v, m), r[m as int].mul_spec(v[m as int]));
        lemma_mul_assoc(r[m as int], f, v[m as int]);
        lemma_mul_comm(f, v[m as int]);
        lemma_mul_assoc(r[m as int], v[m as int], f);
    }
}

/// A dot product is linear in its first argument: adding a multiple.
pub proof fn lemma_dot_combined<T: Scalar>(r: Seq<T>, p: Seq<T>, r2: Seq<T>, v: Seq<T>, g: T, n: nat)
    requires
        exact_field::<T>(),
        forall|j: int| 0 <= j < n ==> r2[j] == r[j].add_spec(p[j].mul_spec(g)),
    ensures
        dot(r2, v, n) == dot(r, v, n).add_spec(dot(p, v, n).mul_spec(g)),
    decreases n,
{
    if n == 0 {
        lemma_mul_zero(g);
        lemma_add_zero(T::zero_spec());
    } else {
        let m = (n - 1) as nat;
        let x = v[m as int];
        lemma_dot_combined(r, p, r2, v, g, m);
        lemma_dot_step(r, v, m);
        lemma_dot_step(p, v, m);
        lemma_dot_step(r2, v, m);
        // (r + p·g)·x == r·x + (p·x)·g
        lemma_distribute(x, r[m as int], p[m as int].mul_spec(g));
        lemma_mul_assoc(p[m as int], g, x);
        lemma_mul_comm(g, x);
        lemma_mul_assoc(p[m as int], x, g);
        lemma_regroup(dot(r, v, m), dot(p, v, m), r[m as int].mul_spec(x), p[m as int].mul_spec(x), g);
    }
}

/// What a row scaled by `f` makes of a vector is `f` times what the row
/// makes of it.
pub proof fn lemma_weighed_scaled<T: Scalar>(r: Seq<T>, r2: Seq<T>, v: Seq<T>, n: nat, k: int, s: T, f: T)
    requires
        exact_field::<T>(),
        forall|j: int| 0 <= j < n ==> r2[j] == r[j].mul_spec(f),
        r2[k] == r[k].mul_spec(f),
    ensures
        weighed(r2, v, n, k, s) == weighed(r, v, n, k, s).mul_spec(f),
{
    lemma_dot_scaled(r, r2, v, f, n);
    lemma_distribute(f, dot(r, v, n), r[k].mul_spec(s));
    lemma_mul_assoc(r[k], f, s);
    lemma_mul_comm(f, s);
    lemma_mul_assoc(r[k], s, f);
}

/// What a row with `g` times another added to it makes of a vector is what
/// the row makes of it plus `g` times what the other makes of it.
pub proof fn lemma_weighed_combined<T: Scalar>(r: Seq<T>, p: Seq<T>, r2: Seq<T>, v: Seq<T>, n: nat, k: int, s: T, g: T)
    requires
        exact_field::<T>(),
        forall|j: int| 0 <= j < n ==> r2[j] == r[j].add_spec(p[j].mul_spec(g)),
        r2[k] == r[k].add_spec(p[k].mul_spec(g)),
    ensures
        weighed(r2, v, n, k, s) == weighed(r, v, n, k, s).add_spec(weighed(p, v, n, k, s).mul_spec(g)),
{
    lemma_dot_combined(r, p, r2, v, g, n);
    lemma_distribute(s, r[k], p[k].mul_spec(g));
    lemma_mul_assoc(p[k], g, s);
    lemma_mul_comm(g, s);
    lemma_mul_assoc(p[k], s, g);
    lemma_regroup(dot(r, v, n), dot(p, v, n), r[k].mul_spec(s), p[k].mul_spec(s), g);
}

/// The leading column of a row lies within the row or at its end; before it
/// every entry is approximately zero, and the entry there is not.
pub proof fn lemma_leading<T: Scalar>(row: Seq<T>)
    ensures
        0 <= leading(row) <= row.len(),
        forall|j: int| 0 <= j < leading(row) ==> near_zero(#[trigger] row[j]),
        leading(row) < row.len() ==> !near_zero(row[leading(row)]),
{
    lemma_leading_from(row, 0);
}

/// The same of the search for the leading column from column `k` on.
pub proof fn lemma_leading_from<T: Scalar>(row: Seq<T>, k: int)
    requires
        0 <= k <= row.len(),
    ensures
        k <= leading_from(row, k) <= row.len(),
        forall|j: int| k <= j < leading_from(row, k) ==> near_zero(#[trigger] row[j]),
        leading_from(row, k) < row.len() ==> !near_zero(row[leading_from(row, k)]),
    decreases row.len() - k,
{
    if k < row.len() && near_zero(row[k]) {
        lemma_leading_from(row, k + 1);
    }
}

/// A row whose entries before column `c` are approximately zero has its
/// leading column at `c` or after it; at `c` where that entry is not
/// approximately zero.
pub proof fn lemma_leading_at_least<T: Scalar>(row: Seq<T>, c: int)
    requires
        0 <= c <= row.len(),
        forall|j: int| 0 <= j < c ==> near_zero(#[trigger] row[j]),
    ensures
        leading(row) >= c,
        c < row.len() && !near_zero(row[c]) ==> leading(row) == c,
{
    lemma_leading_skip(row, 0, c);
}

/// The search for the leading column may start at any column before
/// which the row is approximately zero.
proof fn lemma_leading_skip<T: Scalar>(row: Seq<T>, k: int, c: int)
    requires
        0 <= k <= c <= row.len(),
        forall|j: int| 0 <= j < c ==> near_zero(#[trigger] row[j]),
    ensures
        leading_from(row, k) == leading_from(row, c),
        leading_from(row, c) >= c,
    decreases c - k,
{
    lemma_leading_from(row, c);
    if k < c {
        lemma_leading_skip(row, k + 1, c);
    }
}

/// Rows that agree up to and including the leading column of one of them
/// have the same leading column.
pub proof fn lemma_leading_same<T: Scalar>(row: Seq<T>, other: Seq<T>)
    requires
        row.len() == other.len(),
        forall|j: int| 0 <= j < row.len() && j <= leading(row) ==> #[trigger] row[j] == other[j],
    ensures
        leading(other) == leading(row),
{
    lemma_leading(row);
    let c = leading(row);
    assert forall|j: int| 0 <= j < c implies near_zero(#[trigger] other[j]) by {
        assert(row[j] == other[j]);
    }
    lemma_leading_at_least(other, c);
    if c < row.len() {
        assert(row[c] == other[c]);
    } else {
        lemma_leading(other);
    }
}

} // verus!
