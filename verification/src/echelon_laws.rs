//! What holds of forward elimination over an exact field: its result is a
//! staircase, and it keeps what the rows state.

use crate::array::rect;
use crate::elimination::cleared;
use crate::elimination::cycled;
use crate::elimination::echelon;
use crate::elimination::echelon_from;
use crate::elimination::eliminated;
use crate::elimination::has_pivot;
use crate::elimination::leading;
use crate::elimination::lemma_park_shape;
use crate::elimination::park;
use crate::elimination::unit_row;
use crate::field::exact_field;
use crate::field::lemma_add_neg;
use crate::field::lemma_add_zero;
use crate::field::lemma_exact;
use crate::field::lemma_mul_cancel;
use crate::field::lemma_mul_one;
use crate::field::lemma_mul_zero;
use crate::field::lemma_reciprocal;
use crate::rows::annihilated;
use crate::rows::lemma_leading;
use crate::rows::lemma_leading_at_least;
use crate::rows::lemma_weighed_combined;
use crate::rows::lemma_weighed_scaled;
use crate::rows::weighed;
use crate::scalar::near_zero;
use crate::scalar::Scalar;
use vstd::prelude::*;

verus! {

/// A matrix in row-echelon form with leading ones: the leading entry of
/// every row that has one is one, the leading columns grow strictly from
/// row to row, and the rows without a leading entry stand last.
pub open spec fn staircase<T: Scalar>(rows: Seq<Seq<T>>, w: int) -> bool {
    &&& forall|i: int| 0 <= i < rows.len() && leading(#[trigger] rows[i]) < w ==> rows[i][leading(rows[i])] == T::one_spec()
    &&& forall|i: int, k: int|
        0 <= i < k < rows.len() ==> leading(#[trigger] rows[i]) < leading(#[trigger] rows[k]) || leading(rows[k]) == w
}

/// Every row from `from` on meets `holds`.
pub open spec fn all_from<T>(rows: Seq<Seq<T>>, from: int, holds: spec_fn(Seq<T>) -> bool) -> bool {
    forall|i: int| from <= i < rows.len() && 0 <= i ==> holds(#[trigger] rows[i])
}

/// Parking leaves the rows before `p` alone.
pub proof fn lemma_park_keeps<T: Scalar>(rows: Seq<Seq<T>>, p: int, c: int, parked: Seq<Seq<T>>)
    requires
        0 <= p <= rows.len(),
    ensures
        park(rows, p, c, parked).0.len() >= p,
        forall|i: int| 0 <= i < p ==> #[trigger] park(rows, p, c, parked).0[i] == rows[i],
    decreases rows.len(),
{
    if p < rows.len() && near_zero(rows[p][c]) {
        lemma_park_keeps(rows.update(p, rows.last()).drop_last(), p, c, parked.push(rows[p]));
    }
}

/// What holds of every row from `p` on and of every parked row before
/// parking holds of them after it.
pub proof fn lemma_park_forth<T: Scalar>(rows: Seq<Seq<T>>, p: int, c: int, parked: Seq<Seq<T>>, holds: spec_fn(Seq<T>) -> bool)
    requires
        0 <= p,
        all_from(rows, p, holds),
        all_from(parked, 0, holds),
    ensures
        all_from(park(rows, p, c, parked).0, p, holds),
        all_from(park(rows, p, c, parked).1, 0, holds),
    decreases rows.len(),
{
    if p < rows.len() && near_zero(rows[p][c]) {
        let next = rows.update(p, rows.last()).drop_last();
        let more = parked.push(rows[p]);
        assert(holds(rows[p]));
        assert(holds(rows[rows.len() - 1]));
        assert forall|i: int| p <= i < next.len() implies holds(#[trigger] next[i]) by {
            if i != p {
                assert(next[i] == rows[i]);
            }
        }
        assert forall|i: int| 0 <= i < more.len() implies holds(#[trigger] more[i]) by {
            if i < parked.len() {
                assert(more[i] == parked[i]);
            }
        }
        lemma_park_forth(next, p, c, more, holds);
    }
}

/// What holds of every row from `p` on and of every parked row after
/// parking held of them before it.
pub proof fn lemma_park_back<T: Scalar>(rows: Seq<Seq<T>>, p: int, c: int, parked: Seq<Seq<T>>, holds: spec_fn(Seq<T>) -> bool)
    requires
        0 <= p,
        all_from(park(rows, p, c, parked).0, p, holds),
        all_from(park(rows, p, c, parked).1, 0, holds),
    ensures
        all_from(rows, p, holds),
        all_from(parked, 0, holds),
    decreases rows.len(),
{
    if p < rows.len() && near_zero(rows[p][c]) {
        let next = rows.update(p, rows.last()).drop_last();
        let more = parked.push(rows[p]);
        lemma_park_back(next, p, c, more, holds);
        assert(holds(more[parked.len() as int]));
        assert forall|i: int| p <= i < rows.len() implies holds(#[trigger] rows[i]) by {
            if i == p {
            } else if i == rows.len() - 1 {
                assert(next[p] == rows[i]);
                assert(holds(next[p]));
            } else {
                assert(next[i] == rows[i]);
                assert(holds(next[i]));
            }
        }
        assert forall|i: int| 0 <= i < parked.len() implies holds(#[trigger] parked[i]) by {
            assert(more[i] == parked[i]);
            assert(holds(more[i]));
        }
    }
}

/// Every row that parking adds to the parked rows is approximately zero in
/// column `c`, and the row that it leaves at position `p` is not.
pub proof fn lemma_park_sorts<T: Scalar>(rows: Seq<Seq<T>>, p: int, c: int, parked: Seq<Seq<T>>)
    requires
        0 <= p,
        forall|i: int| 0 <= i < parked.len() ==> near_zero((#[trigger] parked[i])[c]),
    ensures
        forall|i: int| 0 <= i < park(rows, p, c, parked).1.len() ==> near_zero((#[trigger] park(rows, p, c, parked).1[i])[c]),
        p < park(rows, p, c, parked).0.len() ==> !near_zero(park(rows, p, c, parked).0[p][c]),
    decreases rows.len(),
{
    if p < rows.len() && near_zero(rows[p][c]) {
        let more = parked.push(rows[p]);
        assert forall|i: int| 0 <= i < more.len() implies near_zero((#[trigger] more[i])[c]) by {
            if i < parked.len() {
                assert(more[i] == parked[i]);
            }
        }
        lemma_park_sorts(rows.update(p, rows.last()).drop_last(), p, c, more);
    }
}

/// What cycling does: the matrix keeps its shape and its rows before `p`;
/// with a pivot, the entry at row `p`, column `c` is not approximately zero;
/// without one, every row from `p` on is approximately zero in column `c`.
pub proof fn lemma_cycled<T: Scalar>(rows: Seq<Seq<T>>, p: int, c: int, w: nat)
    requires
        0 <= p < rows.len(),
        rect(rows, w),
    ensures
        cycled(rows, p, c).len() == rows.len(),
        rect(cycled(rows, p, c), w),
        forall|i: int| 0 <= i < p ==> #[trigger] cycled(rows, p, c)[i] == rows[i],
        has_pivot(rows, p, c) ==> !near_zero(cycled(rows, p, c)[p][c]),
        !has_pivot(rows, p, c) ==> forall|i: int| p <= i < rows.len() ==> near_zero((#[trigger] cycled(rows, p, c)[i])[c]),
{
    let none = Seq::<Seq<T>>::empty();
    let (active, parked) = park(rows, p, c, none);
    lemma_park_shape(rows, p, c, none, w);
    lemma_park_keeps(rows, p, c, none);
    lemma_park_sorts(rows, p, c, none);
    let cy = cycled(rows, p, c);
    assert forall|i: int| 0 <= i < cy.len() implies (#[trigger] cy[i]).len() == w by {
        if i < active.len() {
            assert(cy[i] == active[i]);
        } else {
            assert(cy[i] == parked[i - active.len()]);
        }
    }
    if !has_pivot(rows, p, c) {
        assert forall|i: int| p <= i < rows.len() implies near_zero((#[trigger] cy[i])[c]) by {
            assert(cy[i] == parked[i - active.len()]);
        }
    }
}

/// What holds of every row from `p` on holds of them after cycling, and the
/// other way round.
pub proof fn lemma_cycled_rows<T: Scalar>(rows: Seq<Seq<T>>, p: int, c: int, holds: spec_fn(Seq<T>) -> bool)
    requires
        0 <= p < rows.len(),
    ensures
        all_from(rows, p, holds) <==> all_from(cycled(rows, p, c), p, holds),
{
    let none = Seq::<Seq<T>>::empty();
    let (active, parked) = park(rows, p, c, none);
    let cy = cycled(rows, p, c);
    lemma_park_keeps(rows, p, c, none);
    if all_from(rows, p, holds) {
        lemma_park_forth(rows, p, c, none, holds);
        assert forall|i: int| p <= i < cy.len() implies holds(#[trigger] cy[i]) by {
            if i < active.len() {
                assert(cy[i] == active[i]);
            } else {
                assert(cy[i] == parked[i - active.len()]);
            }
        }
    }
    if all_from(cy, p, holds) {
        assert forall|i: int| p <= i < active.len() implies holds(#[trigger] active[i]) by {
            assert(cy[i] == active[i]);
        }
        assert forall|i: int| 0 <= i < parked.len() implies holds(#[trigger] parked[i]) by {
            assert(cy[active.len() + i] == parked[i]);
        }
        lemma_park_back(rows, p, c, none, holds);
    }
}

/// What holds of a matrix when elimination has come to the pivot position
/// row `p`, column `c`: the rows before `p` form a staircase that ends
/// before column `c`, and the rows from `p` on are zero before column `c`.
pub open spec fn stairs_to<T: Scalar>(rows: Seq<Seq<T>>, p: int, c: int, w: nat) -> bool {
    &&& rect(rows, w)
    &&& 0 <= p <= rows.len()
    &&& p <= c <= w
    &&& forall|i: int| 0 <= i < p ==> leading(#[trigger] rows[i]) < c && rows[i][leading(rows[i])] == T::one_spec()
    &&& forall|i: int, k: int| 0 <= i < k < p ==> leading(#[trigger] rows[i]) < leading(#[trigger] rows[k])
    &&& all_from(rows, p, |r: Seq<T>| zero_before(r, c))
}

/// The entries of `r` before column `c` are zero.
pub open spec fn zero_before<T: Scalar>(r: Seq<T>, c: int) -> bool {
    forall|j: int| 0 <= j < c && j < r.len() ==> #[trigger] r[j] == T::zero_spec()
}

/// The pivot row scaled to a leading one is the row times the pivot's
/// reciprocal, entry by entry.
pub proof fn lemma_unit_row<T: Scalar>(row: Seq<T>, c: int)
    requires
        exact_field::<T>(),
        0 <= c < row.len(),
        zero_before(row, c),
        row[c] != T::zero_spec(),
    ensures
        unit_row(row, c).len() == row.len(),
        forall|j: int| 0 <= j < row.len() ==> #[trigger] unit_row(row, c)[j] == row[j].mul_spec(T::one_spec().div_spec(row[c])),
        zero_before(unit_row(row, c), c),
        unit_row(row, c)[c] == T::one_spec(),
        leading(unit_row(row, c)) == c,
{
    let f = T::one_spec().div_spec(row[c]);
    let ur = unit_row(row, c);
    lemma_reciprocal(row[c]);
    lemma_mul_zero(f);
    assert forall|j: int| 0 <= j < row.len() implies #[trigger] ur[j] == row[j].mul_spec(f) by {
        if j < c {
            assert(row[j] == T::zero_spec());
        }
    }
    assert forall|j: int| 0 <= j < c implies near_zero(#[trigger] ur[j]) by {
        assert(row[j] == T::zero_spec());
        lemma_exact(ur[j], ur[j]);
    }
    lemma_exact(ur[c], ur[c]);
    lemma_leading_at_least(ur, c);
}

/// A row cleared by a pivot row with a leading one in column `c` is the row
/// plus a multiple of the pivot row, entry by entry, and is zero in column
/// `c`.
pub proof fn lemma_cleared<T: Scalar>(row: Seq<T>, pivot: Seq<T>, c: int)
    requires
        exact_field::<T>(),
        0 <= c < row.len(),
        row.len() == pivot.len(),
        zero_before(pivot, c),
        pivot[c] == T::one_spec(),
    ensures
        cleared(row, pivot, c).len() == row.len(),
        forall|j: int| 0 <= j < row.len() ==> #[trigger] cleared(row, pivot, c)[j] == row[j].add_spec(pivot[j].mul_spec(row[c].neg_spec())),
        forall|j: int| 0 <= j < c ==> #[trigger] cleared(row, pivot, c)[j] == row[j],
        cleared(row, pivot, c)[c] == T::zero_spec(),
{
    let e = row[c];
    let g = e.neg_spec();
    let out = cleared(row, pivot, c);
    lemma_exact(e, T::zero_spec());
    lemma_mul_zero(g);
    lemma_mul_one(g);
    lemma_add_neg(e);
    assert forall|j: int| 0 <= j < row.len() implies #[trigger] out[j] == row[j].add_spec(pivot[j].mul_spec(g)) by {
        lemma_add_zero(row[j]);
        if e == T::zero_spec() {
            // -0 == 0, so the multiple added is zero.
            lemma_add_zero(g);
            lemma_mul_zero(pivot[j]);
        } else if j < c {
            assert(pivot[j] == T::zero_spec());
        }
    }
}

/// One step of forward elimination keeps `stairs_to`.
pub proof fn lemma_stairs_step<T: Scalar>(rows: Seq<Seq<T>>, p: int, c: int, w: nat)
    requires
        exact_field::<T>(),
        stairs_to(rows, p, c, w),
        p < rows.len(),
        c < w,
    ensures
        has_pivot(rows, p, c) ==> stairs_to(eliminated(cycled(rows, p, c), p, c), p + 1, c + 1, w),
        !has_pivot(rows, p, c) ==> stairs_to(cycled(rows, p, c), p, c + 1, w),
        stairs_to(cycled(rows, p, c), p, c, w),
{
    let zero = T::zero_spec();
    let cy = cycled(rows, p, c);
    let before = |r: Seq<T>| zero_before(r, c);
    lemma_cycled(rows, p, c, w);
    lemma_cycled_rows(rows, p, c, before);
    assert(stairs_to(cy, p, c, w));
    if has_pivot(rows, p, c) {
        let row = cy[p];
        assert(before(row));
        lemma_exact(row[c], zero);
        lemma_unit_row(row, c);
        let ur = unit_row(row, c);
        let next = eliminated(cy, p, c);
        let mid = cy.update(p, ur);
        assert forall|i: int| p + 1 <= i < next.len() implies zero_before(#[trigger] next[i], c + 1) by {
            assert(before(cy[i]));
            assert(mid[i] == cy[i]);
            lemma_cleared(cy[i], ur, c);
        }
        assert forall|i: int| 0 <= i < next.len() implies (#[trigger] next[i]).len() == w by {
            if i > p {
                assert(mid[i] == cy[i]);
                lemma_cleared(cy[i], ur, c);
            }
        }
        assert forall|i: int| 0 <= i < p + 1 implies leading(#[trigger] next[i]) < c + 1 && next[i][leading(next[i])] == T::one_spec() by {
            if i < p {
                assert(next[i] == cy[i]);
            }
        }
        assert forall|i: int, k: int| 0 <= i < k < p + 1 implies leading(#[trigger] next[i]) < leading(#[trigger] next[k]) by {
            assert(next[i] == cy[i]);
            if k < p {
                assert(next[k] == cy[k]);
            }
        }
    } else {
        assert forall|i: int| p <= i < cy.len() implies zero_before(#[trigger] cy[i], c + 1) by {
            assert(before(cy[i]));
            lemma_exact(cy[i][c], zero);
        }
    }
}

/// Forward elimination from `stairs_to` on ends in a staircase.
pub proof fn lemma_echelon_stairs_from<T: Scalar>(rows: Seq<Seq<T>>, p: int, c: int, w: nat)
    requires
        exact_field::<T>(),
        stairs_to(rows, p, c, w),
    ensures
        staircase(echelon_from(rows, p, c, w as int), w as int),
        rect(echelon_from(rows, p, c, w as int), w),
        echelon_from(rows, p, c, w as int).len() == rows.len(),
    decreases w - c,
{
    if p >= rows.len() || c >= w {
        assert forall|i: int| p <= i < rows.len() implies leading(#[trigger] rows[i]) == w by {
            assert(zero_before(rows[i], c));
            assert forall|j: int| 0 <= j < w implies near_zero(#[trigger] rows[i][j]) by {
                lemma_exact(rows[i][j], rows[i][j]);
            }
            lemma_leading_at_least(rows[i], w as int);
            lemma_leading(rows[i]);
        }
    } else {
        lemma_stairs_step(rows, p, c, w);
        lemma_cycled(rows, p, c, w);
        if has_pivot(rows, p, c) {
            assert(eliminated(cycled(rows, p, c), p, c).len() == rows.len());
            lemma_echelon_stairs_from(eliminated(cycled(rows, p, c), p, c), p + 1, c + 1, w);
        } else {
            lemma_echelon_stairs_from(cycled(rows, p, c), p, c + 1, w);
        }
    }
}

/// Over an exact field, the row-echelon form of a matrix is a staircase of
/// the same shape.
pub proof fn lemma_echelon_is_staircase<T: Scalar>(rows: Seq<Seq<T>>, w: nat)
    requires
        exact_field::<T>(),
        rect(rows, w),
    ensures
        staircase(echelon(rows, w as int), w as int),
        rect(echelon(rows, w as int), w),
        echelon(rows, w as int).len() == rows.len(),
{
    lemma_echelon_stairs_from(rows, 0, 0, w);
}

/// One step of elimination on a cycled matrix keeps what the rows state:
/// what the rows make zero after the step they made zero before it.
proof fn lemma_eliminated_states<T: Scalar>(cy: Seq<Seq<T>>, p: int, c: int, w: nat, v: Seq<T>, n: nat, k: int, s: T)
    requires
        exact_field::<T>(),
        stairs_to(cy, p, c, w),
        p < cy.len(),
        c < w,
        cy[p][c] != T::zero_spec(),
        n <= w,
        0 <= k < w,
        annihilated(eliminated(cy, p, c), v, n, k, s),
    ensures
        annihilated(cy, v, n, k, s),
{
    let zero = T::zero_spec();
    let row = cy[p];
    let before = |r: Seq<T>| zero_before(r, c);
    assert(before(row));
    lemma_unit_row(row, c);
    let ur = unit_row(row, c);
    let f = T::one_spec().div_spec(row[c]);
    let next = eliminated(cy, p, c);
    let mid = cy.update(p, ur);
    lemma_reciprocal(row[c]);
    assert(next[p] == ur);
    assert(weighed(next[p], v, n, k, s) == zero);
    lemma_weighed_scaled(row, ur, v, n, k, s, f);
    lemma_mul_zero(f);
    lemma_mul_cancel(weighed(row, v, n, k, s), zero, f);
    assert forall|i: int| 0 <= i < cy.len() implies weighed(#[trigger] cy[i], v, n, k, s) == zero by {
        assert(weighed(next[i], v, n, k, s) == zero);
        if i < p {
            assert(next[i] == cy[i]);
        } else if i > p {
            assert(mid[i] == cy[i]);
            assert(before(cy[i]));
            lemma_cleared(cy[i], ur, c);
            let g = cy[i][c].neg_spec();
            lemma_weighed_combined(cy[i], ur, next[i], v, n, k, s, g);
            lemma_mul_zero(g);
            lemma_add_zero(weighed(cy[i], v, n, k, s));
        }
    }
}

/// Forward elimination keeps what the rows state: a vector and weight that
/// every row of the result makes zero, every row of the matrix made zero.
pub proof fn lemma_echelon_states_from<T: Scalar>(rows: Seq<Seq<T>>, p: int, c: int, w: nat, v: Seq<T>, n: nat, k: int, s: T)
    requires
        exact_field::<T>(),
        stairs_to(rows, p, c, w),
        n <= w,
        0 <= k < w,
        annihilated(echelon_from(rows, p, c, w as int), v, n, k, s),
    ensures
        annihilated(rows, v, n, k, s),
    decreases w - c,
{
    if p >= rows.len() || c >= w {
    } else {
        let zero = T::zero_spec();
        let cy = cycled(rows, p, c);
        let states = |r: Seq<T>| weighed(r, v, n, k, s) == zero;
        lemma_stairs_step(rows, p, c, w);
        lemma_cycled(rows, p, c, w);
        if has_pivot(rows, p, c) {
            lemma_echelon_states_from(eliminated(cy, p, c), p + 1, c + 1, w, v, n, k, s);
            lemma_exact(cy[p][c], zero);
            lemma_eliminated_states(cy, p, c, w, v, n, k, s);
        } else {
            lemma_echelon_states_from(cy, p, c + 1, w, v, n, k, s);
        }
        assert(all_from(cy, p, states)) by {
            assert forall|i: int| p <= i < cy.len() implies states(#[trigger] cy[i]) by {
                assert(weighed(cy[i], v, n, k, s) == zero);
            }
        }
        lemma_cycled_rows(rows, p, c, states);
        assert forall|i: int| 0 <= i < rows.len() implies weighed(#[trigger] rows[i], v, n, k, s) == zero by {
            if i < p {
                assert(cy[i] == rows[i]);
                assert(weighed(cy[i], v, n, k, s) == zero);
            } else {
                assert(states(rows[i]));
            }
        }
    }
}

/// One step of elimination on a cycled matrix carries what the rows state:
/// what the rows make zero before the step they make zero after it.
proof fn lemma_eliminated_carries<T: Scalar>(cy: Seq<Seq<T>>, p: int, c: int, w: nat, v: Seq<T>, n: nat, k: int, s: T)
    requires
        exact_field::<T>(),
        stairs_to(cy, p, c, w),
        p < cy.len(),
        c < w,
        cy[p][c] != T::zero_spec(),
        n <= w,
        0 <= k < w,
        annihilated(cy, v, n, k, s),
    ensures
        annihilated(eliminated(cy, p, c), v, n, k, s),
{
    let zero = T::zero_spec();
    let row = cy[p];
    let before = |r: Seq<T>| zero_before(r, c);
    assert(before(row));
    lemma_unit_row(row, c);
    let ur = unit_row(row, c);
    let f = T::one_spec().div_spec(row[c]);
    let next = eliminated(cy, p, c);
    let mid = cy.update(p, ur);
    assert(weighed(cy[p], v, n, k, s) == zero);
    lemma_weighed_scaled(row, ur, v, n, k, s, f);
    lemma_mul_zero(f);
    assert forall|i: int| 0 <= i < next.len() implies weighed(#[trigger] next[i], v, n, k, s) == zero by {
        assert(weighed(cy[i], v, n, k, s) == zero);
        if i < p {
            assert(next[i] == cy[i]);
        } else if i > p {
            assert(mid[i] == cy[i]);
            assert(before(cy[i]));
            lemma_cleared(cy[i], ur, c);
            let g = cy[i][c].neg_spec();
            lemma_weighed_combined(cy[i], ur, next[i], v, n, k, s, g);
            lemma_mul_zero(g);
            lemma_add_zero(zero);
        }
    }
}

/// Forward elimination carries what the rows state: a vector and weight
/// that every row of the matrix makes zero, every row of the result makes
/// zero.
pub proof fn lemma_echelon_carries_from<T: Scalar>(rows: Seq<Seq<T>>, p: int, c: int, w: nat, v: Seq<T>, n: nat, k: int, s: T)
    requires
        exact_field::<T>(),
        stairs_to(rows, p, c, w),
        n <= w,
        0 <= k < w,
        annihilated(rows, v, n, k, s),
    ensures
        annihilated(echelon_from(rows, p, c, w as int), v, n, k, s),
    decreases w - c,
{
    if p >= rows.len() || c >= w {
    } else {
        let zero = T::zero_spec();
        let cy = cycled(rows, p, c);
        let states = |r: Seq<T>| weighed(r, v, n, k, s) == zero;
        lemma_stairs_step(rows, p, c, w);
        lemma_cycled(rows, p, c, w);
        assert(all_from(rows, p, states)) by {
            assert forall|i: int| p <= i < rows.len() implies states(#[trigger] rows[i]) by {
                assert(weighed(rows[i], v, n, k, s) == zero);
            }
        }
        lemma_cycled_rows(rows, p, c, states);
        assert forall|i: int| 0 <= i < cy.len() implies weighed(#[trigger] cy[i], v, n, k, s) == zero by {
            if i < p {
                assert(cy[i] == rows[i]);
                assert(weighed(rows[i], v, n, k, s) == zero);
            } else {
                assert(states(cy[i]));
            }
        }
        if has_pivot(rows, p, c) {
            lemma_exact(cy[p][c], zero);
            lemma_eliminated_carries(cy, p, c, w, v, n, k, s);
            lemma_echelon_carries_from(eliminated(cy, p, c), p + 1, c + 1, w, v, n, k, s);
        } else {
            lemma_echelon_carries_from(cy, p, c + 1, w, v, n, k, s);
        }
    }
}

} // verus!
