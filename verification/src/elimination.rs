//! Gaussian elimination: row-echelon form, reduced row-echelon form, rank
//! and determinant.

use crate::arith::combined_row;
use crate::arith::multiply_add_row;
use crate::arith::multiply_row;
use crate::arith::scaled_row;
use crate::array::rect;
use crate::array::rows_of;
use crate::array::Array;
use crate::cofactors::det;
use crate::determinant_laws::lemma_determinant_is_det;
use crate::echelon_laws::lemma_echelon_is_staircase;
use crate::echelon_laws::staircase;
use crate::field::exact_field;
use crate::rank_laws::lemma_rank_counts_pivots;
use crate::reduction_laws::lemma_reduced_is_reduced_staircase;
use crate::reduction_laws::reduced_staircase;
use crate::scalar::near_zero;
use crate::solver::free_columns;
use crate::scalar::total;
use crate::scalar::FloatEq;
use crate::scalar::Scalar;
use vstd::prelude::*;

verus! {

/// Moves rows out of `rows` into `parked`, one at a time, for as long as the
/// row at position `p` has an entry in column `c` that is approximately zero:
/// that row goes to the end of `parked` and the last row takes its place.
pub open spec fn park<T: Scalar>(rows: Seq<Seq<T>>, p: int, c: int, parked: Seq<Seq<T>>) -> (Seq<Seq<T>>, Seq<Seq<T>>)
    decreases rows.len(),
{
    if 0 <= p < rows.len() && near_zero(rows[p][c]) {
        park(rows.update(p, rows.last()).drop_last(), p, c, parked.push(rows[p]))
    } else {
        (rows, parked)
    }
}

/// The rows from `p` on reordered for a pivot in column `c`: those tried and
/// found approximately zero in that column are cycled to the end.
pub open spec fn cycled<T: Scalar>(rows: Seq<Seq<T>>, p: int, c: int) -> Seq<Seq<T>> {
    let (active, parked) = park(rows, p, c, Seq::empty());
    active + parked
}

/// Whether `cycled(rows, p, c)` has a pivot at row `p`: an entry in column
/// `c` that is not approximately zero.
pub open spec fn has_pivot<T: Scalar>(rows: Seq<Seq<T>>, p: int, c: int) -> bool {
    p < park(rows, p, c, Seq::<Seq<T>>::empty()).0.len()
}

/// `row` scaled, from column `c` on, so that its entry in column `c` is one.
pub open spec fn unit_row<T: Scalar>(row: Seq<T>, c: int) -> Seq<T> {
    scaled_row(row, T::one_spec().div_spec(row[c]), c).update(c, T::one_spec())
}

/// `row` with its entry in column `c` eliminated by a multiple of `pivot`;
/// a row whose entry is exactly zero is left as it is.
pub open spec fn cleared<T: Scalar>(row: Seq<T>, pivot: Seq<T>, c: int) -> Seq<T> {
    if row[c].eq_spec(T::zero_spec()) {
        row
    } else {
        combined_row(row, pivot, row[c].neg_spec(), c)
    }
}

/// `rows` with column `c` eliminated from every row below row `p`.
pub open spec fn cleared_below<T: Scalar>(rows: Seq<Seq<T>>, p: int, c: int) -> Seq<Seq<T>> {
    Seq::new(rows.len(), |i: int| if i <= p { rows[i] } else { cleared(rows[i], rows[p], c) })
}

/// One elimination step with the pivot at row `p`, column `c`: the pivot row
/// is normalized and column `c` is eliminated from every row below it.
pub open spec fn eliminated<T: Scalar>(rows: Seq<Seq<T>>, p: int, c: int) -> Seq<Seq<T>> {
    cleared_below(rows.update(p, unit_row(rows[p], c)), p, c)
}

/// Forward elimination of `rows`, of width `w`, continued from the pivot
/// position row `p`, column `c`.
pub open spec fn echelon_from<T: Scalar>(rows: Seq<Seq<T>>, p: int, c: int, w: int) -> Seq<Seq<T>>
    decreases w - c,
{
    if p >= rows.len() || c >= w || p < 0 || c < 0 {
        rows
    } else if has_pivot(rows, p, c) {
        echelon_from(eliminated(cycled(rows, p, c), p, c), p + 1, c + 1, w)
    } else {
        echelon_from(cycled(rows, p, c), p, c + 1, w)
    }
}

/// The row-echelon form that forward elimination gives `rows`, of width `w`.
pub open spec fn echelon<T: Scalar>(rows: Seq<Seq<T>>, w: int) -> Seq<Seq<T>> {
    echelon_from(rows, 0, 0, w)
}

/// The column of the first entry of `row`, from column `j` on, that is not
/// approximately zero; the row's length where there is none.
pub open spec fn leading_from<T: Scalar>(row: Seq<T>, j: int) -> int
    decreases row.len() - j,
{
    if j < 0 || j >= row.len() {
        row.len() as int
    } else if !near_zero(row[j]) {
        j
    } else {
        leading_from(row, j + 1)
    }
}

/// The column of the leading entry of `row`: its first entry that is not
/// approximately zero; the row's length where there is none.
pub open spec fn leading<T: Scalar>(row: Seq<T>) -> int {
    leading_from(row, 0)
}

/// `rows` with column `c` eliminated from every row above row `r`, by
/// multiples of row `r`.
pub open spec fn cleared_above<T: Scalar>(rows: Seq<Seq<T>>, r: int, c: int) -> Seq<Seq<T>> {
    Seq::new(rows.len(), |i: int| if i < r { combined_row(rows[i], rows[r], rows[i][c].neg_spec(), c) } else { rows[i] })
}

/// Back-substitution continued from row `r` upward: the column of each
/// row's leading entry is eliminated from the rows above it.
pub open spec fn reduced_from<T: Scalar>(rows: Seq<Seq<T>>, r: int) -> Seq<Seq<T>>
    decreases r,
{
    if r <= 0 || r >= rows.len() {
        rows
    } else if leading(rows[r]) < rows[r].len() {
        reduced_from(cleared_above(rows, r, leading(rows[r])), r - 1)
    } else {
        reduced_from(rows, r - 1)
    }
}

/// What back-substitution makes of `rows`.
pub open spec fn back_substituted<T: Scalar>(rows: Seq<Seq<T>>) -> Seq<Seq<T>> {
    reduced_from(rows, rows.len() - 1)
}

/// The reduced row-echelon form that elimination gives `rows`, of width `w`.
pub open spec fn reduced<T: Scalar>(rows: Seq<Seq<T>>, w: int) -> Seq<Seq<T>> {
    back_substituted(echelon(rows, w))
}

/// One plus the index of the last of the first `n` rows that has an entry
/// which is not approximately zero; 0 where there is none.
pub open spec fn nonzero_height<T: Scalar>(rows: Seq<Seq<T>>, n: int) -> int
    decreases n,
{
    if n <= 0 {
        0
    } else if leading(rows[n - 1]) < rows[n - 1].len() {
        n
    } else {
        nonzero_height(rows, n - 1)
    }
}

/// The rank that elimination finds for `rows`, of width `w`.
pub open spec fn rank_of<T: Scalar>(rows: Seq<Seq<T>>, w: int) -> int {
    nonzero_height(echelon(rows, w), rows.len() as int)
}

/// The greatest row index in `(p, j]` whose entry in column `c` is not
/// approximately zero; the number of rows where there is none.
pub open spec fn last_candidate<T: Scalar>(rows: Seq<Seq<T>>, p: int, c: int, j: int) -> int
    decreases j - p,
{
    if j <= p {
        rows.len() as int
    } else if !near_zero(rows[j][c]) {
        j
    } else {
        last_candidate(rows, p, c, j - 1)
    }
}

/// The row that the determinant takes as pivot row for position `p`, column
/// `c`: row `p` itself if its entry is not approximately zero, else the last
/// row below it with such an entry; the number of rows where there is none.
pub open spec fn pivot_choice<T: Scalar>(rows: Seq<Seq<T>>, p: int, c: int) -> int {
    if !near_zero(rows[p][c]) {
        p
    } else {
        last_candidate(rows, p, c, rows.len() - 1)
    }
}

/// `rows` with rows `i` and `j` exchanged.
pub open spec fn swapped<T>(rows: Seq<Seq<T>>, i: int, j: int) -> Seq<Seq<T>> {
    rows.update(i, rows[j]).update(j, rows[i])
}

/// One elimination step of the determinant: the pivot row is divided by the
/// pivot and column `c` is eliminated from every row below it.
pub open spec fn det_step<T: Scalar>(rows: Seq<Seq<T>>, p: int, c: int) -> Seq<Seq<T>> {
    cleared_below(rows.update(p, scaled_row(rows[p], T::one_spec().div_spec(rows[p][c]), c)), p, c)
}

/// The determinant's elimination continued from the pivot position row `p`,
/// column `c`, with `acc` the signed product of the pivots so far.
pub open spec fn det_from<T: Scalar>(rows: Seq<Seq<T>>, p: int, c: int, w: int, acc: T) -> T
    decreases w - c,
{
    if p >= rows.len() || c >= w || p < 0 || c < 0 {
        acc
    } else if pivot_choice(rows, p, c) >= rows.len() {
        T::zero_spec()
    } else {
        let j = pivot_choice(rows, p, c);
        let sorted = swapped(rows, p, j);
        let signed = if j == p { acc } else { acc.neg_spec() };
        det_from(det_step(sorted, p, c), p + 1, c + 1, w, signed.mul_spec(sorted[p][c]))
    }
}

/// The determinant that elimination finds for `rows`, of width `w`: the
/// product of the pivots, negated once for every exchange of rows, and zero
/// as soon as a column offers no pivot.
pub open spec fn determinant_of<T: Scalar>(rows: Seq<Seq<T>>, w: int) -> T {
    det_from(rows, 0, 0, w, T::one_spec())
}

/// Parking keeps the rows' number and their width.
pub proof fn lemma_park_shape<T: Scalar>(rows: Seq<Seq<T>>, p: int, c: int, parked: Seq<Seq<T>>, w: nat)
    requires
        rect(rows, w),
        rect(parked, w),
    ensures
        rect(park(rows, p, c, parked).0, w),
        rect(park(rows, p, c, parked).1, w),
        park(rows, p, c, parked).0.len() + park(rows, p, c, parked).1.len() == rows.len() + parked.len(),
        park(rows, p, c, parked).0.len() <= rows.len(),
    decreases rows.len(),
{
    if 0 <= p < rows.len() && near_zero(rows[p][c]) {
        lemma_park_shape(rows.update(p, rows.last()).drop_last(), p, c, parked.push(rows[p]), w);
    }
}

impl<T: Scalar> Array<T> {
    /// Cycles to the end the rows from `p` on that are tried for a pivot in
    /// column `c` and found approximately zero there; tells whether a pivot
    /// was found.
    fn cycle_rows(&mut self, p: usize, c: usize) -> (found: bool)
        requires
            old(self).wf(),
            p < old(self).height(),
            c < old(self).width(),
        ensures
            final(self).wf(),
            final(self).width() == old(self).width(),
            final(self).height() == old(self).height(),
            final(self)@ == cycled(old(self)@, p as int, c as int),
            found == has_pivot(old(self)@, p as int, c as int),
            found ==> !near_zero(final(self)@[p as int][c as int]),
    {
        let ghost start = self@;
        let ghost w = self.width();
        let zero = T::zero();
        let mut temp: Vec<Vec<T>> = Vec::new();
        assert(rows_of(temp@) =~= Seq::<Seq<T>>::empty());
        while p < self.content.len() && self.content[p][c].float_eq(&zero)
            invariant
                self.size == old(self).size,
                w == old(self).width(),
                c < w,
                zero == T::zero_spec(),
                rect(self@, w),
                rect(rows_of(temp@), w),
                self@.len() + temp@.len() == start.len(),
                park(self@, p as int, c as int, rows_of(temp@)) == park(start, p as int, c as int, Seq::empty()),
            decreases self.content.len(),
        {
            let ghost before = self@;
            let ghost parked = rows_of(temp@);
            let row = self.content.swap_remove(p);
            temp.push(row);
            assert(self@ =~= before.update(p as int, before.last()).drop_last());
            assert(rows_of(temp@) =~= parked.push(before[p as int]));
        }
        let found = p < self.content.len();
        let ghost active = self@;
        let ghost parked = rows_of(temp@);
        assert(park(active, p as int, c as int, parked) == (active, parked)) by {
            if p < active.len() {
                assert(active[p as int].len() == w);
            }
        }
        self.content.append(&mut temp);
        assert(self@ =~= active + parked);
        found
    }

    /// Brings the matrix to row-echelon form by forward elimination. Column
    /// by column, the rows not yet used are tried for a pivot, those whose
    /// entry is approximately zero being cycled to the end; a pivot row is
    /// scaled to a leading one and its column eliminated from the rows below.
    pub fn echelon_form(&mut self)
        requires
            old(self).wf(),
            total::<T>(),
        ensures
            final(self).wf(),
            final(self).width() == old(self).width(),
            final(self).height() == old(self).height(),
            final(self)@ == echelon(old(self)@, old(self).width() as int),
            exact_field::<T>() ==> staircase(final(self)@, old(self).width() as int),
    {
        proof {
            if exact_field::<T>() {
                lemma_echelon_is_staircase(self@, self.width());
            }
        }
        let ghost w = self.width() as int;
        let mut p: usize = 0;
        let mut c: usize = 0;
        while p < self.size.1 && c < self.size.0
            invariant
                self.wf(),
                total::<T>(),
                self.size == old(self).size,
                w == self.width(),
                p <= c,
                echelon_from(self@, p as int, c as int, w) == echelon(old(self)@, w),
            decreases self.size.0 - c,
        {
            let found = self.cycle_rows(p, c);
            if found {
                self.eliminate(p, c);
                p += 1;
            }
            c += 1;
        }
    }

    /// One elimination step with the pivot at row `p`, column `c`.
    fn eliminate(&mut self, p: usize, c: usize)
        requires
            old(self).wf(),
            total::<T>(),
            p < old(self).height(),
            c < old(self).width(),
        ensures
            final(self).wf(),
            final(self).width() == old(self).width(),
            final(self).height() == old(self).height(),
            final(self)@ == eliminated(old(self)@, p as int, c as int),
    {
        assert(self@[p as int].len() == self.width());
        let factor = T::one().div(self.get(p, c));
        multiply_row(self, p, factor, c);
        self.set(p, c, T::one());
        self.clear_below(p, c);
    }

    /// Eliminates column `c` from every row below row `p`.
    fn clear_below(&mut self, p: usize, c: usize)
        requires
            old(self).wf(),
            total::<T>(),
            p < old(self).height(),
            c < old(self).width(),
        ensures
            final(self).wf(),
            final(self).width() == old(self).width(),
            final(self).height() == old(self).height(),
            final(self)@ == cleared_below(old(self)@, p as int, c as int),
    {
        let ghost before = self@;
        let mut row: usize = p + 1;
        while row < self.size.1
            invariant
                self.wf(),
                total::<T>(),
                self.size == old(self).size,
                before == old(self)@,
                before.len() == self.height(),
                rect(before, self.width()),
                p < row <= self.size.1,
                c < self.size.0,
                forall|i: int| 0 <= i <= p ==> #[trigger] self@[i] == before[i],
                forall|i: int| p < i < row ==> #[trigger] self@[i] == cleared(before[i], before[p as int], c as int),
                forall|i: int| row <= i < self.height() ==> #[trigger] self@[i] == before[i],
            decreases self.size.1 - row,
        {
            assert(self@[row as int] == before[row as int]);
            assert(self@[p as int] == before[p as int]);
            if !self.get(row, c).is_zero() {
                let factor = self.get(row, c).neg();
                multiply_add_row(self, p, row, factor, c);
            }
            row += 1;
        }
        assert(self@ =~= cleared_below(before, p as int, c as int));
    }

    /// The column of the leading entry of row `r`; the width where the row
    /// is approximately zero throughout.
    pub(crate) fn leading_col(&self, r: usize) -> (c: usize)
        requires
            self.wf(),
            r < self.height(),
        ensures
            c == leading(self@[r as int]),
            c <= self.width(),
    {
        let zero = T::zero();
        let ghost row = self@[r as int];
        assert(row.len() == self.width());
        let mut c: usize = 0;
        while c < self.size.0 && self.get(r, c).float_eq(&zero)
            invariant
                self.wf(),
                r < self.height(),
                zero == T::zero_spec(),
                row == self@[r as int],
                row.len() == self.width(),
                c <= self.size.0,
                leading_from(row, c as int) == leading(row),
            decreases self.size.0 - c,
        {
            c += 1;
        }
        c
    }

    /// Eliminates column `c` from every row above row `r`, by multiples of
    /// row `r`.
    pub(crate) fn clear_above_row(&mut self, r: usize, c: usize)
        requires
            old(self).wf(),
            total::<T>(),
            r < old(self).height(),
            c < old(self).width(),
        ensures
            final(self).wf(),
            final(self).width() == old(self).width(),
            final(self).height() == old(self).height(),
            final(self)@ == cleared_above(old(self)@, r as int, c as int),
    {
        let ghost before = self@;
        let mut row: usize = 0;
        while row < r
            invariant
                self.wf(),
                total::<T>(),
                self.size == old(self).size,
                before == old(self)@,
                before.len() == self.height(),
                rect(before, self.width()),
                row <= r < self.size.1,
                c < self.size.0,
                forall|i: int| 0 <= i < row ==> #[trigger] self@[i] == combined_row(before[i], before[r as int], before[i][c as int].neg_spec(), c as int),
                forall|i: int| row <= i < self.height() ==> #[trigger] self@[i] == before[i],
            decreases r - row,
        {
            assert(self@[row as int] == before[row as int]);
            assert(self@[r as int] == before[r as int]);
            let factor = self.get(row, c).neg();
            multiply_add_row(self, r, row, factor, c);
            row += 1;
        }
        assert(self@ =~= cleared_above(before, r as int, c as int));
    }

    /// Back-substitution on a matrix in row-echelon form: from the last row
    /// upward, the column of each row's leading entry is eliminated from the
    /// rows above it.
    pub fn echelon_form_to_reduced_echelon_form(&mut self)
        requires
            old(self).wf(),
            total::<T>(),
        ensures
            final(self).wf(),
            final(self).width() == old(self).width(),
            final(self).height() == old(self).height(),
            final(self)@ == back_substituted(old(self)@),
    {
        if self.size.1 == 0 {
            return ;
        }
        let mut r: usize = self.size.1 - 1;
        while r > 0
            invariant
                self.wf(),
                total::<T>(),
                self.size == old(self).size,
                r < self.size.1,
                reduced_from(self@, r as int) == back_substituted(old(self)@),
            decreases r,
        {
            assert(self@[r as int].len() == self.width());
            let c = self.leading_col(r);
            if c < self.size.0 {
                self.clear_above_row(r, c);
            }
            r -= 1;
        }
    }

    /// Brings the matrix to reduced row-echelon form: forward elimination,
    /// then back-substitution.
    pub fn reduced_echelon_form(&mut self)
        requires
            old(self).wf(),
            total::<T>(),
        ensures
            final(self).wf(),
            final(self).width() == old(self).width(),
            final(self).height() == old(self).height(),
            final(self)@ == reduced(old(self)@, old(self).width() as int),
            exact_field::<T>() ==> reduced_staircase(final(self)@, old(self).width() as int),
    {
        proof {
            if exact_field::<T>() {
                lemma_reduced_is_reduced_staircase(self@, self.width());
            }
        }
        self.echelon_form();
        self.echelon_form_to_reduced_echelon_form();
    }

    /// One plus the index of the last row with an entry that is not
    /// approximately zero; 0 where there is none.
    pub(crate) fn count_nonzero_rows(&self) -> (n: usize)
        requires
            self.wf(),
        ensures
            n == nonzero_height(self@, self.height() as int),
            n <= self.height(),
    {
        let mut n: usize = self.size.1;
        while n > 0
            invariant
                self.wf(),
                n <= self.size.1,
                nonzero_height(self@, n as int) == nonzero_height(self@, self.height() as int),
            decreases n,
        {
            assert(self@[n - 1].len() == self.width());
            if self.leading_col(n - 1) < self.size.0 {
                return n;
            }
            n -= 1;
        }
        0
    }

    /// The rank: the number of rows that forward elimination leaves with an
    /// entry that is not approximately zero.
    pub fn rank(&self) -> (r: usize)
        requires
            self.wf(),
            total::<T>(),
        ensures
            r == rank_of(self@, self.width() as int),
            r <= self.height(),
            exact_field::<T>() ==> r + free_columns(reduced(self@, self.width() as int), self.width() as int).len() == self.width(),
    {
        proof {
            if exact_field::<T>() {
                lemma_rank_counts_pivots(self@, self.width());
            }
        }
        let mut a = self.clone();
        a.echelon_form();
        a.count_nonzero_rows()
    }

    /// The row that the determinant takes as pivot row for position `p`,
    /// column `c`; the height where the column offers none.
    fn choose_pivot(&self, p: usize, c: usize) -> (j: usize)
        requires
            self.wf(),
            p < self.height(),
            c < self.width(),
        ensures
            j == pivot_choice(self@, p as int, c as int),
            p <= j <= self.height(),
            j < self.height() ==> !near_zero(self@[j as int][c as int]),
    {
        let zero = T::zero();
        if !self.get(p, c).float_eq(&zero) {
            return p;
        }
        let mut j: usize = self.size.1 - 1;
        while j > p
            invariant
                self.wf(),
                zero == T::zero_spec(),
                p <= j < self.size.1,
                c < self.size.0,
                near_zero(self@[p as int][c as int]),
                last_candidate(self@, p as int, c as int, j as int) == last_candidate(self@, p as int, c as int, self.height() - 1),
            decreases j,
        {
            if !self.get(j, c).float_eq(&zero) {
                return j;
            }
            j -= 1;
        }
        self.size.1
    }

    /// Exchanges rows `i` and `j`.
    pub fn swap_rows(&mut self, i: usize, j: usize)
        requires
            old(self).wf(),
            i < old(self).height(),
            j < old(self).height(),
        ensures
            final(self).wf(),
            final(self).width() == old(self).width(),
            final(self).height() == old(self).height(),
            final(self)@ == swapped(old(self)@, i as int, j as int),
    {
        let upper = crate::array::copy_row(&self.content[i]);
        let lower = crate::array::copy_row(&self.content[j]);
        self.content[i] = lower;
        self.content[j] = upper;
        assert(self@ =~= swapped(old(self)@, i as int, j as int));
    }

    /// The determinant by elimination on a copy: the product of the pivots,
    /// negated once for every exchange of rows; zero as soon as a column
    /// offers no pivot.
    pub fn determinant(&self) -> (d: T)
        requires
            self.wf(),
            total::<T>(),
        ensures
            d == determinant_of(self@, self.width() as int),
            exact_field::<T>() && self.width() == self.height() ==> d == det(self@),
    {
        proof {
            if exact_field::<T>() && self.width() == self.height() {
                lemma_determinant_is_det(self@, self.width());
            }
        }
        let mut a = self.clone();
        let ghost w = self.width() as int;
        let mut det = T::one();
        let mut p: usize = 0;
        while p < a.size.1 && p < a.size.0
            invariant
                a.wf(),
                total::<T>(),
                a.size == self.size,
                w == a.width(),
                det_from(a@, p as int, p as int, w, det) == determinant_of(self@, w),
                exact_field::<T>() && self.width() == self.height() ==> determinant_of(self@, w) == crate::cofactors::det(self@),
            decreases a.size.0 - p,
        {
            let ghost before = a@;
            let j = a.choose_pivot(p, p);
            if j >= a.size.1 {
                return T::zero();
            }
            if j != p {
                a.swap_rows(p, j);
                det = det.neg();
            }
            assert(a@ =~= swapped(before, p as int, j as int));
            assert(a@[p as int].len() == a.width());
            let pivot = a.get(p, p);
            det = det.mul(pivot);
            let factor = T::one().div(pivot);
            multiply_row(&mut a, p, factor, p);
            a.clear_below(p, p);
            assert(a@ == det_step(swapped(before, p as int, j as int), p as int, p as int));
            p += 1;
        }
        det
    }
}

} // verus!
