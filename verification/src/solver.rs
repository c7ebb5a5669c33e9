//! Linear systems `A·x = b`: classification of the solution set, and what is
//! built on it.

use crate::arith::column;
use crate::arith::identity_matrix;
use crate::arith::lemma_total_dot_ok;
use crate::arith::product;
use crate::array::filled_row;
use crate::array::rect;
use crate::array::Array;
use crate::elimination::determinant_of;
use crate::elimination::echelon;
use crate::elimination::leading;
use crate::elimination::reduced;
use crate::cofactors::det;
use crate::cramer_laws::cramer_solution;
use crate::cramer_laws::lemma_cramer_solves;
use crate::cramer_laws::lemma_nonzero_det_solves;
use crate::field::exact_field;
use crate::field::lemma_exact;
use crate::inverse_laws::lemma_change_basis;
use crate::inverse_laws::lemma_inverse_left;
use crate::inverse_laws::lemma_inverse_right;
use crate::scalar::near_zero;
use crate::solver_laws::lemma_inconsistent_has_no_solution;
use crate::solver_laws::lemma_infinite_solves;
use crate::solver_laws::lemma_single_solves;
use crate::solver_laws::lemma_zero_solves;
use crate::scalar::total;
use crate::scalar::FloatEq;
use crate::scalar::Scalar;
use vstd::prelude::*;

verus! {

/// What solving `A·x = b` gives.
#[derive(Debug, PartialEq)]
pub enum LinearSystemResult<T> {
    /// The one solution.
    Single(Array<T>),
    /// A particular solution and a matrix whose columns span the free
    /// directions: the particular solution plus any combination of the
    /// columns solves the system.
    Infinite((Array<T>, Array<T>)),
    /// There is no solution.
    Inconsistent,
}

/// The mathematical content of a [`LinearSystemResult`].
pub enum Solution<T> {
    Single(Seq<Seq<T>>),
    Infinite(Seq<Seq<T>>, Seq<Seq<T>>),
    Inconsistent,
}

impl<T> View for LinearSystemResult<T> {
    type V = Solution<T>;

    open spec fn view(&self) -> Solution<T> {
        match self {
            LinearSystemResult::Single(x) => Solution::Single(x@),
            LinearSystemResult::Infinite(pair) => Solution::Infinite(pair.0@, pair.1@),
            LinearSystemResult::Inconsistent => Solution::Inconsistent,
        }
    }
}

impl<T> LinearSystemResult<T> {
    /// The matrices held agree with their recorded shapes, and stand for
    /// `n` unknowns and `m` columns of constants.
    pub open spec fn wf(&self, n: nat, m: nat) -> bool {
        match self {
            LinearSystemResult::Single(x) => x.wf() && x.height() == n && x.width() == m,
            LinearSystemResult::Infinite(pair) => {
                &&& pair.0.wf()
                &&& pair.0.height() == n
                &&& pair.0.width() == m
                &&& pair.1.wf()
                &&& pair.1.height() == n
                &&& 1 <= pair.1.width() <= n
            },
            LinearSystemResult::Inconsistent => true,
        }
    }
}

/// `a` with the rows of `b` appended to its rows, one by one.
pub open spec fn augmented<T>(a: Seq<Seq<T>>, b: Seq<Seq<T>>) -> Seq<Seq<T>> {
    Seq::new(a.len(), |i: int| a[i] + b[i])
}

/// The first row from `k` on whose leading entry stands in column `j`; the
/// number of rows where there is none.
pub open spec fn owner_from<T: Scalar>(red: Seq<Seq<T>>, j: int, k: int) -> int
    decreases red.len() - k,
{
    if k < 0 || k >= red.len() {
        red.len() as int
    } else if leading(red[k]) == j {
        k
    } else {
        owner_from(red, j, k + 1)
    }
}

/// The pivot row of column `j`: the first row whose leading entry stands in
/// that column; the number of rows where the column has no pivot.
pub open spec fn owner<T: Scalar>(red: Seq<Seq<T>>, j: int) -> int {
    owner_from(red, j, 0)
}

/// Column `j` has no pivot: its unknown is free.
pub open spec fn is_free<T: Scalar>(red: Seq<Seq<T>>, j: int) -> bool {
    owner(red, j) >= red.len()
}

/// The free columns before column `k`, in ascending order.
pub open spec fn free_columns<T: Scalar>(red: Seq<Seq<T>>, k: int) -> Seq<int>
    decreases k,
{
    if k <= 0 {
        Seq::empty()
    } else if is_free(red, k - 1) {
        free_columns(red, k - 1).push(k - 1)
    } else {
        free_columns(red, k - 1)
    }
}

/// A row of the augmented matrix states a contradiction: its coefficients
/// are all approximately zero and one of its constants is not.
pub open spec fn contradicts<T: Scalar>(row: Seq<T>, n: int) -> bool {
    n <= leading(row) < row.len()
}

/// One of the rows states a contradiction.
pub open spec fn inconsistent<T: Scalar>(red: Seq<Seq<T>>, n: int) -> bool {
    exists|i: int| 0 <= i < red.len() && contradicts(#[trigger] red[i], n)
}

/// The solution with every free unknown zero: row `j` holds the constants of
/// the pivot row of column `j`.
pub open spec fn particular<T: Scalar>(red: Seq<Seq<T>>, n: int, m: int) -> Seq<Seq<T>> {
    Seq::new(
        n as nat,
        |j: int|
            if is_free(red, j) {
                Seq::new(m as nat, |t: int| T::zero_spec())
            } else {
                red[owner(red, j)].subrange(n, n + m)
            },
    )
}

/// Entry `j` of the free direction of the free column `q`: one in the free
/// column's own place, the negated coefficient in the place of a pivot
/// column, zero in the place of another free column.
pub open spec fn direction_entry<T: Scalar>(red: Seq<Seq<T>>, j: int, q: int) -> T {
    if j == q {
        T::one_spec()
    } else if is_free(red, j) {
        T::zero_spec()
    } else {
        red[owner(red, j)][q].neg_spec()
    }
}

/// The free directions, one column for each free column in ascending order.
pub open spec fn freedom_basis<T: Scalar>(red: Seq<Seq<T>>, n: int) -> Seq<Seq<T>> {
    Seq::new(
        n as nat,
        |j: int| Seq::new(free_columns(red, n).len(), |t: int| direction_entry(red, j, free_columns(red, n)[t])),
    )
}

/// The solution set read off `red`, a reduced augmented matrix of `n`
/// coefficient columns and `m` columns of constants.
pub open spec fn classified<T: Scalar>(red: Seq<Seq<T>>, n: int, m: int) -> Solution<T> {
    if inconsistent(red, n) {
        Solution::Inconsistent
    } else if free_columns(red, n).len() == 0 {
        Solution::Single(particular(red, n, m))
    } else {
        Solution::Infinite(particular(red, n, m), freedom_basis(red, n))
    }
}

/// What `solve` returns for the coefficients `a`, of `n` columns, and the
/// constants `b`, of `m` columns.
pub open spec fn solved<T: Scalar>(a: Seq<Seq<T>>, b: Seq<Seq<T>>, n: int, m: int) -> Solution<T> {
    classified(reduced(augmented(a, b), n + m), n, m)
}

/// A matrix has no inverse.
#[derive(Debug, Clone, Copy, PartialEq, Eq)]
pub struct NonInvertible;

/// A matrix is singular: its determinant, or a pivot that is needed, is
/// approximately zero.
#[derive(Debug, Clone, Copy, PartialEq, Eq)]
pub struct SingularMatrix;

/// The matrix of `h` rows and `w` columns that holds `value` everywhere.
pub open spec fn constant_matrix<T>(h: nat, w: nat, value: T) -> Seq<Seq<T>> {
    Seq::new(h, |i: int| Seq::new(w, |j: int| value))
}

/// The entrywise difference of `a` and `b`, matrices of `w` columns.
pub open spec fn difference<T: Scalar>(a: Seq<Seq<T>>, b: Seq<Seq<T>>, w: nat) -> Seq<Seq<T>> {
    Seq::new(a.len(), |i: int| Seq::new(w, |j: int| a[i][j].sub_spec(b[i][j])))
}

/// `a` with column `j` replaced by the one column of `col`.
pub open spec fn replaced_column<T>(a: Seq<Seq<T>>, j: int, col: Seq<Seq<T>>) -> Seq<Seq<T>> {
    Seq::new(a.len(), |i: int| a[i].update(j, col[i][0]))
}

/// The pivot columns that a walk down the staircase of `ech`, a matrix in
/// row-echelon form of width `w`, meets from row `p`, column `c` on, in
/// ascending order.
pub open spec fn pivot_columns<T: Scalar>(ech: Seq<Seq<T>>, p: int, c: int, w: int) -> Seq<int>
    decreases w - c,
{
    if c >= w || c < 0 || p < 0 {
        Seq::empty()
    } else if p < ech.len() && !near_zero(ech[p][c]) {
        seq![c] + pivot_columns(ech, p + 1, c + 1, w)
    } else {
        pivot_columns(ech, p, c + 1, w)
    }
}

/// The columns `kept` of every row of `rows`.
pub open spec fn selected<T>(rows: Seq<Seq<T>>, kept: Seq<int>) -> Seq<Seq<T>> {
    Seq::new(rows.len(), |i: int| Seq::new(kept.len(), |t: int| rows[i][kept[t]]))
}

/// The columns of `rows`, of width `w`, that elimination finds linearly
/// independent of the columns before them.
pub open spec fn independent_columns<T: Scalar>(rows: Seq<Seq<T>>, w: int) -> Seq<Seq<T>> {
    selected(rows, pivot_columns(echelon(rows, w), 0, 0, w))
}

/// The pivot columns met from column `c` on lie in `[c, w)`.
pub proof fn lemma_pivot_columns<T: Scalar>(ech: Seq<Seq<T>>, p: int, c: int, w: int)
    ensures
        pivot_columns(ech, p, c, w).len() <= (if 0 <= c <= w { w - c } else { 0 }),
        forall|t: int| 0 <= t < pivot_columns(ech, p, c, w).len() ==> c <= #[trigger] pivot_columns(ech, p, c, w)[t] < w,
    decreases w - c,
{
    if c >= w || c < 0 || p < 0 {
    } else if p < ech.len() && !near_zero(ech[p][c]) {
        lemma_pivot_columns(ech, p + 1, c + 1, w);
    } else {
        lemma_pivot_columns(ech, p, c + 1, w);
    }
}

/// There are at most `k` free columns before column `k`, each of them
/// before `k`.
pub proof fn lemma_free_columns<T: Scalar>(red: Seq<Seq<T>>, k: int)
    requires
        k >= 0,
    ensures
        free_columns(red, k).len() <= k,
        forall|t: int| 0 <= t < free_columns(red, k).len() ==> 0 <= #[trigger] free_columns(red, k)[t] < k,
    decreases k,
{
    if k > 0 {
        lemma_free_columns(red, k - 1);
    }
}

/// The pivot row of a column is a row whose leading entry stands there.
pub proof fn lemma_owner<T: Scalar>(red: Seq<Seq<T>>, j: int, k: int)
    requires
        k >= 0,
    ensures
        k <= owner_from(red, j, k) || owner_from(red, j, k) == red.len(),
        owner_from(red, j, k) <= red.len(),
        owner_from(red, j, k) < red.len() ==> leading(red[owner_from(red, j, k)]) == j,
    decreases red.len() - k,
{
    if k < red.len() && leading(red[k]) != j {
        lemma_owner(red, j, k + 1);
    }
}

impl<T: Scalar> Array<T> {
    /// The leading column of every row.
    fn leading_cols(&self) -> (leads: Vec<usize>)
        requires
            self.wf(),
        ensures
            leads.len() == self.height(),
            forall|i: int| 0 <= i < leads.len() ==> #[trigger] leads[i] == leading(self@[i]),
    {
        let mut leads: Vec<usize> = Vec::with_capacity(self.size.1);
        let mut i: usize = 0;
        while i < self.size.1
            invariant
                self.wf(),
                i <= self.size.1,
                leads.len() == i,
                forall|k: int| 0 <= k < i ==> #[trigger] leads[k] == leading(self@[k]),
            decreases self.size.1 - i,
        {
            leads.push(self.leading_col(i));
            i += 1;
        }
        leads
    }

    /// Reads the solution set off `res`, a reduced augmented matrix whose
    /// first columns, as many as `mat` has, hold the coefficients and whose
    /// other columns hold the constants.
    pub fn extract_solution_from_matrix(res: Array<T>, mat: Array<T>) -> (r: LinearSystemResult<T>)
        requires
            res.wf(),
            mat.wf(),
            mat.width() <= res.width(),
            total::<T>(),
        ensures
            r.wf(mat.width(), (res.width() - mat.width()) as nat),
            r@ == classified(res@, mat.width() as int, res.width() - mat.width()),
            r matches LinearSystemResult::Infinite(pair) ==> pair.1.width() == free_columns(res@, mat.width() as int).len(),
    {
        let n = mat.size.0;
        let m = res.size.0 - n;
        let h = res.size.1;
        let ghost red = res@;
        let leads = res.leading_cols();
        // A row whose leading entry is a constant states a contradiction.
        let mut i: usize = 0;
        while i < h
            invariant
                res.wf(),
                red == res@,
                h == res.size.1,
                i <= h,
                n == mat.size.0,
                leads.len() == h,
                forall|k: int| 0 <= k < h ==> #[trigger] leads[k] == leading(red[k]),
                forall|k: int| 0 <= k < i ==> !contradicts(#[trigger] red[k], n as int),
            decreases h - i,
        {
            assert(red[i as int].len() == res.width());
            if n <= leads[i] && leads[i] < res.size.0 {
                assert(contradicts(red[i as int], n as int));
                assert(inconsistent(red, n as int));
                return LinearSystemResult::Inconsistent;
            }
            i += 1;
        }
        assert(!inconsistent(red, n as int));
        // The pivot row of every column, and the free columns.
        let mut owners: Vec<usize> = Vec::with_capacity(n);
        let mut free: Vec<usize> = Vec::new();
        let mut j: usize = 0;
        while j < n
            invariant
                red == res@,
                h == res.size.1,
                red.len() == h,
                j <= n,
                leads.len() == h,
                forall|k: int| 0 <= k < h ==> #[trigger] leads[k] == leading(red[k]),
                owners.len() == j,
                forall|k: int| 0 <= k < j ==> #[trigger] owners[k] == owner(red, k),
                free@.map_values(|q: usize| q as int) == free_columns(red, j as int),
            decreases n - j,
        {
            let mut k: usize = 0;
            while k < h && leads[k] != j
                invariant
                    red.len() == h,
                    k <= h,
                    leads.len() == h,
                    forall|k: int| 0 <= k < h ==> #[trigger] leads[k] == leading(red[k]),
                    owner_from(red, j as int, k as int) == owner(red, j as int),
                decreases h - k,
            {
                k += 1;
            }
            owners.push(k);
            let ghost listed = free@.map_values(|q: usize| q as int);
            if k >= h {
                free.push(j);
                assert(free@.map_values(|q: usize| q as int) =~= listed.push(j as int));
            }
            j += 1;
        }
        let ghost free_model = free_columns(red, n as int);
        proof {
            lemma_free_columns(red, n as int);
            assert forall|k: int| 0 <= k < n implies owner(red, k) <= h by {
                lemma_owner(red, k, 0);
            }
        }
        // The particular solution.
        let mut fixed: Vec<Vec<T>> = Vec::with_capacity(n);
        let mut j: usize = 0;
        while j < n
            invariant
                res.wf(),
                red == res@,
                h == res.size.1,
                n + m == res.size.0,
                j <= n,
                owners.len() == n,
                forall|k: int| 0 <= k < n ==> #[trigger] owners[k] == owner(red, k),
                forall|k: int| 0 <= k < n ==> owner(red, k) <= h,
                fixed.len() == j,
                forall|k: int| 0 <= k < j ==> #[trigger] fixed[k]@ == particular(red, n as int, m as int)[k],
            decreases n - j,
        {
            let own = owners[j];
            assert(own == owner(red, j as int));
            if own >= h {
                let row = filled_row(m, T::zero());
                assert(row@ =~= Seq::new(m as nat, |t: int| T::zero_spec()));
                fixed.push(row);
            } else {
                assert(red[own as int].len() == res.width());
                let mut row: Vec<T> = Vec::with_capacity(m);
                let mut t: usize = 0;
                while t < m
                    invariant
                        res.wf(),
                        red == res@,
                        own < h,
                        h == res.size.1,
                        n + m == res.size.0,
                        red[own as int].len() == res.width(),
                        t <= m,
                        row.len() == t,
                        forall|u: int| 0 <= u < t ==> #[trigger] row[u] == red[own as int][n + u],
                    decreases m - t,
                {
                    row.push(res.get(own, n + t));
                    t += 1;
                }
                assert(row@ =~= red[own as int].subrange(n as int, n + m));
                fixed.push(row);
            }
            j += 1;
        }
        let particular_solution = Array { content: fixed, size: (m, n) };
        assert(particular_solution@ =~= particular(red, n as int, m as int));
        assert(particular_solution.wf()) by {
            assert forall|k: int| 0 <= k < particular_solution@.len() implies (#[trigger] particular_solution@[k]).len() == m by {
                if !is_free(red, k) {
                    lemma_owner(red, k, 0);
                    assert(red[owner(red, k)].len() == res.width());
                }
            }
        }
        if free.len() == 0 {
            return LinearSystemResult::Single(particular_solution);
        }
        // The free directions.
        let f = free.len();
        assert(free_model.len() == f);
        let mut directions: Vec<Vec<T>> = Vec::with_capacity(n);
        let mut j: usize = 0;
        while j < n
            invariant
                res.wf(),
                total::<T>(),
                red == res@,
                h == res.size.1,
                n + m == res.size.0,
                j <= n,
                owners.len() == n,
                forall|k: int| 0 <= k < n ==> #[trigger] owners[k] == owner(red, k),
                forall|k: int| 0 <= k < n ==> owner(red, k) <= h,
                f == free.len(),
                free_model == free_columns(red, n as int),
                free@.map_values(|q: usize| q as int) == free_model,
                forall|t: int| 0 <= t < free_model.len() ==> 0 <= #[trigger] free_model[t] < n,
                directions.len() == j,
                forall|k: int| 0 <= k < j ==> (#[trigger] directions[k]).len() == f,
                forall|k: int, t: int| 0 <= k < j && 0 <= t < f ==> #[trigger] directions[k][t] == direction_entry(red, k, free_model[t]),
            decreases n - j,
        {
            let own = owners[j];
            assert(own == owner(red, j as int));
            let mut row: Vec<T> = Vec::with_capacity(f);
            let mut t: usize = 0;
            while t < f
                invariant
                    res.wf(),
                    total::<T>(),
                    red == res@,
                    h == res.size.1,
                    n + m == res.size.0,
                    j < n,
                    own == owner(red, j as int),
                    own <= h,
                    f == free.len(),
                    free@.map_values(|q: usize| q as int) == free_model,
                    forall|t: int| 0 <= t < free_model.len() ==> 0 <= #[trigger] free_model[t] < n,
                    t <= f,
                    row.len() == t,
                    forall|u: int| 0 <= u < t ==> #[trigger] row[u] == direction_entry(red, j as int, free_model[u]),
                decreases f - t,
            {
                let q = free[t];
                assert(q as int == free@.map_values(|q: usize| q as int)[t as int]);
                assert(0 <= free_model[t as int] < n);
                let entry = if j == q {
                    T::one()
                } else if own >= h {
                    T::zero()
                } else {
                    res.get(own, q).neg()
                };
                row.push(entry);
                t += 1;
            }
            directions.push(row);
            j += 1;
        }
        let basis = Array { content: directions, size: (f, n) };
        assert(basis@ =~~= freedom_basis(red, n as int));
        LinearSystemResult::Infinite((particular_solution, basis))
    }

    /// Solves `a·x = b`: reduces the augmented matrix `[a | b]` and reads
    /// the solution set off it.
    pub fn solve(a: Array<T>, b: Array<T>) -> (r: LinearSystemResult<T>)
        requires
            a.wf(),
            b.wf(),
            a.height() == b.height(),
            a.width() + b.width() <= usize::MAX,
            total::<T>(),
        ensures
            r.wf(a.width(), b.width()),
            r@ == solved(a@, b@, a.width() as int, b.width() as int),
            exact_field::<T>() ==> match r {
                LinearSystemResult::Single(x) => product(a@, x@, a.width(), b.width()) == b@,
                LinearSystemResult::Infinite(pair) => product(a@, pair.0@, a.width(), b.width()) == b@ && product(
                    a@,
                    pair.1@,
                    a.width(),
                    pair.1.width(),
                ) == constant_matrix(a.height(), pair.1.width(), T::zero_spec()),
                LinearSystemResult::Inconsistent => forall|x: Seq<Seq<T>>| #[trigger] product(a@, x, a.width(), b.width()) != b@,
            },
    {
        proof {
            if exact_field::<T>() {
                let n = a.width();
                let m = b.width();
                match solved(a@, b@, n as int, m as int) {
                    Solution::Single(x) => {
                        lemma_single_solves(a@, b@, n, m);
                    },
                    Solution::Infinite(fixed, basis) => {
                        lemma_infinite_solves(a@, b@, n, m);
                    },
                    Solution::Inconsistent => {
                        assert forall|x: Seq<Seq<T>>| #[trigger] product(a@, x, n, m) != b@ by {
                            lemma_inconsistent_has_no_solution(a@, b@, n, m, x);
                        }
                    },
                }
            }
        }
        let mut m = Array::concat_0_axis(a.clone(), b);
        assert(m@ =~= augmented(a@, b@));
        m.reduced_echelon_form();
        Array::extract_solution_from_matrix(m, a)
    }

    /// The inverse: the one solution of `self·X = I`, where there is one.
    pub fn inv(&self) -> (r: Result<Array<T>, NonInvertible>)
        requires
            self.wf(),
            self.width() + self.height() <= usize::MAX,
            total::<T>(),
        ensures
            match solved(self@, identity_matrix::<T>(self.height()), self.width() as int, self.height() as int) {
                Solution::Single(x) => r is Ok && r->Ok_0@ == x && r->Ok_0.wf() && r->Ok_0.height() == self.width()
                    && r->Ok_0.width() == self.height(),
                _ => r is Err,
            },
            exact_field::<T>() && r is Ok ==> product(self@, r->Ok_0@, self.width(), self.height()) == identity_matrix::<T>(
                self.height(),
            ) && product(r->Ok_0@, self@, self.height(), self.width()) == identity_matrix::<T>(self.width()),
            exact_field::<T>() && self.width() == self.height() && det(self@) != T::zero_spec() ==> r is Ok,
    {
        proof {
            if exact_field::<T>() && self.width() == self.height() && det(self@) != T::zero_spec() {
                lemma_nonzero_det_solves(self@, identity_matrix::<T>(self.height()), self.width(), self.height());
            }
            if exact_field::<T>() && solved(self@, identity_matrix::<T>(self.height()), self.width() as int, self.height() as int) is Single {
                lemma_inverse_right(self@, self.width());
                lemma_inverse_left(self@, self.width());
            }
        }
        match Array::solve(self.clone(), Array::identity(self.size.1)) {
            LinearSystemResult::Single(x) => Ok(x),
            _ => Err(NonInvertible),
        }
    }

    /// The null space: what `self·x = 0` gives, the zero vector where that
    /// is the one solution, else the free directions as columns.
    pub fn null_space(&self) -> (r: Array<T>)
        requires
            self.wf(),
            self.width() < usize::MAX,
            total::<T>(),
        ensures
            r.wf(),
            r.height() == self.width(),
            r@ == (match solved(self@, constant_matrix(self.height(), 1, T::zero_spec()), self.width() as int, 1) {
                Solution::Single(x) => x,
                Solution::Infinite(fixed, basis) => basis,
                Solution::Inconsistent => constant_matrix(self.width(), 1, T::zero_spec()),
            }),
            exact_field::<T>() ==> product(self@, r@, self.width(), r.width()) == constant_matrix(self.height(), r.width(), T::zero_spec()),
    {
        proof {
            if exact_field::<T>() {
                let zeros = constant_matrix(self.height(), 1, T::zero_spec());
                match solved(self@, zeros, self.width() as int, 1) {
                    Solution::Single(x) => {
                        lemma_single_solves(self@, zeros, self.width(), 1);
                        assert(product(self@, x, self.width(), 1) =~~= zeros);
                    },
                    Solution::Infinite(fixed, basis) => {
                        lemma_infinite_solves(self@, zeros, self.width(), 1);
                    },
                    Solution::Inconsistent => {
                        assert forall|x: Seq<Seq<T>>| #[trigger] product(self@, x, self.width(), 1) != zeros by {
                            lemma_inconsistent_has_no_solution(self@, zeros, self.width(), 1, x);
                        }
                        lemma_zero_solves(self@, self.width());
                    },
                }
            }
        }
        let zeros = Array::new_filled((1, self.size.1), T::zero());
        assert(zeros@ =~~= constant_matrix(self.height(), 1, T::zero_spec()));
        match Array::solve(self.clone(), zeros) {
            LinearSystemResult::Single(res) => res,
            LinearSystemResult::Infinite(res) => res.1,
            LinearSystemResult::Inconsistent => {
                let none = Array::new_filled((1, self.size.0), T::zero());
                assert(none@ =~~= constant_matrix(self.width(), 1, T::zero_spec()));
                none
            },
        }
    }

    /// The production that meets `demand` under the square `consumption`
    /// matrix: what `(I - consumption)·x = demand` gives.
    pub fn leontief_input_output_model(consumption: Array<T>, demand: Array<T>) -> (r: LinearSystemResult<T>)
        requires
            consumption.wf(),
            demand.wf(),
            consumption.width() == consumption.height(),
            demand.width() == 1,
            demand.height() == consumption.height(),
            consumption.width() < usize::MAX,
            total::<T>(),
        ensures
            r.wf(consumption.width(), 1),
            r@ == solved(
                difference(identity_matrix::<T>(consumption.width()), consumption@, consumption.width()),
                demand@,
                consumption.width() as int,
                1,
            ),
            exact_field::<T>() ==> match r {
                LinearSystemResult::Single(x) => product(
                    difference(identity_matrix::<T>(consumption.width()), consumption@, consumption.width()),
                    x@,
                    consumption.width(),
                    1,
                ) == demand@,
                LinearSystemResult::Infinite(pair) => product(
                    difference(identity_matrix::<T>(consumption.width()), consumption@, consumption.width()),
                    pair.0@,
                    consumption.width(),
                    1,
                ) == demand@,
                LinearSystemResult::Inconsistent => true,
            },
    {
        let unit: Array<T> = Array::identity(consumption.size.0);
        let ghost c = consumption@;
        let ghost n = consumption.width();
        let a = unit.sub(consumption);
        assert(a@ =~~= difference(identity_matrix::<T>(n), c, n));
        Array::solve(a, demand)
    }

    /// `a` with column `col_index` replaced by the one column of `col`.
    pub fn replace_col(a: Array<T>, col_index: usize, col: Array<T>) -> (r: Array<T>)
        requires
            a.wf(),
            col.wf(),
            col_index < a.width(),
            col.width() >= 1,
            col.height() == a.height(),
        ensures
            r.wf(),
            r.width() == a.width(),
            r.height() == a.height(),
            r@ == replaced_column(a@, col_index as int, col@),
    {
        let mut out = a;
        let ghost before = out@;
        let mut row: usize = 0;
        while row < out.size.1
            invariant
                out.wf(),
                out.size == a.size,
                col.wf(),
                col_index < out.width(),
                col.width() >= 1,
                col.height() == out.height(),
                before.len() == out.height(),
                rect(before, out.width()),
                row <= out.size.1,
                forall|i: int| 0 <= i < row ==> #[trigger] out@[i] == before[i].update(col_index as int, col@[i][0]),
                forall|i: int| row <= i < out.height() ==> #[trigger] out@[i] == before[i],
            decreases out.size.1 - row,
        {
            let v = col.get(row, 0);
            out.set(row, col_index, v);
            row += 1;
        }
        assert(out@ =~= replaced_column(before, col_index as int, col@));
        out
    }

    /// Cramer's rule for `a·x = b` with `b` a single column: unknown `i` is
    /// the determinant of `a` with column `i` replaced by `b`, divided by the
    /// determinant of `a`. Fails where that determinant is approximately
    /// zero.
    pub fn cramers_rule(a: Array<T>, b: Array<T>) -> (r: Result<Array<T>, SingularMatrix>)
        requires
            a.wf(),
            b.wf(),
            a.height() == b.height(),
            b.width() == 1,
            total::<T>(),
        ensures
            r is Err <==> near_zero(determinant_of(a@, a.width() as int)),
            r is Ok ==> {
                &&& r->Ok_0.wf()
                &&& r->Ok_0.width() == 1
                &&& r->Ok_0.height() == a.width()
                &&& forall|i: int|
                    0 <= i < a.width() ==> #[trigger] r->Ok_0@[i] == seq![
                        determinant_of(replaced_column(a@, i, b@), a.width() as int).div_spec(determinant_of(a@, a.width() as int)),
                    ]
            },
            exact_field::<T>() && a.width() == a.height() && r is Ok ==> product(a@, r->Ok_0@, a.width(), 1) == b@,
    {
        let det_a = a.determinant();
        if det_a.float_eq(&T::zero()) {
            return Err(SingularMatrix);
        }
        proof {
            if exact_field::<T>() && a.width() == a.height() {
                lemma_exact(det_a, T::zero_spec());
                lemma_cramer_solves(a@, b@, a.width());
            }
        }
        let n = a.size.0;
        let mut content: Vec<T> = Vec::with_capacity(n);
        let mut i: usize = 0;
        while i < n
            invariant
                a.wf(),
                b.wf(),
                a.height() == b.height(),
                b.width() == 1,
                total::<T>(),
                n == a.size.0,
                det_a == determinant_of(a@, a.width() as int),
                i <= n,
                content.len() == i,
                forall|k: int|
                    0 <= k < i ==> #[trigger] content[k] == determinant_of(replaced_column(a@, k, b@), a.width() as int).div_spec(det_a),
            decreases n - i,
        {
            let replaced = Array::replace_col(a.clone(), i, b.clone());
            content.push(replaced.determinant().div(det_a));
            i += 1;
        }
        let found = Array::new_vec(content);
        assert(found@ =~~= cramer_solution(a@, b@, a.width()));
        Ok(found)
    }

    /// The columns of `array` that elimination finds linearly independent
    /// of the columns before them: the pivot columns of its row-echelon form.
    pub fn get_linear_independent(array: Array<T>) -> (r: Array<T>)
        requires
            array.wf(),
            total::<T>(),
        ensures
            r.wf(),
            r.height() == array.height(),
            r.width() <= array.width(),
            r@ == independent_columns(array@, array.width() as int),
    {
        let mut form = array.clone();
        form.echelon_form();
        let ghost ech = form@;
        let ghost w = array.width() as int;
        let zero = T::zero();
        let mut kept: Vec<usize> = Vec::new();
        let mut p: usize = 0;
        let mut c: usize = 0;
        while c < form.size.0
            invariant
                form.wf(),
                ech == form@,
                w == form.width(),
                zero == T::zero_spec(),
                c <= form.size.0,
                p <= c,
                kept.len() <= c,
                forall|t: int| 0 <= t < kept.len() ==> (#[trigger] kept[t]) < c,
                kept@.map_values(|q: usize| q as int) + pivot_columns(ech, p as int, c as int, w) == pivot_columns(ech, 0, 0, w),
            decreases form.size.0 - c,
        {
            let ghost listed = kept@.map_values(|q: usize| q as int);
            let ghost rest = pivot_columns(ech, p as int, c as int, w);
            if p < form.size.1 && !form.get(p, c).float_eq(&zero) {
                kept.push(c);
                assert(kept@.map_values(|q: usize| q as int) + pivot_columns(ech, p + 1, c + 1, w) =~= listed + rest);
                p += 1;
            }
            c += 1;
        }
        let ghost cols = pivot_columns(ech, 0, 0, w);
        assert(kept@.map_values(|q: usize| q as int) =~= cols);
        let mut content: Vec<Vec<T>> = Vec::with_capacity(array.size.1);
        let mut i: usize = 0;
        while i < array.size.1
            invariant
                array.wf(),
                w == array.width(),
                i <= array.size.1,
                kept@.map_values(|q: usize| q as int) == cols,
                forall|t: int| 0 <= t < kept.len() ==> (#[trigger] kept[t]) < w,
                content.len() == i,
                forall|k: int| 0 <= k < i ==> (#[trigger] content[k]).len() == kept.len(),
                forall|k: int, t: int| 0 <= k < i && 0 <= t < kept.len() ==> #[trigger] content[k][t] == array@[k][cols[t]],
            decreases array.size.1 - i,
        {
            let mut row: Vec<T> = Vec::with_capacity(kept.len());
            let mut t: usize = 0;
            while t < kept.len()
                invariant
                    array.wf(),
                    w == array.width(),
                    i < array.size.1,
                    kept@.map_values(|q: usize| q as int) == cols,
                    forall|t: int| 0 <= t < kept.len() ==> (#[trigger] kept[t]) < w,
                    t <= kept.len(),
                    row.len() == t,
                    forall|u: int| 0 <= u < t ==> #[trigger] row[u] == array@[i as int][cols[u]],
                decreases kept.len() - t,
            {
                assert(kept[t as int] as int == kept@.map_values(|q: usize| q as int)[t as int]);
                row.push(array.get(i, kept[t]));
                t += 1;
            }
            content.push(row);
            i += 1;
        }
        let r = Array { content, size: (kept.len(), array.size.1) };
        assert(r@ =~~= independent_columns(array@, w));
        r
    }

    /// The coordinates in the basis `basis_b` of the vector with the
    /// coordinates `vec_a` in the basis `basis_a`: `basis_b⁻¹ · basis_a ·
    /// vec_a`. Fails where `basis_b` has no inverse.
    pub fn change_basis(basis_a: &Array<T>, vec_a: &Array<T>, basis_b: &Array<T>) -> (r: Result<Array<T>, NonInvertible>)
        requires
            basis_a.wf(),
            vec_a.wf(),
            basis_b.wf(),
            basis_b.height() == basis_a.height(),
            basis_a.width() == vec_a.height(),
            basis_b.width() + basis_b.height() <= usize::MAX,
            total::<T>(),
        ensures
            match solved(basis_b@, identity_matrix::<T>(basis_b.height()), basis_b.width() as int, basis_b.height() as int) {
                Solution::Single(x) => r is Ok && r->Ok_0.wf() && r->Ok_0.height() == basis_b.width() && r->Ok_0.width()
                    == vec_a.width() && r->Ok_0@ == product(
                    product(x, basis_a@, basis_a.height(), basis_a.width()),
                    vec_a@,
                    vec_a.height(),
                    vec_a.width(),
                ),
                _ => r is Err,
            },
            exact_field::<T>() && r is Ok ==> product(basis_b@, r->Ok_0@, basis_b.width(), vec_a.width()) == product(
                basis_a@,
                vec_a@,
                basis_a.width(),
                vec_a.width(),
            ),
    {
        proof {
            if exact_field::<T>() && solved(
                basis_b@,
                identity_matrix::<T>(basis_b.height()),
                basis_b.width() as int,
                basis_b.height() as int,
            ) is Single {
                lemma_change_basis(basis_a@, vec_a@, basis_b@, basis_b.width(), basis_a.width(), vec_a.width());
            }
        }
        let basis_b_inv = match basis_b.inv() {
            Ok(i) => i,
            Err(e) => {
                return Err(e);
            },
        };
        proof {
            lemma_total_dot_ok::<T>();
        }
        let first = basis_b_inv.mul(basis_a.clone());
        Ok(first.mul(vec_a.clone()))
    }
}

} // verus!
