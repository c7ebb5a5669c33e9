//! LU factorization without row exchanges, and solving by substitution.

use crate::arith::combined_row;
use crate::arith::multiply_add_row;
use crate::arith::multiply_row;
use crate::arith::scaled_row;
use crate::array::rect;
use crate::array::Array;
use crate::elimination::cleared_above;
use crate::elimination::echelon;
use crate::elimination::leading;
use crate::arith::product;
use crate::field::exact_field;
use crate::lu_laws::lemma_lu_round_trip;
use crate::lu_laws::lower_triangular;
use crate::lu_laws::upper_triangular;
use crate::scalar::near_zero;
use crate::scalar::total;
use crate::scalar::FloatEq;
use crate::scalar::Scalar;
use crate::solver::augmented;
use crate::solver::classified;
use crate::solver::constant_matrix;
use crate::solver::LinearSystemResult;
use crate::solver::SingularMatrix;
use crate::solver::Solution;
use vstd::prelude::*;

verus! {

/// What a factorization's `solve` gives where the system has a solution.
#[derive(Debug, PartialEq)]
pub enum LuResult<T> {
    /// The one solution.
    Single(Array<T>),
    /// A particular solution and the free directions.
    Infinite((Array<T>, Array<T>)),
}

/// A lower-triangular `L` and an upper-triangular `U` whose product is the
/// matrix that was factored.
#[derive(Debug, PartialEq)]
pub struct LuFactorization<T> {
    pub(crate) l: Array<T>,
    pub(crate) u: Array<T>,
    pub(crate) size: (usize, usize),
}

/// The multiplier column that step `k` writes into `l`: the pivot's own
/// quotient on the diagonal, and below it the quotient of every entry of
/// column `k` of `u` that is not exactly zero.
pub open spec fn lower_step<T: Scalar>(l: Seq<Seq<T>>, u: Seq<Seq<T>>, k: int) -> Seq<Seq<T>> {
    let f = T::one_spec().div_spec(u[k][k]);
    Seq::new(
        l.len(),
        |i: int|
            if i == k || (i > k && !u[i][k].eq_spec(T::zero_spec())) {
                l[i].update(k, u[i][k].mul_spec(f))
            } else {
                l[i]
            },
    )
}

/// Step `k` on `u`: column `k` is eliminated from every row below row `k`
/// whose entry there is not exactly zero.
pub open spec fn upper_step<T: Scalar>(u: Seq<Seq<T>>, k: int) -> Seq<Seq<T>> {
    let f = T::one_spec().div_spec(u[k][k]);
    Seq::new(
        u.len(),
        |i: int|
            if i > k && !u[i][k].eq_spec(T::zero_spec()) {
                combined_row(u[i], u[k], f.mul_spec(u[i][k].neg_spec()), k)
            } else {
                u[i]
            },
    )
}

/// The factorization continued from step `k`; `None` as soon as a diagonal
/// pivot is approximately zero.
pub open spec fn lu_from<T: Scalar>(l: Seq<Seq<T>>, u: Seq<Seq<T>>, k: int, w: int) -> Option<(Seq<Seq<T>>, Seq<Seq<T>>)>
    decreases w - k,
{
    if k < 0 || k >= u.len() || k >= w {
        Some((l, u))
    } else if near_zero(u[k][k]) {
        None
    } else {
        lu_from(lower_step(l, u, k), upper_step(u, k), k + 1, w)
    }
}

/// The factors `(L, U)` of `a`, a matrix of width `w`; `None` where a
/// diagonal pivot is approximately zero.
pub open spec fn factored<T: Scalar>(a: Seq<Seq<T>>, w: int) -> Option<(Seq<Seq<T>>, Seq<Seq<T>>)> {
    lu_from(constant_matrix(a.len(), a.len(), T::zero_spec()), a, 0, w)
}

/// The solution `y` of `l·y = b` by forward elimination on `[l | b]`, where
/// `l` has `n` columns and `b` has `m`.
pub open spec fn forward_substituted<T: Scalar>(l: Seq<Seq<T>>, b: Seq<Seq<T>>, n: int, m: int) -> Seq<Seq<T>> {
    Seq::new(l.len(), |i: int| echelon(augmented(l, b), n + m)[i].skip(n))
}

/// Back-substitution with normalization, continued from row `r` upward: each
/// row with a leading entry is scaled to a leading one, and the column of
/// that entry is eliminated from the rows above.
pub open spec fn normalized_from<T: Scalar>(rows: Seq<Seq<T>>, r: int) -> Seq<Seq<T>>
    decreases r + 1,
{
    if r < 0 || r >= rows.len() {
        rows
    } else if leading(rows[r]) < rows[r].len() {
        let c = leading(rows[r]);
        let unit = scaled_row(rows[r], T::one_spec().div_spec(rows[r][c]), c);
        normalized_from(cleared_above(rows.update(r, unit), r, c), r - 1)
    } else {
        normalized_from(rows, r - 1)
    }
}

/// What the factorization `(l, u)` gives for the constants `b`: `l·y = b`
/// by forward substitution, then `u·x = y` by back-substitution and a
/// reading of the solution set. `u` has `n` columns and `b` has `m`.
pub open spec fn lu_solved<T: Scalar>(l: Seq<Seq<T>>, u: Seq<Seq<T>>, b: Seq<Seq<T>>, n: int, m: int) -> Solution<T> {
    let y = forward_substituted(l, b, l.len() as int, m);
    classified(normalized_from(augmented(u, y), u.len() - 1), n, m)
}

impl<T> LuFactorization<T> {
    /// The lower factor.
    pub open(crate) spec fn lower(&self) -> Array<T> {
        self.l
    }

    /// The upper factor.
    pub open(crate) spec fn upper(&self) -> Array<T> {
        self.u
    }

    /// The recorded shape of the matrix that was factored.
    pub open(crate) spec fn shape(&self) -> (usize, usize) {
        self.size
    }

    /// The factors agree with their shapes: `L` is square, as high as `U`.
    pub open spec fn wf(&self) -> bool {
        &&& self.lower().wf()
        &&& self.upper().wf()
        &&& self.lower().width() == self.upper().height()
        &&& self.lower().height() == self.upper().height()
    }
}

impl<T: Scalar> FloatEq for LuFactorization<T> {
    open spec fn float_eq_spec(&self, other: &Self) -> bool {
        &&& self.shape() == other.shape()
        &&& self.lower().float_eq_spec(&other.lower())
        &&& self.upper().float_eq_spec(&other.upper())
    }

    /// Whether the two factorizations are of one size and their factors
    /// approximately equal.
    fn float_eq(&self, other: &Self) -> (b: bool) {
        self.size.0 == other.size.0 && self.size.1 == other.size.1 && self.l.float_eq(&other.l) && self.u.float_eq(&other.u)
    }
}

impl<T: Scalar> LuFactorization<T> {
    /// The factorization with the given factors.
    pub fn from_factors(l: Array<T>, u: Array<T>) -> (r: Self)
        requires
            l.wf(),
            u.wf(),
            l.width() == u.height(),
            l.height() == u.height(),
        ensures
            r.wf(),
            r.lower() == l,
            r.upper() == u,
    {
        let size = u.size();
        LuFactorization { l, u, size }
    }

    /// The shape of the matrix that was factored, as `(width, height)`.
    pub fn size(&self) -> (s: (usize, usize))
        requires
            self.wf(),
        ensures
            s.0 == self.upper().width(),
            s.1 == self.upper().height(),
    {
        self.u.size()
    }

    /// A copy of the lower factor.
    pub fn lower_factor(&self) -> (r: Array<T>)
        ensures
            r@ == self.lower()@,
            r.width() == self.lower().width(),
            r.height() == self.lower().height(),
    {
        self.l.clone()
    }

    /// A copy of the upper factor.
    pub fn upper_factor(&self) -> (r: Array<T>)
        ensures
            r@ == self.upper()@,
            r.width() == self.upper().width(),
            r.height() == self.upper().height(),
    {
        self.u.clone()
    }

    /// Factors `a` into `L·U` by elimination without row exchanges. Fails as
    /// soon as a diagonal pivot is approximately zero.
    pub fn new(a: Array<T>) -> (r: Result<Self, SingularMatrix>)
        requires
            a.wf(),
            total::<T>(),
        ensures
            match factored(a@, a.width() as int) {
                Some(lu) => r is Ok && r->Ok_0.wf() && r->Ok_0.lower()@ == lu.0 && r->Ok_0.upper()@ == lu.1
                    && r->Ok_0.upper().width() == a.width() && r->Ok_0.upper().height() == a.height(),
                None => r is Err,
            },
            exact_field::<T>() && r is Ok ==> product(r->Ok_0.lower()@, r->Ok_0.upper()@, a.height(), a.width()) == a@
                && lower_triangular(r->Ok_0.lower()@) && upper_triangular(r->Ok_0.upper()@),
    {
        proof {
            if exact_field::<T>() && factored(a@, a.width() as int) is Some {
                lemma_lu_round_trip(a@, a.width());
            }
        }
        let mut u = a;
        let h = u.size.1;
        let ghost w = u.width() as int;
        let zero = T::zero();
        let mut l = Array::new_filled((h, h), zero);
        assert(l@ =~~= constant_matrix(h as nat, h as nat, T::zero_spec()));
        let mut k: usize = 0;
        while k < u.size.1 && k < u.size.0
            invariant
                u.wf(),
                l.wf(),
                total::<T>(),
                u.size == a.size,
                h == u.size.1,
                l.size == (h, h),
                w == u.width(),
                zero == T::zero_spec(),
                lu_from(l@, u@, k as int, w) == factored(a@, w),
            decreases u.size.0 - k,
        {
            let pivot = u.get(k, k);
            if pivot.float_eq(&zero) {
                return Err(SingularMatrix);
            }
            let ghost l_before = l@;
            let ghost u_before = u@;
            assert(u_before[k as int].len() == u.width());
            let factor = T::one().div(pivot);
            l.set(k, k, pivot.mul(factor));
            let mut row: usize = k + 1;
            while row < h
                invariant
                    u.wf(),
                    l.wf(),
                    total::<T>(),
                    u.size == a.size,
                    h == u.size.1,
                    l.size == (h, h),
                    k < u.size.0,
                    k < row <= h,
                    l_before.len() == h,
                    u_before.len() == h,
                    rect(u_before, u.width()),
                    rect(l_before, h as nat),
                    factor == T::one_spec().div_spec(u_before[k as int][k as int]),
                    forall|i: int| 0 <= i < row ==> #[trigger] l@[i] == lower_step(l_before, u_before, k as int)[i],
                    forall|i: int| row <= i < h ==> #[trigger] l@[i] == l_before[i],
                    forall|i: int| 0 <= i < row ==> #[trigger] u@[i] == upper_step(u_before, k as int)[i],
                    forall|i: int| row <= i < h ==> #[trigger] u@[i] == u_before[i],
                decreases h - row,
            {
                assert(u@[row as int] == u_before[row as int]);
                assert(u@[k as int] == u_before[k as int]);
                assert(l@[row as int] == l_before[row as int]);
                let entry = u.get(row, k);
                if !entry.is_zero() {
                    let u_factor = factor.mul(entry.neg());
                    l.set(row, k, entry.mul(factor));
                    multiply_add_row(&mut u, k, row, u_factor, k);
                }
                row += 1;
            }
            assert(l@ =~= lower_step(l_before, u_before, k as int));
            assert(u@ =~= upper_step(u_before, k as int));
            k += 1;
        }
        let size = u.size;
        Ok(LuFactorization { l, u, size })
    }

    /// Back-substitution with normalization on `[U | y]`.
    fn solve_l(&self, y: Array<T>) -> (r: Array<T>)
        requires
            self.wf(),
            y.wf(),
            y.height() == self.upper().height(),
            self.upper().width() + y.width() <= usize::MAX,
            total::<T>(),
        ensures
            r.wf(),
            r.width() == self.upper().width() + y.width(),
            r.height() == self.upper().height(),
            r@ == normalized_from(augmented(self.upper()@, y@), self.upper().height() - 1),
    {
        let mut temp = Array::concat_0_axis(self.u.clone(), y);
        assert(temp@ =~= augmented(self.upper()@, y@));
        let ghost start = temp@;
        let mut r: usize = temp.size.1;
        while r > 0
            invariant
                temp.wf(),
                total::<T>(),
                temp.width() == self.upper().width() + y.width(),
                temp.height() == self.upper().height(),
                r <= temp.size.1,
                normalized_from(temp@, r - 1) == normalized_from(start, start.len() - 1),
            decreases r,
        {
            r -= 1;
            assert(temp@[r as int].len() == temp.width());
            let c = temp.leading_col(r);
            if c < temp.size.0 {
                let factor = T::one().div(temp.get(r, c));
                multiply_row(&mut temp, r, factor, c);
                temp.clear_above_row(r, c);
            }
        }
        temp
    }

    /// Solves `L·U·x = b`: `L·y = b` by forward substitution, then `U·x = y`
    /// by back-substitution and a reading of the solution set.
    pub fn solve(&self, b: Array<T>) -> (r: LinearSystemResult<T>)
        requires
            self.wf(),
            b.wf(),
            b.height() == self.upper().height(),
            self.upper().width() + b.width() <= usize::MAX,
            self.upper().height() + b.width() <= usize::MAX,
            total::<T>(),
        ensures
            r.wf(self.upper().width(), b.width()),
            r@ == lu_solved(self.lower()@, self.upper()@, b@, self.upper().width() as int, b.width() as int),
    {
        let ghost n = self.lower().width() as int;
        let ghost m = b.width() as int;
        let y = {
            let mut temp = Array::concat_0_axis(self.l.clone(), b);
            assert(temp@ =~= augmented(self.lower()@, b@));
            temp.echelon_form();
            Array::split_0_axis(temp, self.l.size.0).1
        };
        assert(y@ =~= forward_substituted(self.lower()@, b@, n, m));
        let res = self.solve_l(y);
        Array::extract_solution_from_matrix(res, self.u.clone())
    }
}

impl<T> LuResult<T> {
    /// The solution held: the one solution, or the particular one.
    pub open spec fn solution(&self) -> Array<T> {
        match self {
            LuResult::Single(x) => *x,
            LuResult::Infinite(pair) => pair.0,
        }
    }
}

impl<T: Scalar> LuResult<T> {
    /// The result of a system that has a solution; `None` for one that has
    /// none.
    pub fn from_system(r: LinearSystemResult<T>) -> (out: Option<LuResult<T>>)
        ensures
            match r {
                LinearSystemResult::Single(x) => out == Some(LuResult::Single(x)),
                LinearSystemResult::Infinite(pair) => out == Some(LuResult::Infinite(pair)),
                LinearSystemResult::Inconsistent => out is None,
            },
    {
        match r {
            LinearSystemResult::Single(x) => Some(LuResult::Single(x)),
            LinearSystemResult::Infinite(pair) => Some(LuResult::Infinite(pair)),
            LinearSystemResult::Inconsistent => None,
        }
    }
}

} // verus!
