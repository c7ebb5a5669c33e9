//! Eigenvalue estimation by iteration: the power method and the shifted
//! inverse power method.

use crate::arith::close;
use crate::arith::identity_matrix;
use crate::arith::lemma_total_dot_ok;
use crate::arith::product;
use crate::array::Array;
use crate::eigen_laws::lemma_power_method_finds_eigenpair;
use crate::factorizations::factored;
use crate::field::exact_field;
use crate::factorizations::lu_solved;
use crate::factorizations::LuFactorization;
use crate::factorizations::LuResult;
use crate::scalar::total;
use crate::scalar::FloatEq;
use crate::scalar::Scalar;
use crate::solver::difference;
use crate::solver::Solution;
use vstd::prelude::*;

verus! {

/// Why an iteration gave no eigenvalue.
#[derive(Debug, Clone, Copy, PartialEq, Eq)]
pub enum Failure {
    /// The iteration had not settled after this many steps.
    IterationCap(usize),
    /// The shifted matrix has no factorization: the shift is an eigenvalue.
    SingularShift,
    /// A step's system of equations has no solution.
    NoSolution,
}

/// The magnitude of `v`: `v` negated where zero is greater than it.
pub open spec fn magnitude<T: Scalar>(v: T) -> T {
    if T::zero_spec().gt_spec(v) {
        v.neg_spec()
    } else {
        v
    }
}

/// The component of largest magnitude among `best` and the entries of the
/// first column of `x` from row `i` on; of several that tie, the first.
pub open spec fn dominant_from<T: Scalar>(x: Seq<Seq<T>>, i: int, best: T) -> T
    decreases x.len() - i,
{
    if i < 0 || i >= x.len() {
        best
    } else if magnitude(x[i][0]).gt_spec(magnitude(best)) {
        dominant_from(x, i + 1, x[i][0])
    } else {
        dominant_from(x, i + 1, best)
    }
}

/// The component of largest magnitude of the column vector `x`.
pub open spec fn dominant<T: Scalar>(x: Seq<Seq<T>>) -> T {
    dominant_from(x, 1, x[0][0])
}

/// The greatest among `best` and the entries of the first column of `x` from
/// row `i` on.
pub open spec fn largest_from<T: Scalar>(x: Seq<Seq<T>>, i: int, best: T) -> T
    decreases x.len() - i,
{
    if i < 0 || i >= x.len() {
        best
    } else if x[i][0].gt_spec(best) {
        largest_from(x, i + 1, x[i][0])
    } else {
        largest_from(x, i + 1, best)
    }
}

/// The greatest component of the column vector `x`.
pub open spec fn largest<T: Scalar>(x: Seq<Seq<T>>) -> T {
    largest_from(x, 1, x[0][0])
}

/// `x`, a matrix of `w` columns, with every entry multiplied by `factor`.
pub open spec fn scaled<T: Scalar>(x: Seq<Seq<T>>, w: nat, factor: T) -> Seq<Seq<T>> {
    Seq::new(x.len(), |i: int| Seq::new(w, |j: int| x[i][j].mul_spec(factor)))
}

/// The power method on the square matrix `a` of `n` rows, continued for at
/// most `left` steps from the vector `x` and the estimate `mu`: `Ok` with
/// the first estimate and vector that are approximately equal to those of
/// the step before, else `Err` with the last ones.
pub open spec fn power_from<T: Scalar>(a: Seq<Seq<T>>, n: nat, x: Seq<Seq<T>>, mu: T, left: nat) -> Result<
    (T, Seq<Seq<T>>),
    (T, Seq<Seq<T>>),
>
    decreases left,
{
    if left == 0 {
        Err((mu, x))
    } else {
        let y = product(a, x, n, 1);
        let next_mu = dominant(y);
        let next_x = scaled(y, 1, T::one_spec().div_spec(next_mu));
        if next_mu.float_eq_spec(&mu) && close(next_x, x) {
            Ok((next_mu, next_x))
        } else {
            power_from(a, n, next_x, next_mu, (left - 1) as nat)
        }
    }
}

/// How a run of the inverse power method ends.
pub enum InverseOutcome<T> {
    Converged(T, Seq<Seq<T>>),
    NoSolution(T, Seq<Seq<T>>),
    CapExceeded(T, Seq<Seq<T>>),
}

/// The inverse power method with the shift `alpha` on the factors `(l, u)`
/// of the shifted matrix, of `n` columns, continued for at most `left` steps
/// from the vector `x` and the estimate `v`.
pub open spec fn inverse_from<T: Scalar>(
    l: Seq<Seq<T>>,
    u: Seq<Seq<T>>,
    n: nat,
    alpha: T,
    x: Seq<Seq<T>>,
    v: T,
    left: nat,
) -> InverseOutcome<T>
    decreases left,
{
    if left == 0 {
        InverseOutcome::CapExceeded(v, x)
    } else {
        match lu_solved(l, u, x, n as int, 1) {
            Solution::Inconsistent => InverseOutcome::NoSolution(v, x),
            Solution::Single(y) => inverse_step(l, u, n, alpha, x, v, left, y),
            Solution::Infinite(y, basis) => inverse_step(l, u, n, alpha, x, v, left, y),
        }
    }
}

/// The rest of a step of the inverse power method, with `y` the solution of
/// the step's system.
pub open spec fn inverse_step<T: Scalar>(
    l: Seq<Seq<T>>,
    u: Seq<Seq<T>>,
    n: nat,
    alpha: T,
    x: Seq<Seq<T>>,
    v: T,
    left: nat,
    y: Seq<Seq<T>>,
) -> InverseOutcome<T>
    decreases left, 0nat,
{
    if left == 0 {
        InverseOutcome::CapExceeded(v, x)
    } else {
        let mu = largest(y);
        let next_v = alpha.add_spec(T::one_spec()).div_spec(mu);
        let next_x = scaled(y, 1, T::one_spec().div_spec(mu));
        if next_v.float_eq_spec(&v) && close(next_x, x) {
            InverseOutcome::Converged(next_v, next_x)
        } else {
            inverse_from(l, u, n, alpha, next_x, next_v, (left - 1) as nat)
        }
    }
}

/// `a`, a square matrix of `n` rows, shifted by `alpha`: `a - I·alpha`.
pub open spec fn shifted<T: Scalar>(a: Seq<Seq<T>>, n: nat, alpha: T) -> Seq<Seq<T>> {
    difference(a, scaled(identity_matrix::<T>(n), n, alpha), n)
}

impl<T: Scalar> Array<T> {
    /// The component of largest magnitude of the first column.
    fn dominant_component(&self) -> (mu: T)
        requires
            self.wf(),
            self.height() >= 1,
            self.width() >= 1,
            total::<T>(),
        ensures
            mu == dominant(self@),
    {
        let zero = T::zero();
        let mut best = self.get(0, 0);
        let mut i: usize = 1;
        while i < self.size.1
            invariant
                self.wf(),
                self.width() >= 1,
                total::<T>(),
                zero == T::zero_spec(),
                1 <= i <= self.size.1,
                dominant_from(self@, i as int, best) == dominant(self@),
            decreases self.size.1 - i,
        {
            let v = self.get(i, 0);
            let size_v = if zero.greater(&v) { v.neg() } else { v };
            let size_best = if zero.greater(&best) { best.neg() } else { best };
            if size_v.greater(&size_best) {
                best = v;
            }
            i += 1;
        }
        best
    }

    /// The greatest component of the first column.
    fn largest_component(&self) -> (mu: T)
        requires
            self.wf(),
            self.height() >= 1,
            self.width() >= 1,
        ensures
            mu == largest(self@),
    {
        let mut best = self.get(0, 0);
        let mut i: usize = 1;
        while i < self.size.1
            invariant
                self.wf(),
                self.width() >= 1,
                1 <= i <= self.size.1,
                largest_from(self@, i as int, best) == largest(self@),
            decreases self.size.1 - i,
        {
            let v = self.get(i, 0);
            if v.greater(&best) {
                best = v;
            }
            i += 1;
        }
        best
    }

    /// The power method: from `x_zero`, multiplies by `array` and divides by
    /// the component of largest magnitude, until that component and the
    /// vector are approximately equal to those of the step before. Fails
    /// with the last estimate after `iteration_cap` steps.
    pub fn power_method(array: &Array<T>, x_zero: Array<T>, iteration_cap: usize) -> (r: Result<
        (T, Array<T>),
        (Failure, T, Array<T>),
    >)
        requires
            array.wf(),
            x_zero.wf(),
            array.width() == array.height(),
            array.height() >= 1,
            x_zero.height() == array.width(),
            x_zero.width() == 1,
            total::<T>(),
        ensures
            match power_from(array@, array.width(), x_zero@, T::zero_spec(), iteration_cap as nat) {
                Ok(found) => r is Ok && r->Ok_0.0 == found.0 && r->Ok_0.1@ == found.1 && r->Ok_0.1.wf(),
                Err(last) => r is Err && r->Err_0.0 == Failure::IterationCap(iteration_cap) && r->Err_0.1 == last.0
                    && r->Err_0.2@ == last.1 && r->Err_0.2.wf(),
            },
            exact_field::<T>() && r is Ok && r->Ok_0.0 != T::zero_spec() ==> product(array@, r->Ok_0.1@, array.width(), 1) == scaled(
                r->Ok_0.1@,
                1,
                r->Ok_0.0,
            ),
    {
        proof {
            let found = power_from(array@, array.width(), x_zero@, T::zero_spec(), iteration_cap as nat);
            if exact_field::<T>() && found is Ok && found->Ok_0.0 != T::zero_spec() {
                lemma_power_method_finds_eigenpair(array@, array.width(), x_zero@, T::zero_spec(), iteration_cap as nat);
            }
        }
        let ghost n = array.width();
        let mut x_k_minus_one = x_zero;
        let mut mu_k_minus_one = T::zero();
        let mut step: usize = 0;
        proof {
            lemma_total_dot_ok::<T>();
        }
        while step < iteration_cap
            invariant
                array.wf(),
                x_k_minus_one.wf(),
                n == array.width(),
                array.width() == array.height(),
                array.height() >= 1,
                x_k_minus_one.height() == array.width(),
                x_k_minus_one.width() == 1,
                total::<T>(),
                forall|a: Seq<T>, b: Seq<T>, k: nat| #[trigger] crate::arith::dot_ok(a, b, k),
                step <= iteration_cap,
                exact_field::<T>() && power_from(array@, n, x_zero@, T::zero_spec(), iteration_cap as nat) is Ok && power_from(
                    array@,
                    n,
                    x_zero@,
                    T::zero_spec(),
                    iteration_cap as nat,
                )->Ok_0.0 != T::zero_spec() ==> product(
                    array@,
                    power_from(array@, n, x_zero@, T::zero_spec(), iteration_cap as nat)->Ok_0.1,
                    n,
                    1,
                ) == scaled(
                    power_from(array@, n, x_zero@, T::zero_spec(), iteration_cap as nat)->Ok_0.1,
                    1,
                    power_from(array@, n, x_zero@, T::zero_spec(), iteration_cap as nat)->Ok_0.0,
                ),
                power_from(array@, n, x_k_minus_one@, mu_k_minus_one, (iteration_cap - step) as nat) == power_from(
                    array@,
                    n,
                    x_zero@,
                    T::zero_spec(),
                    iteration_cap as nat,
                ),
            decreases iteration_cap - step,
        {
            let y = array.clone().mul(x_k_minus_one.clone());
            let mu_k = y.dominant_component();
            let ghost y_model = y@;
            let x_k = y.scale(T::one().div(mu_k));
            assert(x_k@ =~~= scaled(y_model, 1, T::one_spec().div_spec(mu_k)));
            if mu_k.float_eq(&mu_k_minus_one) && x_k.float_eq(&x_k_minus_one) {
                return Ok((mu_k, x_k));
            }
            mu_k_minus_one = mu_k;
            x_k_minus_one = x_k;
            step += 1;
        }
        Err((Failure::IterationCap(iteration_cap), mu_k_minus_one, x_k_minus_one))
    }

    /// The inverse power method with the shift `alpha`: factors `array -
    /// I·alpha`, then from `x_zero` solves for the next vector and divides
    /// by its greatest component `mu`, with `(alpha + 1) / mu` the estimate,
    /// until estimate and vector are approximately equal to those of the
    /// step before. Fails at once where the shifted matrix has no
    /// factorization, on a step whose system has no solution, and after
    /// `iteration_cap` steps; each time with the last estimate.
    pub fn inverse_power_method(array: &Array<T>, x_zero: Array<T>, alpha: T, iteration_cap: usize) -> (r: Result<
        (T, Array<T>),
        (Failure, T, Array<T>),
    >)
        requires
            array.wf(),
            x_zero.wf(),
            array.width() == array.height(),
            array.height() >= 1,
            array.width() < usize::MAX,
            x_zero.height() == array.width(),
            x_zero.width() == 1,
            total::<T>(),
        ensures
            match factored(shifted(array@, array.width(), alpha), array.width() as int) {
                None => r is Err && r->Err_0.0 == Failure::SingularShift && r->Err_0.1 == alpha && r->Err_0.2@ == x_zero@,
                Some(lu) => match inverse_from(lu.0, lu.1, array.width(), alpha, x_zero@, alpha, iteration_cap as nat) {
                    InverseOutcome::Converged(v, x) => r is Ok && r->Ok_0.0 == v && r->Ok_0.1@ == x && r->Ok_0.1.wf(),
                    InverseOutcome::NoSolution(v, x) => r is Err && r->Err_0.0 == Failure::NoSolution && r->Err_0.1 == v
                        && r->Err_0.2@ == x,
                    InverseOutcome::CapExceeded(v, x) => r is Err && r->Err_0.0 == Failure::IterationCap(iteration_cap)
                        && r->Err_0.1 == v && r->Err_0.2@ == x,
                },
            },
    {
        let ghost n = array.width();
        let mut v_k_minus_one = alpha;
        let mut x_k_minus_one = x_zero.clone();
        let unit: Array<T> = Array::identity(array.size.0);
        let ghost unit_model = unit@;
        let shift = unit.scale(alpha);
        assert(shift@ =~~= scaled(unit_model, n, alpha));
        let moved = array.clone().sub(shift);
        assert(moved@ =~~= shifted(array@, n, alpha));
        let equation_system = match LuFactorization::new(moved) {
            Ok(e_s) => e_s,
            Err(_) => {
                return Err((Failure::SingularShift, alpha, x_zero));
            },
        };
        let ghost l = equation_system.lower()@;
        let ghost u = equation_system.upper()@;
        let mut step: usize = 0;
        while step < iteration_cap
            invariant
                equation_system.wf(),
                n == array.width(),
                factored(shifted(array@, n, alpha), n as int) == Some((l, u)),
                l == equation_system.lower()@,
                u == equation_system.upper()@,
                equation_system.upper().width() == n,
                equation_system.upper().height() == n,
                n >= 1,
                n < usize::MAX,
                x_k_minus_one.wf(),
                x_k_minus_one.height() == n,
                x_k_minus_one.width() == 1,
                total::<T>(),
                step <= iteration_cap,
                inverse_from(l, u, n, alpha, x_k_minus_one@, v_k_minus_one, (iteration_cap - step) as nat) == inverse_from(
                    l,
                    u,
                    n,
                    alpha,
                    x_zero@,
                    alpha,
                    iteration_cap as nat,
                ),
            decreases iteration_cap - step,
        {
            let y_k = match LuResult::from_system(equation_system.solve(x_k_minus_one.clone())) {
                Some(LuResult::Single(r)) => r,
                Some(LuResult::Infinite((r, _))) => r,
                None => {
                    return Err((Failure::NoSolution, v_k_minus_one, x_k_minus_one));
                },
            };
            let mu_k = y_k.largest_component();
            let v_k = alpha.add(T::one()).div(mu_k);
            let ghost y_model = y_k@;
            let x_k = y_k.scale(T::one().div(mu_k));
            assert(x_k@ =~~= scaled(y_model, 1, T::one_spec().div_spec(mu_k)));
            if v_k.float_eq(&v_k_minus_one) && x_k.float_eq(&x_k_minus_one) {
                return Ok((v_k, x_k));
            }
            v_k_minus_one = v_k;
            x_k_minus_one = x_k;
            step += 1;
        }
        Err((Failure::IterationCap(iteration_cap), v_k_minus_one, x_k_minus_one))
    }
}

} // verus!
