//! What holds of the solutions that `solve` reads off a reduced augmented
//! matrix, over an exact field.

use crate::arith::column;
use crate::arith::dot;
use crate::arith::product;
use crate::array::rect;
use crate::echelon_laws::staircase;
use crate::elimination::leading;
use crate::elimination::reduced;
use crate::field::exact_field;
use crate::field::lemma_add_assoc;
use crate::field::lemma_add_cancel;
use crate::field::lemma_add_comm;
use crate::field::lemma_add_neg;
use crate::field::lemma_add_zero;
use crate::field::lemma_mul_comm;
use crate::field::lemma_mul_neg;
use crate::field::lemma_mul_one;
use crate::field::lemma_mul_zero;
use crate::reduction_laws::lemma_reduced_carries;
use crate::reduction_laws::lemma_reduced_is_reduced_staircase;
use crate::reduction_laws::lemma_reduced_states;
use crate::reduction_laws::lemma_zero_before_leading;
use crate::reduction_laws::reduced_staircase;
use crate::rows::annihilated;
use crate::rows::lemma_dot_combined;
use crate::rows::lemma_leading;
use crate::rows::weighed;
use crate::scalar::Scalar;
use crate::solver::augmented;
use crate::solver::constant_matrix;
use crate::solver::contradicts;
use crate::solver::direction_entry;
use crate::solver::free_columns;
use crate::solver::freedom_basis;
use crate::solver::inconsistent;
use crate::solver::is_free;
use crate::solver::lemma_free_columns;
use crate::solver::lemma_owner;
use crate::solver::owner;
use crate::solver::owner_from;
use crate::solver::particular;
use crate::solver::solved;
use crate::sums::lemma_dot_same;
use crate::sums::lemma_dot_step;
use vstd::prelude::*;

verus! {

/// The product of entry `j` of `a` and `b`, where `j` lies in `[0, n)`;
/// zero otherwise.
pub open spec fn term<T: Scalar>(a: Seq<T>, b: Seq<T>, n: nat, j: int) -> T {
    if 0 <= j < n {
        a[j].mul_spec(b[j])
    } else {
        T::zero_spec()
    }
}

/// A dot product all of whose products vanish, but for those at `x` and at
/// `y`, is the sum of these two.
pub proof fn lemma_dot_sparse<T: Scalar>(a: Seq<T>, b: Seq<T>, n: nat, x: int, y: int)
    requires
        exact_field::<T>(),
        x != y,
        forall|j: int| 0 <= j < n && j != x && j != y ==> #[trigger] a[j].mul_spec(b[j]) == T::zero_spec(),
    ensures
        dot(a, b, n) == term(a, b, n, x).add_spec(term(a, b, n, y)),
    decreases n,
{
    let zero = T::zero_spec();
    lemma_add_zero(zero);
    if n > 0 {
        let m = (n - 1) as nat;
        lemma_dot_sparse(a, b, m, x, y);
        lemma_dot_step(a, b, m);
        let last = a[m as int].mul_spec(b[m as int]);
        lemma_add_zero(term(a, b, m, x).add_spec(term(a, b, m, y)));
        lemma_add_zero(last);
        lemma_add_zero(term(a, b, m, x));
        lemma_add_zero(term(a, b, m, y));
        lemma_add_comm(term(a, b, m, y), last);
    }
}

/// In a staircase, the pivot row of the leading column of a row is that
/// row.
pub proof fn lemma_owner_is_the_row<T: Scalar>(red: Seq<Seq<T>>, w: int, i: int)
    requires
        staircase(red, w),
        0 <= i < red.len(),
        leading(red[i]) < w,
    ensures
        owner(red, leading(red[i])) == i,
{
    let j = leading(red[i]);
    lemma_owner_first(red, j, 0, i);
    lemma_owner(red, j, 0);
    let o = owner(red, j);
    if o < i {
        assert(leading(red[o]) < leading(red[i]) || leading(red[i]) == w);
    }
}

/// The search for the pivot row of a column ends at the first row that
/// leads there.
proof fn lemma_owner_first<T: Scalar>(red: Seq<Seq<T>>, j: int, k: int, i: int)
    requires
        0 <= k <= i < red.len(),
        leading(red[i]) == j,
    ensures
        k <= owner_from(red, j, k) <= i,
    decreases i - k,
{
    if leading(red[k]) != j {
        lemma_owner_first(red, j, k + 1, i);
    }
}

/// In a reduced staircase, the column of a row's leading entry is zero in
/// every other row.
pub proof fn lemma_pivot_column<T: Scalar>(red: Seq<Seq<T>>, w: nat, o: int, i: int)
    requires
        exact_field::<T>(),
        rect(red, w),
        reduced_staircase(red, w as int),
        0 <= o < red.len(),
        0 <= i < red.len(),
        i != o,
        leading(red[o]) < w,
    ensures
        red[i][leading(red[o])] == T::zero_spec(),
{
    if i > o {
        assert(leading(red[o]) < leading(red[i]) || leading(red[i]) == w);
        lemma_leading(red[o]);
        lemma_zero_before_leading(red[i]);
        assert(red[i].len() == w);
    }
}

/// Column `t` of the particular solution.
pub open spec fn particular_column<T: Scalar>(red: Seq<Seq<T>>, n: int, m: int, t: int) -> Seq<T> {
    column(particular(red, n, m), t)
}

/// The free direction of the free column `q`.
pub open spec fn direction<T: Scalar>(red: Seq<Seq<T>>, n: int, q: int) -> Seq<T> {
    Seq::new(n as nat, |j: int| direction_entry(red, j, q))
}

/// Every row of a consistent reduced staircase states column `t` of the
/// particular solution: its coefficients times that column give its
/// constant `t`.
proof fn lemma_row_states_particular<T: Scalar>(red: Seq<Seq<T>>, n: nat, m: nat, t: int, i: int)
    requires
        exact_field::<T>(),
        rect(red, n + m),
        reduced_staircase(red, (n + m) as int),
        !inconsistent(red, n as int),
        0 <= t < m,
        0 <= i < red.len(),
    ensures
        weighed(red[i], particular_column(red, n as int, m as int, t), n, n + t, T::one_spec().neg_spec()) == T::zero_spec(),
{
    let zero = T::zero_spec();
    let one = T::one_spec();
    let w = n + m;
    let row = red[i];
    let v = particular_column(red, n as int, m as int, t);
    let lead = leading(row);
    let s = one.neg_spec();
    assert(row.len() == w);
    assert(!contradicts(red[i], n as int));
    lemma_zero_before_leading(row);
    lemma_add_zero(zero);
    if lead >= n {
        assert forall|j: int| 0 <= j < n implies #[trigger] row[j].mul_spec(v[j]) == zero by {
            assert(row[j] == zero);
            lemma_mul_zero(v[j]);
        }
        lemma_dot_sparse(row, v, n, -1, -2);
        assert(row[n + t] == zero);
        lemma_mul_zero(s);
    } else {
        lemma_owner_is_the_row(red, w as int, i);
        assert forall|j: int| 0 <= j < n && j != lead && j != -1 implies #[trigger] row[j].mul_spec(v[j]) == zero by {
            if is_free(red, j) {
                assert(v[j] == zero);
                lemma_mul_zero(row[j]);
            } else {
                lemma_owner(red, j, 0);
                lemma_pivot_column(red, w, owner(red, j), i);
                lemma_mul_zero(v[j]);
            }
        }
        lemma_dot_sparse(row, v, n, lead, -1);
        assert(v[lead] == row[n + t]);
        assert(row[lead] == one);
        lemma_mul_one(row[n + t]);
        lemma_add_zero(row[n + t]);
        lemma_mul_neg(row[n + t], one);
        lemma_add_neg(row[n + t]);
    }
}

/// Every row of a reduced staircase makes zero of the free direction of a
/// free column.
pub proof fn lemma_row_states_direction<T: Scalar>(red: Seq<Seq<T>>, n: nat, m: nat, q: int, i: int)
    requires
        exact_field::<T>(),
        rect(red, n + m),
        reduced_staircase(red, (n + m) as int),
        0 <= q < n,
        is_free(red, q),
        0 <= i < red.len(),
    ensures
        weighed(red[i], direction(red, n as int, q), n, 0, T::zero_spec()) == T::zero_spec(),
{
    let zero = T::zero_spec();
    let one = T::one_spec();
    let w = n + m;
    let row = red[i];
    let v = direction(red, n as int, q);
    let lead = leading(row);
    assert(row.len() == w);
    lemma_zero_before_leading(row);
    lemma_add_zero(zero);
    lemma_mul_zero(row[0]);
    if lead >= n {
        assert forall|j: int| 0 <= j < n implies #[trigger] row[j].mul_spec(v[j]) == zero by {
            assert(row[j] == zero);
            lemma_mul_zero(v[j]);
        }
        lemma_dot_sparse(row, v, n, -1, -2);
    } else {
        lemma_owner_is_the_row(red, w as int, i);
        assert(lead != q);
        assert forall|j: int| 0 <= j < n && j != lead && j != q implies #[trigger] row[j].mul_spec(v[j]) == zero by {
            if is_free(red, j) {
                assert(v[j] == zero);
                lemma_mul_zero(row[j]);
            } else {
                lemma_owner(red, j, 0);
                lemma_pivot_column(red, w, owner(red, j), i);
                lemma_mul_zero(v[j]);
            }
        }
        lemma_dot_sparse(row, v, n, lead, q);
        // The leading one times the negated coefficient, plus the
        // coefficient times one.
        assert(v[lead] == row[q].neg_spec());
        assert(v[q] == one);
        assert(row[lead] == one);
        lemma_mul_one(row[q].neg_spec());
        lemma_mul_one(row[q]);
        lemma_add_neg(row[q]);
        lemma_add_zero(zero);
    }
}

/// The particular solution solves the system: over an exact field, where
/// the reduced augmented matrix of `a·x = b` states no contradiction, `a`
/// times the particular solution read off it is `b`.
pub proof fn lemma_particular_solves<T: Scalar>(a: Seq<Seq<T>>, b: Seq<Seq<T>>, n: nat, m: nat)
    requires
        exact_field::<T>(),
        rect(a, n),
        rect(b, m),
        a.len() == b.len(),
        !inconsistent(reduced(augmented(a, b), (n + m) as int), n as int),
    ensures
        product(a, particular(reduced(augmented(a, b), (n + m) as int), n as int, m as int), n, m) == b,
{
    let zero = T::zero_spec();
    let one = T::one_spec();
    let w = n + m;
    let aug = augmented(a, b);
    let red = reduced(aug, w as int);
    let x = particular(red, n as int, m as int);
    assert forall|i: int| 0 <= i < aug.len() implies (#[trigger] aug[i]).len() == w by {
        assert(a[i].len() == n && b[i].len() == m);
    }
    lemma_reduced_is_reduced_staircase(aug, w);
    assert forall|i: int, t: int| 0 <= i < a.len() && 0 <= t < m implies dot(a[i], column(x, t), n) == #[trigger] b[i][t] by {
        let v = particular_column(red, n as int, m as int, t);
        let s = one.neg_spec();
        assert forall|r: int| 0 <= r < red.len() implies weighed(#[trigger] red[r], v, n, n + t, s) == zero by {
            lemma_row_states_particular(red, n, m, t, r);
        }
        lemma_reduced_states(aug, w, v, n, n + t, s);
        assert(weighed(aug[i], v, n, n + t, s) == zero);
        assert(a[i].len() == n && b[i].len() == m);
        lemma_dot_same(aug[i], v, a[i], v, n);
        assert(aug[i][n + t] == b[i][t]);
        // d + b·(-1) == 0 == b + (-b), so d == b.
        let d = dot(a[i], v, n);
        lemma_mul_neg(b[i][t], one);
        lemma_mul_one(b[i][t]);
        lemma_add_neg(b[i][t]);
        lemma_add_cancel(d, b[i][t], b[i][t].neg_spec());
    }
    assert(product(a, x, n, m) =~~= b);
}

/// The free directions solve the homogeneous system: over an exact field,
/// where the reduced augmented matrix of `a·x = b` states no contradiction,
/// `a` times the matrix of free directions read off it is zero.
pub proof fn lemma_directions_vanish<T: Scalar>(a: Seq<Seq<T>>, b: Seq<Seq<T>>, n: nat, m: nat)
    requires
        exact_field::<T>(),
        rect(a, n),
        rect(b, m),
        a.len() == b.len(),
        !inconsistent(reduced(augmented(a, b), (n + m) as int), n as int),
    ensures
        product(
            a,
            freedom_basis(reduced(augmented(a, b), (n + m) as int), n as int),
            n,
            free_columns(reduced(augmented(a, b), (n + m) as int), n as int).len(),
        ) == constant_matrix(a.len(), free_columns(reduced(augmented(a, b), (n + m) as int), n as int).len(), T::zero_spec()),
{
    let zero = T::zero_spec();
    let w = n + m;
    let aug = augmented(a, b);
    let red = reduced(aug, w as int);
    let free = free_columns(red, n as int);
    let basis = freedom_basis(red, n as int);
    assert forall|i: int| 0 <= i < aug.len() implies (#[trigger] aug[i]).len() == w by {
        assert(a[i].len() == n && b[i].len() == m);
    }
    lemma_reduced_is_reduced_staircase(aug, w);
    lemma_free_columns(red, n as int);
    assert forall|i: int, u: int| 0 <= i < a.len() && 0 <= u < free.len() implies #[trigger] dot(a[i], column(basis, u), n) == zero by {
        let q = free[u];
        lemma_free_is_free(red, n as int, u);
        let v = direction(red, n as int, q);
        assert(column(basis, u) =~= v);
        assert forall|r: int| 0 <= r < red.len() implies weighed(#[trigger] red[r], v, n, 0, zero) == zero by {
            lemma_row_states_direction(red, n, m, q, r);
        }
        lemma_reduced_states(aug, w, v, n, 0, zero);
        assert(weighed(aug[i], v, n, 0, zero) == zero);
        assert(a[i].len() == n);
        lemma_dot_same(aug[i], v, a[i], v, n);
        lemma_mul_zero(aug[i][0]);
        lemma_add_zero(dot(a[i], v, n));
    }
    assert(product(a, basis, n, free.len()) =~~= constant_matrix(a.len(), free.len(), zero));
}

/// The columns listed as free are free.
pub proof fn lemma_free_is_free<T: Scalar>(red: Seq<Seq<T>>, k: int, u: int)
    requires
        0 <= u < free_columns(red, k).len(),
    ensures
        is_free(red, free_columns(red, k)[u]),
        0 <= free_columns(red, k)[u] < k,
    decreases k,
{
    if k > 0 {
        if u < free_columns(red, k - 1).len() {
            lemma_free_is_free(red, k - 1, u);
        }
    }
}

/// A unique solution solves the system: over an exact field, where `solve`
/// finds the one solution `x` of `a·x = b`, the product `a·x` is `b`.
pub proof fn lemma_single_solves<T: Scalar>(a: Seq<Seq<T>>, b: Seq<Seq<T>>, n: nat, m: nat)
    requires
        exact_field::<T>(),
        rect(a, n),
        rect(b, m),
        a.len() == b.len(),
        solved(a, b, n as int, m as int) is Single,
    ensures
        product(a, solved(a, b, n as int, m as int)->Single_0, n, m) == b,
{
    lemma_particular_solves(a, b, n, m);
}

/// A family of solutions solves the system: over an exact field, where
/// `solve` finds a particular solution `x` of `a·x = b` and free
/// directions, the product `a·x` is `b` and `a` times the matrix of free
/// directions is zero.
pub proof fn lemma_infinite_solves<T: Scalar>(a: Seq<Seq<T>>, b: Seq<Seq<T>>, n: nat, m: nat)
    requires
        exact_field::<T>(),
        rect(a, n),
        rect(b, m),
        a.len() == b.len(),
        solved(a, b, n as int, m as int) is Infinite,
    ensures
        product(a, solved(a, b, n as int, m as int)->Infinite_0, n, m) == b,
        product(
            a,
            solved(a, b, n as int, m as int)->Infinite_1,
            n,
            free_columns(reduced(augmented(a, b), (n + m) as int), n as int).len(),
        ) == constant_matrix(a.len(), free_columns(reduced(augmented(a, b), (n + m) as int), n as int).len(), T::zero_spec()),
{
    lemma_particular_solves(a, b, n, m);
    lemma_directions_vanish(a, b, n, m);
}

/// The entrywise sum of `a` and `b`, matrices of `w` columns.
pub open spec fn matrix_sum<T: Scalar>(a: Seq<Seq<T>>, b: Seq<Seq<T>>, w: nat) -> Seq<Seq<T>> {
    Seq::new(a.len(), |i: int| Seq::new(w, |j: int| a[i][j].add_spec(b[i][j])))
}

/// A dot product does not depend on the order of its arguments.
pub proof fn lemma_dot_commutes<T: Scalar>(a: Seq<T>, b: Seq<T>, n: nat)
    requires
        exact_field::<T>(),
    ensures
        dot(a, b, n) == dot(b, a, n),
    decreases n,
{
    if n > 0 {
        let m = (n - 1) as nat;
        lemma_dot_commutes(a, b, m);
        lemma_dot_step(a, b, m);
        lemma_dot_step(b, a, m);
        lemma_mul_comm(a[m as int], b[m as int]);
    }
}

/// Column `col` of `fixed + basis·t`, with the sums over the columns of
/// `basis` cut after `g` terms.
spec fn partly_shifted<T: Scalar>(fixed: Seq<Seq<T>>, basis: Seq<Seq<T>>, t: Seq<Seq<T>>, col: int, g: nat) -> Seq<T> {
    Seq::new(fixed.len(), |j: int| fixed[j][col].add_spec(dot(basis[j], column(t, col), g)))
}

/// Where `a·fixed` is `b` and `a·basis` is zero, row `i` of `a` times a
/// column of `fixed + basis·t`, cut after `g` terms, is the entry of `b`.
proof fn lemma_shift_keeps<T: Scalar>(
    a: Seq<Seq<T>>,
    b: Seq<Seq<T>>,
    fixed: Seq<Seq<T>>,
    basis: Seq<Seq<T>>,
    t: Seq<Seq<T>>,
    n: nat,
    m: nat,
    f: nat,
    i: int,
    col: int,
    g: nat,
)
    requires
        exact_field::<T>(),
        fixed.len() == n,
        basis.len() == n,
        0 <= i < a.len(),
        0 <= col < m,
        g <= f,
        product(a, fixed, n, m) == b,
        product(a, basis, n, f) == constant_matrix(a.len(), f, T::zero_spec()),
    ensures
        dot(a[i], partly_shifted(fixed, basis, t, col, g), n) == b[i][col],
    decreases g,
{
    let zero = T::zero_spec();
    let tc = column(t, col);
    let y = partly_shifted(fixed, basis, t, col, g);
    assert(product(a, fixed, n, m)[i][col] == dot(a[i], column(fixed, col), n));
    if g == 0 {
        assert forall|j: int| 0 <= j < n implies y[j] == column(fixed, col)[j] by {
            lemma_add_zero(fixed[j][col]);
        }
        lemma_dot_same(a[i], y, a[i], column(fixed, col), n);
    } else {
        let e = (g - 1) as nat;
        let before = partly_shifted(fixed, basis, t, col, e);
        let direction = column(basis, e as int);
        let weight = tc[e as int];
        lemma_shift_keeps(a, b, fixed, basis, t, n, m, f, i, col, e);
        assert forall|j: int| 0 <= j < n implies y[j] == before[j].add_spec(direction[j].mul_spec(weight)) by {
            lemma_dot_step(basis[j], tc, e);
            lemma_add_assoc(fixed[j][col], dot(basis[j], tc, e), basis[j][e as int].mul_spec(weight));
        }
        lemma_dot_combined(before, direction, y, a[i], weight, n);
        lemma_dot_commutes(a[i], y, n);
        lemma_dot_commutes(a[i], before, n);
        lemma_dot_commutes(a[i], direction, n);
        assert(product(a, basis, n, f)[i][e as int] == dot(a[i], direction, n));
        assert(constant_matrix(a.len(), f, zero)[i][e as int] == zero);
        lemma_mul_zero(weight);
        lemma_add_zero(b[i][col]);
    }
}

/// The whole family solves the system: over an exact field, where `solve`
/// finds a particular solution `x` of `a·x = b` and the free directions
/// `basis`, every `x + basis·t` solves the system, whatever the
/// coefficients `t`.
pub proof fn lemma_family_solves<T: Scalar>(a: Seq<Seq<T>>, b: Seq<Seq<T>>, n: nat, m: nat, t: Seq<Seq<T>>)
    requires
        exact_field::<T>(),
        rect(a, n),
        rect(b, m),
        a.len() == b.len(),
        solved(a, b, n as int, m as int) is Infinite,
    ensures
        product(
            a,
            matrix_sum(
                solved(a, b, n as int, m as int)->Infinite_0,
                product(
                    solved(a, b, n as int, m as int)->Infinite_1,
                    t,
                    free_columns(reduced(augmented(a, b), (n + m) as int), n as int).len(),
                    m,
                ),
                m,
            ),
            n,
            m,
        ) == b,
{
    let red = reduced(augmented(a, b), (n + m) as int);
    let f = free_columns(red, n as int).len();
    let fixed = particular(red, n as int, m as int);
    let basis = freedom_basis(red, n as int);
    let moved = matrix_sum(fixed, product(basis, t, f, m), m);
    lemma_infinite_solves(a, b, n, m);
    assert forall|i: int, col: int| 0 <= i < a.len() && 0 <= col < m implies dot(a[i], column(moved, col), n) == #[trigger] b[i][col] by {
        lemma_shift_keeps(a, b, fixed, basis, t, n, m, f, i, col, f);
        assert(column(moved, col) =~= partly_shifted(fixed, basis, t, col, f));
    }
    assert(product(a, moved, n, m) =~~= b);
}

/// Column `t` of `x` solves the equations of `rows`, augmented rows of `n`
/// coefficients each: every row's coefficients times the column give the
/// row's constant `t`.
pub open spec fn solves<T: Scalar>(rows: Seq<Seq<T>>, x: Seq<Seq<T>>, n: nat, t: int) -> bool {
    annihilated(rows, column(x, t), n, n + t, T::one_spec().neg_spec())
}

/// Where `a·x` is `b`, every column of `x` solves the equations of
/// `[a | b]`.
proof fn lemma_product_solves<T: Scalar>(a: Seq<Seq<T>>, b: Seq<Seq<T>>, x: Seq<Seq<T>>, n: nat, m: nat, t: int)
    requires
        exact_field::<T>(),
        rect(a, n),
        rect(b, m),
        a.len() == b.len(),
        0 <= t < m,
        product(a, x, n, m) == b,
    ensures
        solves(augmented(a, b), x, n, t),
{
    let one = T::one_spec();
    let aug = augmented(a, b);
    let v = column(x, t);
    assert forall|i: int| 0 <= i < aug.len() implies weighed(#[trigger] aug[i], v, n, n + t, one.neg_spec()) == T::zero_spec() by {
        assert(a[i].len() == n && b[i].len() == m);
        lemma_dot_same(aug[i], v, a[i], v, n);
        assert(product(a, x, n, m)[i][t] == dot(a[i], v, n));
        assert(aug[i][n + t] == b[i][t]);
        lemma_mul_neg(b[i][t], one);
        lemma_mul_one(b[i][t]);
        lemma_add_neg(b[i][t]);
    }
}

/// An inconsistent system has no solution: over an exact field, where
/// `solve` finds `a·x = b` inconsistent, no `x` has `a·x == b`.
pub proof fn lemma_inconsistent_has_no_solution<T: Scalar>(a: Seq<Seq<T>>, b: Seq<Seq<T>>, n: nat, m: nat, x: Seq<Seq<T>>)
    requires
        exact_field::<T>(),
        rect(a, n),
        rect(b, m),
        a.len() == b.len(),
        solved(a, b, n as int, m as int) is Inconsistent,
    ensures
        product(a, x, n, m) != b,
{
    let zero = T::zero_spec();
    let one = T::one_spec();
    let w = n + m;
    let aug = augmented(a, b);
    let red = reduced(aug, w as int);
    if product(a, x, n, m) == b {
        assert forall|i: int| 0 <= i < aug.len() implies (#[trigger] aug[i]).len() == w by {
            assert(a[i].len() == n && b[i].len() == m);
        }
        lemma_reduced_is_reduced_staircase(aug, w);
        let i = choose|i: int| 0 <= i < red.len() && contradicts(#[trigger] red[i], n as int);
        let row = red[i];
        assert(row.len() == w);
        let t = leading(row) - n;
        let v = column(x, t);
        lemma_product_solves(a, b, x, n, m, t);
        lemma_reduced_carries(aug, w, v, n, n + t, one.neg_spec());
        assert(weighed(row, v, n, n + t, one.neg_spec()) == zero);
        // The coefficients are zero and the constant is not.
        lemma_zero_before_leading(row);
        assert forall|j: int| 0 <= j < n && j != -1 && j != -2 implies #[trigger] row[j].mul_spec(v[j]) == zero by {
            lemma_mul_zero(v[j]);
        }
        lemma_dot_sparse(row, v, n, -1, -2);
        lemma_add_zero(zero);
        let e = row[n + t];
        lemma_mul_neg(e, one);
        lemma_mul_one(e);
        lemma_add_zero(e.neg_spec());
        lemma_add_neg(e);
        lemma_add_comm(zero, e.neg_spec());
        // -e == 0, so e == e + -e == 0.
        lemma_add_zero(e);
        assert(false);
    }
}

/// A unique solution is the only one: over an exact field, where `solve`
/// finds the one solution of `a·x = b`, every `x` of `n` rows of `m`
/// entries with `a·x == b` is that solution.
pub proof fn lemma_single_is_unique<T: Scalar>(a: Seq<Seq<T>>, b: Seq<Seq<T>>, n: nat, m: nat, x: Seq<Seq<T>>)
    requires
        exact_field::<T>(),
        rect(a, n),
        rect(b, m),
        a.len() == b.len(),
        solved(a, b, n as int, m as int) is Single,
        x.len() == n,
        rect(x, m),
        product(a, x, n, m) == b,
    ensures
        x == solved(a, b, n as int, m as int)->Single_0,
{
    let zero = T::zero_spec();
    let one = T::one_spec();
    let w = n + m;
    let aug = augmented(a, b);
    let red = reduced(aug, w as int);
    let found = particular(red, n as int, m as int);
    assert forall|i: int| 0 <= i < aug.len() implies (#[trigger] aug[i]).len() == w by {
        assert(a[i].len() == n && b[i].len() == m);
    }
    lemma_reduced_is_reduced_staircase(aug, w);
    crate::inverse_laws::lemma_no_free_columns(red, n as int);
    assert forall|j: int, t: int| 0 <= j < n && 0 <= t < m implies #[trigger] x[j][t] == found[j][t] by {
        let v = column(x, t);
        lemma_product_solves(a, b, x, n, m, t);
        lemma_reduced_carries(aug, w, v, n, n + t, one.neg_spec());
        crate::inverse_laws::lemma_full_rank_rows(red, w, n, j);
        let row = red[j];
        assert(row.len() == w);
        assert(weighed(row, v, n, n + t, one.neg_spec()) == zero);
        assert forall|c: int| 0 <= c < n && c != j && c != -1 implies #[trigger] row[c].mul_spec(v[c]) == zero by {
            crate::inverse_laws::lemma_full_rank_rows(red, w, n, c);
            lemma_pivot_column(red, w, c, j);
            lemma_mul_zero(v[c]);
        }
        lemma_dot_sparse(row, v, n, j, -1);
        let e = row[n + t];
        assert(row[j] == one);
        lemma_mul_one(v[j]);
        lemma_add_zero(v[j]);
        lemma_mul_neg(e, one);
        lemma_mul_one(e);
        lemma_add_neg(e);
        lemma_add_cancel(v[j], e, e.neg_spec());
        assert(found[j] == row.subrange(n as int, (n + m) as int));
    }
    assert forall|j: int| 0 <= j < n implies (#[trigger] found[j]).len() == m && x[j].len() == m by {
        crate::inverse_laws::lemma_full_rank_rows(red, w, n, j);
        assert(red[j].len() == w);
    }
    assert(x =~~= found);
}

/// The sum, over the free columns before column `k`, of the entry of `r`
/// in that column times the entry of `v` in that place.
pub open spec fn free_sum<T: Scalar>(red: Seq<Seq<T>>, r: Seq<T>, v: Seq<T>, k: int) -> T
    decreases k,
{
    if k <= 0 {
        T::zero_spec()
    } else if is_free(red, k - 1) {
        free_sum(red, r, v, k - 1).add_spec(r[k - 1].mul_spec(v[k - 1]))
    } else {
        free_sum(red, r, v, k - 1)
    }
}

/// The rows of `z` that stand in the places of the free columns: the
/// coefficients of `z` over the free directions.
pub open spec fn free_part<T: Scalar>(red: Seq<Seq<T>>, z: Seq<Seq<T>>, n: int) -> Seq<Seq<T>> {
    Seq::new(free_columns(red, n).len(), |u: int| z[free_columns(red, n)[u]])
}

/// The free columns before column `k` come first among those before a
/// later column.
proof fn lemma_free_prefix<T: Scalar>(red: Seq<Seq<T>>, k: int, n: int)
    requires
        0 <= k <= n,
    ensures
        free_columns(red, k).len() <= free_columns(red, n).len(),
        forall|u: int| 0 <= u < free_columns(red, k).len() ==> #[trigger] free_columns(red, n)[u] == free_columns(red, k)[u],
    decreases n - k,
{
    if k < n {
        lemma_free_prefix(red, k, n - 1);
    }
}

/// The dot product of a pivot row with a vector, as far as column `k`: the
/// vector's entry in the pivot's place, once that is passed, plus the sum
/// over the free columns.
proof fn lemma_pivot_row_dot<T: Scalar>(red: Seq<Seq<T>>, w: nat, n: nat, i: int, v: Seq<T>, k: int)
    requires
        exact_field::<T>(),
        rect(red, w),
        reduced_staircase(red, w as int),
        n <= w,
        0 <= i < red.len(),
        leading(red[i]) < n,
        0 <= k <= n,
    ensures
        dot(red[i], v, k as nat) == (if leading(red[i]) < k { v[leading(red[i])] } else { T::zero_spec() }).add_spec(
            free_sum(red, red[i], v, k),
        ),
    decreases k,
{
    let zero = T::zero_spec();
    let row = red[i];
    let lead = leading(row);
    lemma_add_zero(zero);
    lemma_leading(row);
    if k > 0 {
        let c = k - 1;
        lemma_pivot_row_dot(red, w, n, i, v, c);
        lemma_dot_step(row, v, c as nat);
        let head = if lead < c { v[lead] } else { zero };
        let rest = free_sum(red, row, v, c);
        assert(dot(row, v, k as nat) == head.add_spec(rest).add_spec(row[c].mul_spec(v[c])));
        if c == lead {
            lemma_owner_is_the_row(red, w as int, i);
            assert(!is_free(red, c));
            assert(row[c] == T::one_spec());
            lemma_mul_one(v[c]);
            // (0 + rest) + v == v + rest
            lemma_add_zero(rest);
            lemma_add_comm(rest, v[c]);
            assert(free_sum(red, row, v, k) == rest);
        } else if is_free(red, c) {
            lemma_add_assoc(head, rest, row[c].mul_spec(v[c]));
            assert(free_sum(red, row, v, k) == rest.add_spec(row[c].mul_spec(v[c])));
        } else {
            lemma_owner(red, c, 0);
            lemma_pivot_column(red, w, owner(red, c), i);
            assert(row[c] == zero);
            lemma_mul_zero(v[c]);
            lemma_add_zero(head.add_spec(rest));
            assert(free_sum(red, row, v, k) == rest);
        }
    }
}

/// Row `j` of the free directions, for a pivot column `j` with the pivot
/// row `i`, times the coefficients: the negated sum over the free columns.
proof fn lemma_direction_row_dot<T: Scalar>(red: Seq<Seq<T>>, n: nat, i: int, j: int, z: Seq<Seq<T>>, col: int, k: int)
    requires
        exact_field::<T>(),
        0 <= i < red.len(),
        0 <= j < n,
        !is_free(red, j),
        owner(red, j) == i,
        0 <= k <= n,
        z.len() == n,
    ensures
        dot(freedom_basis(red, n as int)[j], column(free_part(red, z, n as int), col), free_columns(red, k).len()) == free_sum(
            red,
            red[i],
            column(z, col),
            k,
        ).neg_spec(),
    decreases k,
{
    let zero = T::zero_spec();
    let basis_row = freedom_basis(red, n as int)[j];
    let t = column(free_part(red, z, n as int), col);
    let v = column(z, col);
    if k <= 0 {
        crate::cofactors::lemma_neg(zero);
    } else {
        let c = k - 1;
        lemma_direction_row_dot(red, n, i, j, z, col, c);
        if is_free(red, c) {
            let u = free_columns(red, c).len();
            lemma_free_prefix(red, k, n as int);
            lemma_free_columns(red, n as int);
            assert(free_columns(red, k) == free_columns(red, c).push(c));
            assert(free_columns(red, k)[u as int] == c);
            assert(u < free_columns(red, n as int).len());
            assert(free_columns(red, n as int)[u as int] == c);
            assert(basis_row.len() == free_columns(red, n as int).len());
            assert(free_part(red, z, n as int)[u as int] == z[c]);
            lemma_dot_step(basis_row, t, u);
            assert(basis_row[u as int] == direction_entry(red, j, c));
            assert(t[u as int] == free_part(red, z, n as int)[u as int][col]);
            assert(t[u as int] == v[c]);
            lemma_mul_neg(v[c], red[i][c]);
            lemma_mul_comm(red[i][c], v[c]);
            lemma_mul_comm(red[i][c].neg_spec(), v[c]);
            crate::cofactors::lemma_neg_sum(free_sum(red, red[i], v, c), red[i][c].mul_spec(v[c]));
        }
    }
}

/// Row `j` of the free directions, for a free column `j`, times the
/// coefficients, as far as the free columns before column `k` go: the
/// vector's entry in place `j`, once column `j` is passed.
proof fn lemma_free_row_dot<T: Scalar>(red: Seq<Seq<T>>, n: nat, j: int, z: Seq<Seq<T>>, col: int, k: int)
    requires
        exact_field::<T>(),
        0 <= j < n,
        is_free(red, j),
        0 <= k <= n,
        z.len() == n,
    ensures
        dot(freedom_basis(red, n as int)[j], column(free_part(red, z, n as int), col), free_columns(red, k).len()) == (if j < k {
            z[j][col]
        } else {
            T::zero_spec()
        }),
    decreases k,
{
    let zero = T::zero_spec();
    let basis_row = freedom_basis(red, n as int)[j];
    let t = column(free_part(red, z, n as int), col);
    if k > 0 {
        let c = k - 1;
        lemma_free_row_dot(red, n, j, z, col, c);
        if is_free(red, c) {
            let u = free_columns(red, c).len();
            lemma_free_prefix(red, k, n as int);
            lemma_free_columns(red, n as int);
            assert(free_columns(red, k) == free_columns(red, c).push(c));
            assert(free_columns(red, k)[u as int] == c);
            assert(u < free_columns(red, n as int).len());
            assert(free_columns(red, n as int)[u as int] == c);
            assert(basis_row.len() == free_columns(red, n as int).len());
            assert(free_part(red, z, n as int)[u as int] == z[c]);
            lemma_dot_step(basis_row, t, u);
            assert(basis_row[u as int] == direction_entry(red, j, c));
            assert(t[u as int] == z[c][col]);
            lemma_mul_one(z[c][col]);
            lemma_mul_zero(z[c][col]);
            lemma_add_zero(z[c][col]);
            lemma_add_zero(z[j][col]);
            lemma_add_zero(zero);
        }
    }
}

/// The family holds every solution: over an exact field, where `solve`
/// finds a particular solution `x` of `a·x = b` and the free directions
/// `basis`, every `z` with `a·z == b` is `x + basis·t`, with `t` the rows
/// of `z` in the places of the free columns.
pub proof fn lemma_family_is_complete<T: Scalar>(a: Seq<Seq<T>>, b: Seq<Seq<T>>, n: nat, m: nat, z: Seq<Seq<T>>)
    requires
        exact_field::<T>(),
        rect(a, n),
        rect(b, m),
        a.len() == b.len(),
        solved(a, b, n as int, m as int) is Infinite,
        z.len() == n,
        rect(z, m),
        product(a, z, n, m) == b,
    ensures
        z == matrix_sum(
            solved(a, b, n as int, m as int)->Infinite_0,
            product(
                solved(a, b, n as int, m as int)->Infinite_1,
                free_part(reduced(augmented(a, b), (n + m) as int), z, n as int),
                free_columns(reduced(augmented(a, b), (n + m) as int), n as int).len(),
                m,
            ),
            m,
        ),
{
    let zero = T::zero_spec();
    let one = T::one_spec();
    let w = n + m;
    let aug = augmented(a, b);
    let red = reduced(aug, w as int);
    let f = free_columns(red, n as int).len();
    let fixed = particular(red, n as int, m as int);
    let basis = freedom_basis(red, n as int);
    let t = free_part(red, z, n as int);
    let moved = matrix_sum(fixed, product(basis, t, f, m), m);
    assert forall|i: int| 0 <= i < aug.len() implies (#[trigger] aug[i]).len() == w by {
        assert(a[i].len() == n && b[i].len() == m);
    }
    lemma_reduced_is_reduced_staircase(aug, w);
    assert forall|j: int, col: int| 0 <= j < n && 0 <= col < m implies #[trigger] z[j][col] == moved[j][col] by {
        let v = column(z, col);
        let spread = dot(basis[j], column(t, col), f);
        assert(moved[j][col] == fixed[j][col].add_spec(spread));
        if is_free(red, j) {
            lemma_free_row_dot(red, n, j, z, col, n as int);
            lemma_add_zero(z[j][col]);
        } else {
            lemma_owner(red, j, 0);
            let i = owner(red, j);
            let row = red[i];
            assert(row.len() == w);
            lemma_product_solves(a, b, z, n, m, col);
            lemma_reduced_carries(aug, w, v, n, n + col, one.neg_spec());
            assert(weighed(row, v, n, n + col, one.neg_spec()) == zero);
            lemma_pivot_row_dot(red, w, n, i, v, n as int);
            lemma_direction_row_dot(red, n, i, j, z, col, n as int);
            let sum = free_sum(red, row, v, n as int);
            let e = row[n + col];
            assert(fixed[j][col] == e);
            // (z + sum) + e·(-1) == 0, so z + sum == e, so e + -sum == z.
            lemma_mul_neg(e, one);
            lemma_mul_one(e);
            lemma_add_neg(e);
            lemma_add_cancel(v[j].add_spec(sum), e, e.neg_spec());
            lemma_add_assoc(v[j], sum, sum.neg_spec());
            lemma_add_neg(sum);
            lemma_add_zero(v[j]);
        }
    }
    assert forall|j: int| 0 <= j < n implies (#[trigger] moved[j]).len() == m && z[j].len() == m by {}
    assert(z =~~= moved);
}

/// The one solution has as many rows as there are unknowns, of as many
/// entries as there are columns of constants.
pub proof fn lemma_single_shape<T: Scalar>(a: Seq<Seq<T>>, b: Seq<Seq<T>>, n: nat, m: nat)
    requires
        exact_field::<T>(),
        rect(a, n),
        rect(b, m),
        a.len() == b.len(),
        solved(a, b, n as int, m as int) is Single,
    ensures
        solved(a, b, n as int, m as int)->Single_0.len() == n,
        rect(solved(a, b, n as int, m as int)->Single_0, m),
{
    let w = n + m;
    let aug = augmented(a, b);
    let red = reduced(aug, w as int);
    let found = particular(red, n as int, m as int);
    assert forall|i: int| 0 <= i < aug.len() implies (#[trigger] aug[i]).len() == w by {
        assert(a[i].len() == n && b[i].len() == m);
    }
    lemma_reduced_is_reduced_staircase(aug, w);
    crate::inverse_laws::lemma_no_free_columns(red, n as int);
    assert forall|j: int| 0 <= j < found.len() implies (#[trigger] found[j]).len() == m by {
        crate::inverse_laws::lemma_full_rank_rows(red, w, n, j);
        assert(red[j].len() == w);
    }
}

/// The zero vector solves the homogeneous system: `a` times a column of
/// zeros is a column of zeros.
pub proof fn lemma_zero_solves<T: Scalar>(a: Seq<Seq<T>>, n: nat)
    requires
        exact_field::<T>(),
    ensures
        product(a, constant_matrix(n, 1, T::zero_spec()), n, 1) == constant_matrix(a.len(), 1, T::zero_spec()),
{
    let zero = T::zero_spec();
    let x = constant_matrix(n, 1, zero);
    assert forall|i: int, t: int| 0 <= i < a.len() && 0 <= t < 1 implies #[trigger] dot(a[i], column(x, t), n) == zero by {
        let v = column(x, t);
        assert forall|j: int| 0 <= j < n && j != -1 && j != -2 implies #[trigger] a[i][j].mul_spec(v[j]) == zero by {
            lemma_mul_zero(a[i][j]);
        }
        lemma_dot_sparse(a[i], v, n, -1, -2);
        lemma_add_zero(zero);
    }
    assert(product(a, x, n, 1) =~~= constant_matrix(a.len(), 1, zero));
}

} // verus!
