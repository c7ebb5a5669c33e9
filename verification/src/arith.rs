//! Elementwise and linear-algebraic operations on matrices, the elementary
//! matrices and the row operations of elimination.

use crate::array::Array;
use crate::scalar::FloatEq;
use crate::scalar::total;
use crate::scalar::Scalar;
use vstd::prelude::*;

verus! {

/// Column `j` of `m`, top to bottom.
pub open spec fn column<T>(m: Seq<Seq<T>>, j: int) -> Seq<T> {
    Seq::new(m.len(), |k: int| m[k][j])
}

/// The sum of the first `n` products `a[k] * b[k]`, added up from the left;
/// the empty sum is zero.
pub open spec fn dot<T: Scalar>(a: Seq<T>, b: Seq<T>, n: nat) -> T
    decreases n,
{
    if n == 0 {
        T::zero_spec()
    } else if n == 1 {
        a[0].mul_spec(b[0])
    } else {
        dot(a, b, (n - 1) as nat).add_spec(a[n - 1].mul_spec(b[n - 1]))
    }
}

/// Every product and every partial sum of `dot(a, b, n)` can be carried out.
pub open spec fn dot_ok<T: Scalar>(a: Seq<T>, b: Seq<T>, n: nat) -> bool
    decreases n,
{
    if n == 0 {
        true
    } else if n == 1 {
        a[0].mul_ok(b[0])
    } else {
        &&& dot_ok(a, b, (n - 1) as nat)
        &&& a[n - 1].mul_ok(b[n - 1])
        &&& dot(a, b, (n - 1) as nat).add_ok(a[n - 1].mul_spec(b[n - 1]))
    }
}

/// The product of `a`, whose rows have `n` entries, and `b`, which has `n`
/// rows of `w` entries.
pub open spec fn product<T: Scalar>(a: Seq<Seq<T>>, b: Seq<Seq<T>>, n: nat, w: nat) -> Seq<Seq<T>> {
    Seq::new(a.len(), |i: int| Seq::new(w, |j: int| dot(a[i], column(b, j), n)))
}

/// The identity matrix of `n` rows.
pub open spec fn identity_matrix<T: Scalar>(n: nat) -> Seq<Seq<T>> {
    Seq::new(n, |i: int| Seq::new(n, |j: int| if i == j { T::one_spec() } else { T::zero_spec() }))
}

/// `row` with every entry from column `from` on multiplied by `factor`.
pub open spec fn scaled_row<T: Scalar>(row: Seq<T>, factor: T, from: int) -> Seq<T> {
    Seq::new(row.len(), |j: int| if j >= from { row[j].mul_spec(factor) } else { row[j] })
}

/// `to` with `factor` times `src` added to it, from column `from` on.
pub open spec fn combined_row<T: Scalar>(to: Seq<T>, src: Seq<T>, factor: T, from: int) -> Seq<T> {
    Seq::new(to.len(), |j: int| if j >= from { to[j].add_spec(src[j].mul_spec(factor)) } else { to[j] })
}

/// `a` and `b` have the same shape and are approximately equal entry by entry.
pub open spec fn close<T: Scalar>(a: Seq<Seq<T>>, b: Seq<Seq<T>>) -> bool {
    &&& a.len() == b.len()
    &&& forall|i: int| 0 <= i < a.len() ==> (#[trigger] a[i]).len() == b[i].len()
    &&& forall|i: int, j: int| 0 <= i < a.len() && 0 <= j < a[i].len() ==> (#[trigger] a[i][j]).float_eq_spec(&b[i][j])
}

/// `a` and `b` have the same shape and are exactly equal entry by entry, as
/// the scalar's own equality decides it.
pub open spec fn same<T: Scalar>(a: Seq<Seq<T>>, b: Seq<Seq<T>>) -> bool {
    &&& a.len() == b.len()
    &&& forall|i: int| 0 <= i < a.len() ==> (#[trigger] a[i]).len() == b[i].len()
    &&& forall|i: int, j: int| 0 <= i < a.len() && 0 <= j < a[i].len() ==> (#[trigger] a[i][j]).eq_spec(b[i][j])
}

impl<T: Scalar> FloatEq for Array<T> {
    open spec fn float_eq_spec(&self, other: &Self) -> bool {
        &&& self.width() == other.width()
        &&& self.height() == other.height()
        &&& close(self@, other@)
    }

    /// Whether the two matrices have one shape and are approximately equal
    /// entry by entry.
    fn float_eq(&self, other: &Self) -> (b: bool) {
        if self.size.0 != other.size.0 || self.size.1 != other.size.1 {
            return false;
        }
        if self.content.len() != other.content.len() {
            return false;
        }
        let mut i: usize = 0;
        while i < self.content.len()
            invariant
                self.content.len() == other.content.len(),
                i <= self.content.len(),
                forall|r: int| 0 <= r < i ==> (#[trigger] self@[r]).len() == other@[r].len(),
                forall|r: int, c: int| 0 <= r < i && 0 <= c < self@[r].len() ==> (#[trigger] self@[r][c]).float_eq_spec(&other@[r][c]),
            decreases self.content.len() - i,
        {
            if self.content[i].len() != other.content[i].len() {
                assert(self@[i as int].len() != other@[i as int].len());
                return false;
            }
            let mut j: usize = 0;
            while j < self.content[i].len()
                invariant
                    self.content.len() == other.content.len(),
                    i < self.content.len(),
                    self.content[i as int].len() == other.content[i as int].len(),
                    j <= self.content[i as int].len(),
                    forall|c: int| 0 <= c < j ==> (#[trigger] self@[i as int][c]).float_eq_spec(&other@[i as int][c]),
                decreases self.content[i as int].len() - j,
            {
                if !self.content[i][j].float_eq(&other.content[i][j]) {
                    assert(!self@[i as int][j as int].float_eq_spec(&other@[i as int][j as int]));
                    return false;
                }
                j += 1;
            }
            i += 1;
        }
        true
    }
}

impl<T: Scalar> Array<T> {
    /// Whether the two matrices have one shape and are exactly equal entry by
    /// entry.
    pub fn equals(&self, other: &Self) -> (b: bool)
        requires
            self.wf(),
            other.wf(),
        ensures
            b == (self.width() == other.width() && self.height() == other.height() && same(self@, other@)),
    {
        if self.size.0 != other.size.0 || self.size.1 != other.size.1 {
            return false;
        }
        let mut i: usize = 0;
        while i < self.size.1
            invariant
                self.wf(),
                other.wf(),
                self.size == other.size,
                i <= self.size.1,
                forall|r: int, c: int| 0 <= r < i && 0 <= c < self@[r].len() ==> (#[trigger] self@[r][c]).eq_spec(other@[r][c]),
            decreases self.size.1 - i,
        {
            assert(self@[i as int].len() == self.width() && other@[i as int].len() == self.width());
            let mut j: usize = 0;
            while j < self.size.0
                invariant
                    self.wf(),
                    other.wf(),
                    self.size == other.size,
                    i < self.size.1,
                    j <= self.size.0,
                    self@[i as int].len() == self.width(),
                    other@[i as int].len() == self.width(),
                    forall|c: int| 0 <= c < j ==> (#[trigger] self@[i as int][c]).eq_spec(other@[i as int][c]),
                decreases self.size.0 - j,
            {
                if !self.content[i][j].exact_eq(&other.content[i][j]) {
                    assert(!self@[i as int][j as int].eq_spec(other@[i as int][j as int]));
                    return false;
                }
                j += 1;
            }
            i += 1;
        }
        true
    }

    /// The entrywise sum of two matrices of one shape.
    pub fn add(self, other: Self) -> (r: Self)
        requires
            self.wf(),
            other.wf(),
            self.width() == other.width(),
            self.height() == other.height(),
            forall|i: int, j: int| 0 <= i < self.height() && 0 <= j < self.width() ==> (#[trigger] self@[i][j]).add_ok(other@[i][j]),
        ensures
            r.wf(),
            r.width() == self.width(),
            r.height() == self.height(),
            forall|i: int, j: int| 0 <= i < self.height() && 0 <= j < self.width() ==> #[trigger] r@[i][j] == self@[i][j].add_spec(other@[i][j]),
    {
        let mut content: Vec<Vec<T>> = Vec::with_capacity(self.size.1);
        let mut row: usize = 0;
        while row < self.size.1
            invariant
                self.wf(),
                other.wf(),
                self.size == other.size,
                row <= self.size.1,
                content.len() == row,
                forall|i: int, j: int| 0 <= i < self.height() && 0 <= j < self.width() ==> (#[trigger] self@[i][j]).add_ok(other@[i][j]),
                forall|i: int| 0 <= i < row ==> (#[trigger] content[i]).len() == self.size.0,
                forall|i: int, j: int| 0 <= i < row && 0 <= j < self.size.0 ==> #[trigger] content[i][j] == self@[i][j].add_spec(other@[i][j]),
            decreases self.size.1 - row,
        {
            assert(self@[row as int].len() == self.width() && other@[row as int].len() == self.width());
            let mut temp: Vec<T> = Vec::with_capacity(self.size.0);
            let mut col: usize = 0;
            while col < self.size.0
                invariant
                    self.wf(),
                    other.wf(),
                    self.size == other.size,
                    row < self.size.1,
                    col <= self.size.0,
                    temp.len() == col,
                    self@[row as int].len() == self.width(),
                    other@[row as int].len() == self.width(),
                    forall|i: int, j: int| 0 <= i < self.height() && 0 <= j < self.width() ==> (#[trigger] self@[i][j]).add_ok(other@[i][j]),
                    forall|j: int| 0 <= j < col ==> #[trigger] temp[j] == self@[row as int][j].add_spec(other@[row as int][j]),
                decreases self.size.0 - col,
            {
                assert(self@[row as int][col as int].add_ok(other@[row as int][col as int]));
                temp.push(self.content[row][col].add(other.content[row][col]));
                col += 1;
            }
            content.push(temp);
            row += 1;
        }
        Array { content, size: self.size }
    }

    /// The entrywise difference of two matrices of one shape.
    pub fn sub(self, other: Self) -> (r: Self)
        requires
            self.wf(),
            other.wf(),
            self.width() == other.width(),
            self.height() == other.height(),
            forall|i: int, j: int| 0 <= i < self.height() && 0 <= j < self.width() ==> (#[trigger] self@[i][j]).sub_ok(other@[i][j]),
        ensures
            r.wf(),
            r.width() == self.width(),
            r.height() == self.height(),
            forall|i: int, j: int| 0 <= i < self.height() && 0 <= j < self.width() ==> #[trigger] r@[i][j] == self@[i][j].sub_spec(other@[i][j]),
    {
        let mut content: Vec<Vec<T>> = Vec::with_capacity(self.size.1);
        let mut row: usize = 0;
        while row < self.size.1
            invariant
                self.wf(),
                other.wf(),
                self.size == other.size,
                row <= self.size.1,
                content.len() == row,
                forall|i: int, j: int| 0 <= i < self.height() && 0 <= j < self.width() ==> (#[trigger] self@[i][j]).sub_ok(other@[i][j]),
                forall|i: int| 0 <= i < row ==> (#[trigger] content[i]).len() == self.size.0,
                forall|i: int, j: int| 0 <= i < row && 0 <= j < self.size.0 ==> #[trigger] content[i][j] == self@[i][j].sub_spec(other@[i][j]),
            decreases self.size.1 - row,
        {
            assert(self@[row as int].len() == self.width() && other@[row as int].len() == self.width());
            let mut temp: Vec<T> = Vec::with_capacity(self.size.0);
            let mut col: usize = 0;
            while col < self.size.0
                invariant
                    self.wf(),
                    other.wf(),
                    self.size == other.size,
                    row < self.size.1,
                    col <= self.size.0,
                    temp.len() == col,
                    self@[row as int].len() == self.width(),
                    other@[row as int].len() == self.width(),
                    forall|i: int, j: int| 0 <= i < self.height() && 0 <= j < self.width() ==> (#[trigger] self@[i][j]).sub_ok(other@[i][j]),
                    forall|j: int| 0 <= j < col ==> #[trigger] temp[j] == self@[row as int][j].sub_spec(other@[row as int][j]),
                decreases self.size.0 - col,
            {
                assert(self@[row as int][col as int].sub_ok(other@[row as int][col as int]));
                temp.push(self.content[row][col].sub(other.content[row][col]));
                col += 1;
            }
            content.push(temp);
            row += 1;
        }
        Array { content, size: self.size }
    }

    /// The matrix with every entry negated.
    pub fn neg(self) -> (r: Self)
        requires
            self.wf(),
            forall|i: int, j: int| 0 <= i < self.height() && 0 <= j < self.width() ==> (#[trigger] self@[i][j]).neg_ok(),
        ensures
            r.wf(),
            r.width() == self.width(),
            r.height() == self.height(),
            forall|i: int, j: int| 0 <= i < self.height() && 0 <= j < self.width() ==> #[trigger] r@[i][j] == self@[i][j].neg_spec(),
    {
        let mut content: Vec<Vec<T>> = Vec::with_capacity(self.size.1);
        let mut row: usize = 0;
        while row < self.size.1
            invariant
                self.wf(),
                row <= self.size.1,
                content.len() == row,
                forall|i: int, j: int| 0 <= i < self.height() && 0 <= j < self.width() ==> (#[trigger] self@[i][j]).neg_ok(),
                forall|i: int| 0 <= i < row ==> (#[trigger] content[i]).len() == self.size.0,
                forall|i: int, j: int| 0 <= i < row && 0 <= j < self.size.0 ==> #[trigger] content[i][j] == self@[i][j].neg_spec(),
            decreases self.size.1 - row,
        {
            assert(self@[row as int].len() == self.width());
            let mut temp: Vec<T> = Vec::with_capacity(self.size.0);
            let mut col: usize = 0;
            while col < self.size.0
                invariant
                    self.wf(),
                    row < self.size.1,
                    col <= self.size.0,
                    temp.len() == col,
                    self@[row as int].len() == self.width(),
                    forall|i: int, j: int| 0 <= i < self.height() && 0 <= j < self.width() ==> (#[trigger] self@[i][j]).neg_ok(),
                    forall|j: int| 0 <= j < col ==> #[trigger] temp[j] == self@[row as int][j].neg_spec(),
                decreases self.size.0 - col,
            {
                assert(self@[row as int][col as int].neg_ok());
                temp.push(self.content[row][col].neg());
                col += 1;
            }
            content.push(temp);
            row += 1;
        }
        Array { content, size: self.size }
    }

    /// The matrix with every entry multiplied, from the right, by `factor`.
    pub fn scale(self, factor: T) -> (r: Self)
        requires
            self.wf(),
            forall|i: int, j: int| 0 <= i < self.height() && 0 <= j < self.width() ==> (#[trigger] self@[i][j]).mul_ok(factor),
        ensures
            r.wf(),
            r.width() == self.width(),
            r.height() == self.height(),
            forall|i: int, j: int| 0 <= i < self.height() && 0 <= j < self.width() ==> #[trigger] r@[i][j] == self@[i][j].mul_spec(factor),
    {
        let mut content: Vec<Vec<T>> = Vec::with_capacity(self.size.1);
        let mut row: usize = 0;
        while row < self.size.1
            invariant
                self.wf(),
                row <= self.size.1,
                content.len() == row,
                forall|i: int, j: int| 0 <= i < self.height() && 0 <= j < self.width() ==> (#[trigger] self@[i][j]).mul_ok(factor),
                forall|i: int| 0 <= i < row ==> (#[trigger] content[i]).len() == self.size.0,
                forall|i: int, j: int| 0 <= i < row && 0 <= j < self.size.0 ==> #[trigger] content[i][j] == self@[i][j].mul_spec(factor),
            decreases self.size.1 - row,
        {
            assert(self@[row as int].len() == self.width());
            let mut temp: Vec<T> = Vec::with_capacity(self.size.0);
            let mut col: usize = 0;
            while col < self.size.0
                invariant
                    self.wf(),
                    row < self.size.1,
                    col <= self.size.0,
                    temp.len() == col,
                    self@[row as int].len() == self.width(),
                    forall|i: int, j: int| 0 <= i < self.height() && 0 <= j < self.width() ==> (#[trigger] self@[i][j]).mul_ok(factor),
                    forall|j: int| 0 <= j < col ==> #[trigger] temp[j] == self@[row as int][j].mul_spec(factor),
                decreases self.size.0 - col,
            {
                assert(self@[row as int][col as int].mul_ok(factor));
                temp.push(self.content[row][col].mul(factor));
                col += 1;
            }
            content.push(temp);
            row += 1;
        }
        Array { content, size: self.size }
    }

    /// The matrix product `self · other`: entry `(i, j)` is the sum over `k`
    /// of `self[i][k] * other[k][j]`, added up from the left.
    pub fn mul(self, other: Self) -> (r: Self)
        requires
            self.wf(),
            other.wf(),
            self.width() == other.height(),
            forall|i: int, j: int| 0 <= i < self.height() && 0 <= j < other.width() ==> #[trigger] dot_ok(self@[i], column(other@, j), self.width()),
        ensures
            r.wf(),
            r.width() == other.width(),
            r.height() == self.height(),
            r@ == product(self@, other@, self.width(), other.width()),
    {
        let mut content: Vec<Vec<T>> = Vec::with_capacity(self.size.1);
        let mut row: usize = 0;
        while row < self.size.1
            invariant
                self.wf(),
                other.wf(),
                self.width() == other.height(),
                row <= self.size.1,
                content.len() == row,
                forall|i: int, j: int| 0 <= i < self.height() && 0 <= j < other.width() ==> #[trigger] dot_ok(self@[i], column(other@, j), self.width()),
                forall|i: int| 0 <= i < row ==> (#[trigger] content[i]).len() == other.size.0,
                forall|i: int, j: int| 0 <= i < row && 0 <= j < other.size.0 ==> #[trigger] content[i][j] == dot(self@[i], column(other@, j), self.width()),
            decreases self.size.1 - row,
        {
            let mut temp: Vec<T> = Vec::with_capacity(other.size.0);
            let mut col: usize = 0;
            while col < other.size.0
                invariant
                    self.wf(),
                    other.wf(),
                    self.width() == other.height(),
                    row < self.size.1,
                    col <= other.size.0,
                    temp.len() == col,
                    forall|i: int, j: int| 0 <= i < self.height() && 0 <= j < other.width() ==> #[trigger] dot_ok(self@[i], column(other@, j), self.width()),
                    forall|j: int| 0 <= j < col ==> #[trigger] temp[j] == dot(self@[row as int], column(other@, j), self.width()),
                decreases other.size.0 - col,
            {
                let entry = self.dot_with(&other, row, col);
                temp.push(entry);
                col += 1;
            }
            content.push(temp);
            row += 1;
        }
        let r = Array { content, size: (other.size.0, self.size.1) };
        assert(r@ =~~= product(self@, other@, self.width(), other.width()));
        r
    }

    /// The dot product of row `row` of `self` and column `col` of `other`.
    fn dot_with(&self, other: &Self, row: usize, col: usize) -> (r: T)
        requires
            self.wf(),
            other.wf(),
            self.width() == other.height(),
            row < self.height(),
            col < other.width(),
            dot_ok(self@[row as int], column(other@, col as int), self.width()),
        ensures
            r == dot(self@[row as int], column(other@, col as int), self.width()),
    {
        let n = self.size.0;
        if n == 0 {
            return T::zero();
        }
        let ghost a = self@[row as int];
        let ghost b = column(other@, col as int);
        assert(a.len() == self.width());
        proof {
            lemma_dot_ok_prefix(a, b, n as nat, 1);
        }
        assert(other@[0].len() == other.width());
        let mut acc = self.content[row][0].mul(other.content[0][col]);
        let mut k: usize = 1;
        while k < n
            invariant
                self.wf(),
                other.wf(),
                self.width() == other.height(),
                n == self.size.0,
                row < self.height(),
                col < other.width(),
                a == self@[row as int],
                a.len() == n,
                b == column(other@, col as int),
                dot_ok(a, b, n as nat),
                1 <= k <= n,
                acc == dot(a, b, k as nat),
            decreases n - k,
        {
            proof {
                lemma_dot_ok_prefix(a, b, n as nat, (k + 1) as nat);
            }
            assert(other@[k as int].len() == other.width());
            let term = self.content[row][k].mul(other.content[k][col]);
            acc = acc.add(term);
            k += 1;
        }
        acc
    }

    /// The identity matrix of `size` rows.
    pub fn identity(size: usize) -> (r: Self)
        ensures
            r.wf(),
            r.width() == size,
            r.height() == size,
            r@ == identity_matrix::<T>(size as nat),
    {
        let mut content: Vec<Vec<T>> = Vec::with_capacity(size);
        let mut i: usize = 0;
        while i < size
            invariant
                i <= size,
                content.len() == i,
                forall|r: int| 0 <= r < i ==> (#[trigger] content[r]).len() == size,
                forall|r: int, c: int| 0 <= r < i && 0 <= c < size ==> #[trigger] content[r][c] == (if r == c { T::one_spec() } else { T::zero_spec() }),
            decreases size - i,
        {
            let mut temp: Vec<T> = Vec::with_capacity(size);
            let mut j: usize = 0;
            while j < size
                invariant
                    i < size,
                    j <= size,
                    temp.len() == j,
                    forall|c: int| 0 <= c < j ==> #[trigger] temp[c] == (if i == c { T::one_spec() } else { T::zero_spec() }),
                decreases size - j,
            {
                if i == j {
                    temp.push(T::one());
                } else {
                    temp.push(T::zero());
                }
                j += 1;
            }
            content.push(temp);
            i += 1;
        }
        let r = Array { content, size: (size, size) };
        assert(r@ =~~= identity_matrix::<T>(size as nat));
        r
    }

    /// The identity matrix of `size` rows with rows `swap.0` and `swap.1`
    /// exchanged.
    pub fn elementary_swap(size: usize, swap: (usize, usize)) -> (r: Self)
        requires
            swap.0 < size,
            swap.1 < size,
        ensures
            r.wf(),
            r.width() == size,
            r.height() == size,
            r@ == identity_matrix::<T>(size as nat).update(swap.0 as int, identity_matrix::<T>(size as nat)[swap.1 as int]).update(
                swap.1 as int,
                identity_matrix::<T>(size as nat)[swap.0 as int],
            ),
    {
        let mut ret: Array<T> = Array::identity(size);
        assert forall|i: int| 0 <= i < size implies (#[trigger] ret@[i]).len() == size by {}
        ret.set(swap.0, swap.0, T::zero());
        ret.set(swap.1, swap.1, T::zero());
        ret.set(swap.1, swap.0, T::one());
        ret.set(swap.0, swap.1, T::one());
        assert(ret@ =~~= identity_matrix::<T>(size as nat).update(swap.0 as int, identity_matrix::<T>(size as nat)[swap.1 as int]).update(
            swap.1 as int,
            identity_matrix::<T>(size as nat)[swap.0 as int],
        ));
        ret
    }

    /// The identity matrix of `size` rows with `factor` in place of the one
    /// of row `row`.
    pub fn elementary_multiply(size: usize, row: usize, factor: T) -> (r: Self)
        requires
            row < size,
        ensures
            r.wf(),
            r.width() == size,
            r.height() == size,
            r@ == identity_matrix::<T>(size as nat).update(row as int, identity_matrix::<T>(size as nat)[row as int].update(row as int, factor)),
    {
        let mut ret: Array<T> = Array::identity(size);
        ret.set(row, row, factor);
        ret
    }

    /// The identity matrix of `size` rows with `factor` in row `to_row`,
    /// column `from_row`.
    pub fn elementary_add_into(size: usize, from_row: usize, to_row: usize, factor: T) -> (r: Self)
        requires
            from_row < size,
            to_row < size,
        ensures
            r.wf(),
            r.width() == size,
            r.height() == size,
            r@ == identity_matrix::<T>(size as nat).update(to_row as int, identity_matrix::<T>(size as nat)[to_row as int].update(from_row as int, factor)),
    {
        let mut ret: Array<T> = Array::identity(size);
        ret.set(to_row, from_row, factor);
        ret
    }
}

/// A prefix of a dot product that can be carried out can be carried out.
pub proof fn lemma_dot_ok_prefix<T: Scalar>(a: Seq<T>, b: Seq<T>, n: nat, k: nat)
    requires
        dot_ok(a, b, n),
        k <= n,
    ensures
        dot_ok(a, b, k),
        k >= 1 ==> a[k - 1].mul_ok(b[k - 1]),
        k >= 2 ==> dot(a, b, (k - 1) as nat).add_ok(a[k - 1].mul_spec(b[k - 1])),
    decreases n,
{
    if k < n {
        lemma_dot_ok_prefix(a, b, (n - 1) as nat, k);
    }
}

/// Where every operation can be carried out, so can every dot product.
pub proof fn lemma_total_dot_ok<T: Scalar>()
    requires
        total::<T>(),
    ensures
        forall|a: Seq<T>, b: Seq<T>, n: nat| #[trigger] dot_ok(a, b, n),
{
    assert forall|a: Seq<T>, b: Seq<T>, n: nat| #[trigger] dot_ok(a, b, n) by {
        lemma_total_dot_ok_at(a, b, n);
    }
}

/// The same of one dot product.
proof fn lemma_total_dot_ok_at<T: Scalar>(a: Seq<T>, b: Seq<T>, n: nat)
    requires
        total::<T>(),
    ensures
        dot_ok(a, b, n),
    decreases n,
{
    if n >= 2 {
        lemma_total_dot_ok_at(a, b, (n - 1) as nat);
    }
}

/// Multiplies the entries of row `row` from column `pivot_col` on by `factor`.
pub fn multiply_row<T: Scalar>(a: &mut Array<T>, row: usize, factor: T, pivot_col: usize)
    requires
        old(a).wf(),
        row < old(a).height(),
        forall|j: int| pivot_col <= j < old(a).width() ==> (#[trigger] old(a)@[row as int][j]).mul_ok(factor),
    ensures
        final(a).wf(),
        final(a).width() == old(a).width(),
        final(a).height() == old(a).height(),
        final(a)@ == old(a)@.update(row as int, scaled_row(old(a)@[row as int], factor, pivot_col as int)),
{
    let ghost before = a@;
    assert(before[row as int].len() == a.width());
    let mut col = pivot_col;
    while col < a.size.0
        invariant
            a.wf(),
            a.size == old(a).size,
            before == old(a)@,
            row < a.height(),
            pivot_col <= col,
            a@.len() == before.len(),
            before[row as int].len() == a.width(),
            forall|j: int| pivot_col <= j < a.width() ==> (#[trigger] before[row as int][j]).mul_ok(factor),
            forall|i: int| 0 <= i < a@.len() && i != row ==> #[trigger] a@[i] == before[i],
            forall|j: int| 0 <= j < a.width() ==> #[trigger] a@[row as int][j] == (if pivot_col <= j < col { before[row as int][j].mul_spec(factor) } else { before[row as int][j] }),
        decreases a.size.0 - col,
    {
        assert(before[row as int][col as int].mul_ok(factor));
        let v = a.get(row, col).mul(factor);
        a.set(row, col, v);
        col += 1;
    }
    assert(a@[row as int] =~= scaled_row(before[row as int], factor, pivot_col as int));
    assert(a@ =~= before.update(row as int, scaled_row(before[row as int], factor, pivot_col as int)));
}

/// Adds `factor` times row `from_row` to row `to_row`, from column
/// `pivot_col` on.
pub fn multiply_add_row<T: Scalar>(a: &mut Array<T>, from_row: usize, to_row: usize, factor: T, pivot_col: usize)
    requires
        old(a).wf(),
        from_row < old(a).height(),
        to_row < old(a).height(),
        forall|j: int| pivot_col <= j < old(a).width() ==> (#[trigger] old(a)@[from_row as int][j]).mul_ok(factor),
        forall|j: int| pivot_col <= j < old(a).width() ==> (#[trigger] old(a)@[to_row as int][j]).add_ok(old(a)@[from_row as int][j].mul_spec(factor)),
    ensures
        final(a).wf(),
        final(a).width() == old(a).width(),
        final(a).height() == old(a).height(),
        final(a)@ == old(a)@.update(to_row as int, combined_row(old(a)@[to_row as int], old(a)@[from_row as int], factor, pivot_col as int)),
{
    let ghost before = a@;
    assert(before[to_row as int].len() == a.width());
    assert(before[from_row as int].len() == a.width());
    let mut col = pivot_col;
    while col < a.size.0
        invariant
            a.wf(),
            a.size == old(a).size,
            before == old(a)@,
            from_row < a.height(),
            to_row < a.height(),
            pivot_col <= col,
            a@.len() == before.len(),
            before[to_row as int].len() == a.width(),
            before[from_row as int].len() == a.width(),
            forall|j: int| pivot_col <= j < a.width() ==> (#[trigger] before[from_row as int][j]).mul_ok(factor),
            forall|j: int| pivot_col <= j < a.width() ==> (#[trigger] before[to_row as int][j]).add_ok(before[from_row as int][j].mul_spec(factor)),
            forall|i: int| 0 <= i < a@.len() && i != to_row ==> #[trigger] a@[i] == before[i],
            forall|j: int| 0 <= j < a.width() ==> #[trigger] a@[to_row as int][j] == (if pivot_col <= j < col { before[to_row as int][j].add_spec(before[from_row as int][j].mul_spec(factor)) } else { before[to_row as int][j] }),
        decreases a.size.0 - col,
    {
        assert(before[from_row as int][col as int].mul_ok(factor));
        assert(before[to_row as int][col as int].add_ok(before[from_row as int][col as int].mul_spec(factor)));
        assert(a@[from_row as int][col as int] == before[from_row as int][col as int]);
        let v = a.get(to_row, col).add(a.get(from_row, col).mul(factor));
        a.set(to_row, col, v);
        col += 1;
    }
    assert(a@[to_row as int] =~= combined_row(before[to_row as int], before[from_row as int], factor, pivot_col as int));
    assert(a@ =~= before.update(to_row as int, combined_row(before[to_row as int], before[from_row as int], factor, pivot_col as int)));
}

} // verus!
