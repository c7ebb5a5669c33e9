//! The operators `+`, `-` and `*` on matrices, and indexing by `(row, col)`.
//!
//! Each arithmetic operator is the method of the same name. What it returns
//! is stated by the `ensures` of its function; the `*_req` function is what
//! it requires, and the `*_spec` function names no result.

use crate::arith::column;
use crate::arith::dot_ok;
use crate::arith::product;
use crate::array::Array;
use crate::scalar::Scalar;
use vstd::prelude::*;

verus! {

impl<T: Scalar> core::ops::Add for Array<T> {
    type Output = Array<T>;

    /// The entrywise sum of two matrices of one shape.
    fn add(self, other: Self) -> (r: Self)
        ensures
            r.wf(),
            r.width() == self.width(),
            r.height() == self.height(),
            forall|i: int, j: int| 0 <= i < self.height() && 0 <= j < self.width() ==> #[trigger] r@[i][j] == self@[i][j].add_spec(other@[i][j]),
    {
        Array::add(self, other)
    }
}

impl<T: Scalar> vstd::std_specs::ops::AddSpecImpl for Array<T> {
    open spec fn obeys_add_spec() -> bool {
        false
    }

    open spec fn add_req(self, other: Self) -> bool {
        &&& self.wf()
        &&& other.wf()
        &&& self.width() == other.width()
        &&& self.height() == other.height()
        &&& forall|i: int, j: int| 0 <= i < self.height() && 0 <= j < self.width() ==> (#[trigger] self@[i][j]).add_ok(other@[i][j])
    }

    open spec fn add_spec(self, other: Self) -> Self {
        self
    }
}

impl<T: Scalar> core::ops::Sub for Array<T> {
    type Output = Array<T>;

    /// The entrywise difference of two matrices of one shape.
    fn sub(self, other: Self) -> (r: Self)
        ensures
            r.wf(),
            r.width() == self.width(),
            r.height() == self.height(),
            forall|i: int, j: int| 0 <= i < self.height() && 0 <= j < self.width() ==> #[trigger] r@[i][j] == self@[i][j].sub_spec(other@[i][j]),
    {
        Array::sub(self, other)
    }
}

impl<T: Scalar> vstd::std_specs::ops::SubSpecImpl for Array<T> {
    open spec fn obeys_sub_spec() -> bool {
        false
    }

    open spec fn sub_req(self, other: Self) -> bool {
        &&& self.wf()
        &&& other.wf()
        &&& self.width() == other.width()
        &&& self.height() == other.height()
        &&& forall|i: int, j: int| 0 <= i < self.height() && 0 <= j < self.width() ==> (#[trigger] self@[i][j]).sub_ok(other@[i][j])
    }

    open spec fn sub_spec(self, other: Self) -> Self {
        self
    }
}

impl<T: Scalar> core::ops::Neg for Array<T> {
    type Output = Array<T>;

    /// The matrix with every entry negated.
    fn neg(self) -> (r: Self)
        ensures
            r.wf(),
            r.width() == self.width(),
            r.height() == self.height(),
            forall|i: int, j: int| 0 <= i < self.height() && 0 <= j < self.width() ==> #[trigger] r@[i][j] == self@[i][j].neg_spec(),
    {
        Array::neg(self)
    }
}

impl<T: Scalar> vstd::std_specs::ops::NegSpecImpl for Array<T> {
    open spec fn obeys_neg_spec() -> bool {
        false
    }

    open spec fn neg_req(self) -> bool {
        &&& self.wf()
        &&& forall|i: int, j: int| 0 <= i < self.height() && 0 <= j < self.width() ==> (#[trigger] self@[i][j]).neg_ok()
    }

    open spec fn neg_spec(self) -> Self {
        self
    }
}

impl<T: Scalar> core::ops::Mul for Array<T> {
    type Output = Array<T>;

    /// The matrix product.
    fn mul(self, other: Self) -> (r: Self)
        ensures
            r.wf(),
            r.width() == other.width(),
            r.height() == self.height(),
            r@ == product(self@, other@, self.width(), other.width()),
    {
        Array::mul(self, other)
    }
}

impl<T: Scalar> vstd::std_specs::ops::MulSpecImpl for Array<T> {
    open spec fn obeys_mul_spec() -> bool {
        false
    }

    open spec fn mul_req(self, other: Self) -> bool {
        &&& self.wf()
        &&& other.wf()
        &&& self.width() == other.height()
        &&& forall|i: int, j: int| 0 <= i < self.height() && 0 <= j < other.width() ==> #[trigger] dot_ok(self@[i], column(other@, j), self.width())
    }

    open spec fn mul_spec(self, other: Self) -> Self {
        self
    }
}

impl<T: Copy> core::ops::Index<(usize, usize)> for Array<T> {
    type Output = T;

    /// The entry in row `i.0` and column `i.1`.
    fn index(&self, i: (usize, usize)) -> (r: &T)
        ensures
            *r == self@[i.0 as int][i.1 as int],
    {
        assert(self@[i.0 as int].len() == self.width());
        &self.content[i.0][i.1]
    }
}

impl<T: Copy> vstd::std_specs::core::IndexSpecImpl<(usize, usize)> for Array<T> {
    open spec fn index_req(&self, i: &(usize, usize)) -> bool {
        &&& self.wf()
        &&& i.0 < self.height()
        &&& i.1 < self.width()
    }
}

impl<T: Copy> core::ops::IndexMut<(usize, usize)> for Array<T> {
    /// The entry in row `i.0` and column `i.1`, to be written.
    fn index_mut(&mut self, i: (usize, usize)) -> (r: &mut T)
        requires
            old(self).wf(),
            i.0 < old(self).height(),
            i.1 < old(self).width(),
        ensures
            *r == old(self)@[i.0 as int][i.1 as int],
            final(self).width() == old(self).width(),
            final(self).height() == old(self).height(),
            final(self)@ == old(self)@.update(i.0 as int, old(self)@[i.0 as int].update(i.1 as int, *final(r))),
    {
        assert(self@[i.0 as int].len() == self.width());
        &mut self.content[i.0][i.1]
    }
}

} // verus!
