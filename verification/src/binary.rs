//! The field of two elements as a scalar: an exact field, on which every
//! operation can be carried out.

use crate::field::exact_field;
use crate::scalar::total;
use crate::scalar::FloatEq;
use crate::scalar::Scalar;
use vstd::prelude::*;

verus! {

/// An element of the field of two elements: addition is exclusive or,
/// multiplication is conjunction.
#[derive(Clone, Copy, Debug, PartialEq, Eq)]
pub struct Bit(pub bool);

impl FloatEq for Bit {
    open spec fn float_eq_spec(&self, other: &Self) -> bool {
        self.0 == other.0
    }

    fn float_eq(&self, other: &Self) -> (b: bool) {
        self.0 == other.0
    }
}

impl Scalar for Bit {
    open spec fn zero_spec() -> Self {
        Bit(false)
    }

    open spec fn one_spec() -> Self {
        Bit(true)
    }

    open spec fn add_spec(self, rhs: Self) -> Self {
        Bit(self.0 != rhs.0)
    }

    open spec fn sub_spec(self, rhs: Self) -> Self {
        Bit(self.0 != rhs.0)
    }

    open spec fn mul_spec(self, rhs: Self) -> Self {
        Bit(self.0 && rhs.0)
    }

    /// Division by one changes nothing; division by zero is given the same
    /// result.
    open spec fn div_spec(self, rhs: Self) -> Self {
        self
    }

    open spec fn neg_spec(self) -> Self {
        self
    }

    open spec fn add_ok(self, rhs: Self) -> bool {
        true
    }

    open spec fn sub_ok(self, rhs: Self) -> bool {
        true
    }

    open spec fn mul_ok(self, rhs: Self) -> bool {
        true
    }

    open spec fn div_ok(self, rhs: Self) -> bool {
        true
    }

    open spec fn neg_ok(self) -> bool {
        true
    }

    open spec fn eq_spec(self, rhs: Self) -> bool {
        self.0 == rhs.0
    }

    open spec fn gt_spec(self, rhs: Self) -> bool {
        self.0 && !rhs.0
    }

    fn zero() -> (r: Self) {
        Bit(false)
    }

    fn one() -> (r: Self) {
        Bit(true)
    }

    fn is_zero(&self) -> (b: bool) {
        !self.0
    }

    fn add(self, rhs: Self) -> (r: Self) {
        Bit(self.0 != rhs.0)
    }

    fn sub(self, rhs: Self) -> (r: Self) {
        Bit(self.0 != rhs.0)
    }

    fn mul(self, rhs: Self) -> (r: Self) {
        Bit(self.0 && rhs.0)
    }

    fn div(self, rhs: Self) -> (r: Self) {
        self
    }

    fn neg(self) -> (r: Self) {
        self
    }

    fn exact_eq(&self, rhs: &Self) -> (b: bool) {
        self.0 == rhs.0
    }

    fn greater(&self, rhs: &Self) -> (b: bool) {
        self.0 && !rhs.0
    }
}

/// The field of two elements is an exact field, and each of its operations
/// can be carried out on every argument.
pub proof fn lemma_bits_are_an_exact_field()
    ensures
        exact_field::<Bit>(),
        total::<Bit>(),
{
    reveal(exact_field);
}

} // verus!
