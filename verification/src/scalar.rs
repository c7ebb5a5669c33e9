//! The scalar capability set on which the matrix engine is built.

use vstd::prelude::*;

verus! {

/// Approximate equality: "close enough" for the scalar type at hand.
///
/// For an exact type this is plain equality; an inexact type compares within
/// a small tolerance of its own choosing.
pub trait FloatEq {
    /// What `float_eq` decides.
    spec fn float_eq_spec(&self, other: &Self) -> bool;

    /// Whether `self` and `other` are approximately equal.
    fn float_eq(&self, other: &Self) -> (b: bool)
        ensures
            b == self.float_eq_spec(other),
    ;
}

/// A field-like scalar: identities, the four operations, negation, exact
/// equality, an order and approximate equality.
///
/// Every operation is a function of its arguments, named by a spec function.
/// The `*_ok` predicates say on which arguments the machine can carry the
/// operation out; see [`total`].
///
/// The primitive integers `i32` and `i64` are scalars here, and so is the
/// field of two elements, an exact field. A scalar type of
/// unverified code, such as a floating-point one, implements every item of
/// the trait as an ordinary function: each `*_spec` function computes what
/// the operation it names computes, and each `*_ok` function tells whether
/// the operation can be carried out.
pub trait Scalar: Copy + FloatEq {
    /// The additive identity.
    spec fn zero_spec() -> Self;

    /// The multiplicative identity.
    spec fn one_spec() -> Self;

    /// The sum.
    spec fn add_spec(self, rhs: Self) -> Self;

    /// The difference.
    spec fn sub_spec(self, rhs: Self) -> Self;

    /// The product.
    spec fn mul_spec(self, rhs: Self) -> Self;

    /// The quotient.
    spec fn div_spec(self, rhs: Self) -> Self;

    /// The negative.
    spec fn neg_spec(self) -> Self;

    /// The sum can be computed.
    spec fn add_ok(self, rhs: Self) -> bool;

    /// The difference can be computed.
    spec fn sub_ok(self, rhs: Self) -> bool;

    /// The product can be computed.
    spec fn mul_ok(self, rhs: Self) -> bool;

    /// The quotient can be computed.
    spec fn div_ok(self, rhs: Self) -> bool;

    /// The negative can be computed.
    spec fn neg_ok(self) -> bool;

    /// Exact equality, as the type's own `==` decides it.
    spec fn eq_spec(self, rhs: Self) -> bool;

    /// The strict order, as the type's own `>` decides it.
    spec fn gt_spec(self, rhs: Self) -> bool;

    /// The additive identity.
    fn zero() -> (r: Self)
        ensures
            r == Self::zero_spec(),
    ;

    /// The multiplicative identity.
    fn one() -> (r: Self)
        ensures
            r == Self::one_spec(),
    ;

    /// Whether the scalar is exactly zero.
    fn is_zero(&self) -> (b: bool)
        ensures
            b == self.eq_spec(Self::zero_spec()),
    ;

    /// `self + rhs`.
    fn add(self, rhs: Self) -> (r: Self)
        requires
            self.add_ok(rhs),
        ensures
            r == self.add_spec(rhs),
    ;

    /// `self - rhs`.
    fn sub(self, rhs: Self) -> (r: Self)
        requires
            self.sub_ok(rhs),
        ensures
            r == self.sub_spec(rhs),
    ;

    /// `self * rhs`.
    fn mul(self, rhs: Self) -> (r: Self)
        requires
            self.mul_ok(rhs),
        ensures
            r == self.mul_spec(rhs),
    ;

    /// `self / rhs`.
    fn div(self, rhs: Self) -> (r: Self)
        requires
            self.div_ok(rhs),
        ensures
            r == self.div_spec(rhs),
    ;

    /// `-self`.
    fn neg(self) -> (r: Self)
        requires
            self.neg_ok(),
        ensures
            r == self.neg_spec(),
    ;

    /// `self == rhs`, exactly.
    fn exact_eq(&self, rhs: &Self) -> (b: bool)
        ensures
            b == self.eq_spec(*rhs),
    ;

    /// `self > rhs`.
    fn greater(&self, rhs: &Self) -> (b: bool)
        ensures
            b == self.gt_spec(*rhs),
    ;
}

/// Every operation of `T` can be carried out on every argument.
pub open spec fn total<T: Scalar>() -> bool {
    &&& forall|a: T, b: T| #[trigger] a.add_ok(b)
    &&& forall|a: T, b: T| #[trigger] a.sub_ok(b)
    &&& forall|a: T, b: T| #[trigger] a.mul_ok(b)
    &&& forall|a: T, b: T| #[trigger] a.div_ok(b)
    &&& forall|a: T| #[trigger] a.neg_ok()
}

/// `x` is approximately zero.
pub open spec fn near_zero<T: Scalar>(x: T) -> bool {
    x.float_eq_spec(&T::zero_spec())
}

/// Division of mathematical integers that rounds toward zero, for a divisor
/// other than 0, written over the division of specifications, whose
/// remainder is never negative.
pub open spec fn trunc_div(a: int, b: int) -> int {
    if a >= 0 {
        a / b
    } else {
        -((-a) / b)
    }
}

/// `num::Zero::zero` of `i32`: the number 0.
#[verifier::external_body]
fn zero_i32() -> (r: i32)
    ensures
        r == 0,
{
    <i32 as num::Zero>::zero()
}

/// `num::One::one` of `i32`: the number 1.
#[verifier::external_body]
fn one_i32() -> (r: i32)
    ensures
        r == 1,
{
    <i32 as num::One>::one()
}

/// `num::Zero::is_zero` of `i32`: whether the number is 0.
#[verifier::external_body]
fn is_zero_i32(x: &i32) -> (b: bool)
    ensures
        b == (*x == 0),
{
    num::Zero::is_zero(x)
}

impl FloatEq for i32 {
    open spec fn float_eq_spec(&self, other: &Self) -> bool {
        *self == *other
    }

    fn float_eq(&self, other: &Self) -> (b: bool) {
        *self == *other
    }
}

impl Scalar for i32 {
    open spec fn zero_spec() -> Self {
        0
    }

    open spec fn one_spec() -> Self {
        1
    }

    open spec fn add_spec(self, rhs: Self) -> Self {
        (self + rhs) as i32
    }

    open spec fn sub_spec(self, rhs: Self) -> Self {
        (self - rhs) as i32
    }

    open spec fn mul_spec(self, rhs: Self) -> Self {
        (self * rhs) as i32
    }

    open spec fn div_spec(self, rhs: Self) -> Self {
        trunc_div(self as int, rhs as int) as i32
    }

    open spec fn neg_spec(self) -> Self {
        (-self) as i32
    }

    open spec fn add_ok(self, rhs: Self) -> bool {
        i32::MIN <= self + rhs <= i32::MAX
    }

    open spec fn sub_ok(self, rhs: Self) -> bool {
        i32::MIN <= self - rhs <= i32::MAX
    }

    open spec fn mul_ok(self, rhs: Self) -> bool {
        i32::MIN <= self * rhs <= i32::MAX
    }

    open spec fn div_ok(self, rhs: Self) -> bool {
        rhs != 0 && !(self == i32::MIN && rhs == -1)
    }

    open spec fn neg_ok(self) -> bool {
        self != i32::MIN
    }

    open spec fn eq_spec(self, rhs: Self) -> bool {
        self == rhs
    }

    open spec fn gt_spec(self, rhs: Self) -> bool {
        self > rhs
    }

    fn zero() -> (r: Self) {
        zero_i32()
    }

    fn one() -> (r: Self) {
        one_i32()
    }

    fn is_zero(&self) -> (b: bool) {
        is_zero_i32(self)
    }

    fn add(self, rhs: Self) -> (r: Self) {
        self + rhs
    }

    fn sub(self, rhs: Self) -> (r: Self) {
        self - rhs
    }

    fn mul(self, rhs: Self) -> (r: Self) {
        self * rhs
    }

    fn div(self, rhs: Self) -> (r: Self) {
        self / rhs
    }

    fn neg(self) -> (r: Self) {
        -self
    }

    fn exact_eq(&self, rhs: &Self) -> (b: bool) {
        *self == *rhs
    }

    fn greater(&self, rhs: &Self) -> (b: bool) {
        *self > *rhs
    }
}

/// `num::Zero::zero` of `i64`: the number 0.
#[verifier::external_body]
fn zero_i64() -> (r: i64)
    ensures
        r == 0,
{
    <i64 as num::Zero>::zero()
}

/// `num::One::one` of `i64`: the number 1.
#[verifier::external_body]
fn one_i64() -> (r: i64)
    ensures
        r == 1,
{
    <i64 as num::One>::one()
}

/// `num::Zero::is_zero` of `i64`: whether the number is 0.
#[verifier::external_body]
fn is_zero_i64(x: &i64) -> (b: bool)
    ensures
        b == (*x == 0),
{
    num::Zero::is_zero(x)
}

impl FloatEq for i64 {
    open spec fn float_eq_spec(&self, other: &Self) -> bool {
        *self == *other
    }

    fn float_eq(&self, other: &Self) -> (b: bool) {
        *self == *other
    }
}

impl Scalar for i64 {
    open spec fn zero_spec() -> Self {
        0
    }

    open spec fn one_spec() -> Self {
        1
    }

    open spec fn add_spec(self, rhs: Self) -> Self {
        (self + rhs) as i64
    }

    open spec fn sub_spec(self, rhs: Self) -> Self {
        (self - rhs) as i64
    }

    open spec fn mul_spec(self, rhs: Self) -> Self {
        (self * rhs) as i64
    }

    open spec fn div_spec(self, rhs: Self) -> Self {
        trunc_div(self as int, rhs as int) as i64
    }

    open spec fn neg_spec(self) -> Self {
        (-self) as i64
    }

    open spec fn add_ok(self, rhs: Self) -> bool {
        i64::MIN <= self + rhs <= i64::MAX
    }

    open spec fn sub_ok(self, rhs: Self) -> bool {
        i64::MIN <= self - rhs <= i64::MAX
    }

    open spec fn mul_ok(self, rhs: Self) -> bool {
        i64::MIN <= self * rhs <= i64::MAX
    }

    open spec fn div_ok(self, rhs: Self) -> bool {
        rhs != 0 && !(self == i64::MIN && rhs == -1)
    }

    open spec fn neg_ok(self) -> bool {
        self != i64::MIN
    }

    open spec fn eq_spec(self, rhs: Self) -> bool {
        self == rhs
    }

    open spec fn gt_spec(self, rhs: Self) -> bool {
        self > rhs
    }

    fn zero() -> (r: Self) {
        zero_i64()
    }

    fn one() -> (r: Self) {
        one_i64()
    }

    fn is_zero(&self) -> (b: bool) {
        is_zero_i64(self)
    }

    fn add(self, rhs: Self) -> (r: Self) {
        self + rhs
    }

    fn sub(self, rhs: Self) -> (r: Self) {
        self - rhs
    }

    fn mul(self, rhs: Self) -> (r: Self) {
        self * rhs
    }

    fn div(self, rhs: Self) -> (r: Self) {
        self / rhs
    }

    fn neg(self) -> (r: Self) {
        -self
    }

    fn exact_eq(&self, rhs: &Self) -> (b: bool) {
        *self == *rhs
    }

    fn greater(&self, rhs: &Self) -> (b: bool) {
        *self > *rhs
    }
}

} // verus!
