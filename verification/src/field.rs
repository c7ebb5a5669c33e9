//! Exact fields: the scalars for which elimination is exact, and the
//! algebra that the laws of the engine rest on. The field of two elements is
//! one; the primitive integers and floating-point numbers are none.

use crate::scalar::near_zero;
use crate::scalar::FloatEq;
use crate::scalar::Scalar;
use vstd::prelude::*;

verus! {

/// `T` is an exact field: its equality and its approximate equality are
/// equality itself, addition and multiplication are commutative and
/// associative with identities zero and one, which differ, multiplication
/// distributes over addition, every scalar has a negative, subtraction adds
/// the negative, and division by a scalar other than zero undoes
/// multiplication by it.
#[verifier::opaque]
pub open spec fn exact_field<T: Scalar>() -> bool {
    &&& forall|a: T, b: T| #[trigger] a.eq_spec(b) <==> a == b
    &&& forall|a: T, b: T| #[trigger] a.float_eq_spec(&b) <==> a == b
    &&& forall|a: T, b: T| #[trigger] a.add_spec(b) == b.add_spec(a)
    &&& forall|a: T, b: T, c: T| #[trigger] a.add_spec(b).add_spec(c) == a.add_spec(b.add_spec(c))
    &&& forall|a: T| #[trigger] a.add_spec(T::zero_spec()) == a
    &&& forall|a: T| #[trigger] a.add_spec(a.neg_spec()) == T::zero_spec()
    &&& forall|a: T, b: T| #[trigger] a.sub_spec(b) == a.add_spec(b.neg_spec())
    &&& forall|a: T, b: T| #[trigger] a.mul_spec(b) == b.mul_spec(a)
    &&& forall|a: T, b: T, c: T| #[trigger] a.mul_spec(b).mul_spec(c) == a.mul_spec(b.mul_spec(c))
    &&& forall|a: T| #[trigger] a.mul_spec(T::one_spec()) == a
    &&& forall|a: T, b: T, c: T| #[trigger] a.mul_spec(b.add_spec(c)) == a.mul_spec(b).add_spec(a.mul_spec(c))
    &&& forall|a: T, b: T| b != T::zero_spec() ==> (#[trigger] a.div_spec(b)).mul_spec(b) == a
    &&& T::zero_spec() != T::one_spec()
}

/// In an exact field both equalities are equality, and zero is not one.
pub proof fn lemma_exact<T: Scalar>(a: T, b: T)
    requires
        exact_field::<T>(),
    ensures
        a.eq_spec(b) <==> a == b,
        a.float_eq_spec(&b) <==> a == b,
        near_zero(a) <==> a == T::zero_spec(),
        T::zero_spec() != T::one_spec(),
{
    reveal(exact_field);
    assert(a.float_eq_spec(&T::zero_spec()) <==> a == T::zero_spec());
}

/// Addition is commutative.
pub proof fn lemma_add_comm<T: Scalar>(a: T, b: T)
    requires
        exact_field::<T>(),
    ensures
        a.add_spec(b) == b.add_spec(a),
{
    reveal(exact_field);
}

/// Addition is associative.
pub proof fn lemma_add_assoc<T: Scalar>(a: T, b: T, c: T)
    requires
        exact_field::<T>(),
    ensures
        a.add_spec(b).add_spec(c) == a.add_spec(b.add_spec(c)),
{
    reveal(exact_field);
}

/// Zero is neutral for addition.
pub proof fn lemma_add_zero<T: Scalar>(a: T)
    requires
        exact_field::<T>(),
    ensures
        a.add_spec(T::zero_spec()) == a,
        T::zero_spec().add_spec(a) == a,
{
    reveal(exact_field);
}

/// A scalar and its negative add up to zero.
pub proof fn lemma_add_neg<T: Scalar>(a: T)
    requires
        exact_field::<T>(),
    ensures
        a.add_spec(a.neg_spec()) == T::zero_spec(),
        a.neg_spec().add_spec(a) == T::zero_spec(),
{
    reveal(exact_field);
}

/// Multiplication is commutative.
pub proof fn lemma_mul_comm<T: Scalar>(a: T, b: T)
    requires
        exact_field::<T>(),
    ensures
        a.mul_spec(b) == b.mul_spec(a),
{
    reveal(exact_field);
}

/// Multiplication is associative.
pub proof fn lemma_mul_assoc<T: Scalar>(a: T, b: T, c: T)
    requires
        exact_field::<T>(),
    ensures
        a.mul_spec(b).mul_spec(c) == a.mul_spec(b.mul_spec(c)),
{
    reveal(exact_field);
}

/// One is neutral for multiplication.
pub proof fn lemma_mul_one<T: Scalar>(a: T)
    requires
        exact_field::<T>(),
    ensures
        a.mul_spec(T::one_spec()) == a,
        T::one_spec().mul_spec(a) == a,
{
    reveal(exact_field);
}

/// Multiplication distributes over addition.
pub proof fn lemma_distribute<T: Scalar>(a: T, b: T, c: T)
    requires
        exact_field::<T>(),
    ensures
        a.mul_spec(b.add_spec(c)) == a.mul_spec(b).add_spec(a.mul_spec(c)),
        b.add_spec(c).mul_spec(a) == b.mul_spec(a).add_spec(c.mul_spec(a)),
{
    reveal(exact_field);
}

/// Division by a scalar other than zero undoes multiplication by it.
pub proof fn lemma_div<T: Scalar>(a: T, b: T)
    requires
        exact_field::<T>(),
        b != T::zero_spec(),
    ensures
        a.div_spec(b).mul_spec(b) == a,
        b.mul_spec(a.div_spec(b)) == a,
{
    reveal(exact_field);
}

/// Equals added to one scalar are equal: `a + c == b + c` gives `a == b`.
pub proof fn lemma_add_cancel<T: Scalar>(a: T, b: T, c: T)
    requires
        exact_field::<T>(),
        a.add_spec(c) == b.add_spec(c),
    ensures
        a == b,
{
    lemma_add_assoc(a, c, c.neg_spec());
    lemma_add_assoc(b, c, c.neg_spec());
    lemma_add_neg(c);
    lemma_add_zero(a);
    lemma_add_zero(b);
}

/// Zero times anything is zero.
pub proof fn lemma_mul_zero<T: Scalar>(a: T)
    requires
        exact_field::<T>(),
    ensures
        a.mul_spec(T::zero_spec()) == T::zero_spec(),
        T::zero_spec().mul_spec(a) == T::zero_spec(),
{
    let z = T::zero_spec();
    let az = a.mul_spec(z);
    lemma_add_zero(z);
    lemma_distribute(a, z, z);
    // az == az + az, and az == zero + az.
    lemma_add_zero(az);
    lemma_add_cancel(az, z, az);
    lemma_mul_comm(a, z);
}

/// A product with a negated factor is the negated product.
pub proof fn lemma_mul_neg<T: Scalar>(a: T, b: T)
    requires
        exact_field::<T>(),
    ensures
        a.mul_spec(b.neg_spec()) == a.mul_spec(b).neg_spec(),
        a.neg_spec().mul_spec(b) == a.mul_spec(b).neg_spec(),
{
    let ab = a.mul_spec(b);
    // a*b + a*(-b) == a*(b + -b) == a*0 == 0 == a*b + -(a*b)
    lemma_distribute(a, b, b.neg_spec());
    lemma_add_neg(b);
    lemma_mul_zero(a);
    lemma_add_neg(ab);
    lemma_add_comm(ab, a.mul_spec(b.neg_spec()));
    lemma_add_comm(ab, ab.neg_spec());
    lemma_add_cancel(a.mul_spec(b.neg_spec()), ab.neg_spec(), ab);
    lemma_mul_comm(a.neg_spec(), b);
    lemma_mul_comm(a, b);
    lemma_distribute(b, a, a.neg_spec());
    lemma_add_neg(a);
    lemma_mul_zero(b);
    lemma_add_comm(b.mul_spec(a), b.mul_spec(a.neg_spec()));
    lemma_add_comm(b.mul_spec(a), b.mul_spec(a).neg_spec());
    lemma_add_neg(b.mul_spec(a));
    lemma_add_cancel(b.mul_spec(a.neg_spec()), b.mul_spec(a).neg_spec(), b.mul_spec(a));
}

/// Equals multiplied by one scalar other than zero are equal.
pub proof fn lemma_mul_cancel<T: Scalar>(a: T, b: T, c: T)
    requires
        exact_field::<T>(),
        c != T::zero_spec(),
        a.mul_spec(c) == b.mul_spec(c),
    ensures
        a == b,
{
    let inv = T::one_spec().div_spec(c);
    lemma_div(T::one_spec(), c);
    lemma_mul_assoc(a, c, inv);
    lemma_mul_assoc(b, c, inv);
    lemma_mul_one(a);
    lemma_mul_one(b);
}

/// The reciprocal of a scalar other than zero is not zero.
pub proof fn lemma_reciprocal<T: Scalar>(c: T)
    requires
        exact_field::<T>(),
        c != T::zero_spec(),
    ensures
        T::one_spec().div_spec(c) != T::zero_spec(),
        c.mul_spec(T::one_spec().div_spec(c)) == T::one_spec(),
        T::one_spec().div_spec(c).mul_spec(c) == T::one_spec(),
{
    lemma_div(T::one_spec(), c);
    lemma_mul_zero(c);
    lemma_exact(c, c);
}

} // verus!
