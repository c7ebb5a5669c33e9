//! Facts about dot products over an exact field.

use crate::arith::dot;
use crate::field::exact_field;
use crate::field::lemma_add_zero;
use crate::field::lemma_mul_zero;
use crate::scalar::Scalar;
use vstd::prelude::*;

verus! {

/// A dot product of `n + 1` terms is that of the first `n` plus the last
/// product.
pub proof fn lemma_dot_step<T: Scalar>(a: Seq<T>, b: Seq<T>, n: nat)
    requires
        exact_field::<T>(),
    ensures
        dot(a, b, n + 1) == dot(a, b, n).add_spec(a[n as int].mul_spec(b[n as int])),
{
    if n == 0 {
        lemma_add_zero(a[0].mul_spec(b[0]));
    }
}

/// A dot product of `n` terms depends on the first `n` entries alone.
pub proof fn lemma_dot_same<T: Scalar>(a: Seq<T>, b: Seq<T>, c: Seq<T>, d: Seq<T>, n: nat)
    requires
        forall|t: int| 0 <= t < n ==> a[t] == c[t],
        forall|t: int| 0 <= t < n ==> b[t] == d[t],
    ensures
        dot(a, b, n) == dot(c, d, n),
    decreases n,
{
    if n >= 2 {
        lemma_dot_same(a, b, c, d, (n - 1) as nat);
    }
}

/// Terms whose first factor is zero add nothing to a dot product.
pub proof fn lemma_dot_zero_tail<T: Scalar>(a: Seq<T>, b: Seq<T>, n: nat, m: nat)
    requires
        exact_field::<T>(),
        n <= m,
        forall|t: int| n <= t < m ==> a[t] == T::zero_spec(),
    ensures
        dot(a, b, m) == dot(a, b, n),
    decreases m - n,
{
    if n < m {
        lemma_dot_zero_tail(a, b, n, (m - 1) as nat);
        lemma_dot_step(a, b, (m - 1) as nat);
        lemma_mul_zero(b[m - 1]);
        lemma_add_zero(dot(a, b, (m - 1) as nat));
    }
}

} // verus!
