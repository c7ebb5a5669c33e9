//! What holds of the power method over an exact field: what it finds is an
//! eigenpair.

use crate::arith::close;
use crate::arith::product;
use crate::array::rect;
use crate::eigenvalues::dominant;
use crate::eigenvalues::power_from;
use crate::eigenvalues::scaled;
use crate::field::exact_field;
use crate::field::lemma_exact;
use crate::field::lemma_mul_assoc;
use crate::field::lemma_mul_one;
use crate::field::lemma_reciprocal;
use crate::scalar::Scalar;
use vstd::prelude::*;

verus! {

/// The power method finds an eigenpair: over an exact field, where it ends
/// on an eigenvalue `mu` other than zero and a vector `x`, the product
/// `a·x` is `mu` times `x`.
pub proof fn lemma_power_method_finds_eigenpair<T: Scalar>(a: Seq<Seq<T>>, n: nat, x: Seq<Seq<T>>, mu: T, left: nat)
    requires
        exact_field::<T>(),
        a.len() == n,
        rect(a, n),
        x.len() == n,
        rect(x, 1),
        power_from(a, n, x, mu, left) is Ok,
        power_from(a, n, x, mu, left)->Ok_0.0 != T::zero_spec(),
    ensures
        product(a, power_from(a, n, x, mu, left)->Ok_0.1, n, 1) == scaled(
            power_from(a, n, x, mu, left)->Ok_0.1,
            1,
            power_from(a, n, x, mu, left)->Ok_0.0,
        ),
    decreases left,
{
    if left > 0 {
        let y = product(a, x, n, 1);
        let next_mu = dominant(y);
        let f = T::one_spec().div_spec(next_mu);
        let next_x = scaled(y, 1, f);
        if next_mu.float_eq_spec(&mu) && close(next_x, x) {
            assert(next_x =~~= x) by {
                assert forall|i: int| 0 <= i < n implies #[trigger] next_x[i] =~= x[i] by {
                    assert(next_x[i][0].float_eq_spec(&x[i][0]));
                    lemma_exact(next_x[i][0], x[i][0]);
                }
            }
            lemma_reciprocal(next_mu);
            assert(scaled(next_x, 1, next_mu) =~~= y) by {
                assert forall|i: int, j: int| 0 <= i < n && 0 <= j < 1 implies #[trigger] scaled(next_x, 1, next_mu)[i][j] == y[i][j] by {
                    lemma_mul_assoc(y[i][j], f, next_mu);
                    lemma_mul_one(y[i][j]);
                }
            }
        } else {
            lemma_power_method_finds_eigenpair(a, n, next_x, next_mu, (left - 1) as nat);
        }
    }
}

} // verus!
