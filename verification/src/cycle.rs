//! Scalar helpers shared by the Bulletproofs commitment-group adapters.
use vstd::prelude::*;

use crate::group::GoldenScalar;
use crate::shamir::{batch_invert, prefix_product, values_of};

verus! {

/// The multiplicative inverse of a scalar, or zero for zero.
pub fn scalar_invert_or_zero<S: GoldenScalar>(scalar: &S) -> (inverse: S)
    requires
        scalar.wf(),
    ensures
        inverse.wf(),
        scalar.value() == 0 ==> inverse.value() == 0,
        scalar.value() != 0 ==> (inverse.value() * scalar.value()) % S::field_order() == 1,
{
    match scalar.invert() {
        Some(inverse) => inverse,
        None => S::zero(),
    }
}

/// Batch-invert `items` in place and return the inverse of their product.
///
/// When some item is zero, the product is zero: every item becomes zero and
/// zero is returned.
pub fn scalar_batch_invert<S: GoldenScalar>(items: &mut [S]) -> (product_inverse: S)
    requires
        forall|i: int| 0 <= i < old(items)@.len() ==> (#[trigger] old(items)@[i]).wf(),
    ensures
        product_inverse.wf(),
        final(items)@.len() == old(items)@.len(),
        forall|i: int| 0 <= i < final(items)@.len() ==> (#[trigger] final(items)@[i]).wf(),
        ({
            let product = prefix_product(
                values_of(old(items)@),
                old(items)@.len() as int,
                S::field_order() as int,
            );
            &&& product == 0 ==> product_inverse.value() == 0 && forall|i: int|
                0 <= i < final(items)@.len() ==> (#[trigger] final(items)@[i]).value() == 0
            &&& product != 0 ==> (product_inverse.value() * product) % (S::field_order() as int)
                == 1 && forall|i: int|
                0 <= i < old(items)@.len() ==> ((#[trigger] final(items)@[i]).value() * old(
                    items,
                )@[i].value()) % S::field_order() == 1
        }),
{
    let n = items.len();
    let ghost vals = values_of(items@);
    let ghost m = S::field_order() as int;
    let one = S::one();
    proof {
        S::lemma_scalar_model(one, one);
    }
    let mut acc = one;
    let mut i: usize = 0;
    while i < n
        invariant
            i <= n,
            n == items@.len(),
            items@ == old(items)@,
            vals == values_of(items@),
            m == S::field_order() as int,
            m > 1,
            forall|j: int| 0 <= j < n ==> (#[trigger] items@[j]).wf(),
            acc.wf(),
            acc.value() == prefix_product(vals, i as int, m),
        decreases n - i,
    {
        acc = acc.mul(&items[i]);
        i = i + 1;
    }
    let product_inverse = scalar_invert_or_zero(&acc);
    if n == 0 {
        proof {
            S::lemma_scalar_model(acc, acc);
        }
        return product_inverse;
    }
    match batch_invert(items) {
        Some(()) => product_inverse,
        None => {
            let zero = S::zero();
            let mut k: usize = 0;
            while k < n
                invariant
                    k <= n,
                    n == items@.len(),
                    zero.wf(),
                    zero.value() == 0,
                    forall|j: int| 0 <= j < n ==> (#[trigger] items@[j]).wf(),
                    forall|j: int| 0 <= j < k ==> (#[trigger] items@[j]).value() == 0,
                decreases n - k,
            {
                items[k] = zero;
                k = k + 1;
            }
            product_inverse
        },
    }
}

} // verus!
