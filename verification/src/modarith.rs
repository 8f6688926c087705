//! Modular-arithmetic facts used by the field and group algebra proofs.
use vstd::arithmetic::div_mod::{
    lemma_add_mod_noop, lemma_mod_bound, lemma_mul_mod_noop_general, lemma_small_mod,
};
use vstd::arithmetic::mul::{lemma_mul_is_associative, lemma_mul_is_commutative};
use vstd::prelude::*;

verus! {

/// One Horner step computed on reduced values equals the reduced step.
pub proof fn lemma_horner_step(p: int, x: int, c: int, m: int)
    requires
        m > 0,
    ensures
        (((p % m) * x) % m + c) % m == (c + x * p) % m,
{
    lemma_mul_mod_noop_general(p, x, m);
    lemma_mul_is_commutative(p, x);
    lemma_add_mod_noop(p * x, c, m);
    lemma_add_mod_noop((p * x) % m, c, m);
    lemma_mod_bound(p * x, m);
    vstd::arithmetic::div_mod::lemma_mod_twice(p * x, m);
}

/// Reducing an intermediate product does not change a triple product.
pub proof fn lemma_mul3_mod(a: int, b: int, c: int, m: int)
    requires
        m > 0,
    ensures
        (((a * b) % m) * c) % m == (a * (b * c)) % m,
        (a * ((b * c) % m)) % m == (a * (b * c)) % m,
        ((a * b) * c) == a * (b * c),
{
    lemma_mul_is_associative(a, b, c);
    lemma_mul_mod_noop_general(a * b, c, m);
    lemma_mul_mod_noop_general(a, b * c, m);
}

/// Two inverses of the same value are congruent.
pub proof fn lemma_inverse_unique(a: int, b1: int, b2: int, m: int)
    requires
        m > 1,
        (b1 * a) % m == 1,
        (b2 * a) % m == 1,
    ensures
        b1 % m == b2 % m,
{
    lemma_mul3_mod(b1, a, b2, m);
    lemma_mul_is_commutative(a, b2);
    lemma_mul_is_commutative(b1, a);
    lemma_mul_mod_noop_general(b1 * a, b2, m);
    lemma_mul_mod_noop_general(b1, a * b2, m);
    lemma_mul_mod_noop_general(b1, b2 * a, m);
    assert(((b1 * a) % m * b2) % m == b2 % m);
    assert((b1 * ((b2 * a) % m)) % m == b1 % m);
}

} // verus!
