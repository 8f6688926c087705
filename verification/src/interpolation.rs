//! Why Lagrange interpolation at zero recovers a shared secret: the
//! weighted sum of the values of a polynomial at `n` points, with the
//! Lagrange weights of those points, is the polynomial's value at zero
//! whenever the polynomial has at most `n` coefficients and the points
//! differ pairwise by invertible amounts.
use vstd::arithmetic::div_mod::{
    lemma_add_mod_noop, lemma_mod_bound, lemma_mod_twice, lemma_mul_mod_noop_general,
    lemma_small_mod, lemma_sub_mod_noop,
};
use vstd::prelude::*;

use crate::group::GoldenScalar;
use crate::shamir::{
    denominator_factor, denominators_have_inverses, field_inverse, interpolate_at_zero_spec,
    is_inverse, lagrange_coefficient, lagrange_denominator, lagrange_numerator,
    lemma_field_inverse, lemma_poly_value_mod, numerator_factor, poly_value, share_points,
    values_of, weighted_sum, Polynomial, Share,
};
use crate::util::dot_prefix;

verus! {

/// The value of a polynomial with constant `c` and higher coefficients
/// `rest` is `c + x * rest(x)`.
pub proof fn lemma_poly_value_cons(c: int, rest: Seq<int>, x: int)
    ensures
        poly_value(seq![c] + rest, x) == c + x * poly_value(rest, x),
{
    let s = seq![c] + rest;
    assert(s.subrange(1, s.len() as int) =~= rest);
}

/// Coefficients of the quotient of a polynomial by `X - r`.
pub open spec fn synthetic_quotient(cs: Seq<int>, r: int) -> Seq<int>
    decreases cs.len(),
{
    if cs.len() <= 1 {
        Seq::empty()
    } else {
        let rest = cs.subrange(1, cs.len() as int);
        seq![poly_value(rest, r)] + synthetic_quotient(rest, r)
    }
}

/// Synthetic division: `P(x) == P(r) + (x - r) * Q(x)`, where the quotient
/// `Q` has one coefficient fewer than `P`.
pub proof fn lemma_synthetic_division(cs: Seq<int>, r: int, x: int)
    ensures
        poly_value(cs, x) == poly_value(cs, r) + (x - r) * poly_value(
            synthetic_quotient(cs, r),
            x,
        ),
        synthetic_quotient(cs, r).len() == if cs.len() == 0 {
            0
        } else {
            cs.len() - 1
        },
    decreases cs.len(),
{
    if cs.len() == 1 {
        let rest = cs.subrange(1, 1);
        assert(rest.len() == 0);
        assert(poly_value(rest, x) == 0);
        assert(poly_value(rest, r) == 0);
        assert(poly_value(cs, x) == cs[0] + x * 0);
        assert(poly_value(cs, r) == cs[0] + r * 0);
        assert(poly_value(synthetic_quotient(cs, r), x) == 0);
    } else if cs.len() > 1 {
        let rest = cs.subrange(1, cs.len() as int);
        lemma_synthetic_division(rest, r, x);
        let q = synthetic_quotient(rest, r);
        lemma_poly_value_cons(poly_value(rest, r), q, x);
        let rx = poly_value(rest, x);
        let rr = poly_value(rest, r);
        let qx = poly_value(q, x);
        assert(x * rx == r * rr + (x - r) * (rr + x * qx)) by (nonlinear_arith)
            requires
                rx == rr + (x - r) * qx,
        ;
        assert(synthetic_quotient(cs, r) == seq![rr] + q);
        assert(poly_value(cs, x) == cs[0] + x * rx);
        assert(poly_value(cs, r) == cs[0] + r * rr);
    }
}

/// Adds `c` to the constant coefficient.
pub open spec fn add_constant(cs: Seq<int>, c: int) -> Seq<int> {
    if cs.len() == 0 {
        seq![c]
    } else {
        seq![cs[0] + c] + cs.subrange(1, cs.len() as int)
    }
}

/// Adding to the constant coefficient adds to every value.
pub proof fn lemma_add_constant(cs: Seq<int>, c: int, x: int)
    ensures
        poly_value(add_constant(cs, c), x) == c + poly_value(cs, x),
        add_constant(cs, c).len() == if cs.len() == 0 {
            1
        } else {
            cs.len()
        },
{
    if cs.len() == 0 {
        lemma_poly_value_cons(c, Seq::empty(), x);
        assert(seq![c] + Seq::<int>::empty() =~= seq![c]);
    } else {
        let rest = cs.subrange(1, cs.len() as int);
        lemma_poly_value_cons(cs[0] + c, rest, x);
    }
}

/// Multiplies every coefficient by `c`.
pub open spec fn scale(cs: Seq<int>, c: int) -> Seq<int> {
    cs.map_values(|a: int| c * a)
}

/// Scaling the coefficients scales every value.
pub proof fn lemma_scale(cs: Seq<int>, c: int, x: int)
    ensures
        poly_value(scale(cs, c), x) == c * poly_value(cs, x),
        scale(cs, c).len() == cs.len(),
    decreases cs.len(),
{
    if cs.len() > 0 {
        let rest = cs.subrange(1, cs.len() as int);
        let s = scale(cs, c);
        assert(s.subrange(1, s.len() as int) =~= scale(rest, c));
        lemma_scale(rest, c, x);
        let pr = poly_value(rest, x);
        assert(c * cs[0] + x * (c * pr) == c * (cs[0] + x * pr)) by (nonlinear_arith);
    }
}

/// Coefficients of `(X - a) * P(X)`.
pub open spec fn times_linear(cs: Seq<int>, a: int) -> Seq<int>
    decreases cs.len(),
{
    if cs.len() == 0 {
        Seq::empty()
    } else {
        let rest = cs.subrange(1, cs.len() as int);
        seq![(0 - a) * cs[0]] + add_constant(times_linear(rest, a), cs[0])
    }
}

/// Multiplying by a linear factor multiplies every value by it and adds
/// one coefficient.
pub proof fn lemma_times_linear(cs: Seq<int>, a: int, x: int)
    ensures
        poly_value(times_linear(cs, a), x) == (x - a) * poly_value(cs, x),
        times_linear(cs, a).len() == if cs.len() == 0 {
            0
        } else {
            cs.len() + 1
        },
    decreases cs.len(),
{
    if cs.len() > 0 {
        let rest = cs.subrange(1, cs.len() as int);
        lemma_times_linear(rest, a, x);
        let t = times_linear(rest, a);
        lemma_add_constant(t, cs[0], x);
        lemma_poly_value_cons((0 - a) * cs[0], add_constant(t, cs[0]), x);
        let pr = poly_value(rest, x);
        assert((0 - a) * cs[0] + x * (cs[0] + (x - a) * pr) == (x - a) * (cs[0] + x * pr))
            by (nonlinear_arith);
    }
}

/// `(z - xs[0]) * ... * (z - xs[k - 1])`.
pub open spec fn node_product(xs: Seq<int>, k: nat, z: int) -> int
    decreases k,
{
    if k == 0 {
        1
    } else {
        node_product(xs, (k - 1) as nat, z) * (z - xs[k - 1])
    }
}

/// Coefficients of `(X - xs[0]) * ... * (X - xs[k - 1])`.
pub open spec fn node_polynomial(xs: Seq<int>, k: nat) -> Seq<int>
    decreases k,
{
    if k == 0 {
        seq![1]
    } else {
        times_linear(node_polynomial(xs, (k - 1) as nat), xs[k - 1])
    }
}

/// The node polynomial has `k + 1` coefficients and its value is the node
/// product.
pub proof fn lemma_node_polynomial(xs: Seq<int>, k: nat, x: int)
    ensures
        poly_value(node_polynomial(xs, k), x) == node_product(xs, k, x),
        node_polynomial(xs, k).len() == k + 1,
    decreases k,
{
    if k == 0 {
        lemma_poly_value_cons(1, Seq::empty(), x);
        assert(seq![1] + Seq::<int>::empty() =~= seq![1int]);
    } else {
        lemma_node_polynomial(xs, (k - 1) as nat, x);
        lemma_times_linear(node_polynomial(xs, (k - 1) as nat), xs[k - 1], x);
        let p = node_product(xs, (k - 1) as nat, x);
        assert((x - xs[k - 1]) * p == p * (x - xs[k - 1])) by (nonlinear_arith);
    }
}

/// The node product vanishes at each of its nodes.
pub proof fn lemma_node_product_vanishes(xs: Seq<int>, k: nat, i: int)
    requires
        0 <= i < k,
    ensures
        node_product(xs, k, xs[i]) == 0,
    decreases k,
{
    if i < k - 1 {
        lemma_node_product_vanishes(xs, (k - 1) as nat, i);
    }
    let p = node_product(xs, (k - 1) as nat, xs[i]);
    assert(p * (xs[i] - xs[k - 1]) == 0) by (nonlinear_arith)
        requires
            p == 0 || xs[i] - xs[k - 1] == 0,
    ;
}


/// `(z - xs[j])` over `j < k` with `j != i`.
pub open spec fn skip_product(xs: Seq<int>, i: int, k: nat, z: int) -> int
    decreases k,
{
    if k == 0 {
        1
    } else if k - 1 == i {
        skip_product(xs, i, (k - 1) as nat, z)
    } else {
        skip_product(xs, i, (k - 1) as nat, z) * (z - xs[k - 1])
    }
}

/// Skipping an index past the end skips nothing.
pub proof fn lemma_skip_product_full(xs: Seq<int>, i: int, k: nat, z: int)
    requires
        i >= k,
    ensures
        skip_product(xs, i, k, z) == node_product(xs, k, z),
    decreases k,
{
    if k > 0 {
        lemma_skip_product_full(xs, i, (k - 1) as nat, z);
    }
}

/// Only the first `k` nodes enter a product over `j < k`.
pub proof fn lemma_products_prefix(xs: Seq<int>, ys: Seq<int>, i: int, k: nat, z: int)
    requires
        k <= xs.len(),
        k <= ys.len(),
        forall|j: int| 0 <= j < k ==> xs[j] == ys[j],
    ensures
        skip_product(xs, i, k, z) == skip_product(ys, i, k, z),
        node_product(xs, k, z) == node_product(ys, k, z),
    decreases k,
{
    if k > 0 {
        lemma_products_prefix(xs, ys, i, (k - 1) as nat, z);
    }
}

/// The reduced numerator products of the interpolation code are the
/// numerator products at zero, reduced.
pub proof fn lemma_numerator_reduced(xs: Seq<int>, i: int, k: nat, m: int)
    requires
        m > 1,
    ensures
        lagrange_numerator(xs, i, k as int, m) == skip_product(xs, i, k, 0) % m,
    decreases k,
{
    if k == 0 {
        lemma_small_mod(1, m as nat);
    } else {
        lemma_numerator_reduced(xs, i, (k - 1) as nat, m);
        if k - 1 != i {
            let p = skip_product(xs, i, (k - 1) as nat, 0);
            lemma_mul_mod_noop_general(p, 0 - xs[k - 1], m);
            assert(numerator_factor(xs, k - 1, m) == (0 - xs[k - 1]) % m);
        }
    }
}

/// The reduced denominator products of the interpolation code are the
/// products at the point itself, reduced.
pub proof fn lemma_denominator_reduced(xs: Seq<int>, i: int, k: nat, m: int)
    requires
        m > 1,
    ensures
        lagrange_denominator(xs, i, k as int, m) == skip_product(xs, i, k, xs[i]) % m,
    decreases k,
{
    if k == 0 {
        lemma_small_mod(1, m as nat);
    } else {
        lemma_denominator_reduced(xs, i, (k - 1) as nat, m);
        if k - 1 != i {
            let p = skip_product(xs, i, (k - 1) as nat, xs[i]);
            lemma_mul_mod_noop_general(p, xs[i] - xs[k - 1], m);
            assert(denominator_factor(xs, i, k - 1, m) == (xs[i] - xs[k - 1]) % m);
        }
    }
}

/// The reduced inverse of `a` modulo `m`, where one exists.
pub open spec fn inverse_of(a: int, m: int) -> int {
    field_inverse(a % m, m)
}

/// `a` has an inverse modulo `m`.
pub open spec fn invertible(a: int, m: int) -> bool {
    is_inverse(inverse_of(a, m), a % m, m)
}

/// Any `b` with `b * a == 1` modulo `m` shows `a` invertible, with `b`
/// reduced as its inverse.
pub proof fn lemma_inverse_witness(a: int, b: int, m: int)
    requires
        m > 1,
        (b * a) % m == 1,
    ensures
        invertible(a, m),
        inverse_of(a, m) == b % m,
{
    lemma_mul_mod_noop_general(b, a, m);
    lemma_mod_bound(b, m);
    assert(is_inverse(b % m, a % m, m));
    lemma_field_inverse(a % m, b % m, m);
}

/// The inverse of an invertible value is reduced and inverts it.
pub proof fn lemma_inverse_property(a: int, m: int)
    requires
        m > 1,
        invertible(a, m),
    ensures
        0 <= inverse_of(a, m) < m,
        (inverse_of(a, m) * a) % m == 1,
{
    lemma_mul_mod_noop_general(inverse_of(a, m), a, m);
}

/// Both factors of an invertible product are invertible.
pub proof fn lemma_invertible_factors(a: int, b: int, m: int)
    requires
        m > 1,
        invertible(a * b, m),
    ensures
        invertible(a, m),
        invertible(b, m),
{
    let i = inverse_of(a * b, m);
    lemma_inverse_property(a * b, m);
    assert((b * i) * a == i * (a * b)) by (nonlinear_arith);
    assert((a * i) * b == i * (a * b)) by (nonlinear_arith);
    lemma_inverse_witness(a, b * i, m);
    lemma_inverse_witness(b, a * i, m);
}

/// The inverse of a product of invertible values is the product of their
/// inverses.
pub proof fn lemma_inverse_of_product(a: int, b: int, m: int)
    requires
        m > 1,
        invertible(a, m),
        invertible(b, m),
    ensures
        invertible(a * b, m),
        inverse_of(a * b, m) == (inverse_of(a, m) * inverse_of(b, m)) % m,
{
    let ia = inverse_of(a, m);
    let ib = inverse_of(b, m);
    lemma_inverse_property(a, m);
    lemma_inverse_property(b, m);
    assert((ia * ib) * (a * b) == (ia * a) * (ib * b)) by (nonlinear_arith);
    lemma_mul_mod_noop_general(ia * a, ib * b, m);
    lemma_small_mod(1, m as nat);
    lemma_inverse_witness(a * b, ia * ib, m);
}

/// Congruent values stay congruent when multiplied by the same factor.
pub proof fn lemma_mul_congruent(k: int, a: int, b: int, m: int)
    requires
        m > 0,
        a % m == b % m,
    ensures
        (k * a) % m == (k * b) % m,
{
    lemma_mul_mod_noop_general(k, a, m);
    lemma_mul_mod_noop_general(k, b, m);
}

/// Sums of congruent values are congruent.
pub proof fn lemma_add_congruent(a1: int, a2: int, b1: int, b2: int, m: int)
    requires
        m > 0,
        a1 % m == a2 % m,
        b1 % m == b2 % m,
    ensures
        (a1 + b1) % m == (a2 + b2) % m,
{
    lemma_add_mod_noop(a1, b1, m);
    lemma_add_mod_noop(a2, b2, m);
}


/// Lagrange weight at zero of node `i`:
/// `prod_{j != i} (0 - x_j) / prod_{j != i} (x_i - x_j)`.
pub open spec fn lagrange_weight(xs: Seq<int>, i: int, m: int) -> int {
    skip_product(xs, i, xs.len(), 0) * inverse_of(skip_product(xs, i, xs.len(), xs[i]), m)
}

/// The Lagrange weights at zero of all nodes.
pub open spec fn lagrange_weights(xs: Seq<int>, m: int) -> Seq<int> {
    Seq::new(xs.len(), |i: int| lagrange_weight(xs, i, m))
}

/// Values of the polynomial `cs` at the nodes.
pub open spec fn values_at(cs: Seq<int>, xs: Seq<int>) -> Seq<int> {
    Seq::new(xs.len(), |i: int| poly_value(cs, xs[i]))
}

/// Every Lagrange denominator of the nodes is invertible modulo `m`.
pub open spec fn denominators_invertible(xs: Seq<int>, m: int) -> bool {
    forall|i: int|
        0 <= i < xs.len() ==> invertible(#[trigger] skip_product(xs, i, xs.len(), xs[i]), m)
}

/// Dropping the last node `r`: the weight of an earlier node `i` times
/// `x_i - r` is its weight among the remaining nodes times `0 - r`.
pub proof fn lemma_weight_step(xs: Seq<int>, i: int, m: int)
    requires
        m > 1,
        0 <= i < xs.len() - 1,
        denominators_invertible(xs, m),
    ensures
        invertible(xs[i] - xs[xs.len() - 1], m),
        invertible(
            skip_product(xs.subrange(0, xs.len() - 1), i, (xs.len() - 1) as nat, xs[i]),
            m,
        ),
        ((xs[i] - xs[xs.len() - 1]) * lagrange_weight(xs, i, m)) % m == ((0 - xs[xs.len()
            - 1]) * lagrange_weight(xs.subrange(0, xs.len() - 1), i, m)) % m,
{
    let n = xs.len();
    let r = xs[n - 1];
    let xs2 = xs.subrange(0, n - 1);
    let k = (n - 1) as nat;
    lemma_products_prefix(xs, xs2, i, k, 0);
    lemma_products_prefix(xs, xs2, i, k, xs[i]);
    let n2 = skip_product(xs2, i, k, 0);
    let d2 = skip_product(xs2, i, k, xs[i]);
    let d = xs[i] - r;
    assert(skip_product(xs, i, n, 0) == n2 * (0 - r));
    assert(skip_product(xs, i, n, xs[i]) == d2 * d);
    assert(invertible(skip_product(xs, i, n, xs[i]), m));
    lemma_invertible_factors(d2, d, m);
    lemma_inverse_of_product(d2, d, m);
    let id2 = inverse_of(d2, m);
    let id = inverse_of(d, m);
    lemma_inverse_property(d, m);
    let a = (0 - r) * n2 * id2;
    assert(lagrange_weight(xs, i, m) == (n2 * (0 - r)) * ((id2 * id) % m));
    assert(d * ((n2 * (0 - r)) * ((id2 * id) % m)) == (d * (n2 * (0 - r))) * ((id2 * id) % m))
        by (nonlinear_arith);
    lemma_mul_mod_noop_general(d * (n2 * (0 - r)), id2 * id, m);
    assert((d * (n2 * (0 - r))) * (id2 * id) == a * (id * d)) by (nonlinear_arith)
        requires
            a == (0 - r) * n2 * id2,
    ;
    lemma_mul_mod_noop_general(a, id * d, m);
    assert(lagrange_weight(xs2, i, m) == n2 * id2);
    assert((0 - r) * (n2 * id2) == a) by (nonlinear_arith)
        requires
            a == (0 - r) * n2 * id2,
    ;
}

/// Numerator of the unity correction: `1 - c * W(X)`, where `W` is the
/// node polynomial of `xs` and `c` inverts `W(r)`.
pub open spec fn unity_numerator(xs: Seq<int>, r: int, m: int) -> Seq<int> {
    add_constant(
        scale(
            node_polynomial(xs, xs.len()),
            0 - inverse_of(node_product(xs, xs.len(), r), m),
        ),
        1,
    )
}

/// `(1 - c * W(X)) / (X - r)`: a polynomial with one coefficient per node
/// whose value at each node inverts `x_i - r`.
pub open spec fn unity_quotient(xs: Seq<int>, r: int, m: int) -> Seq<int> {
    synthetic_quotient(unity_numerator(xs, r, m), r)
}

/// The unity quotient has one coefficient per node, inverts `x_i - r` at
/// each node `x_i`, and `(0 - r)` times its value at zero is
/// `1 - c * W(0)`.
pub proof fn lemma_unity_quotient(xs: Seq<int>, r: int, m: int)
    requires
        m > 1,
        invertible(node_product(xs, xs.len(), r), m),
    ensures
        unity_quotient(xs, r, m).len() == xs.len(),
        forall|i: int|
            0 <= i < xs.len() ==> (poly_value(unity_quotient(xs, r, m), #[trigger] xs[i]) * (
            xs[i] - r)) % m == 1,
        ((0 - r) * poly_value(unity_quotient(xs, r, m), 0)) % m == (1 - inverse_of(
            node_product(xs, xs.len(), r),
            m,
        ) * node_product(xs, xs.len(), 0)) % m,
{
    let k = xs.len();
    let c = inverse_of(node_product(xs, k, r), m);
    let w = node_polynomial(xs, k);
    let g = unity_numerator(xs, r, m);
    let psi = unity_quotient(xs, r, m);
    lemma_node_polynomial(xs, k, r);
    lemma_scale(w, 0 - c, r);
    lemma_add_constant(scale(w, 0 - c), 1, r);
    lemma_synthetic_division(g, r, r);
    lemma_inverse_property(node_product(xs, k, r), m);
    let gr = poly_value(g, r);
    assert(gr == 1 + (0 - c) * node_product(xs, k, r));
    assert(gr == 1 - c * node_product(xs, k, r)) by (nonlinear_arith)
        requires
            gr == 1 + (0 - c) * node_product(xs, k, r),
    ;
    lemma_small_mod(1, m as nat);
    lemma_small_mod(0, m as nat);
    lemma_sub_mod_noop(1, c * node_product(xs, k, r), m);
    assert(gr % m == 0);
    assert forall|i: int| 0 <= i < xs.len() implies (poly_value(psi, #[trigger] xs[i]) * (xs[i]
        - r)) % m == 1 by {
        let x = xs[i];
        lemma_node_polynomial(xs, k, x);
        lemma_node_product_vanishes(xs, k, i);
        lemma_scale(w, 0 - c, x);
        lemma_add_constant(scale(w, 0 - c), 1, x);
        lemma_synthetic_division(g, r, x);
        assert(poly_value(g, x) == 1);
        let p = poly_value(psi, x);
        assert(p * (x - r) == 1 - gr) by (nonlinear_arith)
            requires
                1 == gr + (x - r) * p,
        ;
        lemma_sub_mod_noop(1, gr, m);
    }
    lemma_node_polynomial(xs, k, 0);
    lemma_scale(w, 0 - c, 0);
    lemma_add_constant(scale(w, 0 - c), 1, 0);
    lemma_synthetic_division(g, r, 0);
    let g0 = poly_value(g, 0);
    assert(g0 == 1 - c * node_product(xs, k, 0)) by (nonlinear_arith)
        requires
            g0 == 1 + (0 - c) * node_product(xs, k, 0),
    ;
    lemma_sub_mod_noop(g0, gr, m);
    lemma_mod_twice(g0, m);
    lemma_synthetic_division(g, r, 0);
}


/// The last Lagrange weight is `W(0) * c`, where `W` is the node product
/// of the other nodes and `c` inverts `W(r)`.
pub proof fn lemma_last_weight(xs: Seq<int>, m: int)
    requires
        xs.len() >= 1,
    ensures
        lagrange_weight(xs, xs.len() - 1, m) == node_product(
            xs.subrange(0, xs.len() - 1),
            (xs.len() - 1) as nat,
            0,
        ) * inverse_of(
            node_product(xs.subrange(0, xs.len() - 1), (xs.len() - 1) as nat, xs[xs.len() - 1]),
            m,
        ),
        skip_product(xs, xs.len() - 1, xs.len(), xs[xs.len() - 1]) == node_product(
            xs.subrange(0, xs.len() - 1),
            (xs.len() - 1) as nat,
            xs[xs.len() - 1],
        ),
{
    let n = xs.len();
    let k = (n - 1) as nat;
    let xs2 = xs.subrange(0, n - 1);
    let r = xs[n - 1];
    lemma_skip_product_full(xs, n - 1, k, 0);
    lemma_skip_product_full(xs, n - 1, k, r);
    lemma_products_prefix(xs, xs2, n - 1, k, 0);
    lemma_products_prefix(xs, xs2, n - 1, k, r);
}

/// The weighted sum over all nodes but the last, split along synthetic
/// division by `X - r` at the last node `r`.
proof fn lemma_split_sum(xs: Seq<int>, cs: Seq<int>, m: int, k: nat)
    requires
        m > 1,
        xs.len() >= 1,
        k <= xs.len() - 1,
        denominators_invertible(xs, m),
        invertible(
            node_product(xs.subrange(0, xs.len() - 1), (xs.len() - 1) as nat, xs[xs.len() - 1]),
            m,
        ),
    ensures
        dot_prefix(values_at(cs, xs), lagrange_weights(xs, m), k) % m == (poly_value(
            cs,
            xs[xs.len() - 1],
        ) * (0 - xs[xs.len() - 1]) * dot_prefix(
            values_at(
                unity_quotient(xs.subrange(0, xs.len() - 1), xs[xs.len() - 1], m),
                xs.subrange(0, xs.len() - 1),
            ),
            lagrange_weights(xs.subrange(0, xs.len() - 1), m),
            k,
        ) + (0 - xs[xs.len() - 1]) * dot_prefix(
            values_at(synthetic_quotient(cs, xs[xs.len() - 1]), xs.subrange(0, xs.len() - 1)),
            lagrange_weights(xs.subrange(0, xs.len() - 1), m),
            k,
        )) % m,
    decreases k,
{
    let n = xs.len();
    let r = xs[n - 1];
    let xs2 = xs.subrange(0, n - 1);
    let h = synthetic_quotient(cs, r);
    let psi = unity_quotient(xs2, r, m);
    let fx = values_at(cs, xs);
    let w = lagrange_weights(xs, m);
    let px = values_at(psi, xs2);
    let hx = values_at(h, xs2);
    let w2 = lagrange_weights(xs2, m);
    let fr = poly_value(cs, r);
    if k == 0 {
        lemma_small_mod(0, m as nat);
        assert(fr * (0 - r) * 0 + (0 - r) * 0 == 0) by (nonlinear_arith);
    } else {
        let t = k - 1;
        lemma_split_sum(xs, cs, m, (k - 1) as nat);
        let lk = dot_prefix(fx, w, (k - 1) as nat);
        let pk = dot_prefix(px, w2, (k - 1) as nat);
        let hk = dot_prefix(hx, w2, (k - 1) as nat);
        // The term of node t.
        let d = xs[t] - r;
        let wt = w[t];
        let w2t = w2[t];
        let pt = px[t];
        let ht = hx[t];
        assert(wt == lagrange_weight(xs, t, m));
        assert(w2t == lagrange_weight(xs2, t, m));
        assert(xs2[t] == xs[t]);
        lemma_weight_step(xs, t, m);
        lemma_unity_quotient(xs2, r, m);
        assert(pt == poly_value(psi, xs2[t]));
        assert((pt * d) % m == 1);
        lemma_synthetic_division(cs, r, xs[t]);
        assert(fx[t] == fr + d * ht);
        // (d * wt) == (0 - r) * w2t, and so wt == pt * (0 - r) * w2t.
        lemma_mul_congruent(pt, d * wt, (0 - r) * w2t, m);
        assert(pt * (d * wt) == (pt * d) * wt) by (nonlinear_arith);
        lemma_mul_mod_noop_general(pt * d, wt, m);
        assert(((pt * d) * wt) % m == wt % m) by {
            lemma_mul_mod_noop_general(pt * d, wt, m);
            lemma_mod_twice(wt, m);
            lemma_mul_mod_noop_general(1, wt, m);
        }
        let rt = pt * ((0 - r) * w2t);
        assert(wt % m == rt % m);
        lemma_mul_congruent(fr, wt, rt, m);
        lemma_mul_congruent(ht, d * wt, (0 - r) * w2t, m);
        assert(fx[t] * wt == fr * wt + ht * (d * wt)) by (nonlinear_arith)
            requires
                fx[t] == fr + d * ht,
        ;
        lemma_add_congruent(fr * wt, fr * rt, ht * (d * wt), ht * ((0 - r) * w2t), m);
        lemma_add_congruent(
            lk,
            fr * (0 - r) * pk + (0 - r) * hk,
            fx[t] * wt,
            fr * rt + ht * ((0 - r) * w2t),
            m,
        );
        assert(dot_prefix(fx, w, k) == lk + fx[t] * wt);
        assert(dot_prefix(px, w2, k) == pk + pt * w2t);
        assert(dot_prefix(hx, w2, k) == hk + ht * w2t);
        assert(fr * (0 - r) * pk + (0 - r) * hk + (fr * rt + ht * ((0 - r) * w2t)) == fr * (0
            - r) * (pk + pt * w2t) + (0 - r) * (hk + ht * w2t)) by (nonlinear_arith)
            requires
                rt == pt * ((0 - r) * w2t),
        ;
    }
}

/// Lagrange interpolation at zero recovers the value at zero of every
/// polynomial with at most as many coefficients as there are nodes,
/// provided every Lagrange denominator is invertible.
pub proof fn lemma_lagrange_at_zero(xs: Seq<int>, cs: Seq<int>, m: int)
    requires
        m > 1,
        cs.len() <= xs.len(),
        denominators_invertible(xs, m),
    ensures
        dot_prefix(values_at(cs, xs), lagrange_weights(xs, m), xs.len()) % m == poly_value(cs, 0)
            % m,
    decreases xs.len(),
{
    let n = xs.len();
    if n == 0 {
        assert(poly_value(cs, 0) == 0);
        return;
    }
    let r = xs[n - 1];
    let xs2 = xs.subrange(0, n - 1);
    let k = (n - 1) as nat;
    assert forall|i: int| 0 <= i < xs2.len() implies invertible(
        #[trigger] skip_product(xs2, i, xs2.len(), xs2[i]),
        m,
    ) by {
        lemma_weight_step(xs, i, m);
    }
    let h = synthetic_quotient(cs, r);
    lemma_synthetic_division(cs, r, 0);
    lemma_lagrange_at_zero(xs2, h, m);
    lemma_last_weight(xs, m);
    assert(invertible(skip_product(xs, n - 1, n, xs[n - 1]), m));
    let wr = node_product(xs2, k, r);
    let w0 = node_product(xs2, k, 0);
    let c = inverse_of(wr, m);
    lemma_unity_quotient(xs2, r, m);
    let psi = unity_quotient(xs2, r, m);
    lemma_lagrange_at_zero(xs2, psi, m);
    lemma_split_sum(xs, cs, m, k);
    let fx = values_at(cs, xs);
    let w = lagrange_weights(xs, m);
    let w2 = lagrange_weights(xs2, m);
    let fr = poly_value(cs, r);
    let h0 = poly_value(h, 0);
    let psi0 = poly_value(psi, 0);
    let p = dot_prefix(values_at(psi, xs2), w2, k);
    let hs = dot_prefix(values_at(h, xs2), w2, k);
    let l = dot_prefix(fx, w, k);
    assert(xs2.len() == k);
    // fr * (0 - r) * p == fr * (0 - r) * psi0 == fr * (1 - c * w0), modulo m.
    lemma_mul_congruent(fr * (0 - r), p, psi0, m);
    lemma_mul_congruent(fr, (0 - r) * psi0, 1 - c * w0, m);
    assert(fr * (0 - r) * psi0 == fr * ((0 - r) * psi0)) by (nonlinear_arith);
    lemma_mul_congruent(0 - r, hs, h0, m);
    lemma_add_congruent(fr * (0 - r) * p, fr * (1 - c * w0), (0 - r) * hs, (0 - r) * h0, m);
    assert(w[n - 1] == w0 * c);
    assert(fx[n - 1] == fr);
    assert(dot_prefix(fx, w, n) == l + fr * (w0 * c));
    lemma_add_congruent(
        l,
        fr * (1 - c * w0) + (0 - r) * h0,
        fr * (w0 * c),
        fr * (w0 * c),
        m,
    );
    assert(fr * (1 - c * w0) + (0 - r) * h0 + fr * (w0 * c) == fr + (0 - r) * h0)
        by (nonlinear_arith);
}


/// A sum reduced after every step is the reduced sum, when its terms agree
/// modulo `m`.
pub proof fn lemma_weighted_sum_is_dot(
    ys: Seq<int>,
    coefs: Seq<int>,
    fx: Seq<int>,
    ws: Seq<int>,
    k: nat,
    m: int,
)
    requires
        m > 1,
        forall|i: int| 0 <= i < k ==> (ys[i] * coefs[i]) % m == (fx[i] * ws[i]) % m,
    ensures
        weighted_sum(ys, coefs, k as int, m) == dot_prefix(fx, ws, k) % m,
    decreases k,
{
    if k == 0 {
        lemma_small_mod(0, m as nat);
    } else {
        let t = k - 1;
        lemma_weighted_sum_is_dot(ys, coefs, fx, ws, (k - 1) as nat, m);
        let d = dot_prefix(fx, ws, (k - 1) as nat);
        lemma_add_mod_noop(d, fx[t] * ws[t], m);
        lemma_mod_twice(fx[t] * ws[t], m);
        lemma_mod_twice(d, m);
        lemma_add_mod_noop(d % m, (ys[t] * coefs[t]) % m, m);
    }
}

/// Shamir reconstruction: Lagrange interpolation at zero of shares of a
/// polynomial, taken at least at as many points as the polynomial has
/// coefficients, gives the polynomial's constant coefficient, the shared
/// secret, whenever every Lagrange denominator of the points is
/// invertible (as it is whenever interpolation succeeds).
pub proof fn lemma_interpolation_recovers_secret<S: GoldenScalar>(
    poly: Polynomial<S>,
    shares: Seq<Share<S>>,
)
    requires
        poly.well_formed(),
        poly.coeffs().len() <= shares.len(),
        forall|i: int|
            0 <= i < shares.len() ==> (#[trigger] shares[i]).value.value() == poly.value_at(
                shares[i].participant@ as int,
            ),
        denominators_have_inverses(share_points(shares), S::field_order() as int),
    ensures
        interpolate_at_zero_spec(shares) == poly.coeffs()[0].value(),
{
    S::lemma_field_order();
    let m = S::field_order() as int;
    let n = shares.len();
    let xs = share_points(shares);
    let cs = values_of(poly.coeffs());
    assert forall|i: int| 0 <= i < xs.len() implies invertible(
        #[trigger] skip_product(xs, i, xs.len(), xs[i]),
        m,
    ) by {
        lemma_denominator_reduced(xs, i, xs.len(), m);
        assert(is_inverse(
            field_inverse(lagrange_denominator(xs, i, xs.len() as int, m), m),
            lagrange_denominator(xs, i, xs.len() as int, m),
            m,
        ));
    }
    lemma_lagrange_at_zero(xs, cs, m);
    let ys = shares.map_values(|share: Share<S>| share.value.value() as int);
    let coefs = Seq::new(n, |i: int| lagrange_coefficient(xs, i, m));
    let fx = values_at(cs, xs);
    let ws = lagrange_weights(xs, m);
    assert forall|i: int| 0 <= i < n implies (ys[i] * coefs[i]) % m == (fx[i] * ws[i]) % m by {
        let x = shares[i].participant@ as int;
        assert(xs[i] == x % m);
        lemma_poly_value_mod(cs, x, m);
        lemma_mod_twice(poly_value(cs, x), m);
        assert(ys[i] % m == fx[i] % m);
        let num = skip_product(xs, i, n, 0);
        let den = skip_product(xs, i, n, xs[i]);
        lemma_numerator_reduced(xs, i, n, m);
        lemma_denominator_reduced(xs, i, n, m);
        assert(coefs[i] == ((num % m) * inverse_of(den, m)) % m);
        lemma_mul_mod_noop_general(num, inverse_of(den, m), m);
        lemma_mod_twice(num * inverse_of(den, m), m);
        assert(coefs[i] % m == ws[i] % m);
        lemma_mul_mod_noop_general(ys[i], coefs[i], m);
        lemma_mul_mod_noop_general(fx[i], ws[i], m);
    }
    lemma_weighted_sum_is_dot(ys, coefs, fx, ws, n, m);
    assert(poly_value(cs, 0) == cs[0]);
    S::lemma_scalar_model(poly.coeffs()[0], poly.coeffs()[0]);
    lemma_small_mod(poly.coeffs()[0].value(), m as nat);
}

} // verus!
