//! Shamir secret sharing over a generic scalar field.
use vstd::prelude::*;

use crate::error::Error;
use crate::group::GoldenScalar;
use crate::modarith::{lemma_horner_step, lemma_mul3_mod};
use crate::participant::{all_distinct, ensure_unique_participants, repeats_earlier, ParticipantIndex};

verus! {

/// Values of a sequence of scalars.
pub open spec fn values_of<S: GoldenScalar>(scalars: Seq<S>) -> Seq<int> {
    scalars.map_values(|s: S| s.value() as int)
}

/// Value at `x` of the polynomial with coefficients `cs` in ascending
/// degree order: `cs[0] + x * (cs[1] + x * (...))`.
pub open spec fn poly_value(cs: Seq<int>, x: int) -> int
    decreases cs.len(),
{
    if cs.len() == 0 {
        0
    } else {
        cs[0] + x * poly_value(cs.subrange(1, cs.len() as int), x)
    }
}

/// A Shamir share.
#[derive(Clone, Copy, Debug)]
pub struct Share<S: GoldenScalar> {
    /// Participant that owns this share.
    pub participant: ParticipantIndex,
    /// Share value `f(i)`.
    pub value: S,
}

/// Polynomial over a Golden scalar field; the first coefficient is the
/// shared secret.
#[derive(Debug)]
pub struct Polynomial<S: GoldenScalar> {
    coefficients: Vec<S>,
}

impl<S: GoldenScalar> Polynomial<S> {
    /// Coefficients in ascending degree order.
    pub closed spec fn coeffs(&self) -> Seq<S> {
        self.coefficients@
    }

    /// A polynomial has at least one coefficient, and every coefficient is
    /// a field element.
    pub open spec fn well_formed(&self) -> bool {
        self.coeffs().len() > 0 && forall|i: int|
            0 <= i < self.coeffs().len() ==> (#[trigger] self.coeffs()[i]).wf()
    }

    #[verifier::type_invariant]
    spec fn polynomial_invariant(self) -> bool {
        self.well_formed()
    }

    /// Value of this polynomial at the integer `x`, reduced into the field.
    pub open spec fn value_at(&self, x: int) -> int {
        poly_value(values_of(self.coeffs()), x) % (S::field_order() as int)
    }

    /// A degree `threshold - 1` polynomial with the given secret and the
    /// given higher coefficients (sampled at random by the caller).
    pub fn with_secret(secret: S, threshold: usize, higher: Vec<S>) -> (result: Result<
        Self,
        Error,
    >)
        requires
            threshold > 0 ==> higher@.len() == threshold - 1,
            secret.wf(),
            forall|i: int| 0 <= i < higher@.len() ==> (#[trigger] higher@[i]).wf(),
        ensures
            threshold == 0 ==> result == Err::<Self, Error>(
                Error::InvalidThreshold { threshold: 0, participants: 0 },
            ),
            threshold > 0 ==> (result matches Ok(p) && p.well_formed() && p.coeffs() == seq![
                secret,
            ] + higher@),
    {
        if threshold == 0 {
            return Err(Error::InvalidThreshold { threshold, participants: 0 });
        }
        let mut coefficients: Vec<S> = Vec::new();
        coefficients.push(secret);
        let mut i: usize = 0;
        while i < higher.len()
            invariant
                i <= higher@.len(),
                coefficients@ == seq![secret] + higher@.subrange(0, i as int),
            decreases higher@.len() - i,
        {
            coefficients.push(higher[i]);
            i = i + 1;
            assert(coefficients@ =~= seq![secret] + higher@.subrange(0, i as int));
        }
        assert(higher@.subrange(0, i as int) =~= higher@);
        assert(forall|t: int| 0 <= t < coefficients@.len() ==> (#[trigger] coefficients@[t]).wf()) by {
            assert forall|t: int| 0 <= t < coefficients@.len() implies (#[trigger] coefficients@[t]).wf() by {
                if t > 0 {
                    assert(coefficients@[t] == higher@[t - 1]);
                }
            }
        }
        Ok(Self { coefficients })
    }

    /// Create a polynomial from explicit coefficients in ascending degree
    /// order.
    pub fn from_coefficients(coefficients: Vec<S>) -> (result: Result<Self, Error>)
        requires
            forall|i: int| 0 <= i < coefficients@.len() ==> (#[trigger] coefficients@[i]).wf(),
        ensures
            coefficients@.len() == 0 ==> result == Err::<Self, Error>(
                Error::InvalidThreshold { threshold: 0, participants: 0 },
            ),
            coefficients@.len() > 0 ==> (result matches Ok(p) && p.well_formed() && p.coeffs()
                == coefficients@),
    {
        if coefficients.len() == 0 {
            return Err(Error::InvalidThreshold { threshold: 0, participants: 0 });
        }
        Ok(Self { coefficients })
    }

    /// Return polynomial coefficients in ascending degree order.
    pub fn coefficients(&self) -> (cs: &[S])
        ensures
            cs@ == self.coeffs(),
            self.well_formed(),
    {
        proof {
            use_type_invariant(self);
        }
        self.coefficients.as_slice()
    }

    /// Evaluate this polynomial at a scalar point.
    pub fn evaluate_at_scalar(&self, x: &S) -> (y: S)
        requires
            x.wf(),
        ensures
            y.wf(),
            y.value() == self.value_at(x.value() as int),
    {
        let ghost vals = values_of(self.coeffs());
        let ghost m = S::field_order() as int;
        proof {
            S::lemma_scalar_model(*x, *x);
            use_type_invariant(self);
        }
        let n = self.coefficients.len();
        let mut result = S::zero();
        let mut k: usize = n;
        proof {
            assert(vals.subrange(n as int, n as int) =~= Seq::<int>::empty());
            assert(poly_value(vals.subrange(n as int, n as int), x.value() as int) == 0);
            assert(result.value() == 0);
            vstd::arithmetic::div_mod::lemma_small_mod(0, m as nat);
        }
        while k > 0
            invariant
                k <= n,
                n == self.coeffs().len(),
                vals == values_of(self.coeffs()),
                m == S::field_order() as int,
                m > 1,
                x.wf(),
                result.wf(),
                self.well_formed(),
                result.value() == poly_value(vals.subrange(k as int, n as int), x.value() as int)
                    % m,
            decreases k,
        {
            k = k - 1;
            let c = self.coefficients[k];
            let next = result.mul(x).add(&c);
            proof {
                let sub = vals.subrange(k as int, n as int);
                assert(sub.subrange(1, sub.len() as int) =~= vals.subrange(k + 1, n as int));
                assert(sub[0] == c.value());
                lemma_horner_step(
                    poly_value(vals.subrange(k + 1, n as int), x.value() as int),
                    x.value() as int,
                    c.value() as int,
                    m,
                );
            }
            result = next;
        }
        proof {
            assert(vals.subrange(0, n as int) =~= vals);
        }
        result
    }

    /// Evaluate this polynomial for a participant.
    pub fn evaluate(&self, participant: ParticipantIndex) -> (result: Result<Share<S>, Error>)
        ensures
            result matches Ok(share) ==> share.participant == participant && share.value.wf()
                && share.value.value() == self.value_at(participant@ as int),
            result is Ok <==> S::from_u64_succeeds(participant@ as u64),
            result is Err ==> result == Err::<Share<S>, Error>(Error::InvalidEncoding),
    {
        let x = match participant.to_scalar::<S>() {
            Ok(x) => x,
            Err(e) => return Err(e),
        };
        let value = self.evaluate_at_scalar(&x);
        proof {
            S::lemma_scalar_model(value, value);
            lemma_value_at_mod::<S>(self.coeffs(), participant@ as int);
        }
        Ok(Share { participant, value })
    }

    /// Generate shares for the provided participant indexes.
    pub fn shares(&self, participants: &[ParticipantIndex]) -> (result: Result<
        Vec<Share<S>>,
        Error,
    >)
        ensures
            !all_distinct(participants@) ==> exists|j: int|
                0 <= j < participants@.len() && repeats_earlier(participants@, j) && (forall|k: int|
                    0 <= k < j ==> !repeats_earlier(participants@, k)) && result == Err::<
                    Vec<Share<S>>,
                    Error,
                >(Error::DuplicateParticipantIndex(participants@[j]@)),
            all_distinct(participants@) ==> (result is Ok <==> forall|i: int|
                0 <= i < participants@.len() ==> S::from_u64_succeeds(
                    (#[trigger] participants@[i])@ as u64,
                )),
            all_distinct(participants@) && result is Err ==> result == Err::<Vec<Share<S>>, Error>(
                Error::InvalidEncoding,
            ),
            result matches Ok(shares) ==> shares@.len() == participants@.len() && forall|i: int|
                0 <= i < participants@.len() ==> (#[trigger] shares@[i]).participant
                    == participants@[i] && shares@[i].value.wf() && shares@[i].value.value() == self.value_at(
                    participants@[i]@ as int,
                ),
    {
        match ensure_unique_participants(participants) {
            Ok(()) => {},
            Err(e) => {
                return Err(e);
            },
        }
        let mut shares: Vec<Share<S>> = Vec::new();
        let mut i: usize = 0;
        while i < participants.len()
            invariant
                i <= participants@.len(),
                all_distinct(participants@),
                forall|j: int|
                    0 <= j < i ==> S::from_u64_succeeds((#[trigger] participants@[j])@ as u64),
                shares@.len() == i,
                forall|j: int|
                    0 <= j < i ==> (#[trigger] shares@[j]).participant == participants@[j]
                        && shares@[j].value.wf() && shares@[j].value.value() == self.value_at(participants@[j]@ as int),
            decreases participants@.len() - i,
        {
            let share = match self.evaluate(participants[i]) {
                Ok(share) => share,
                Err(e) => {
                    return Err(e);
                },
            };
            shares.push(share);
            i = i + 1;
        }
        Ok(shares)
    }
}

impl<S: GoldenScalar> Clone for Polynomial<S> {
    fn clone(&self) -> (copy: Self)
        ensures
            copy.coeffs() == self.coeffs(),
    {
        proof {
            use_type_invariant(self);
        }
        let mut coefficients: Vec<S> = Vec::new();
        let mut i: usize = 0;
        while i < self.coefficients.len()
            invariant
                i <= self.coefficients@.len(),
                coefficients@ == self.coefficients@.subrange(0, i as int),
            decreases self.coefficients@.len() - i,
        {
            coefficients.push(self.coefficients[i]);
            i = i + 1;
            assert(coefficients@ =~= self.coefficients@.subrange(0, i as int));
        }
        assert(coefficients@ =~= self.coefficients@);
        Self { coefficients }
    }
}

/// Evaluating at `x` reduced into the field gives the same value as at `x`.
pub proof fn lemma_value_at_mod<S: GoldenScalar>(cs: Seq<S>, x: int)
    ensures
        poly_value(values_of(cs), x % (S::field_order() as int)) % (S::field_order() as int)
            == poly_value(values_of(cs), x) % (S::field_order() as int),
    decreases cs.len(),
{
    S::lemma_field_order();
    lemma_poly_value_mod(values_of(cs), x, S::field_order() as int);
}

/// Polynomial values are congruent at congruent points.
pub proof fn lemma_poly_value_mod(cs: Seq<int>, x: int, m: int)
    requires
        m > 0,
    ensures
        poly_value(cs, x % m) % m == poly_value(cs, x) % m,
    decreases cs.len(),
{
    if cs.len() > 0 {
        let tail = cs.subrange(1, cs.len() as int);
        lemma_poly_value_mod(tail, x, m);
        let pt = poly_value(tail, x % m);
        let p = poly_value(tail, x);
        vstd::arithmetic::div_mod::lemma_add_mod_noop(cs[0], (x % m) * pt, m);
        vstd::arithmetic::div_mod::lemma_add_mod_noop(cs[0], x * p, m);
        vstd::arithmetic::div_mod::lemma_mul_mod_noop_general(x, pt, m);
        vstd::arithmetic::div_mod::lemma_mul_mod_noop_general(x, p, m);
        vstd::arithmetic::div_mod::lemma_mul_mod_noop_general(x % m, pt, m);
        vstd::arithmetic::div_mod::lemma_mod_twice(x, m);
    }
}

/// Product of the first `k` entries of `vals`, reduced after every step.
pub open spec fn prefix_product(vals: Seq<int>, k: int, m: int) -> int
    decreases k,
{
    if k <= 0 {
        1
    } else {
        (prefix_product(vals, k - 1, m) * vals[k - 1]) % m
    }
}

/// Batch-inverts `values` in place with one field inversion (the
/// Montgomery trick). Returns `None`, leaving `values` unchanged, exactly
/// when the product of all values is zero.
pub fn batch_invert<S: GoldenScalar>(values: &mut [S]) -> (result: Option<()>)
    requires
        forall|i: int| 0 <= i < old(values)@.len() ==> (#[trigger] old(values)@[i]).wf(),
    ensures
        forall|i: int| 0 <= i < final(values)@.len() ==> (#[trigger] final(values)@[i]).wf(),
        final(values)@.len() == old(values)@.len(),
        old(values)@.len() == 0 ==> result is Some,
        old(values)@.len() > 0 ==> (result is None <==> prefix_product(
            values_of(old(values)@),
            old(values)@.len() as int,
            S::field_order() as int,
        ) == 0),
        result is None ==> final(values)@ == old(values)@,
        result is Some ==> forall|i: int|
            0 <= i < old(values)@.len() ==> ((#[trigger] final(values)@[i]).value() * old(
                values,
            )@[i].value()) % S::field_order() == 1,
{
    let n = values.len();
    if n == 0 {
        return Some(());
    }
    let ghost vals = values_of(values@);
    let ghost m = S::field_order() as int;
    let one = S::one();
    proof {
        S::lemma_scalar_model(one, one);
    }
    let mut prefix: Vec<S> = Vec::new();
    let mut acc = one;
    let mut i: usize = 0;
    while i < n
        invariant
            i <= n,
            n == values@.len(),
            values@ == old(values)@,
            vals == values_of(values@),
            m == S::field_order() as int,
            m > 1,
            prefix@.len() == i,
            forall|j: int| 0 <= j < i ==> (#[trigger] prefix@[j]).value() == prefix_product(vals, j, m),
            forall|j: int| 0 <= j < i ==> (#[trigger] prefix@[j]).wf(),
            forall|j: int| 0 <= j < n ==> (#[trigger] values@[j]).wf(),
            acc.wf(),
            acc.value() == prefix_product(vals, i as int, m),
        decreases n - i,
    {
        prefix.push(acc);
        acc = acc.mul(&values[i]);
        i = i + 1;
    }
    let mut acc_inv = match acc.invert() {
        Some(inverse) => inverse,
        None => return None,
    };
    let mut k: usize = n;
    while k > 0
        invariant
            k <= n,
            n == values@.len(),
            n == old(values)@.len(),
            vals == values_of(old(values)@),
            m == S::field_order() as int,
            m > 1,
            prefix@.len() == n,
            forall|j: int| 0 <= j < n ==> (#[trigger] prefix@[j]).value() == prefix_product(vals, j, m),
            forall|j: int| 0 <= j < n ==> (#[trigger] prefix@[j]).wf(),
            forall|j: int| 0 <= j < n ==> (#[trigger] values@[j]).wf(),
            forall|j: int| 0 <= j < n ==> (#[trigger] old(values)@[j]).wf(),
            acc_inv.wf(),
            (acc_inv.value() * prefix_product(vals, k as int, m)) % m == 1,
            forall|j: int| 0 <= j < k ==> #[trigger] values@[j] == old(values)@[j],
            forall|j: int|
                k <= j < n ==> ((#[trigger] values@[j]).value() * old(values)@[j].value())
                    % S::field_order() == 1,
        decreases k,
    {
        k = k - 1;
        let value = values[k];
        let inverse = acc_inv.mul(&prefix[k]);
        proof {
            let a = acc_inv.value() as int;
            let p = prefix_product(vals, k as int, m);
            let v = value.value() as int;
            assert(vals[k as int] == v);
            lemma_mul3_mod(a, p, v, m);
            vstd::arithmetic::mul::lemma_mul_is_commutative(v, p);
            lemma_mul3_mod(a, v, p, m);
        }
        acc_inv = acc_inv.mul(&value);
        values[k] = inverse;
    }
    Some(())
}

/// One factor of a Lagrange numerator at zero: `-x_j`.
pub open spec fn numerator_factor(xs: Seq<int>, j: int, m: int) -> int {
    (0 - xs[j]) % m
}

/// One factor of a Lagrange denominator: `x_i - x_j`.
pub open spec fn denominator_factor(xs: Seq<int>, i: int, j: int, m: int) -> int {
    (xs[i] - xs[j]) % m
}

/// Product of the numerator factors `-x_j` over `j < k`, `j != i`.
pub open spec fn lagrange_numerator(xs: Seq<int>, i: int, k: int, m: int) -> int
    decreases k,
{
    if k <= 0 {
        1
    } else if k - 1 == i {
        lagrange_numerator(xs, i, k - 1, m)
    } else {
        (lagrange_numerator(xs, i, k - 1, m) * numerator_factor(xs, k - 1, m)) % m
    }
}

/// Product of the denominator factors `x_i - x_j` over `j < k`, `j != i`.
pub open spec fn lagrange_denominator(xs: Seq<int>, i: int, k: int, m: int) -> int
    decreases k,
{
    if k <= 0 {
        1
    } else if k - 1 == i {
        lagrange_denominator(xs, i, k - 1, m)
    } else {
        (lagrange_denominator(xs, i, k - 1, m) * denominator_factor(xs, i, k - 1, m)) % m
    }
}

/// The Lagrange denominators of all points.
pub open spec fn lagrange_denominators(xs: Seq<int>, m: int) -> Seq<int> {
    Seq::new(xs.len(), |i: int| lagrange_denominator(xs, i, xs.len() as int, m))
}

/// `b` is a reduced multiplicative inverse of `a` modulo `m`.
pub open spec fn is_inverse(b: int, a: int, m: int) -> bool {
    0 <= b < m && (b * a) % m == 1
}

/// Every Lagrange denominator of the points `xs` has an inverse modulo `m`.
pub open spec fn denominators_have_inverses(xs: Seq<int>, m: int) -> bool {
    forall|i: int|
        0 <= i < xs.len() ==> is_inverse(
            field_inverse(#[trigger] lagrange_denominator(xs, i, xs.len() as int, m), m),
            lagrange_denominator(xs, i, xs.len() as int, m),
            m,
        )
}

/// Every interpolation point of the shares is accepted as a scalar.
pub open spec fn share_points_convert<S: GoldenScalar>(shares: Seq<Share<S>>) -> bool {
    forall|i: int|
        0 <= i < shares.len() ==> S::from_u64_succeeds(
            (#[trigger] shares[i]).participant@ as u64,
        )
}

/// The multiplicative inverse of `a` modulo `m`, where one exists.
pub open spec fn field_inverse(a: int, m: int) -> int {
    choose|b: int| #[trigger] is_inverse(b, a, m)
}

/// Lagrange coefficient `lambda_i(0)` of point `i`.
pub open spec fn lagrange_coefficient(xs: Seq<int>, i: int, m: int) -> int {
    (lagrange_numerator(xs, i, xs.len() as int, m) * field_inverse(
        lagrange_denominator(xs, i, xs.len() as int, m),
        m,
    )) % m
}

/// An inverse found by computation is the field inverse.
pub proof fn lemma_field_inverse(a: int, b: int, m: int)
    requires
        m > 1,
        0 <= b < m,
        (b * a) % m == 1,
    ensures
        field_inverse(a, m) == b,
{
    assert(is_inverse(b, a, m));
    let c = field_inverse(a, m);
    assert(is_inverse(c, a, m));
    crate::modarith::lemma_inverse_unique(a, b, c, m);
    vstd::arithmetic::div_mod::lemma_small_mod(b as nat, m as nat);
    vstd::arithmetic::div_mod::lemma_small_mod(c as nat, m as nat);
}

/// Lagrange coefficients `lambda_i(0)` for each `x_i` in `xs`, computed
/// with one batch field inversion via [`batch_invert`].
pub fn lagrange_coefficients_at_zero<S: GoldenScalar>(xs: &[S]) -> (result: Result<
    Vec<S>,
    Error,
>)
    requires
        forall|i: int| 0 <= i < xs@.len() ==> (#[trigger] xs@[i]).wf(),
    ensures
        result matches Ok(cs) ==> forall|i: int| 0 <= i < cs@.len() ==> (#[trigger] cs@[i]).wf(),
        result is Err <==> xs@.len() > 0 && prefix_product(
            lagrange_denominators(values_of(xs@), S::field_order() as int),
            xs@.len() as int,
            S::field_order() as int,
        ) == 0,
        result is Err ==> result == Err::<Vec<S>, Error>(Error::NonInvertibleDenominator),
        result matches Ok(cs) ==> cs@.len() == xs@.len() && forall|i: int|
            0 <= i < xs@.len() ==> (#[trigger] cs@[i]).value() == lagrange_coefficient(
                values_of(xs@),
                i,
                S::field_order() as int,
            ),
        result is Ok ==> denominators_have_inverses(values_of(xs@), S::field_order() as int),
{
    let n = xs.len();
    let ghost vals = values_of(xs@);
    let ghost m = S::field_order() as int;
    let one = S::one();
    proof {
        S::lemma_scalar_model(one, one);
    }
    let mut numerators: Vec<S> = Vec::new();
    let mut denominators: Vec<S> = Vec::new();
    let mut i: usize = 0;
    while i < n
        invariant
            i <= n,
            n == xs@.len(),
            vals == values_of(xs@),
            m == S::field_order() as int,
            m > 1,
            one.value() == 1,
            one.wf(),
            forall|t: int| 0 <= t < n ==> (#[trigger] xs@[t]).wf(),
            forall|t: int| 0 <= t < i ==> (#[trigger] numerators@[t]).wf(),
            forall|t: int| 0 <= t < i ==> (#[trigger] denominators@[t]).wf(),
            numerators@.len() == i,
            denominators@.len() == i,
            forall|t: int|
                0 <= t < i ==> (#[trigger] numerators@[t]).value() == lagrange_numerator(
                    vals,
                    t,
                    n as int,
                    m,
                ),
            forall|t: int|
                0 <= t < i ==> (#[trigger] denominators@[t]).value() == lagrange_denominator(
                    vals,
                    t,
                    n as int,
                    m,
                ),
        decreases n - i,
    {
        let xi = xs[i];
        let mut numerator = one;
        let mut denominator = one;
        let mut j: usize = 0;
        while j < n
            invariant
                j <= n,
                i < n,
                n == xs@.len(),
                xi == xs@[i as int],
                vals == values_of(xs@),
                m == S::field_order() as int,
                m > 1,
                forall|t: int| 0 <= t < n ==> (#[trigger] xs@[t]).wf(),
                numerator.wf(),
                denominator.wf(),
                numerator.value() == lagrange_numerator(vals, i as int, j as int, m),
                denominator.value() == lagrange_denominator(vals, i as int, j as int, m),
            decreases n - j,
        {
            if i != j {
                let xj = xs[j];
                numerator = numerator.mul(&xj.neg());
                denominator = denominator.mul(&xi.sub(&xj));
            }
            j = j + 1;
        }
        numerators.push(numerator);
        denominators.push(denominator);
        i = i + 1;
    }
    proof {
        assert(values_of(denominators@) =~= lagrange_denominators(vals, m));
    }
    let ghost old_denominators = denominators@;
    if batch_invert(denominators.as_mut_slice()).is_none() {
        return Err(Error::NonInvertibleDenominator);
    }
    let mut coefficients: Vec<S> = Vec::new();
    let mut t: usize = 0;
    while t < n
        invariant
            t <= n,
            n == xs@.len(),
            vals == values_of(xs@),
            m == S::field_order() as int,
            m > 1,
            numerators@.len() == n,
            denominators@.len() == n,
            old_denominators.len() == n,
            coefficients@.len() == t,
            forall|u: int| 0 <= u < n ==> (#[trigger] numerators@[u]).wf(),
            forall|u: int| 0 <= u < n ==> (#[trigger] denominators@[u]).wf(),
            forall|u: int| 0 <= u < t ==> (#[trigger] coefficients@[u]).wf(),
            forall|u: int|
                0 <= u < n ==> (#[trigger] numerators@[u]).value() == lagrange_numerator(
                    vals,
                    u,
                    n as int,
                    m,
                ),
            forall|u: int|
                0 <= u < n ==> (#[trigger] old_denominators[u]).value() == lagrange_denominator(
                    vals,
                    u,
                    n as int,
                    m,
                ),
            forall|u: int|
                0 <= u < n ==> ((#[trigger] denominators@[u]).value()
                    * old_denominators[u].value()) % S::field_order() == 1,
            forall|u: int|
                0 <= u < t ==> (#[trigger] coefficients@[u]).value() == lagrange_coefficient(
                    vals,
                    u,
                    m,
                ),
        decreases n - t,
    {
        let inverse = denominators[t];
        let coefficient = numerators[t].mul(&inverse);
        proof {
            S::lemma_scalar_model(inverse, inverse);
            lemma_field_inverse(old_denominators[t as int].value() as int, inverse.value() as int, m);
        }
        coefficients.push(coefficient);
        t = t + 1;
    }
    proof {
        assert forall|u: int| 0 <= u < n implies is_inverse(
            field_inverse(#[trigger] lagrange_denominator(vals, u, n as int, m), m),
            lagrange_denominator(vals, u, n as int, m),
            m,
        ) by {
            S::lemma_scalar_model(denominators@[u], denominators@[u]);
            lemma_field_inverse(
                old_denominators[u].value() as int,
                denominators@[u].value() as int,
                m,
            );
        }
    }
    Ok(coefficients)
}

/// Participants of a sequence of shares.
pub open spec fn participants_of<S: GoldenScalar>(shares: Seq<Share<S>>) -> Seq<ParticipantIndex> {
    shares.map_values(|share: Share<S>| share.participant)
}

/// Interpolation points of a sequence of shares, as field values.
pub open spec fn share_points<S: GoldenScalar>(shares: Seq<Share<S>>) -> Seq<int> {
    shares.map_values(|share: Share<S>| (share.participant@ as int) % (S::field_order() as int))
}

/// `sum_{i < k} values[i] * coefficients[i]`, reduced after every step.
pub open spec fn weighted_sum(values: Seq<int>, coefficients: Seq<int>, k: int, m: int) -> int
    decreases k,
{
    if k <= 0 {
        0
    } else {
        (weighted_sum(values, coefficients, k - 1, m) + (values[k - 1] * coefficients[k - 1]) % m)
            % m
    }
}

/// The Lagrange interpolation at zero of the given shares.
pub open spec fn interpolate_at_zero_spec<S: GoldenScalar>(shares: Seq<Share<S>>) -> int {
    let m = S::field_order() as int;
    let xs = share_points(shares);
    weighted_sum(
        shares.map_values(|share: Share<S>| share.value.value() as int),
        Seq::new(shares.len(), |i: int| lagrange_coefficient(xs, i, m)),
        shares.len() as int,
        m,
    )
}

/// Interpolate the value at zero from the provided shares.
pub fn lagrange_interpolate_at_zero<S: GoldenScalar>(shares: &[Share<S>]) -> (result: Result<
    S,
    Error,
>)
    requires
        forall|i: int| 0 <= i < shares@.len() ==> (#[trigger] shares@[i]).value.wf(),
    ensures
        result matches Ok(v) ==> v.wf(),
        shares@.len() == 0 ==> result == Err::<S, Error>(
            Error::InvalidThreshold { threshold: 0, participants: 0 },
        ),
        !all_distinct(participants_of(shares@)) ==> result is Err,
        result matches Err(Error::NonInvertibleDenominator) ==> prefix_product(
            lagrange_denominators(share_points(shares@), S::field_order() as int),
            shares@.len() as int,
            S::field_order() as int,
        ) == 0,
        result matches Ok(v) ==> v.value() == interpolate_at_zero_spec(shares@),
        result is Ok ==> denominators_have_inverses(
            share_points(shares@),
            S::field_order() as int,
        ),
        shares@.len() > 0 && all_distinct(participants_of(shares@)) && share_points_convert(
            shares@,
        ) && prefix_product(
            lagrange_denominators(share_points(shares@), S::field_order() as int),
            shares@.len() as int,
            S::field_order() as int,
        ) != 0 ==> result is Ok,
        shares@.len() > 0 && !all_distinct(participants_of(shares@)) ==> exists|j: int|
            0 <= j < shares@.len() && repeats_earlier(participants_of(shares@), j) && (forall|k: int|
                0 <= k < j ==> !repeats_earlier(participants_of(shares@), k)) && result == Err::<
                S,
                Error,
            >(Error::DuplicateParticipantIndex(shares@[j].participant@)),
        shares@.len() > 0 && all_distinct(participants_of(shares@)) && !share_points_convert(
            shares@,
        ) ==> result == Err::<S, Error>(Error::InvalidEncoding),
        shares@.len() > 0 && all_distinct(participants_of(shares@)) && share_points_convert(
            shares@,
        ) && prefix_product(
            lagrange_denominators(share_points(shares@), S::field_order() as int),
            shares@.len() as int,
            S::field_order() as int,
        ) == 0 ==> result == Err::<S, Error>(Error::NonInvertibleDenominator),
{
    let n = shares.len();
    if n == 0 {
        return Err(Error::InvalidThreshold { threshold: 0, participants: 0 });
    }
    let ghost m = S::field_order() as int;
    let mut participants: Vec<ParticipantIndex> = Vec::new();
    let mut i: usize = 0;
    while i < n
        invariant
            i <= n,
            n == shares@.len(),
            participants@ == participants_of(shares@).subrange(0, i as int),
        decreases n - i,
    {
        participants.push(shares[i].participant);
        i = i + 1;
        assert(participants@ =~= participants_of(shares@).subrange(0, i as int));
    }
    proof {
        assert(participants@ =~= participants_of(shares@));
    }
    match ensure_unique_participants(&participants) {
        Ok(()) => {},
        Err(e) => {
            proof {
                let j = choose|j: int|
                    0 <= j < participants@.len() && repeats_earlier(participants@, j) && (forall|
                        k: int,
                    | 0 <= k < j ==> !repeats_earlier(participants@, k)) && e
                        == Error::DuplicateParticipantIndex(participants@[j]@);
                assert(participants@[j] == shares@[j].participant);
            }
            return Err(e);
        },
    }
    let mut xs: Vec<S> = Vec::new();
    let mut i: usize = 0;
    while i < n
        invariant
            i <= n,
            all_distinct(participants_of(shares@)),
            forall|t: int| 0 <= t < i ==> S::from_u64_succeeds(
                (#[trigger] shares@[t]).participant@ as u64,
            ),
            n == shares@.len(),
            m == S::field_order() as int,
            xs@.len() == i,
            forall|t: int| 0 <= t < i ==> (#[trigger] xs@[t]).value() == share_points(shares@)[t],
            forall|t: int| 0 <= t < i ==> (#[trigger] xs@[t]).wf(),
        decreases n - i,
    {
        let x = match shares[i].participant.to_scalar::<S>() {
            Ok(x) => x,
            Err(e) => {
                return Err(e);
            },
        };
        xs.push(x);
        i = i + 1;
    }
    proof {
        assert(values_of(xs@) =~= share_points(shares@));
    }
    let coefficients = match lagrange_coefficients_at_zero(xs.as_slice()) {
        Ok(coefficients) => coefficients,
        Err(e) => {
            return Err(e);
        },
    };
    let ghost share_values = shares@.map_values(|share: Share<S>| share.value.value() as int);
    let ghost lambdas = Seq::new(shares@.len(), |t: int| lagrange_coefficient(share_points(shares@), t, m));
    let mut result = S::zero();
    let mut i: usize = 0;
    proof {
        S::lemma_scalar_model(result, result);
    }
    while i < n
        invariant
            i <= n,
            n == shares@.len(),
            m == S::field_order() as int,
            m > 1,
            coefficients@.len() == n,
            forall|t: int| 0 <= t < n ==> (#[trigger] coefficients@[t]).wf(),
            forall|t: int| 0 <= t < n ==> (#[trigger] shares@[t]).value.wf(),
            result.wf(),
            share_values == shares@.map_values(|share: Share<S>| share.value.value() as int),
            lambdas == Seq::new(shares@.len(), |t: int| lagrange_coefficient(share_points(shares@), t, m)),
            forall|t: int| 0 <= t < n ==> (#[trigger] coefficients@[t]).value() == lambdas[t],
            result.value() == weighted_sum(share_values, lambdas, i as int, m),
        decreases n - i,
    {
        let term = shares[i].value.mul(&coefficients[i]);
        result = result.add(&term);
        i = i + 1;
    }
    Ok(result)
}

/// Reconstruct the secret `f(0)` from at least `threshold` shares; every
/// supplied share takes part in the interpolation.
pub fn reconstruct_secret<S: GoldenScalar>(shares: &[Share<S>], threshold: usize) -> (result:
    Result<S, Error>)
    requires
        forall|i: int| 0 <= i < shares@.len() ==> (#[trigger] shares@[i]).value.wf(),
    ensures
        result matches Ok(v) ==> v.wf(),
        threshold == 0 || shares@.len() < threshold ==> result == Err::<S, Error>(
            Error::InvalidThreshold { threshold, participants: shares@.len() as usize },
        ),
        !all_distinct(participants_of(shares@)) ==> result is Err,
        result matches Ok(v) ==> v.value() == interpolate_at_zero_spec(shares@),
        result is Ok ==> denominators_have_inverses(
            share_points(shares@),
            S::field_order() as int,
        ),
        threshold > 0 && shares@.len() >= threshold && all_distinct(participants_of(shares@))
            && share_points_convert(shares@) && prefix_product(
            lagrange_denominators(share_points(shares@), S::field_order() as int),
            shares@.len() as int,
            S::field_order() as int,
        ) != 0 ==> result is Ok,
        threshold > 0 && shares@.len() >= threshold && !all_distinct(participants_of(shares@))
            ==> exists|j: int|
            0 <= j < shares@.len() && repeats_earlier(participants_of(shares@), j) && (forall|k: int|
                0 <= k < j ==> !repeats_earlier(participants_of(shares@), k)) && result == Err::<
                S,
                Error,
            >(Error::DuplicateParticipantIndex(shares@[j].participant@)),
        threshold > 0 && shares@.len() >= threshold && all_distinct(participants_of(shares@))
            && !share_points_convert(shares@) ==> result == Err::<S, Error>(Error::InvalidEncoding),
        threshold > 0 && shares@.len() >= threshold && all_distinct(participants_of(shares@))
            && share_points_convert(shares@) && prefix_product(
            lagrange_denominators(share_points(shares@), S::field_order() as int),
            shares@.len() as int,
            S::field_order() as int,
        ) == 0 ==> result == Err::<S, Error>(Error::NonInvertibleDenominator),
{
    if threshold == 0 || shares.len() < threshold {
        return Err(Error::InvalidThreshold { threshold, participants: shares.len() });
    }
    lagrange_interpolate_at_zero(shares)
}

} // verus!
