//! Feldman commitments over a generic Golden group.
use vstd::prelude::*;

use crate::error::Error;
use crate::group::{GoldenGroup, GoldenScalar};
use crate::modarith::lemma_horner_step;
use crate::msm::{bit_length, lemma_bit_length_upper, num_bits};
use crate::participant::ParticipantIndex;
use crate::shamir::{poly_value, values_of, Polynomial, Share};

verus! {

/// Discrete logarithms of a sequence of group elements.
pub open spec fn dlogs_of<G: GoldenGroup>(elements: Seq<G::Element>) -> Seq<int> {
    elements.map_values(|e: G::Element| G::dlog(e) as int)
}

/// `2 * (a % q) + b` reduces like `2 * a + b`, the double-and-add step.
proof fn lemma_double_add_step(p: int, t: int, bit: int, q: int)
    requires
        q > 0,
    ensures
        (((p * t) % q + (p * t) % q) % q + bit * p) % q == (p * (2 * t + bit)) % q,
        ((p * t) % q + (p * t) % q) % q == (p * (2 * t)) % q,
        (((p * t) % q + (p * t) % q) % q + p) % q == (p * (2 * t + 1)) % q,
{
    assert(p * t + p * t + p == p * (2 * t + 1)) by (nonlinear_arith);
    vstd::arithmetic::div_mod::lemma_add_mod_noop(p * t + p * t, p, q);
    vstd::arithmetic::div_mod::lemma_add_mod_noop((p * t + p * t) % q, p, q);
    vstd::arithmetic::div_mod::lemma_mod_twice(p * t + p * t, q);
    vstd::arithmetic::div_mod::lemma_add_mod_noop(p * t, p * t, q);
    assert(p * t + p * t == p * (2 * t)) by (nonlinear_arith);
    vstd::arithmetic::div_mod::lemma_add_mod_noop(p * t, p * t, q);
    vstd::arithmetic::div_mod::lemma_add_mod_noop(p * t + p * t, bit * p, q);
    vstd::arithmetic::div_mod::lemma_add_mod_noop((p * t + p * t) % q, bit * p, q);
    vstd::arithmetic::div_mod::lemma_mod_twice(p * t + p * t, q);
    vstd::arithmetic::div_mod::lemma_mod_bound(p * t + p * t, q);
    vstd::arithmetic::div_mod::lemma_mod_bound(bit * p, q);
    assert(p * t + p * t + bit * p == p * (2 * t + bit)) by (nonlinear_arith);
    vstd::arithmetic::div_mod::lemma_add_mod_noop(((p * t) % q + (p * t) % q), bit * p, q);
}

/// Variable-time double-and-add multiplication by a small public scalar.
fn mul_by_small_scalar<G: GoldenGroup>(point: &G::Element, scalar: u32) -> (product: G::Element)
    requires
        G::element_wf(*point),
    ensures
        G::element_wf(product),
        G::dlog(product) == (G::dlog(*point) * (scalar as nat)) % <G::Scalar as GoldenScalar>::field_order(),
{
    let ghost q = <G::Scalar as GoldenScalar>::field_order() as int;
    let ghost p = G::dlog(*point) as int;
    proof {
        G::lemma_group_model(*point);
        <G::Scalar as GoldenScalar>::lemma_field_order();
    }
    if scalar == 0 {
        let identity = G::identity();
        proof {
            assert(G::dlog(*point) * (scalar as nat) == 0) by (nonlinear_arith)
                requires
                    scalar == 0,
            ;
        }
        return identity;
    }
    let s: u64 = scalar as u64;
    let bits = num_bits(scalar as usize);
    proof {
        lemma_bit_length_upper(scalar as nat);
        vstd::arithmetic::power2::lemma2_to64();
        crate::msm::lemma_bit_length_bound(scalar as nat, 32);
        vstd::bits::lemma_u64_shr_is_div(s, bits as u64);
        vstd::arithmetic::div_mod::lemma_basic_div(s as int, vstd::arithmetic::power2::pow2(bits as nat) as int);
    }
    let mut acc = G::identity();
    let mut b: usize = bits;
    proof {
        assert((s >> (bits as u64)) == 0);
        assert(p * ((s >> (b as u64)) as int) == 0) by (nonlinear_arith)
            requires
                (s >> (b as u64)) == 0,
        ;
        vstd::arithmetic::div_mod::lemma_small_mod(0, q as nat);
    }
    while b > 0
        invariant
            b <= bits <= 32,
            s == scalar as u64,
            q == <G::Scalar as GoldenScalar>::field_order() as int,
            q > 1,
            p == G::dlog(*point) as int,
            G::element_wf(*point),
            G::element_wf(acc),
            G::dlog(acc) as int == (p * ((s >> (b as u64)) as int)) % q,
        decreases b,
    {
        b = b - 1;
        let doubled = G::add(&acc, &acc);
        let bit = (s >> (b as u64)) & 1u64;
        proof {
            let bb = b as u64;
            assert((s >> bb) == 2 * (s >> ((bb + 1) as u64)) + ((s >> bb) & 1u64)) by (bit_vector)
                requires
                    bb < 32,
                    s < 0x1_0000_0000,
            ;
            assert(((s >> bb) & 1u64) <= 1) by (bit_vector);
            let t = (s >> ((b + 1) as u64)) as int;
            assert((s >> (b as u64)) as int == 2 * t + bit as int);
            lemma_double_add_step(p, t, bit as int, q);
            assert(G::dlog(doubled) as int == ((p * t) % q + (p * t) % q) % q);
        }
        if bit == 1 {
            acc = G::add(&doubled, point);
        } else {
            acc = doubled;
        }
        proof {
            let t = (s >> ((b + 1) as u64)) as int;
            assert(bit <= 1);
            assert((s >> (b as u64)) as int == 2 * t + bit as int);
            assert(G::dlog(doubled) as int == ((p * t) % q + (p * t) % q) % q);
            if bit == 1 {
                assert(G::dlog(acc) as int == (G::dlog(doubled) as int + p) % q);
                lemma_double_add_step(p, t, 1, q);
                assert(G::dlog(acc) as int == (p * (2 * t + 1)) % q);
            } else {
                assert(bit as int == 0);
                assert(2 * t + bit as int == 2 * t);
                assert(G::dlog(acc) as int == (p * (2 * t)) % q);
            }
        }
    }
    proof {
        assert(s >> 0u64 == s) by (bit_vector);
    }
    acc
}

/// Feldman commitment to a Shamir polynomial.
#[derive(Debug)]
pub struct FeldmanCommitment<G: GoldenGroup> {
    coefficients: Vec<G::Element>,
}

impl<G: GoldenGroup> FeldmanCommitment<G> {
    /// Committed coefficients in ascending degree order.
    pub closed spec fn coeffs(&self) -> Seq<G::Element> {
        self.coefficients@
    }

    /// A commitment has at least one coefficient, and every coefficient is
    /// a group element.
    pub open spec fn well_formed(&self) -> bool {
        self.coeffs().len() > 0 && forall|i: int|
            0 <= i < self.coeffs().len() ==> G::element_wf(#[trigger] self.coeffs()[i])
    }

    #[verifier::type_invariant]
    spec fn commitment_invariant(self) -> bool {
        self.well_formed()
    }

    /// The public key share this commitment expects for the point `x`:
    /// the commitment polynomial evaluated in the exponent.
    pub open spec fn expected_share_dlog(&self, x: int) -> int {
        poly_value(dlogs_of::<G>(self.coeffs()), x) % (<G::Scalar as GoldenScalar>::field_order() as int)
    }

    /// Commit to each polynomial coefficient as `g^a_i`.
    pub fn commit(poly: &Polynomial<G::Scalar>) -> (result: Result<Self, Error>)
        ensures
            result matches Ok(c) && dlogs_of::<G>(c.coeffs()) == values_of(poly.coeffs()),
    {
        let cs = poly.coefficients();
        let mut coefficients: Vec<G::Element> = Vec::new();
        let mut i: usize = 0;
        while i < cs.len()
            invariant
                i <= cs@.len(),
                cs@ == poly.coeffs(),
                coefficients@.len() == i,
                poly.well_formed(),
                forall|t: int|
                    0 <= t < i ==> G::dlog(#[trigger] coefficients@[t]) == cs@[t].value(),
                forall|t: int| 0 <= t < i ==> G::element_wf(#[trigger] coefficients@[t]),
            decreases cs@.len() - i,
        {
            coefficients.push(G::mul_generator(&cs[i]));
            i = i + 1;
        }
        proof {
            assert(dlogs_of::<G>(coefficients@) =~= values_of(poly.coeffs()));
        }
        Self::from_coefficients(coefficients)
    }

    /// Construct from explicit committed coefficients.
    pub fn from_coefficients(coefficients: Vec<G::Element>) -> (result: Result<Self, Error>)
        requires
            forall|i: int| 0 <= i < coefficients@.len() ==> G::element_wf(#[trigger] coefficients@[i]),
        ensures
            coefficients@.len() == 0 ==> result == Err::<Self, Error>(Error::EmptyCommitment),
            coefficients@.len() > 0 ==> (result matches Ok(c) && c.coeffs() == coefficients@),
    {
        if coefficients.len() == 0 {
            return Err(Error::EmptyCommitment);
        }
        Ok(Self { coefficients })
    }

    /// Return committed coefficients in ascending degree order.
    pub fn coefficients(&self) -> (cs: &[G::Element])
        ensures
            cs@ == self.coeffs(),
            self.well_formed(),
    {
        proof {
            use_type_invariant(self);
        }
        self.coefficients.as_slice()
    }

    /// Return the aggregate public key, `g^f(0)`.
    pub fn public_key(&self) -> (key: G::Element)
        ensures
            self.well_formed(),
            key == self.coeffs()[0],
    {
        proof {
            use_type_invariant(self);
        }
        self.coefficients[0]
    }

    /// Compute the expected public key share for a participant via Horner's
    /// method.
    pub fn public_key_share(&self, participant: ParticipantIndex) -> (result: Result<
        G::Element,
        Error,
    >)
        ensures
            result matches Ok(e) ==> G::element_wf(e) && G::dlog(e) == self.expected_share_dlog(
                participant@ as int,
            ),
            result is Ok <==> <G::Scalar as GoldenScalar>::from_u64_succeeds(participant@ as u64),
            result is Err ==> result == Err::<G::Element, Error>(Error::InvalidEncoding),
    {
        match participant.to_scalar::<G::Scalar>() {
            Ok(_) => {},
            Err(e) => return Err(e),
        }
        let x = participant.get();
        let ghost ds = dlogs_of::<G>(self.coeffs());
        let ghost q = <G::Scalar as GoldenScalar>::field_order() as int;
        let n = self.coefficients.len();
        let mut result = G::identity();
        proof {
            G::lemma_group_model(result);
            <G::Scalar as GoldenScalar>::lemma_field_order();
            use_type_invariant(self);
            assert(ds.subrange(n as int, n as int) =~= Seq::<int>::empty());
        }
        let mut k: usize = n;
        while k > 0
            invariant
                k <= n,
                n == self.coeffs().len(),
                ds == dlogs_of::<G>(self.coeffs()),
                q == <G::Scalar as GoldenScalar>::field_order() as int,
                q > 1,
                x == participant@,
                self.well_formed(),
                G::element_wf(result),
                G::dlog(result) as int == poly_value(ds.subrange(k as int, n as int), x as int) % q,
            decreases k,
        {
            k = k - 1;
            let coefficient = self.coefficients[k];
            let scaled = mul_by_small_scalar::<G>(&result, x);
            proof {
                let sub = ds.subrange(k as int, n as int);
                assert(sub.subrange(1, sub.len() as int) =~= ds.subrange(k + 1, n as int));
                assert(sub[0] == G::dlog(coefficient));
                lemma_horner_step(
                    poly_value(ds.subrange(k + 1, n as int), x as int),
                    x as int,
                    G::dlog(coefficient) as int,
                    q,
                );
                G::lemma_group_model(coefficient);
                vstd::arithmetic::mul::lemma_mul_is_commutative(G::dlog(result) as int, x as int);
            }
            result = G::add(&scaled, &coefficient);
        }
        proof {
            assert(ds.subrange(0, n as int) =~= ds);
        }
        Ok(result)
    }

    /// Verify a share against this commitment.
    pub fn verify_share(&self, share: &Share<G::Scalar>) -> (result: Result<bool, Error>)
        requires
            share.value.wf(),
        ensures
            result matches Ok(valid) ==> valid == (self.expected_share_dlog(
                share.participant@ as int,
            ) == share.value.value()),
            result is Ok <==> <G::Scalar as GoldenScalar>::from_u64_succeeds(
                share.participant@ as u64,
            ),
            result is Err ==> result == Err::<bool, Error>(Error::InvalidEncoding),
    {
        let expected = self.public_key_share(share.participant)?;
        let actual = G::mul_generator(&share.value);
        proof {
            G::lemma_group_model(expected);
            G::lemma_group_model(actual);
        }
        Ok(G::element_eq(&expected, &actual))
    }
}

impl<G: GoldenGroup> Clone for FeldmanCommitment<G> {
    fn clone(&self) -> (copy: Self)
        ensures
            copy.coeffs() == self.coeffs(),
    {
        proof {
            use_type_invariant(self);
        }
        let mut coefficients: Vec<G::Element> = Vec::new();
        let mut i: usize = 0;
        while i < self.coefficients.len()
            invariant
                self.well_formed(),
                i <= self.coefficients@.len(),
                coefficients@ == self.coefficients@.subrange(0, i as int),
            decreases self.coefficients@.len() - i,
        {
            coefficients.push(self.coefficients[i]);
            i = i + 1;
            assert(coefficients@ =~= self.coefficients@.subrange(0, i as int));
        }
        assert(coefficients@ =~= self.coefficients@);
        Self { coefficients }
    }
}

/// Feldman soundness for honest dealings: the commitment to a polynomial
/// expects, at every point, the polynomial's value at that point; so a
/// share computed from the polynomial verifies, and a share with any other
/// value does not.
pub proof fn lemma_commitment_matches_polynomial<G: GoldenGroup>(
    commitment: FeldmanCommitment<G>,
    poly: Polynomial<G::Scalar>,
    x: int,
)
    requires
        dlogs_of::<G>(commitment.coeffs()) == values_of(poly.coeffs()),
    ensures
        commitment.expected_share_dlog(x) == poly.value_at(x),
{
}

} // verus!
