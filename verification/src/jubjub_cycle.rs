//! Commitment-group adapter over Jubjub's prime-order subgroup.
//!
//! Points are held as their canonical 32-byte encodings and scalars as
//! elements of the Jubjub scalar field `Fr`.
use vstd::prelude::*;
use vstd::string::StringSliceAdditionalSpecFns;

use crate::bytes::{append_bytes, le_value, u32_be, u32_to_be_bytes};
use crate::cycle::{scalar_batch_invert, scalar_invert_or_zero};
use crate::group::{GoldenGroup, GoldenScalar};
use crate::jubjub_group::{
    jj_cleared_candidate, jj_identity, jubjub_candidate_point, jubjub_identity_bytes,
    jubjub_order, jubjub_subgroup_decodes, JubjubElement, JubjubGoldenGroup, JubjubScalar,
};
use crate::shamir::{prefix_product, values_of};
use crate::transcript::{sha256, sha256_spec};
use crate::wire::bytes_equal;
use crate::wire_values::lemma_array32_of_view;
use crate::msm::bits_value;
use crate::pippenger::{lemma_bits_value_of_small, msm_sum, multi_scalar_mul};

verus! {

/// Number of bytes in a compressed Jubjub point encoding.
pub const JUBJUB_COMPRESSED_BYTES: usize = 32;

/// Commitment-group adapter over Jubjub's prime-order subgroup.
#[derive(Clone, Copy, Debug, PartialEq, Eq)]
pub struct JubjubCycle;

/// The bytes hashed for try-and-increment candidate `counter` of the
/// 64-byte seed `seed`.
pub open spec fn jubjub_cycle_preimage(seed: Seq<u8>, counter: u32) -> Seq<u8> {
    "golden-bulletproofs-jubjub-v1".spec_bytes() + seed + u32_be(counter)
}

/// The first successful try-and-increment candidate for `seed` among the
/// counters from `from` through `u32::MAX`.
pub open spec fn jubjub_cycle_search(seed: Seq<u8>, from: nat) -> Option<Seq<u8>>
    decreases u32::MAX + 1 - from,
{
    if from > u32::MAX {
        None
    } else {
        match jubjub_candidate_point(sha256_spec(jubjub_cycle_preimage(seed, from as u32))) {
            Some(p) => Some(p),
            None => jubjub_cycle_search(seed, from + 1),
        }
    }
}

/// Calls `jubjub::Fr::from_bytes_wide`, which reduces a 512-bit
/// little-endian integer modulo the field order.
#[verifier::external_body]
fn fr_from_bytes_wide(bytes: &[u8; 64]) -> (out: [u8; 32])
    ensures
        le_value(out@) == le_value(bytes@) % jubjub_order(),
{
    jubjub::Fr::from_bytes_wide(bytes).to_bytes()
}

fn cycle_candidate(seed: &[u8; 64], counter: u32) -> (candidate: [u8; 32])
    ensures
        candidate@ == sha256_spec(jubjub_cycle_preimage(seed@, counter)),
{
    let mut input: Vec<u8> = Vec::new();
    append_bytes(&mut input, "golden-bulletproofs-jubjub-v1".as_bytes());
    append_bytes(&mut input, seed);
    append_bytes(&mut input, &u32_to_be_bytes(counter));
    assert(input@ =~= jubjub_cycle_preimage(seed@, counter));
    sha256(input.as_slice())
}

impl JubjubCycle {
    /// Map 64 uniform bytes to a non-identity point of the prime-order
    /// subgroup by try-and-increment over SHA-256 candidates.
    ///
    /// Counters run from zero through `u32::MAX`; `None` is returned only
    /// when every one of those candidates fails.
    pub fn point_hash_from_uniform(bytes: &[u8; 64]) -> (point: Option<JubjubElement>)
        ensures
            point matches Some(p) ==> jubjub_cycle_search(bytes@, 0) == Some(p@)
                && JubjubGoldenGroup::element_wf(p) && JubjubGoldenGroup::dlog(p) != 0,
            point is None ==> jubjub_cycle_search(bytes@, 0) is None,
    {
        let mut counter: u32 = 0;
        loop
            invariant
                jubjub_cycle_search(bytes@, 0) == jubjub_cycle_search(bytes@, counter as nat),
            decreases u32::MAX - counter,
        {
            let candidate = cycle_candidate(bytes, counter);
            proof {
                assert((counter as nat) as u32 == counter);
            }
            if let Some(encoded) = jj_cleared_candidate(&candidate) {
                let p = JubjubElement::from_point_bytes(encoded);
                if !p.is_identity() {
                    return Some(p);
                }
            }
            if counter == u32::MAX {
                proof {
                    assert(jubjub_cycle_search(bytes@, u32::MAX as nat + 1) is None);
                }
                return None;
            }
            counter = counter + 1;
        }
    }

    /// Reduce 64 uniform little-endian bytes modulo the scalar field order.
    pub fn scalar_from_wide(bytes: &[u8; 64]) -> (scalar: JubjubScalar)
        ensures
            scalar.wf(),
            scalar.value() == le_value(bytes@) % jubjub_order(),
    {
        let repr = fr_from_bytes_wide(bytes);
        match JubjubScalar::from_bytes(repr) {
            Some(scalar) => scalar,
            None => JubjubScalar::zero(),
        }
    }

    /// Decode a scalar from its canonical little-endian encoding.
    pub fn scalar_from_canonical(bytes: &[u8; 32]) -> (scalar: Option<JubjubScalar>)
        ensures
            scalar is Some <==> le_value(bytes@) < jubjub_order(),
            scalar matches Some(s) ==> s@ == bytes@ && s.wf(),
    {
        JubjubScalar::from_bytes(*bytes)
    }

    /// Canonical little-endian encoding of a scalar.
    pub fn scalar_to_canonical(scalar: &JubjubScalar) -> (bytes: [u8; 32])
        ensures
            bytes@ == scalar@,
    {
        scalar.to_bytes()
    }

    /// Multiplicative inverse of a scalar, or zero for zero.
    pub fn scalar_invert(scalar: &JubjubScalar) -> (inverse: JubjubScalar)
        requires
            scalar.wf(),
        ensures
            inverse.wf(),
            scalar.value() == 0 ==> inverse.value() == 0,
            scalar.value() != 0 ==> (inverse.value() * scalar.value()) % jubjub_order() == 1,
    {
        scalar_invert_or_zero(scalar)
    }

    /// Batch-invert `items` in place and return the inverse of their
    /// product; a zero item turns every item, and the result, into zero.
    pub fn scalar_batch_invert(items: &mut [JubjubScalar]) -> (product_inverse: JubjubScalar)
        requires
            forall|i: int| 0 <= i < old(items)@.len() ==> (#[trigger] old(items)@[i]).wf(),
        ensures
            product_inverse.wf(),
            final(items)@.len() == old(items)@.len(),
            forall|i: int| 0 <= i < final(items)@.len() ==> (#[trigger] final(items)@[i]).wf(),
            ({
                let product = prefix_product(
                    values_of(old(items)@),
                    old(items)@.len() as int,
                    jubjub_order() as int,
                );
                &&& product == 0 ==> product_inverse.value() == 0 && forall|i: int|
                    0 <= i < final(items)@.len() ==> (#[trigger] final(items)@[i]).value() == 0
                &&& product != 0 ==> (product_inverse.value() * product) % (jubjub_order() as int)
                    == 1 && forall|i: int|
                    0 <= i < old(items)@.len() ==> ((#[trigger] final(items)@[i]).value() * old(
                        items,
                    )@[i].value()) % jubjub_order() == 1
            }),
    {
        scalar_batch_invert(items)
    }

    /// Compress a point to its canonical 32-byte encoding.
    pub fn point_compress(point: &JubjubElement) -> (compressed: [u8; 32])
        ensures
            compressed@ == point@,
    {
        point.to_bytes()
    }

    /// Decompress an encoding, or `None` when it is not the canonical
    /// encoding of a point of the prime-order subgroup.
    pub fn compressed_decompress(compressed: &[u8; 32]) -> (point: Option<JubjubElement>)
        ensures
            point is Some <==> jubjub_subgroup_decodes(compressed@),
            point matches Some(p) ==> p@ == compressed@ && JubjubGoldenGroup::element_wf(p),
    {
        JubjubElement::from_bytes(*compressed)
    }

    /// Encoding of the group identity.
    pub fn compressed_identity() -> (compressed: [u8; 32])
        ensures
            compressed@ == jubjub_identity_bytes(),
    {
        jj_identity()
    }

    /// Whether an encoding is that of the identity.
    pub fn compressed_is_identity(compressed: &[u8; 32]) -> (identity: bool)
        ensures
            identity == (compressed@ == jubjub_identity_bytes()),
    {
        let id = jj_identity();
        bytes_equal(compressed, &id)
    }

    /// The encoding made of the first 32 bytes of `bytes`.
    pub fn compressed_from_bytes(bytes: &[u8]) -> (compressed: [u8; 32])
        requires
            bytes@.len() >= JUBJUB_COMPRESSED_BYTES,
        ensures
            compressed@ == bytes@.subrange(0, 32),
    {
        let mut out = [0u8; 32];
        let mut i: usize = 0;
        while i < 32
            invariant
                i <= 32,
                bytes@.len() >= 32,
                forall|k: int| 0 <= k < i ==> out@[k] == bytes@[k],
            decreases 32 - i,
        {
            out[i] = bytes[i];
            i = i + 1;
        }
        assert(out@ =~= bytes@.subrange(0, 32));
        out
    }
}


/// Number of bits of the Jubjub scalar field modulus.
pub const JUBJUB_SCALAR_BITS: u32 = 252;

/// `sum_{i < k} scalars[i] * dlog(points[i])`.
pub open spec fn jubjub_msm_sum(
    scalars: Seq<JubjubScalar>,
    points: Seq<JubjubElement>,
    k: nat,
) -> int
    decreases k,
{
    if k == 0 {
        0
    } else {
        jubjub_msm_sum(scalars, points, (k - 1) as nat) + scalars[k - 1].value()
            * JubjubGoldenGroup::dlog(points[k - 1])
    }
}

/// `sum_{i < k} scalars[i] * dlog(points[i])` over the points present.
pub open spec fn jubjub_optional_msm_sum(
    scalars: Seq<JubjubScalar>,
    points: Seq<Option<JubjubElement>>,
    k: nat,
) -> int
    decreases k,
{
    if k == 0 {
        0
    } else {
        jubjub_optional_msm_sum(scalars, points, (k - 1) as nat) + match points[k - 1] {
            Some(p) => scalars[k - 1].value() * JubjubGoldenGroup::dlog(p),
            None => 0,
        }
    }
}

/// Canonical scalars are read in full from their first 252 bits.
proof fn lemma_scalar_bits(bytes: Seq<[u8; 32]>, scalars: Seq<JubjubScalar>, points: Seq<JubjubElement>, k: nat)
    requires
        k <= bytes.len(),
        k <= scalars.len(),
        forall|i: int| 0 <= i < k ==> (#[trigger] bytes[i])@ == scalars[i]@,
        forall|i: int| 0 <= i < k ==> (#[trigger] scalars[i]).wf(),
    ensures
        msm_sum::<JubjubGoldenGroup>(bytes, points, 0, 252, k) == jubjub_msm_sum(scalars, points, k),
    decreases k,
{
    if k > 0 {
        lemma_scalar_bits(bytes, scalars, points, (k - 1) as nat);
        let b = bytes[k - 1]@;
        vstd::arithmetic::power2::lemma2_to64();
        vstd::arithmetic::power2::lemma2_to64_rest();
        vstd::arithmetic::power2::lemma_pow2_adds(63, 63);
        vstd::arithmetic::power2::lemma_pow2_adds(126, 126);
        let p63 = vstd::arithmetic::power2::pow2(63);
        let p126 = vstd::arithmetic::power2::pow2(126);
        let p252 = vstd::arithmetic::power2::pow2(252);
        assert(p63 == 0x8000000000000000);
        assert(p126 == 0x40000000000000000000000000000000) by (nonlinear_arith)
            requires
                p126 == p63 * p63,
                p63 == 0x8000000000000000,
        ;
        assert(p252 == 0x1000000000000000000000000000000000000000000000000000000000000000)
            by (nonlinear_arith)
            requires
                p252 == p126 * p126,
                p126 == 0x40000000000000000000000000000000,
        ;
        assert(p252 > jubjub_order());
        lemma_bits_value_of_small(b, 252);
    }
}

impl JubjubCycle {
    /// `sum(scalars[i] * points[i])`, by the bucket method over the
    /// canonical little-endian scalar encodings.
    pub fn vartime_msm(scalars: &[JubjubScalar], points: &[JubjubElement]) -> (sum: JubjubElement)
        requires
            scalars@.len() == points@.len(),
            forall|i: int| 0 <= i < scalars@.len() ==> (#[trigger] scalars@[i]).wf(),
            forall|i: int|
                0 <= i < points@.len() ==> JubjubGoldenGroup::element_wf(#[trigger] points@[i]),
        ensures
            JubjubGoldenGroup::element_wf(sum),
            JubjubGoldenGroup::dlog(sum) == jubjub_msm_sum(scalars@, points@, points@.len())
                % (jubjub_order() as int),
    {
        let mut bytes: Vec<[u8; 32]> = Vec::new();
        let mut i: usize = 0;
        while i < scalars.len()
            invariant
                i <= scalars@.len(),
                bytes@.len() == i,
                forall|t: int| 0 <= t < i ==> (#[trigger] bytes@[t])@ == scalars@[t]@,
            decreases scalars@.len() - i,
        {
            bytes.push(scalars[i].to_bytes());
            i = i + 1;
        }
        let sum = multi_scalar_mul::<JubjubGoldenGroup>(bytes.as_slice(), points, JUBJUB_SCALAR_BITS);
        proof {
            lemma_scalar_bits(bytes@, scalars@, points@, points@.len());
        }
        sum
    }

    /// `sum(scalars[i] * points[i])` over the common length of the two
    /// slices, skipping identity points; `None` if any of those points is
    /// missing.
    pub fn vartime_msm_optional(
        scalars: &[JubjubScalar],
        points: &[Option<JubjubElement>],
    ) -> (sum: Option<JubjubElement>)
        requires
            forall|i: int| 0 <= i < scalars@.len() ==> (#[trigger] scalars@[i]).wf(),
            forall|i: int|
                0 <= i < points@.len() ==> (#[trigger] points@[i] matches Some(p)
                    ==> JubjubGoldenGroup::element_wf(p)),
        ensures
            ({
                let k = if scalars@.len() < points@.len() {
                    scalars@.len()
                } else {
                    points@.len()
                };
                &&& sum is None <==> exists|i: int| 0 <= i < k && #[trigger] points@[i] is None
                &&& sum matches Some(s) ==> JubjubGoldenGroup::element_wf(s)
                    && JubjubGoldenGroup::dlog(s) == jubjub_optional_msm_sum(scalars@, points@, k)
                    % (jubjub_order() as int)
            }),
    {
        let k = if scalars.len() < points.len() {
            scalars.len()
        } else {
            points.len()
        };
        let mut kept_scalars: Vec<JubjubScalar> = Vec::new();
        let mut kept_points: Vec<JubjubElement> = Vec::new();
        let mut i: usize = 0;
        while i < k
            invariant
                i <= k,
                k <= scalars@.len(),
                k <= points@.len(),
                forall|t: int| 0 <= t < scalars@.len() ==> (#[trigger] scalars@[t]).wf(),
                forall|t: int|
                    0 <= t < points@.len() ==> (#[trigger] points@[t] matches Some(p)
                        ==> JubjubGoldenGroup::element_wf(p)),
                forall|t: int| 0 <= t < i ==> (#[trigger] points@[t]) is Some,
                kept_scalars@.len() == kept_points@.len(),
                forall|t: int| 0 <= t < kept_scalars@.len() ==> (#[trigger] kept_scalars@[t]).wf(),
                forall|t: int|
                    0 <= t < kept_points@.len() ==> JubjubGoldenGroup::element_wf(
                        #[trigger] kept_points@[t],
                    ),
                jubjub_msm_sum(kept_scalars@, kept_points@, kept_points@.len())
                    == jubjub_optional_msm_sum(scalars@, points@, i as nat),
            decreases k - i,
        {
            match points[i] {
                None => {
                    return None;
                },
                Some(p) => {
                    if !JubjubGoldenGroup::is_identity(&p) {
                        let ghost before_s = kept_scalars@;
                        let ghost before_p = kept_points@;
                        kept_scalars.push(scalars[i]);
                        kept_points.push(p);
                        proof {
                            assert(kept_scalars@.subrange(0, before_s.len() as int) =~= before_s);
                            assert(kept_points@.subrange(0, before_p.len() as int) =~= before_p);
                            lemma_msm_sum_prefix(kept_scalars@, kept_points@, before_s, before_p);
                        }
                    } else {
                        proof {
                            assert(scalars@[i as int].value() * JubjubGoldenGroup::dlog(p) == 0)
                                by (nonlinear_arith)
                                requires
                                    JubjubGoldenGroup::dlog(p) == 0,
                            ;
                        }
                    }
                },
            }
            i = i + 1;
        }
        if kept_points.len() == 0 {
            let identity = JubjubGoldenGroup::identity();
            proof {
                vstd::arithmetic::div_mod::lemma_small_mod(0, jubjub_order());
            }
            return Some(identity);
        }
        Some(Self::vartime_msm(kept_scalars.as_slice(), kept_points.as_slice()))
    }
}

/// The sum over the first entries of a longer list is the sum over the
/// shorter list.
proof fn lemma_msm_sum_prefix(
    scalars: Seq<JubjubScalar>,
    points: Seq<JubjubElement>,
    short_scalars: Seq<JubjubScalar>,
    short_points: Seq<JubjubElement>,
)
    requires
        scalars.len() == points.len(),
        short_scalars.len() == short_points.len(),
        short_scalars.len() + 1 == scalars.len(),
        scalars.subrange(0, short_scalars.len() as int) == short_scalars,
        points.subrange(0, short_points.len() as int) == short_points,
    ensures
        jubjub_msm_sum(scalars, points, points.len()) == jubjub_msm_sum(
            short_scalars,
            short_points,
            short_points.len(),
        ) + scalars[scalars.len() - 1].value() * JubjubGoldenGroup::dlog(
            points[points.len() - 1],
        ),
{
    lemma_msm_sum_agree(scalars, points, short_scalars, short_points, short_points.len());
}

/// Sums over lists that agree on their first `k` entries agree.
proof fn lemma_msm_sum_agree(
    a_scalars: Seq<JubjubScalar>,
    a_points: Seq<JubjubElement>,
    b_scalars: Seq<JubjubScalar>,
    b_points: Seq<JubjubElement>,
    k: nat,
)
    requires
        k <= a_scalars.len(),
        k <= a_points.len(),
        k <= b_scalars.len(),
        k <= b_points.len(),
        forall|i: int| 0 <= i < k ==> a_scalars[i] == b_scalars[i] && a_points[i] == b_points[i],
    ensures
        jubjub_msm_sum(a_scalars, a_points, k) == jubjub_msm_sum(b_scalars, b_points, k),
    decreases k,
{
    if k > 0 {
        lemma_msm_sum_agree(a_scalars, a_points, b_scalars, b_points, (k - 1) as nat);
    }
}

} // verus!
