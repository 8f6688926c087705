//! Commitment-group adapter over BLS12-381 G1.
//!
//! Points are held as their 48-byte compressed encodings. Curve arithmetic
//! is performed by the `blstrs` crate.
use vstd::prelude::*;
use vstd::string::StringSliceAdditionalSpecFns;

use crate::bytes::{append_bytes, u32_be, u32_to_be_bytes, u64_be, u64_to_be_bytes};
use crate::transcript::{sha256, sha256_spec};
use crate::wire::bytes_equal;
use crate::bls_scalar::BlsScalar;
use crate::group::GoldenScalar;
use crate::ipp_prove::dot;
use crate::shamir::values_of;

verus! {

/// Number of bytes in a compressed BLS12-381 G1 point encoding.
pub const BLS_G1_COMPRESSED_BYTES: usize = 48;

/// The effective cofactor of G1: multiplying any curve point by it gives a
/// point of the prime-order subgroup.
pub const BLS_G1_EFFECTIVE_COFACTOR: u64 = 0xd201_0000_0001_0001;

/// Order of the prime-order subgroup G1 (and of the BLS12-381 scalar field).
pub open spec fn bls_order() -> nat {
    0x73eda753299d7d483339d80809a1d80553bda402fffe5bfeffffffff00000001nat
}

/// Whether `blstrs::G1Affine::from_compressed` accepts the 48 bytes: they
/// are the compressed encoding of a point of the prime-order subgroup.
pub uninterp spec fn bls_g1_decodes(bytes: Seq<u8>) -> bool;

/// Discrete logarithm, below the subgroup order, of the G1 point with
/// compressed encoding `bytes`, with respect to the standard generator.
pub uninterp spec fn bls_g1_dlog(bytes: Seq<u8>) -> nat;

/// What `blstrs::G1Projective::from_compressed_unchecked`, multiplication by
/// `cofactor` and `to_compressed` give for a candidate encoding: the
/// compressed encoding of the multiplied point, or nothing when the
/// candidate is not a curve point.
pub uninterp spec fn bls_g1_cleared_candidate(candidate: Seq<u8>, cofactor: u64) -> Option<
    Seq<u8>,
>;

/// The compressed encoding of a point of G1.
pub open spec fn bls_g1_point(bytes: Seq<u8>) -> bool {
    bls_g1_decodes(bytes) && bls_g1_dlog(bytes) < bls_order()
}

/// Calls `blstrs::G1Affine::from_compressed(..).is_some()`. A point it
/// accepts lies in the prime-order subgroup.
#[verifier::external_body]
fn g1_decodes(bytes: &[u8; 48]) -> (ok: bool)
    ensures
        ok == bls_g1_decodes(bytes@),
        ok ==> bls_g1_dlog(bytes@) < bls_order(),
{
    bool::from(blstrs::G1Affine::from_compressed(bytes).is_some())
}

/// The compressed encoding of the identity: the compression and infinity
/// flags, then zeros.
pub open spec fn bls_g1_identity_bytes() -> Seq<u8> {
    seq![0xc0u8] + Seq::new(47, |i: int| 0u8)
}

/// Calls `blstrs::G1Projective::identity()` and compresses it; `blst`
/// writes the compression and infinity flags followed by zeros.
#[verifier::external_body]
fn g1_identity() -> (out: [u8; 48])
    ensures
        out@ == bls_g1_identity_bytes(),
        bls_g1_point(out@),
        bls_g1_dlog(out@) == 0,
{
    <blstrs::G1Projective as group::Group>::identity().to_compressed()
}

/// Calls `is_identity` on a decoded `blstrs::G1Affine`.
#[verifier::external_body]
fn g1_is_identity(point: &[u8; 48]) -> (identity: bool)
    requires
        bls_g1_decodes(point@),
    ensures
        identity == (bls_g1_dlog(point@) == 0),
{
    let p = blstrs::G1Affine::from_compressed(point).unwrap();
    bool::from(group::prime::PrimeCurveAffine::is_identity(&p))
}

/// Calls `blstrs::G1Projective::from_compressed_unchecked` on a candidate
/// and, for a curve point, multiplies it by the effective cofactor and
/// compresses the product, which lies in the prime-order subgroup.
#[verifier::external_body]
fn g1_cleared_candidate(candidate: &[u8; 48], cofactor: u64) -> (out: Option<[u8; 48]>)
    requires
        cofactor == BLS_G1_EFFECTIVE_COFACTOR,
    ensures
        out matches Some(p) ==> bls_g1_cleared_candidate(candidate@, cofactor) == Some(p@)
            && bls_g1_point(p@),
        out is None ==> bls_g1_cleared_candidate(candidate@, cofactor) is None,
{
    match Option::<blstrs::G1Projective>::from(
        blstrs::G1Projective::from_compressed_unchecked(candidate),
    ) {
        Some(p) => Some((&p * &blstrs::Scalar::from(cofactor)).to_compressed()),
        None => None,
    }
}

/// Point of the prime-order subgroup G1 of BLS12-381, held as its 48-byte
/// compressed encoding.
#[derive(Clone, Copy, Debug, PartialEq, Eq)]
pub struct BlsG1Element {
    bytes: [u8; 48],
}

impl View for BlsG1Element {
    type V = Seq<u8>;

    /// The compressed encoding of the point.
    closed spec fn view(&self) -> Seq<u8> {
        self.bytes@
    }
}

impl BlsG1Element {
    /// The point is a point of G1 (every point a program holds is).
    pub open spec fn wf(&self) -> bool {
        bls_g1_point(self@)
    }

    /// Discrete logarithm of the point with respect to the generator.
    pub open spec fn dlog(&self) -> nat {
        bls_g1_dlog(self@)
    }

    /// Whether this point is the identity.
    pub fn is_identity(&self) -> (identity: bool)
        requires
            self.wf(),
        ensures
            identity == (self.dlog() == 0),
    {
        g1_is_identity(&self.bytes)
    }
}

/// Calls `blstrs::G1Projective::multi_exp` on the decoded points and the
/// scalars, and compresses the sum: a point of G1 whose discrete logarithm
/// is `sum(scalars[i] * dlog(points[i]))` modulo the group order.
#[verifier::external_body]
fn g1_msm(scalars: &[BlsScalar], points: &[BlsG1Element]) -> (out: [u8; 48])
    requires
        scalars@.len() == points@.len(),
        points@.len() > 0,
        forall|i: int| 0 <= i < scalars@.len() ==> (#[trigger] scalars@[i]).wf(),
        forall|i: int| 0 <= i < points@.len() ==> (#[trigger] points@[i]).wf(),
    ensures
        bls_g1_point(out@),
        bls_g1_dlog(out@) == dot(
            values_of(scalars@),
            points@.map_values(|p: BlsG1Element| p.dlog() as int),
            points@.len(),
        ) % (bls_order() as int),
{
    let ps: Vec<blstrs::G1Projective> = points
        .iter()
        .map(|p| blstrs::G1Projective::from(blstrs::G1Affine::from_compressed(&p.bytes).unwrap()))
        .collect();
    let ss: Vec<blstrs::Scalar> = scalars
        .iter()
        .map(|s| blstrs::Scalar::from_bytes_le(&s.to_bytes()).unwrap())
        .collect();
    blstrs::G1Projective::multi_exp(&ps, &ss).to_compressed()
}

/// Commitment-group adapter over BLS12-381 G1.
#[derive(Clone, Copy, Debug, PartialEq, Eq)]
pub struct Bls12_381G1Cycle;

/// The bytes hashed for half `part` of try-and-increment candidate
/// `counter` of the 64-byte seed `seed`.
pub open spec fn bls_candidate_preimage(seed: Seq<u8>, counter: u64, part: u32) -> Seq<u8> {
    "golden-bulletproofs-bls12-381-g1-v1".spec_bytes() + seed + u64_be(counter) + u32_be(part)
}

/// Try-and-increment candidate `counter` of `seed`: the first digest and
/// the first half of the second, with the compression flag set and the
/// infinity flag cleared in the first byte.
pub open spec fn bls_candidate(seed: Seq<u8>, counter: u64) -> Seq<u8> {
    let raw = sha256_spec(bls_candidate_preimage(seed, counter, 0)) + sha256_spec(
        bls_candidate_preimage(seed, counter, 1),
    ).subrange(0, 16);
    raw.update(0, (raw[0] & 0x3fu8) | 0x80u8)
}

/// The non-identity subgroup point that a candidate yields, if any.
pub open spec fn bls_candidate_point(candidate: Seq<u8>) -> Option<Seq<u8>> {
    match bls_g1_cleared_candidate(candidate, BLS_G1_EFFECTIVE_COFACTOR) {
        Some(p) => if bls_g1_dlog(p) == 0 {
            None
        } else {
            Some(p)
        },
        None => None,
    }
}

/// The first successful try-and-increment candidate for `seed` among the
/// counters from `from` through `u64::MAX`.
pub open spec fn bls_cycle_search(seed: Seq<u8>, from: nat) -> Option<Seq<u8>>
    decreases u64::MAX + 1 - from,
{
    if from > u64::MAX {
        None
    } else {
        match bls_candidate_point(bls_candidate(seed, from as u64)) {
            Some(p) => Some(p),
            None => bls_cycle_search(seed, from + 1),
        }
    }
}

fn candidate_digest(seed: &[u8; 64], counter: u64, part: u32) -> (digest: [u8; 32])
    ensures
        digest@ == sha256_spec(bls_candidate_preimage(seed@, counter, part)),
{
    let mut input: Vec<u8> = Vec::new();
    append_bytes(&mut input, "golden-bulletproofs-bls12-381-g1-v1".as_bytes());
    append_bytes(&mut input, seed);
    append_bytes(&mut input, &u64_to_be_bytes(counter));
    append_bytes(&mut input, &u32_to_be_bytes(part));
    assert(input@ =~= bls_candidate_preimage(seed@, counter, part));
    sha256(input.as_slice())
}

fn candidate_compressed_bytes(seed: &[u8; 64], counter: u64) -> (candidate: [u8; 48])
    ensures
        candidate@ == bls_candidate(seed@, counter),
{
    let first = candidate_digest(seed, counter, 0);
    let second = candidate_digest(seed, counter, 1);
    let mut out = [0u8; 48];
    let mut i: usize = 0;
    while i < 32
        invariant
            i <= 32,
            forall|k: int| 0 <= k < i ==> out@[k] == first@[k],
        decreases 32 - i,
    {
        out[i] = first[i];
        i = i + 1;
    }
    while i < 48
        invariant
            32 <= i <= 48,
            forall|k: int| 0 <= k < 32 ==> out@[k] == first@[k],
            forall|k: int| 32 <= k < i ==> out@[k] == second@[k - 32],
        decreases 48 - i,
    {
        out[i] = second[i - 32];
        i = i + 1;
    }
    let raw = out;
    out[0] = (out[0] & 0x3f) | 0x80;
    proof {
        let spec_raw = first@ + second@.subrange(0, 16);
        assert(raw@ =~= spec_raw);
        assert(out@ =~= spec_raw.update(0, (spec_raw[0] & 0x3fu8) | 0x80u8));
    }
    out
}

impl Bls12_381G1Cycle {
    /// Map 64 uniform bytes to a non-identity point of G1 by
    /// try-and-increment over SHA-256 candidates.
    ///
    /// Counters run from zero through `u64::MAX`; `None` is returned only
    /// when every one of those candidates fails.
    pub fn point_hash_from_uniform(bytes: &[u8; 64]) -> (point: Option<BlsG1Element>)
        ensures
            point matches Some(p) ==> bls_cycle_search(bytes@, 0) == Some(p@) && p.wf()
                && p.dlog() != 0,
            point is None ==> bls_cycle_search(bytes@, 0) is None,
    {
        let mut counter: u64 = 0;
        loop
            invariant
                bls_cycle_search(bytes@, 0) == bls_cycle_search(bytes@, counter as nat),
            decreases u64::MAX - counter,
        {
            let candidate = candidate_compressed_bytes(bytes, counter);
            proof {
                assert((counter as nat) as u64 == counter);
            }
            if let Some(encoded) = g1_cleared_candidate(&candidate, BLS_G1_EFFECTIVE_COFACTOR) {
                let p = BlsG1Element { bytes: encoded };
                if !p.is_identity() {
                    return Some(p);
                }
            }
            if counter == u64::MAX {
                proof {
                    assert(bls_cycle_search(bytes@, u64::MAX as nat + 1) is None);
                }
                return None;
            }
            counter = counter + 1;
        }
    }

    /// `sum(scalars[i] * points[i])`; the identity for no terms.
    pub fn vartime_msm(scalars: &[BlsScalar], points: &[BlsG1Element]) -> (sum: BlsG1Element)
        requires
            scalars@.len() == points@.len(),
            forall|i: int| 0 <= i < scalars@.len() ==> (#[trigger] scalars@[i]).wf(),
            forall|i: int| 0 <= i < points@.len() ==> (#[trigger] points@[i]).wf(),
        ensures
            sum.wf(),
            sum.dlog() == dot(
                values_of(scalars@),
                points@.map_values(|p: BlsG1Element| p.dlog() as int),
                points@.len(),
            ) % (bls_order() as int),
    {
        if points.len() == 0 {
            return BlsG1Element { bytes: g1_identity() };
        }
        BlsG1Element { bytes: g1_msm(scalars, points) }
    }

    /// Compress a point to its 48-byte encoding.
    pub fn point_compress(point: &BlsG1Element) -> (compressed: [u8; 48])
        ensures
            compressed@ == point@,
    {
        point.bytes
    }

    /// Decompress an encoding, or `None` when it is not the compressed
    /// encoding of a point of G1.
    pub fn compressed_decompress(compressed: &[u8; 48]) -> (point: Option<BlsG1Element>)
        ensures
            point is Some <==> bls_g1_decodes(compressed@),
            point matches Some(p) ==> p@ == compressed@ && p.wf(),
    {
        if g1_decodes(compressed) {
            Some(BlsG1Element { bytes: *compressed })
        } else {
            None
        }
    }

    /// Compressed encoding of the group identity.
    pub fn compressed_identity() -> (compressed: [u8; 48])
        ensures
            compressed@ == bls_g1_identity_bytes(),
            bls_g1_point(compressed@),
            bls_g1_dlog(compressed@) == 0,
    {
        g1_identity()
    }

    /// Whether an encoding is that of the identity.
    pub fn compressed_is_identity(compressed: &[u8; 48]) -> (identity: bool)
        ensures
            identity == (compressed@ == bls_g1_identity_bytes()),
    {
        let id = g1_identity();
        bytes_equal(compressed, &id)
    }

    /// The encoding made of the first 48 bytes of `bytes`.
    pub fn compressed_from_bytes(bytes: &[u8]) -> (compressed: [u8; 48])
        requires
            bytes@.len() >= BLS_G1_COMPRESSED_BYTES,
        ensures
            compressed@ == bytes@.subrange(0, 48),
    {
        let mut out = [0u8; 48];
        let mut i: usize = 0;
        while i < 48
            invariant
                i <= 48,
                bytes@.len() >= 48,
                forall|k: int| 0 <= k < i ==> out@[k] == bytes@[k],
            decreases 48 - i,
        {
            out[i] = bytes[i];
            i = i + 1;
        }
        assert(out@ =~= bytes@.subrange(0, 48));
        out
    }
}

} // verus!
