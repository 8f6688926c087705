//! Deterministic transcript helpers for message binding.
use vstd::prelude::*;
use vstd::string::StringSliceAdditionalSpecFns;

use crate::bytes::{append_bytes, u32_be, u32_to_be_bytes, u64_be, u64_to_be_bytes};
use crate::error::Error;
use crate::group::{GoldenGroup, GoldenScalar};
use crate::participant::ParticipantIndex;

verus! {

/// SHA-256 digest used as the shared root for every Golden transcript.
pub type TranscriptRoot = [u8; 32];

/// The SHA-256 digest of a byte string.
pub uninterp spec fn sha256_spec(data: Seq<u8>) -> Seq<u8>;

/// Calls `sha2::Sha256::digest` on `data`. The contract claims that the
/// 32-byte output is the SHA-256 digest of the bytes, which depends on
/// those bytes alone; nothing else about SHA-256 is stated.
#[verifier::external_body]
pub(crate) fn sha256(data: &[u8]) -> (digest: [u8; 32])
    ensures
        digest@ == sha256_spec(data@),
{
    let digest = <sha2::Sha256 as sha2::Digest>::digest(data);
    digest.into()
}

/// The protocol prefix used by [`TranscriptBuilder::new`].
pub open spec fn default_prefix() -> Seq<u8> {
    "golden-core-v1".spec_bytes()
}

/// Length-prefixed framing of one labelled value: the label length as a
/// big-endian `u64`, the label, the value length as a big-endian `u64` and
/// the value.
pub open spec fn frame(label: Seq<u8>, value: Seq<u8>) -> Seq<u8> {
    u64_be(label.len() as u64) + label + u64_be(value.len() as u64) + value
}

/// Bytes hashed at the start of a transcript with `prefix` and `label`.
pub open spec fn transcript_start(prefix: Seq<u8>, label: Seq<u8>) -> Seq<u8> {
    prefix + u64_be(label.len() as u64) + label
}

/// Deterministic SHA-256 transcript builder for Golden protocol roots.
///
/// The builder keeps the exact byte string that is hashed; its view is that
/// byte string, and [`TranscriptBuilder::root`] is its SHA-256 digest.
pub struct TranscriptBuilder {
    hashed: Vec<u8>,
}

impl View for TranscriptBuilder {
    type V = Seq<u8>;

    closed spec fn view(&self) -> Seq<u8> {
        self.hashed@
    }
}

impl TranscriptBuilder {
    /// Build a transcript under the default Golden protocol prefix.
    pub fn new(label: &[u8]) -> (t: Self)
        ensures
            t@ == transcript_start(default_prefix(), label@),
    {
        Self::with_prefix("golden-core-v1".as_bytes(), label)
    }

    /// Build a transcript with an explicit protocol prefix.
    ///
    /// The prefix is not length-prefixed: callers supply fixed ASCII tags.
    pub fn with_prefix(prefix: &[u8], label: &[u8]) -> (t: Self)
        ensures
            t@ == transcript_start(prefix@, label@),
    {
        let label_len = label.len();
        let mut hashed: Vec<u8> = Vec::new();
        append_bytes(&mut hashed, prefix);
        append_bytes(&mut hashed, &u64_to_be_bytes(label_len as u64));
        append_bytes(&mut hashed, label);
        Self { hashed }
    }

    /// Append a byte slice under a fixed label.
    pub fn bytes(&mut self, label: &[u8], bytes: &[u8])
        ensures
            final(self)@ == old(self)@ + frame(label@, bytes@),
    {
        let label_len = label.len();
        let bytes_len = bytes.len();
        append_bytes(&mut self.hashed, &u64_to_be_bytes(label_len as u64));
        append_bytes(&mut self.hashed, label);
        append_bytes(&mut self.hashed, &u64_to_be_bytes(bytes_len as u64));
        append_bytes(&mut self.hashed, bytes);
        assert(self@ =~= old(self)@ + frame(label@, bytes@));
    }

    /// Append a `u32` under a fixed label.
    pub fn u32(&mut self, label: &[u8], value: u32)
        ensures
            final(self)@ == old(self)@ + frame(label@, u32_be(value)),
    {
        let encoded = u32_to_be_bytes(value);
        self.bytes(label, &encoded);
    }

    /// Append a `usize` as a fixed-width `u64` under a fixed label.
    pub fn usize(&mut self, label: &[u8], value: usize)
        ensures
            final(self)@ == old(self)@ + frame(label@, u64_be(value as u64)),
    {
        let encoded = u64_to_be_bytes(value as u64);
        self.bytes(label, &encoded);
    }

    /// Append a participant index under a fixed label.
    pub fn participant(&mut self, label: &[u8], value: ParticipantIndex)
        ensures
            final(self)@ == old(self)@ + frame(label@, u32_be(value@)),
    {
        self.u32(label, value.get());
    }

    /// Append a scalar's canonical representation under a fixed label.
    pub fn scalar<G: GoldenGroup>(&mut self, label: &[u8], value: &G::Scalar)
        requires
            value.wf(),
        ensures
            final(self)@ == old(self)@ + frame(label@, value.repr_of()),
    {
        let encoded = value.to_repr();
        self.bytes(label, encoded.as_slice());
    }

    /// Append a group element's canonical representation under a fixed label.
    pub fn element<G: GoldenGroup>(&mut self, label: &[u8], value: &G::Element)
        requires
            G::element_wf(*value),
        ensures
            final(self)@ == old(self)@ + frame(label@, G::encode_spec(*value)),
    {
        let encoded = G::encode_element(value);
        self.bytes(label, encoded.as_slice());
    }

    /// Finish the transcript and return its root.
    pub fn root(self) -> (root: TranscriptRoot)
        ensures
            root@ == sha256_spec(self@),
    {
        sha256(self.hashed.as_slice())
    }
}

/// Decode a transcript root from its canonical 32-byte representation.
pub fn transcript_root_from_slice(bytes: &[u8]) -> (result: Result<TranscriptRoot, Error>)
    ensures
        bytes@.len() == 32 ==> result is Ok && result->Ok_0@ == bytes@,
        bytes@.len() != 32 ==> result == Err::<TranscriptRoot, Error>(Error::InvalidEncoding),
{
    if bytes.len() != 32 {
        return Err(Error::InvalidEncoding);
    }
    let mut root = [0u8; 32];
    let mut i: usize = 0;
    while i < 32
        invariant
            i <= 32,
            bytes@.len() == 32,
            forall|k: int| 0 <= k < i ==> root@[k] == bytes@[k],
        decreases 32 - i,
    {
        root[i] = bytes[i];
        i = i + 1;
    }
    assert(root@ =~= bytes@);
    Ok(root)
}

/// The framing of labelled values is unambiguous: if two framed values
/// followed by arbitrary bytes coincide, the labels, the values and the
/// following bytes coincide.
pub proof fn lemma_frame_unambiguous(
    label1: Seq<u8>,
    value1: Seq<u8>,
    rest1: Seq<u8>,
    label2: Seq<u8>,
    value2: Seq<u8>,
    rest2: Seq<u8>,
)
    requires
        label1.len() <= u64::MAX,
        value1.len() <= u64::MAX,
        label2.len() <= u64::MAX,
        value2.len() <= u64::MAX,
        frame(label1, value1) + rest1 == frame(label2, value2) + rest2,
    ensures
        label1 == label2,
        value1 == value2,
        rest1 == rest2,
{
    let s1 = frame(label1, value1) + rest1;
    let s2 = frame(label2, value2) + rest2;
    crate::bytes::lemma_u64_be_roundtrip(label1.len() as u64);
    crate::bytes::lemma_u64_be_roundtrip(label2.len() as u64);
    assert(s1.subrange(0, 8) =~= u64_be(label1.len() as u64));
    assert(s2.subrange(0, 8) =~= u64_be(label2.len() as u64));
    assert(label1.len() == label2.len());
    let l = label1.len() as int;
    assert(s1.subrange(8, 8 + l) =~= label1);
    assert(s2.subrange(8, 8 + l) =~= label2);
    crate::bytes::lemma_u64_be_roundtrip(value1.len() as u64);
    crate::bytes::lemma_u64_be_roundtrip(value2.len() as u64);
    assert(s1.subrange(8 + l, 16 + l) =~= u64_be(value1.len() as u64));
    assert(s2.subrange(8 + l, 16 + l) =~= u64_be(value2.len() as u64));
    assert(value1.len() == value2.len());
    let m = value1.len() as int;
    assert(s1.subrange(16 + l, 16 + l + m) =~= value1);
    assert(s2.subrange(16 + l, 16 + l + m) =~= value2);
    assert(s1.subrange(16 + l + m, s1.len() as int) =~= rest1);
    assert(s2.subrange(16 + l + m, s2.len() as int) =~= rest2);
}

} // verus!
