//! Fiat-Shamir transcript helpers of the proof encodings: domain
//! separators, appending scalars and points, and drawing challenge scalars
//! from a `merlin` transcript.
//!
//! A transcript is described by the operations applied to it, in order:
//! `(false, label, message)` appends a labelled message, and
//! `(true, label, LE32(n))` draws `n` labelled challenge bytes. Challenge
//! bytes depend on that history and the challenge label and length alone.
use vstd::prelude::*;
use vstd::string::StringSliceAdditionalSpecFns;

use crate::bytes::le_value;
use crate::proof_cycle::Cycle;
use crate::proof_errors::ProofError;

verus! {

#[verifier::external_type_specification]
#[verifier::external_body]
pub struct ExMerlinTranscript(merlin::Transcript);

/// The `len` challenge bytes that a transcript with operation history
/// `history` produces under `label`.
pub uninterp spec fn merlin_challenge(
    history: Seq<(bool, Seq<u8>, Seq<u8>)>,
    label: Seq<u8>,
    len: nat,
) -> Seq<u8>;

/// A `merlin` transcript together with the operations applied to it since
/// it was created, in order, beginning with the domain separator that
/// creation appends. Only the methods below touch the transcript, and each
/// records its operation.
pub struct ProofTranscript {
    transcript: merlin::Transcript,
    history: Ghost<Seq<(bool, Seq<u8>, Seq<u8>)>>,
}

/// Little-endian encoding of a `u32`.
pub open spec fn u32_le(v: u32) -> Seq<u8> {
    seq![v as u8, (v >> 8u32) as u8, (v >> 16u32) as u8, (v >> 24u32) as u8]
}

/// Little-endian encoding of a `u64`.
pub open spec fn u64_le(v: u64) -> Seq<u8> {
    seq![
        v as u8,
        (v >> 8u64) as u8,
        (v >> 16u64) as u8,
        (v >> 24u64) as u8,
        (v >> 32u64) as u8,
        (v >> 40u64) as u8,
        (v >> 48u64) as u8,
        (v >> 56u64) as u8,
    ]
}

impl ProofTranscript {
    /// The operations applied to the transcript since it was created.
    pub closed spec fn history(&self) -> Seq<(bool, Seq<u8>, Seq<u8>)> {
        self.history@
    }

    /// Calls `merlin::Transcript::new`, which appends `label` under the
    /// label `dom-sep`.
    #[verifier::external_body]
    pub fn new(label: &'static [u8]) -> (t: Self)
        requires
            label@.len() <= u32::MAX,
        ensures
            t.history() == seq![(false, "dom-sep".spec_bytes(), label@)],
    {
        ProofTranscript {
            transcript: merlin::Transcript::new(label),
            history: Ghost(seq![(false, "dom-sep".spec_bytes(), label@)]),
        }
    }

    /// Calls `merlin::Transcript::append_message`, which absorbs the label,
    /// the message length and the message; it panics on messages longer
    /// than `u32::MAX` bytes.
    #[verifier::external_body]
    pub fn append_message(&mut self, label: &'static [u8], message: &[u8])
        requires
            message@.len() <= u32::MAX,
        ensures
            final(self).history() == old(self).history().push((false, label@, message@)),
    {
        self.transcript.append_message(label, message);
    }

    /// Calls `merlin::Transcript::append_u64`, which appends the
    /// little-endian bytes of `x` as a message.
    #[verifier::external_body]
    pub fn append_u64(&mut self, label: &'static [u8], x: u64)
        ensures
            final(self).history() == old(self).history().push((false, label@, u64_le(x))),
    {
        self.transcript.append_u64(label, x);
    }

    /// Calls `merlin::Transcript::challenge_bytes` to fill `len` bytes,
    /// which depend on the transcript's history and the label and length
    /// alone.
    #[verifier::external_body]
    pub fn challenge_bytes(&mut self, label: &'static [u8], len: usize) -> (out: Vec<u8>)
        requires
            len <= u32::MAX,
        ensures
            out@.len() == len,
            out@ == merlin_challenge(old(self).history(), label@, len as nat),
            final(self).history() == old(self).history().push((true, label@, u32_le(len as u32))),
    {
        let mut out = vec![0u8; len];
        self.transcript.challenge_bytes(label, &mut out);
        out
    }
}

/// The history after appending `message` under the label `dom-sep`.
pub open spec fn with_domain_sep(
    history: Seq<(bool, Seq<u8>, Seq<u8>)>,
    message: Seq<u8>,
) -> Seq<(bool, Seq<u8>, Seq<u8>)> {
    history.push((false, "dom-sep".spec_bytes(), message))
}

/// Constraint-system proof domain separators.
pub trait R1csDomain {
    /// Inner-product domain separator for a length-`n` proof.
    fn innerproduct_domain_sep(&mut self, n: u64);

    /// Constraint-system proof domain separator.
    fn r1cs_domain_sep(&mut self);

    /// Single-phase constraint-system proof domain separator.
    fn r1cs_1phase_domain_sep(&mut self);

    /// Two-phase constraint-system proof domain separator.
    fn r1cs_2phase_domain_sep(&mut self);
}

/// `s` is a literal short enough to be a transcript message.
proof fn lemma_short_literal(s: &str, n: nat)
    requires
        vstd::string::is_ascii(s),
        s@.len() == n,
        n <= 16,
    ensures
        s.spec_bytes().len() == n,
{
    vstd::string::is_ascii_spec_bytes(s);
}

impl R1csDomain for ProofTranscript {
    fn innerproduct_domain_sep(&mut self, n: u64)
        ensures
            final(self).history() == with_domain_sep(
                old(self).history(),
                "ipp v1".spec_bytes(),
            ).push((false, "n".spec_bytes(), u64_le(n))),
    {
        proof {
            reveal_strlit("ipp v1");
            lemma_short_literal("ipp v1", 6);
        }
        self.append_message("dom-sep".as_bytes(), "ipp v1".as_bytes());
        self.append_u64("n".as_bytes(), n);
    }

    fn r1cs_domain_sep(&mut self)
        ensures
            final(self).history() == with_domain_sep(
                old(self).history(),
                "r1cs v1".spec_bytes(),
            ),
    {
        proof {
            reveal_strlit("r1cs v1");
            lemma_short_literal("r1cs v1", 7);
        }
        self.append_message("dom-sep".as_bytes(), "r1cs v1".as_bytes());
    }

    fn r1cs_1phase_domain_sep(&mut self)
        ensures
            final(self).history() == with_domain_sep(
                old(self).history(),
                "r1cs-1phase".spec_bytes(),
            ),
    {
        proof {
            reveal_strlit("r1cs-1phase");
            lemma_short_literal("r1cs-1phase", 11);
        }
        self.append_message("dom-sep".as_bytes(), "r1cs-1phase".as_bytes());
    }

    fn r1cs_2phase_domain_sep(&mut self)
        ensures
            final(self).history() == with_domain_sep(
                old(self).history(),
                "r1cs-2phase".spec_bytes(),
            ),
    {
        proof {
            reveal_strlit("r1cs-2phase");
            lemma_short_literal("r1cs-2phase", 11);
        }
        self.append_message("dom-sep".as_bytes(), "r1cs-2phase".as_bytes());
    }
}

/// Append a canonical scalar encoding under `label`.
pub fn append_scalar<C: Cycle>(transcript: &mut ProofTranscript, label: &'static [u8], scalar: &C::Scalar)
    requires
        C::scalar_wf(*scalar),
    ensures
        final(transcript).history() == old(transcript).history().push(
            (false, label@, C::scalar_view(*scalar)),
        ),
{
    let bytes = C::scalar_to_canonical(scalar);
    transcript.append_message(label, &bytes);
}

/// Append a compressed point encoding under `label`.
pub fn append_point<C: Cycle>(
    transcript: &mut ProofTranscript,
    label: &'static [u8],
    point: &C::Compressed,
)
    ensures
        final(transcript).history() == old(transcript).history().push(
            (false, label@, C::compressed_view(*point)),
        ),
{
    proof {
        C::lemma_compressed(*point, *point);
        C::lemma_compressed_len();
    }
    transcript.append_message(label, C::compressed_as_bytes(point));
}

/// Reject the identity, leaving the transcript as it was; otherwise append
/// the point under `label`.
pub fn validate_and_append_point<C: Cycle>(
    transcript: &mut ProofTranscript,
    label: &'static [u8],
    point: &C::Compressed,
) -> (result: Result<(), ProofError>)
    ensures
        C::compressed_view(*point) == C::identity_view() ==> result == Err::<(), ProofError>(
            ProofError::VerificationError,
        ) && *final(transcript) == *old(transcript),
        C::compressed_view(*point) != C::identity_view() ==> result is Ok && final(transcript).history() == old(transcript).history().push((false, label@, C::compressed_view(*point))),
{
    if C::compressed_is_identity(point) {
        return Err(ProofError::VerificationError);
    }
    append_point::<C>(transcript, label, point);
    Ok(())
}

/// Draw 64 challenge bytes under `label` and reduce them into a scalar.
pub fn challenge_scalar<C: Cycle>(transcript: &mut ProofTranscript, label: &'static [u8]) -> (scalar:
    C::Scalar)
    ensures
        C::scalar_wf(scalar),
        le_value(C::scalar_view(scalar)) == le_value(
            merlin_challenge(old(transcript).history(), label@, 64),
        ) % C::scalar_order(),
        final(transcript).history() == old(transcript).history().push(
            (true, label@, u32_le(64)),
        ),
{
    let bytes = transcript.challenge_bytes(label, 64);
    let mut buf = [0u8; 64];
    let mut i: usize = 0;
    while i < 64
        invariant
            i <= 64,
            bytes@.len() == 64,
            forall|k: int| 0 <= k < i ==> buf@[k] == bytes@[k],
        decreases 64 - i,
    {
        buf[i] = bytes[i];
        i = i + 1;
    }
    assert(buf@ =~= bytes@);
    C::scalar_from_wide(&buf)
}

} // verus!
