//! Canonical encoding helpers for opaque dealer broadcasts.
use vstd::prelude::*;

use crate::bytes::{
    be_to_u32, be_to_u64, u32_be, u32_from_be_bytes, u32_to_be_bytes, u64_be, u64_from_be_bytes,
    u64_to_be_bytes,
};
use crate::dealer_proof::receivers_of;
use crate::dkg::{kind_code, strictly_increasing, DealerMessageNonce, DkgConfig, DkgInstanceKind, EvrfMessage, PROTOCOL_VERSION};
use crate::error::{DealerMessageError, Error};
use crate::group::{FieldByteOrder, GoldenGroup, GoldenScalar};
use crate::main_golden::effective_message_preimage;
use crate::participant::ParticipantIndex;
use crate::transcript::{frame, sha256_spec, transcript_start, TranscriptBuilder, TranscriptRoot};
use vstd::string::StringSliceAdditionalSpecFns;

verus! {

/// Maximum accepted whole dealer-message length in bytes.
pub const MAX_DEALER_MESSAGE_BYTES: usize = 16777216;

/// Return the maximum accepted whole dealer-message length.
pub fn max_dealer_message_bytes() -> (n: usize)
    ensures
        n == 16 * 1024 * 1024,
{
    MAX_DEALER_MESSAGE_BYTES
}

/// `lhs + rhs`, or `DealerMessageTooLarge` when the sum overflows.
pub fn checked_add(lhs: usize, rhs: usize) -> (result: Result<usize, Error>)
    ensures
        lhs + rhs <= usize::MAX ==> result == Ok::<usize, Error>((lhs + rhs) as usize),
        lhs + rhs > usize::MAX ==> result == Err::<usize, Error>(Error::DealerMessageTooLarge),
{
    match lhs.checked_add(rhs) {
        Some(sum) => Ok(sum),
        None => Err(Error::DealerMessageTooLarge),
    }
}

/// `lhs * rhs`, or `DealerMessageTooLarge` when the product overflows.
pub fn checked_mul(lhs: usize, rhs: usize) -> (result: Result<usize, Error>)
    ensures
        lhs * rhs <= usize::MAX ==> result == Ok::<usize, Error>((lhs * rhs) as usize),
        lhs * rhs > usize::MAX ==> result == Err::<usize, Error>(Error::DealerMessageTooLarge),
{
    match lhs.checked_mul(rhs) {
        Some(product) => Ok(product),
        None => Err(Error::DealerMessageTooLarge),
    }
}

/// Copy `bytes` into a new vector, reporting a failed allocation as
/// `Malformed`.
pub fn clone_bytes_fallibly(bytes: &[u8]) -> (result: Result<Vec<u8>, DealerMessageError>)
    ensures
        result matches Ok(v) ==> v@ == bytes@,
        result is Err ==> result == Err::<Vec<u8>, DealerMessageError>(
            DealerMessageError::Malformed,
        ),
{
    let mut cloned: Vec<u8> = Vec::new();
    if cloned.try_reserve(bytes.len()).is_err() {
        return Err(DealerMessageError::Malformed);
    }
    crate::bytes::append_bytes(&mut cloned, bytes);
    Ok(cloned)
}

/// Clone `elements` into a new vector, reporting a failed allocation as
/// `Malformed`.
pub fn clone_elements_fallibly<E: Clone>(elements: &[E]) -> (result: Result<
    Vec<E>,
    DealerMessageError,
>)
    ensures
        result matches Ok(v) ==> v@.len() == elements@.len() && forall|i: int|
            0 <= i < elements@.len() ==> cloned::<E>(elements@[i], #[trigger] v@[i]),
        result is Err ==> result == Err::<Vec<E>, DealerMessageError>(
            DealerMessageError::Malformed,
        ),
{
    let mut copies: Vec<E> = Vec::new();
    if copies.try_reserve(elements.len()).is_err() {
        return Err(DealerMessageError::Malformed);
    }
    let mut i: usize = 0;
    while i < elements.len()
        invariant
            i <= elements@.len(),
            copies@.len() == i,
            forall|k: int| 0 <= k < i ==> cloned::<E>(elements@[k], #[trigger] copies@[k]),
        decreases elements@.len() - i,
    {
        copies.push(elements[i].clone());
        i = i + 1;
    }
    Ok(copies)
}

/// Sequential reader over one opaque dealer message.
pub struct DealerMessageReader<'a> {
    encoded: &'a [u8],
    position: usize,
}

impl<'a> DealerMessageReader<'a> {
    #[verifier::type_invariant]
    spec fn position_in_bounds(self) -> bool {
        self.position <= self.encoded@.len()
    }

    /// The complete message being read.
    pub closed spec fn data(self) -> Seq<u8> {
        self.encoded@
    }

    /// Number of bytes already consumed.
    pub closed spec fn pos(self) -> nat {
        self.position as nat
    }

    /// The unread bytes.
    pub open spec fn rest(self) -> Seq<u8> {
        self.data().subrange(self.pos() as int, self.data().len() as int)
    }

    /// Build a reader positioned at the start of `encoded`.
    pub fn new(encoded: &'a [u8]) -> (reader: Self)
        ensures
            reader.data() == encoded@,
            reader.pos() == 0,
    {
        Self { encoded, position: 0 }
    }

    /// Number of bytes already consumed.
    pub fn position(&self) -> (position: usize)
        ensures
            position == self.pos(),
            position <= self.data().len(),
    {
        proof {
            use_type_invariant(self);
        }
        self.position
    }

    /// Read exactly `len` bytes; reading past the end is `Malformed` and
    /// leaves the reader where it was.
    pub fn read_exact(&mut self, len: usize) -> (result: Result<&'a [u8], DealerMessageError>)
        ensures
            final(self).data() == old(self).data(),
            old(self).pos() <= old(self).data().len(),
            final(self).pos() <= final(self).data().len(),
            old(self).rest().len() >= len ==> result is Ok && result->Ok_0@ == old(
                self,
            ).rest().subrange(0, len as int) && final(self).pos() == old(self).pos() + len,
            old(self).rest().len() < len ==> result == Err::<&'a [u8], DealerMessageError>(
                DealerMessageError::Malformed,
            ) && final(self).pos() == old(self).pos(),
    {
        proof {
            use_type_invariant(&*self);
        }
        let total = self.encoded.len();
        let end = match self.position.checked_add(len) {
            Some(end) => end,
            None => return Err(DealerMessageError::Malformed),
        };
        if end > total {
            return Err(DealerMessageError::Malformed);
        }
        let bytes = &self.encoded[self.position..end];
        self.position = end;
        assert(bytes@ =~= old(self).rest().subrange(0, len as int));
        Ok(bytes)
    }

    /// Read a big-endian `u32`.
    pub fn read_u32(&mut self) -> (result: Result<u32, DealerMessageError>)
        ensures
            final(self).data() == old(self).data(),
            old(self).pos() <= old(self).data().len(),
            final(self).pos() <= final(self).data().len(),
            old(self).rest().len() >= 4 ==> result == Ok::<u32, DealerMessageError>(
                be_to_u32(old(self).rest().subrange(0, 4)),
            ) && final(self).pos() == old(self).pos() + 4,
            old(self).rest().len() < 4 ==> result == Err::<u32, DealerMessageError>(
                DealerMessageError::Malformed,
            ),
    {
        let bytes = self.read_exact(4)?;
        Ok(u32_from_be_bytes(bytes))
    }

    /// Read a big-endian `u64` that must fit in a `usize`.
    pub fn read_u64_as_usize(&mut self) -> (result: Result<usize, DealerMessageError>)
        ensures
            final(self).data() == old(self).data(),
            old(self).pos() <= old(self).data().len(),
            final(self).pos() <= final(self).data().len(),
            old(self).rest().len() >= 8 && be_to_u64(old(self).rest().subrange(0, 8))
                <= usize::MAX ==> result == Ok::<usize, DealerMessageError>(
                be_to_u64(old(self).rest().subrange(0, 8)) as usize,
            ) && final(self).pos() == old(self).pos() + 8,
            !(old(self).rest().len() >= 8 && be_to_u64(old(self).rest().subrange(0, 8))
                <= usize::MAX) ==> result == Err::<usize, DealerMessageError>(
                DealerMessageError::Malformed,
            ),
    {
        let bytes = self.read_exact(8)?;
        let value = u64_from_be_bytes(bytes);
        if value > usize::MAX as u64 {
            return Err(DealerMessageError::Malformed);
        }
        Ok(value as usize)
    }

    /// The unread suffix of the message.
    pub fn remaining(&self) -> (rest: &'a [u8])
        ensures
            rest@ == self.rest(),
            self.pos() <= self.data().len(),
    {
        proof {
            use_type_invariant(self);
        }
        let total = self.encoded.len();
        let rest = &self.encoded[self.position..total];
        rest
    }
}

/// Leading magic of an encoded dealer message.
pub open spec fn dealer_magic_spec() -> Seq<u8> {
    "golden-dkg-dealer".spec_bytes()
}

/// Codec version written after the magic.
pub const DEALER_MESSAGE_CODEC_VERSION: u32 = 1;

/// One receiver slot of a dealer message.
pub struct DealerMessageReceiver<G: GoldenGroup> {
    /// Receiver participant.
    pub participant: ParticipantIndex,
    /// Receiver identity public key.
    pub public_key: G::Element,
    /// Commitment to the receiver share.
    pub share_commitment: G::Element,
    /// Commitment to the receiver pad.
    pub pad_commitment: G::Element,
    /// Share plus pad.
    pub encrypted_share: G::Scalar,
}

/// One sharing instance of a dealer message.
pub struct DealerMessageInstance<G: GoldenGroup> {
    /// Raw dealer nonce of the instance.
    pub nonce: DealerMessageNonce,
    /// Effective eVRF message of the instance.
    pub effective_message: EvrfMessage,
    /// Logical Feldman coefficients, `threshold` of them.
    pub commitment_coefficients: Vec<G::Element>,
    /// Receiver slots in registry order, without the dealer.
    pub receivers: Vec<DealerMessageReceiver<G>>,
}

/// The public content of one dealer broadcast.
pub struct DealerMessageData<G: GoldenGroup> {
    /// The dealer.
    pub dealer: ParticipantIndex,
    /// One entry per configured instance, in protocol order.
    pub instances: Vec<DealerMessageInstance<G>>,
}

/// Every element and scalar of a receiver slot is valid.
pub open spec fn message_receiver_wf<G: GoldenGroup>(r: DealerMessageReceiver<G>) -> bool {
    &&& G::element_wf(r.public_key)
    &&& G::element_wf(r.share_commitment)
    &&& G::element_wf(r.pad_commitment)
    &&& r.encrypted_share.wf()
}

/// Every element and scalar of an instance is valid.
pub open spec fn message_instance_wf<G: GoldenGroup>(inst: DealerMessageInstance<G>) -> bool {
    &&& forall|c: int|
        0 <= c < inst.commitment_coefficients@.len() ==> G::element_wf(
            #[trigger] inst.commitment_coefficients@[c],
        )
    &&& forall|k: int|
        0 <= k < inst.receivers@.len() ==> message_receiver_wf::<G>(#[trigger] inst.receivers@[k])
}

/// Every element and scalar of a message is valid.
#[verifier::opaque]
pub open spec fn message_wf<G: GoldenGroup>(message: DealerMessageData<G>) -> bool {
    forall|i: int|
        0 <= i < message.instances@.len() ==> message_instance_wf::<G>(
            #[trigger] message.instances@[i],
        )
}

/// The fixed-width big-endian protocol encoding of a scalar.
pub open spec fn protocol_scalar_bytes<S: GoldenScalar>(s: S) -> Seq<u8> {
    if S::byte_order() == FieldByteOrder::LittleEndian {
        s.repr_of().reverse()
    } else {
        s.repr_of()
    }
}

/// The native representation of protocol scalar bytes.
pub open spec fn protocol_scalar_native<S: GoldenScalar>(bytes: Seq<u8>) -> Seq<u8> {
    if S::byte_order() == FieldByteOrder::LittleEndian {
        bytes.reverse()
    } else {
        bytes
    }
}

/// The scalar with protocol encoding `bytes`, if any.
pub open spec fn decode_protocol_scalar_spec<S: GoldenScalar>(bytes: Seq<u8>) -> Option<S> {
    if bytes.len() == S::repr_len() {
        S::decode_repr(protocol_scalar_native::<S>(bytes))
    } else {
        None
    }
}

/// The element with protocol encoding `bytes`, if any.
pub open spec fn decode_protocol_element_spec<G: GoldenGroup>(bytes: Seq<u8>) -> Option<G::Element> {
    if bytes.len() == G::element_repr_len() {
        G::decode_spec(bytes)
    } else {
        None
    }
}

/// Reverse a byte vector in place.
fn reverse_bytes(bytes: &mut Vec<u8>)
    ensures
        final(bytes)@ == old(bytes)@.reverse(),
{
    let n = bytes.len();
    let ghost original = bytes@;
    let mut i: usize = 0;
    while i < n / 2
        invariant
            n == original.len(),
            bytes@.len() == n,
            i <= n / 2,
            forall|k: int| 0 <= k < i ==> bytes@[k] == original[n - 1 - k],
            forall|k: int| 0 <= k < i ==> bytes@[n - 1 - k] == original[k],
            forall|k: int| i <= k < n - i ==> bytes@[k] == original[k],
        decreases n / 2 - i,
    {
        let a = bytes[i];
        let b = bytes[n - 1 - i];
        bytes.set(i, b);
        bytes.set(n - 1 - i, a);
        i = i + 1;
    }
    assert(bytes@ =~= original.reverse());
}

/// Encode a scalar in the fixed big-endian dealer-message protocol order.
pub fn encode_protocol_scalar<S: GoldenScalar>(scalar: &S) -> (encoded: Vec<u8>)
    requires
        scalar.wf(),
    ensures
        encoded@ == protocol_scalar_bytes(*scalar),
        encoded@.len() == S::repr_len(),
{
    proof {
        S::lemma_scalar_model(*scalar, *scalar);
    }
    let mut encoded = scalar.to_repr();
    if S::repr_byte_order() == FieldByteOrder::LittleEndian {
        reverse_bytes(&mut encoded);
    }
    encoded
}

/// Decode a scalar from its protocol encoding; anything but a canonical
/// encoding of the right width is `Malformed`.
pub fn decode_protocol_scalar<S: GoldenScalar>(encoded: &[u8]) -> (result: Result<
    S,
    DealerMessageError,
>)
    ensures
        decode_protocol_scalar_spec::<S>(encoded@) matches Some(s) ==> result == Ok::<
            S,
            DealerMessageError,
        >(s) && s.wf() && protocol_scalar_bytes(s) == encoded@,
        decode_protocol_scalar_spec::<S>(encoded@) is None ==> result == Err::<
            S,
            DealerMessageError,
        >(DealerMessageError::Malformed),
{
    if encoded.len() != S::repr_bytes() {
        return Err(DealerMessageError::Malformed);
    }
    let mut native: Vec<u8> = Vec::new();
    crate::bytes::append_bytes(&mut native, encoded);
    if S::repr_byte_order() == FieldByteOrder::LittleEndian {
        reverse_bytes(&mut native);
    }
    proof {
        S::lemma_decode_canonical(native@);
        if S::byte_order() == FieldByteOrder::LittleEndian {
            assert(native@.reverse() =~= encoded@);
        }
    }
    match S::from_repr(native.as_slice()) {
        Ok(scalar) => Ok(scalar),
        Err(_) => Err(DealerMessageError::Malformed),
    }
}

/// Decode a group element from its protocol encoding; anything but a
/// canonical encoding of the right width is `Malformed`.
pub fn decode_protocol_element<G: GoldenGroup>(encoded: &[u8]) -> (result: Result<
    G::Element,
    DealerMessageError,
>)
    ensures
        decode_protocol_element_spec::<G>(encoded@) matches Some(e) ==> result == Ok::<
            G::Element,
            DealerMessageError,
        >(e) && G::element_wf(e) && G::encode_spec(e) == encoded@,
        decode_protocol_element_spec::<G>(encoded@) is None ==> result == Err::<
            G::Element,
            DealerMessageError,
        >(DealerMessageError::Malformed),
{
    if encoded.len() != G::element_repr_bytes() {
        return Err(DealerMessageError::Malformed);
    }
    proof {
        G::lemma_decode_canonical(encoded@);
    }
    match G::decode_element(encoded) {
        Ok(element) => Ok(element),
        Err(_) => Err(DealerMessageError::Malformed),
    }
}

/// Number of physical (encoded) coefficients of an instance of `kind`: a
/// zero instance omits its identity constant.
pub open spec fn physical_coefficients(kind: DkgInstanceKind, threshold: nat) -> nat {
    match kind {
        DkgInstanceKind::Random => threshold,
        DkgInstanceKind::Zero => (threshold - 1) as nat,
    }
}

/// Length of the encoding of the instances from position `from` on.
pub open spec fn instances_len(
    kinds: Seq<DkgInstanceKind>,
    threshold: nat,
    element_len: nat,
    receivers_len: nat,
) -> nat
    decreases kinds.len(),
{
    if kinds.len() == 0 {
        0
    } else {
        instances_len(kinds.drop_last(), threshold, element_len, receivers_len) + 32
            + physical_coefficients(kinds.last(), threshold) * element_len + receivers_len
    }
}

/// Length of the fixed header of a dealer message.
pub open spec fn header_len(curve_id_len: nat) -> nat {
    17 + 8 + 4 + 4 + curve_id_len + 32 + 4
}

/// Length of the configuration-shaped prefix of a dealer message.
pub open spec fn prefix_len_spec<G: GoldenGroup>(config: DkgConfig<G>) -> nat {
    header_len(G::curve_id_spec().len()) + instances_len(
        config.instances_spec(),
        config.threshold_spec() as nat,
        G::element_repr_len(),
        ((config.registry_spec().len() - 1) * (G::element_repr_len()
            + <G::Scalar as GoldenScalar>::repr_len())) as nat,
    )
}

/// The prefix length and the width of one receiver slot fit in a `usize`.
pub open spec fn prefix_len_fits<G: GoldenGroup>(config: DkgConfig<G>) -> bool {
    &&& prefix_len_spec(config) <= usize::MAX
    &&& G::element_repr_len() + <G::Scalar as GoldenScalar>::repr_len() <= usize::MAX
}

/// Byte length of the configuration-shaped prefix of every dealer message
/// for `config`; `DealerMessageTooLarge` when it, or the width of one
/// receiver slot, does not fit in a `usize`.
pub fn encoded_prefix_len<G: GoldenGroup>(config: &DkgConfig<G>) -> (result: Result<usize, Error>)
    ensures
        prefix_len_fits(*config) ==> result == Ok::<usize, Error>(
            prefix_len_spec(*config) as usize,
        ),
        !prefix_len_fits(*config) ==> result == Err::<usize, Error>(
            Error::DealerMessageTooLarge,
        ),
{
    config.check_invariant();
    let curve_id = G::curve_id();
    let curve_id_len = curve_id.len();
    let element_len = G::element_repr_bytes();
    let scalar_len = <G::Scalar as GoldenScalar>::repr_bytes();
    let threshold = config.threshold();
    let kinds = config.instances();
    let ghost rl = ((config.registry_spec().len() - 1) * (G::element_repr_len()
        + <G::Scalar as GoldenScalar>::repr_len())) as nat;
    let ghost total = prefix_len_spec(*config);
    proof {
        lemma_instances_len_monotone(kinds@, threshold as nat, element_len as nat, rl);
    }
    let mut len: usize = 17;
    len = match checked_add(len, 8) {
        Ok(v) => v,
        Err(e) => return Err(e),
    };
    len = len + 4;
    len = len + 4;
    len = match checked_add(len, curve_id_len) {
        Ok(v) => v,
        Err(e) => {
            proof {
                assert(total >= header_len(curve_id_len as nat));
            }
            return Err(e);
        },
    };
    len = match checked_add(len, 32) {
        Ok(v) => v,
        Err(e) => {
            proof {
                assert(total >= header_len(curve_id_len as nat));
            }
            return Err(e);
        },
    };
    len = match checked_add(len, 4) {
        Ok(v) => v,
        Err(e) => {
            proof {
                assert(total >= header_len(curve_id_len as nat));
            }
            return Err(e);
        },
    };
    let participants = config.registry().len();
    let receiver_count = participants - 1;
    let receiver_bytes = match checked_add(element_len, scalar_len) {
        Ok(v) => v,
        Err(e) => return Err(e),
    };
    let receivers_bytes = match checked_mul(receiver_count, receiver_bytes) {
        Ok(v) => v,
        Err(e) => {
            proof {
                lemma_instances_len_positive(kinds@, threshold as nat, element_len as nat, rl);
            }
            return Err(e);
        },
    };
    let mut i: usize = 0;
    while i < kinds.len()
        invariant
            i <= kinds@.len(),
            kinds@ == config.instances_spec(),
            kinds@.len() > 0,
            1 <= threshold,
            threshold == config.threshold_spec(),
            element_len == G::element_repr_len(),
            receivers_bytes == rl,
            curve_id_len == G::curve_id_spec().len(),
            total == prefix_len_spec(*config),
            total == header_len(curve_id_len as nat) + instances_len(
                kinds@,
                threshold as nat,
                element_len as nat,
                rl,
            ),
            len == header_len(curve_id_len as nat) + instances_len(
                kinds@.take(i as int),
                threshold as nat,
                element_len as nat,
                rl,
            ),
            forall|k: int|
                0 <= k <= kinds@.len() ==> #[trigger] instances_len(
                    kinds@.take(k),
                    threshold as nat,
                    element_len as nat,
                    rl,
                ) <= instances_len(kinds@, threshold as nat, element_len as nat, rl),
        decreases kinds@.len() - i,
    {
        proof {
            assert(kinds@.take(i as int + 1).drop_last() =~= kinds@.take(i as int));
            assert(kinds@.take(i as int + 1).last() == kinds@[i as int]);
            let p = physical_coefficients(kinds@[i as int], threshold as nat);
            assert(p * element_len >= 0) by (nonlinear_arith);
        }
        len = match checked_add(len, 32) {
            Ok(v) => v,
            Err(e) => {
                proof {
                    lemma_instance_step_bound(kinds@, i as int, threshold as nat, element_len as nat, rl);
                    assert(instances_len(kinds@.take(i + 1), threshold as nat, element_len as nat, rl)
                        <= instances_len(kinds@, threshold as nat, element_len as nat, rl));
                }
                return Err(e);
            },
        };
        let physical = match kinds[i] {
            DkgInstanceKind::Random => threshold,
            DkgInstanceKind::Zero => threshold - 1,
        };
        let coefficient_bytes = match checked_mul(physical, element_len) {
            Ok(v) => v,
            Err(e) => {
                proof {
                    lemma_instance_step_bound(kinds@, i as int, threshold as nat, element_len as nat, rl);
                    assert(physical == physical_coefficients(kinds@[i as int], threshold as nat));
                    assert(instances_len(kinds@.take(i + 1), threshold as nat, element_len as nat, rl)
                        <= instances_len(kinds@, threshold as nat, element_len as nat, rl));
                }
                return Err(e);
            },
        };
        len = match checked_add(len, coefficient_bytes) {
            Ok(v) => v,
            Err(e) => {
                proof {
                    assert(physical == physical_coefficients(kinds@[i as int], threshold as nat));
                    lemma_instance_step_bound(kinds@, i as int, threshold as nat, element_len as nat, rl);
                    assert(instances_len(kinds@.take(i + 1), threshold as nat, element_len as nat, rl)
                        <= instances_len(kinds@, threshold as nat, element_len as nat, rl));
                }
                return Err(e);
            },
        };
        len = match checked_add(len, receivers_bytes) {
            Ok(v) => v,
            Err(e) => {
                proof {
                    lemma_instance_step_bound(kinds@, i as int, threshold as nat, element_len as nat, rl);
                    assert(instances_len(kinds@.take(i + 1), threshold as nat, element_len as nat, rl)
                        <= instances_len(kinds@, threshold as nat, element_len as nat, rl));
                }
                return Err(e);
            },
        };
        i = i + 1;
    }
    proof {
        assert(kinds@.take(kinds@.len() as int) =~= kinds@);
    }
    Ok(len)
}

/// Longer instance lists need more bytes.
pub proof fn lemma_instances_len_monotone(
    kinds: Seq<DkgInstanceKind>,
    threshold: nat,
    element_len: nat,
    rl: nat,
)
    ensures
        forall|k: int|
            0 <= k <= kinds.len() ==> #[trigger] instances_len(
                kinds.take(k),
                threshold,
                element_len,
                rl,
            ) <= instances_len(kinds, threshold, element_len, rl),
    decreases kinds.len(),
{
    if kinds.len() > 0 {
        let init = kinds.drop_last();
        lemma_instances_len_monotone(init, threshold, element_len, rl);
        assert forall|k: int| 0 <= k <= kinds.len() implies #[trigger] instances_len(
            kinds.take(k),
            threshold,
            element_len,
            rl,
        ) <= instances_len(kinds, threshold, element_len, rl) by {
            if k < kinds.len() {
                assert(kinds.take(k) =~= init.take(k));
            } else {
                assert(kinds.take(k) =~= kinds);
            }
        }
    }
}

/// A nonempty instance list needs at least one full receiver block.
proof fn lemma_instances_len_positive(
    kinds: Seq<DkgInstanceKind>,
    threshold: nat,
    element_len: nat,
    rl: nat,
)
    requires
        kinds.len() > 0,
    ensures
        instances_len(kinds, threshold, element_len, rl) >= rl + 32,
    decreases kinds.len(),
{
}

/// The bytes of instance `i` and everything before fit in the total.
proof fn lemma_instance_step_bound(
    kinds: Seq<DkgInstanceKind>,
    i: int,
    threshold: nat,
    element_len: nat,
    rl: nat,
)
    requires
        0 <= i < kinds.len(),
    ensures
        instances_len(kinds.take(i + 1), threshold, element_len, rl) == instances_len(
            kinds.take(i),
            threshold,
            element_len,
            rl,
        ) + 32 + physical_coefficients(kinds[i], threshold) * element_len + rl,
        physical_coefficients(kinds[i], threshold) * element_len <= instances_len(
            kinds.take(i + 1),
            threshold,
            element_len,
            rl,
        ),
{
    assert(kinds.take(i + 1).drop_last() =~= kinds.take(i));
}

/// A receiver slot names the registry receiver, with the registered key.
pub open spec fn receiver_slot_matches<G: GoldenGroup>(
    r: DealerMessageReceiver<G>,
    entry: (ParticipantIndex, G::Element),
) -> bool {
    r.participant@ == entry.0@ && G::dlog(r.public_key) == G::dlog(entry.1)
}

/// One instance has the configured shape: `threshold` coefficients (an
/// identity constant for a zero instance), one slot per receiver in
/// registry order, and the effective message derived from its nonce.
pub open spec fn instance_shape_ok<G: GoldenGroup>(
    config: DkgConfig<G>,
    dealer: ParticipantIndex,
    others: Seq<(ParticipantIndex, G::Element)>,
    position: int,
    kind: DkgInstanceKind,
    inst: DealerMessageInstance<G>,
) -> bool {
    &&& inst.commitment_coefficients@.len() == config.threshold_spec()
    &&& inst.receivers@.len() == others.len()
    &&& inst.effective_message.0@ == sha256_spec(
        effective_message_preimage(
            config.root_spec(),
            dealer@,
            position as usize,
            kind,
            inst.nonce.0@,
        ),
    )
    &&& (kind == DkgInstanceKind::Zero ==> G::dlog(inst.commitment_coefficients@[0]) == 0)
    &&& forall|k: int|
        0 <= k < others.len() ==> receiver_slot_matches::<G>(#[trigger] inst.receivers@[k], others[k])
}

/// The message has the configured shape: a registered dealer and one
/// well-shaped instance per configured kind.
#[verifier::opaque]
pub open spec fn message_shape_ok<G: GoldenGroup>(
    config: DkgConfig<G>,
    message: DealerMessageData<G>,
) -> bool {
    let entries = config.registry_spec();
    let others = receivers_of(entries, message.dealer@);
    &&& exists|k: int| 0 <= k < entries.len() && entries[k].0@ == message.dealer@
    &&& message.instances@.len() == config.instances_spec().len()
    &&& forall|i: int|
        0 <= i < message.instances@.len() ==> instance_shape_ok::<G>(
            config,
            message.dealer,
            others,
            i,
            config.instances_spec()[i],
            #[trigger] message.instances@[i],
        )
}

/// Whether each receiver slot names the registry receiver of the same
/// position (registry order, dealer skipped) with the registered key.
fn receivers_match<G: GoldenGroup>(
    entries: &Vec<(ParticipantIndex, G::Element)>,
    dealer: ParticipantIndex,
    receivers: &Vec<DealerMessageReceiver<G>>,
) -> (ok: bool)
    requires
        forall|t: int| 0 <= t < entries@.len() ==> G::element_wf(#[trigger] entries@[t].1),
        forall|t: int| 0 <= t < receivers@.len() ==> message_receiver_wf::<G>(#[trigger] receivers@[t]),
        receivers@.len() == receivers_of(entries@, dealer@).len(),
    ensures
        ok == forall|k: int|
            0 <= k < receivers@.len() ==> receiver_slot_matches::<G>(
                #[trigger] receivers@[k],
                receivers_of(entries@, dealer@)[k],
            ),
{
    let ghost others = receivers_of(entries@, dealer@);
    proof {
        crate::dealer_proof::lemma_receiver_scan_ends(entries@, dealer@);
    }
    let count = receivers.len();
    let mut j: usize = 0;
    let mut k: usize = 0;
    while j < entries.len()
        invariant
            j <= entries@.len(),
            others == receivers_of(entries@, dealer@),
            receivers@.len() == others.len(),
            receivers@.len() == count,
            k == receivers_of(entries@.take(j as int), dealer@).len(),
            receivers_of(entries@.take(j as int), dealer@) == others.take(k as int),
            forall|t: int| 0 <= t < entries@.len() ==> G::element_wf(#[trigger] entries@[t].1),
            forall|t: int| 0 <= t < receivers@.len() ==> message_receiver_wf::<G>(#[trigger] receivers@[t]),
            forall|kk: int|
                0 <= kk < k ==> receiver_slot_matches::<G>(#[trigger] receivers@[kk], others[kk]),
        decreases entries@.len() - j,
    {
        proof {
            crate::dealer_proof::lemma_receiver_scan_step(entries@, dealer@, j as int, k as int);
        }
        let participant = entries[j].0;
        if participant.get() != dealer.get() {
            let receiver = &receivers[k];
            proof {
                assert(message_receiver_wf::<G>(receivers@[k as int]));
            }
            if receiver.participant.get() != participant.get() || !G::element_eq(
                &receiver.public_key,
                &entries[j].1,
            ) {
                proof {
                    assert(!receiver_slot_matches::<G>(receivers@[k as int], others[k as int]));
                }
                return false;
            }
            k = k + 1;
        }
        j = j + 1;
    }
    proof {
        assert(entries@.take(entries@.len() as int) =~= entries@);
        assert(others.take(others.len() as int) =~= others);
    }
    true
}

/// What a well-shaped message says of one of its instances.
pub proof fn lemma_shape_instance<G: GoldenGroup>(
    config: DkgConfig<G>,
    message: DealerMessageData<G>,
    i: int,
)
    requires
        message_shape_ok(config, message),
        0 <= i < message.instances@.len(),
    ensures
        message.instances@.len() == config.instances_spec().len(),
        exists|k: int|
            0 <= k < config.registry_spec().len() && config.registry_spec()[k].0@
                == message.dealer@,
        instance_shape_ok::<G>(
            config,
            message.dealer,
            receivers_of(config.registry_spec(), message.dealer@),
            i,
            config.instances_spec()[i],
            message.instances@[i],
        ),
{
    reveal(message_shape_ok);
}

/// Every instance has `threshold` coefficients and one slot per
/// non-dealer participant.
pub open spec fn message_counts_ok<G: GoldenGroup>(
    config: DkgConfig<G>,
    message: DealerMessageData<G>,
) -> bool {
    &&& message.instances@.len() == config.instances_spec().len()
    &&& forall|i: int|
        0 <= i < message.instances@.len() ==> (#[trigger] message.instances@[i]).commitment_coefficients@.len()
            == config.threshold_spec() && message.instances@[i].receivers@.len()
            == config.registry_spec().len() - 1
}

/// A well-shaped message has the configured counts.
pub proof fn lemma_shape_counts<G: GoldenGroup>(config: DkgConfig<G>, message: DealerMessageData<G>)
    requires
        message_shape_ok(config, message),
        strictly_increasing(config.registry_spec()),
    ensures
        message_counts_ok(config, message),
{
    reveal(message_shape_ok);
    crate::dealer_proof::lemma_receivers_of_len(config.registry_spec(), message.dealer@);
    assert forall|i: int| 0 <= i < message.instances@.len() implies (#[trigger] message.instances@[
        i
    ]).commitment_coefficients@.len() == config.threshold_spec() && message.instances@[i].receivers@.len()
        == config.registry_spec().len() - 1 by {
        assert(instance_shape_ok::<G>(
            config,
            message.dealer,
            receivers_of(config.registry_spec(), message.dealer@),
            i,
            config.instances_spec()[i],
            message.instances@[i],
        ));
    }
}

/// What a valid message says of one of its instances.
pub proof fn lemma_wf_instance<G: GoldenGroup>(message: DealerMessageData<G>, i: int)
    requires
        message_wf(message),
        0 <= i < message.instances@.len(),
    ensures
        message_instance_wf::<G>(message.instances@[i]),
{
    reveal(message_wf);
}

/// Check the message against the configuration's shape; any mismatch is
/// `ProofGenerationFailed`.
pub fn validate_shape<G: GoldenGroup>(config: &DkgConfig<G>, message: &DealerMessageData<G>) -> (result:
    Result<(), Error>)
    requires
        message_wf(*message),
    ensures
        result is Ok <==> message_shape_ok(*config, *message),
        result is Err ==> result == Err::<(), Error>(Error::ProofGenerationFailed),
{
    config.check_invariant();
    let registry = config.registry();
    let entries = registry.entries();
    let dealer = message.dealer;
    match registry.public_key(dealer) {
        Ok(_) => {},
        Err(_) => {
            proof {
                reveal(message_shape_ok);
            }
            return Err(Error::ProofGenerationFailed);
        },
    }
    let ghost others = receivers_of(entries@, dealer@);
    proof {
        crate::dealer_proof::lemma_receivers_of_len(entries@, dealer@);
    }
    let kinds = config.instances();
    if message.instances.len() != kinds.len() {
        proof {
            reveal(message_shape_ok);
        }
        return Err(Error::ProofGenerationFailed);
    }
    let threshold = config.threshold();
    let receiver_count = registry.len() - 1;
    let root = config.root();
    let mut i: usize = 0;
    while i < kinds.len()
        invariant
            i <= kinds@.len(),
            kinds@ == config.instances_spec(),
            message.instances@.len() == kinds@.len(),
            entries@ == config.registry_spec(),
            others == receivers_of(entries@, dealer@),
            others.len() == receiver_count,
            dealer == message.dealer,
            threshold == config.threshold_spec(),
            threshold >= 1,
            root@ == config.root_spec(),
            message_wf(*message),
            forall|t: int| 0 <= t < entries@.len() ==> G::element_wf(#[trigger] entries@[t].1),
            forall|a: int|
                0 <= a < i ==> instance_shape_ok::<G>(
                    *config,
                    dealer,
                    others,
                    a,
                    kinds@[a],
                    #[trigger] message.instances@[a],
                ),
        decreases kinds@.len() - i,
    {
        proof {
            lemma_wf_instance::<G>(*message, i as int);
        }
        let ok = check_instance::<G>(
            config,
            &entries,
            dealer,
            &root,
            threshold,
            receiver_count,
            i,
            kinds[i],
            &message.instances[i],
        );
        if !ok {
            proof {
                reveal(message_shape_ok);
            }
            return Err(Error::ProofGenerationFailed);
        }
        i = i + 1;
    }
    proof {
        reveal(message_shape_ok);
        let k = choose|k: int| 0 <= k < entries@.len() && entries@[k].0@ == dealer@;
    }
    Ok(())
}

/// Whether one instance has the configured shape.
fn check_instance<G: GoldenGroup>(
    config: &DkgConfig<G>,
    entries: &Vec<(ParticipantIndex, G::Element)>,
    dealer: ParticipantIndex,
    root: &TranscriptRoot,
    threshold: usize,
    receiver_count: usize,
    position: usize,
    kind: DkgInstanceKind,
    inst: &DealerMessageInstance<G>,
) -> (ok: bool)
    requires
        message_instance_wf::<G>(*inst),
        entries@ == config.registry_spec(),
        forall|t: int| 0 <= t < entries@.len() ==> G::element_wf(#[trigger] entries@[t].1),
        receivers_of(entries@, dealer@).len() == receiver_count,
        threshold == config.threshold_spec(),
        threshold >= 1,
        root@ == config.root_spec(),
    ensures
        ok == instance_shape_ok::<G>(
            *config,
            dealer,
            receivers_of(entries@, dealer@),
            position as int,
            kind,
            *inst,
        ),
{
    if inst.commitment_coefficients.len() != threshold || inst.receivers.len() != receiver_count {
        return false;
    }
    let expected = crate::main_golden::effective_message(*root, dealer, position, kind, inst.nonce);
    if !crate::wire::bytes_equal(&inst.effective_message.0, &expected.0) {
        return false;
    }
    match kind {
        DkgInstanceKind::Zero => {
            if !G::is_identity(&inst.commitment_coefficients[0]) {
                return false;
            }
        },
        DkgInstanceKind::Random => {},
    }
    receivers_match::<G>(entries, dealer, &inst.receivers)
}

/// Concatenated canonical encodings of group elements.
pub open spec fn elements_bytes<G: GoldenGroup>(es: Seq<G::Element>) -> Seq<u8>
    decreases es.len(),
{
    if es.len() == 0 {
        Seq::empty()
    } else {
        elements_bytes::<G>(es.drop_last()) + G::encode_spec(es.last())
    }
}

/// Concatenated receiver slots: pad commitment, then encrypted share.
pub open spec fn receivers_bytes<G: GoldenGroup>(rs: Seq<DealerMessageReceiver<G>>) -> Seq<u8>
    decreases rs.len(),
{
    if rs.len() == 0 {
        Seq::empty()
    } else {
        receivers_bytes::<G>(rs.drop_last()) + G::encode_spec(rs.last().pad_commitment)
            + protocol_scalar_bytes(rs.last().encrypted_share)
    }
}

/// The coefficients an instance of `kind` puts on the wire: a zero
/// instance omits its identity constant.
pub open spec fn physical_elements<E>(coefficients: Seq<E>, kind: DkgInstanceKind) -> Seq<E> {
    match kind {
        DkgInstanceKind::Random => coefficients,
        DkgInstanceKind::Zero => coefficients.subrange(1, coefficients.len() as int),
    }
}

/// The encoding of one instance: nonce, physical coefficients, receivers.
pub open spec fn instance_bytes<G: GoldenGroup>(
    inst: DealerMessageInstance<G>,
    kind: DkgInstanceKind,
) -> Seq<u8> {
    inst.nonce.0@ + elements_bytes::<G>(physical_elements(inst.commitment_coefficients@, kind))
        + receivers_bytes::<G>(inst.receivers@)
}

/// The encoding of the first `insts.len()` instances.
pub open spec fn instances_bytes<G: GoldenGroup>(
    insts: Seq<DealerMessageInstance<G>>,
    kinds: Seq<DkgInstanceKind>,
) -> Seq<u8>
    decreases insts.len(),
{
    if insts.len() == 0 {
        Seq::empty()
    } else {
        instances_bytes::<G>(insts.drop_last(), kinds) + instance_bytes::<G>(
            insts.last(),
            kinds[insts.len() - 1],
        )
    }
}

/// The fixed header: magic, codec and protocol versions, the length-prefixed
/// curve identifier, the configuration root and the dealer.
pub open spec fn header_bytes<G: GoldenGroup>(config_root: Seq<u8>, dealer: u32) -> Seq<u8> {
    dealer_magic_spec() + u32_be(DEALER_MESSAGE_CODEC_VERSION) + u32_be(PROTOCOL_VERSION) + u64_be(
        G::curve_id_spec().len() as u64,
    ) + G::curve_id_spec() + config_root + u32_be(dealer)
}

/// The canonical encoding of a dealer message with its proof suffix.
pub open spec fn dealer_message_bytes<G: GoldenGroup>(
    config: DkgConfig<G>,
    message: DealerMessageData<G>,
    proof: Seq<u8>,
) -> Seq<u8> {
    header_bytes::<G>(config.root_spec(), message.dealer@) + instances_bytes::<G>(
        message.instances@,
        config.instances_spec(),
    ) + proof
}

/// The outcome of encoding a message for `config`.
pub open spec fn encode_outcome<G: GoldenGroup>(
    config: DkgConfig<G>,
    message: DealerMessageData<G>,
    proof: Seq<u8>,
) -> Result<Seq<u8>, Error> {
    if !message_shape_ok(config, message) {
        Err(Error::ProofGenerationFailed)
    } else if config.registry_spec().len() == 1 && proof.len() != 0 {
        Err(Error::ProofGenerationFailed)
    } else if !prefix_len_fits(config) || prefix_len_spec(config) + proof.len()
        > MAX_DEALER_MESSAGE_BYTES {
        Err(Error::DealerMessageTooLarge)
    } else {
        Ok(dealer_message_bytes(config, message, proof))
    }
}

pub proof fn lemma_elements_bytes_len<G: GoldenGroup>(es: Seq<G::Element>)
    requires
        forall|i: int| 0 <= i < es.len() ==> G::element_wf(#[trigger] es[i]),
    ensures
        elements_bytes::<G>(es).len() == es.len() * G::element_repr_len(),
    decreases es.len(),
{
    if es.len() > 0 {
        lemma_elements_bytes_len::<G>(es.drop_last());
        G::lemma_group_model(es.last());
        assert((es.len() - 1) * G::element_repr_len() + G::element_repr_len() == es.len()
            * G::element_repr_len()) by (nonlinear_arith);
    }
}

pub proof fn lemma_protocol_scalar_len<S: GoldenScalar>(s: S)
    requires
        s.wf(),
    ensures
        protocol_scalar_bytes(s).len() == S::repr_len(),
{
    S::lemma_scalar_model(s, s);
}

pub proof fn lemma_receivers_bytes_len<G: GoldenGroup>(rs: Seq<DealerMessageReceiver<G>>)
    requires
        forall|i: int| 0 <= i < rs.len() ==> message_receiver_wf::<G>(#[trigger] rs[i]),
    ensures
        receivers_bytes::<G>(rs).len() == rs.len() * (G::element_repr_len()
            + <G::Scalar as GoldenScalar>::repr_len()),
    decreases rs.len(),
{
    if rs.len() > 0 {
        lemma_receivers_bytes_len::<G>(rs.drop_last());
        G::lemma_group_model(rs.last().pad_commitment);
        lemma_protocol_scalar_len(rs.last().encrypted_share);
        let w = G::element_repr_len() + <G::Scalar as GoldenScalar>::repr_len();
        assert((rs.len() - 1) * w + w == rs.len() * w) by (nonlinear_arith);
    }
}

/// A message with the configured counts encodes to exactly the prefix
/// length.
pub proof fn lemma_instances_bytes_len<G: GoldenGroup>(
    config: DkgConfig<G>,
    message: DealerMessageData<G>,
    n: nat,
)
    requires
        message_counts_ok(config, message),
        message_wf(message),
        n <= message.instances@.len(),
        config.threshold_spec() >= 1,
        config.registry_spec().len() >= 1,
    ensures
        instances_bytes::<G>(message.instances@.take(n as int), config.instances_spec()).len()
            == instances_len(
            config.instances_spec().take(n as int),
            config.threshold_spec() as nat,
            G::element_repr_len(),
            ((config.registry_spec().len() - 1) * (G::element_repr_len()
                + <G::Scalar as GoldenScalar>::repr_len())) as nat,
        ),
    decreases n,
{
    let kinds = config.instances_spec();
    let w = G::element_repr_len() + <G::Scalar as GoldenScalar>::repr_len();
    let rl = ((config.registry_spec().len() - 1) * w) as nat;
    if n > 0 {
        lemma_instances_bytes_len::<G>(config, message, (n - 1) as nat);
        let insts = message.instances@.take(n as int);
        assert(insts.drop_last() =~= message.instances@.take(n - 1));
        assert(kinds.take(n as int).drop_last() =~= kinds.take(n - 1));
        let inst = message.instances@[n - 1];
        let kind = kinds[n - 1];
        lemma_wf_instance::<G>(message, n - 1);
        assert(inst.commitment_coefficients@.len() == config.threshold_spec());
        let phys = physical_elements(inst.commitment_coefficients@, kind);
        assert forall|i: int| 0 <= i < phys.len() implies G::element_wf(#[trigger] phys[i]) by {
            if kind == DkgInstanceKind::Zero {
                assert(phys[i] == inst.commitment_coefficients@[i + 1]);
            } else {
                assert(phys[i] == inst.commitment_coefficients@[i]);
            }
        }
        lemma_elements_bytes_len::<G>(phys);
        lemma_receivers_bytes_len::<G>(inst.receivers@);
        assert(phys.len() == physical_coefficients(kind, config.threshold_spec() as nat));
        assert(inst.receivers@.len() * w == rl);
    }
}

/// Append the canonical encodings of `elements` to `out`.
fn append_elements<G: GoldenGroup>(out: &mut Vec<u8>, elements: &[G::Element], from: usize)
    requires
        from <= elements@.len(),
        forall|i: int| 0 <= i < elements@.len() ==> G::element_wf(#[trigger] elements@[i]),
    ensures
        final(out)@ == old(out)@ + elements_bytes::<G>(
            elements@.subrange(from as int, elements@.len() as int),
        ),
{
    let ghost start = out@;
    let mut i: usize = from;
    while i < elements.len()
        invariant
            from <= i <= elements@.len(),
            forall|t: int| 0 <= t < elements@.len() ==> G::element_wf(#[trigger] elements@[t]),
            out@ == start + elements_bytes::<G>(elements@.subrange(from as int, i as int)),
        decreases elements@.len() - i,
    {
        let encoded = G::encode_element(&elements[i]);
        crate::bytes::append_bytes(out, encoded.as_slice());
        proof {
            let next = elements@.subrange(from as int, i + 1);
            assert(next.drop_last() =~= elements@.subrange(from as int, i as int));
        }
        i = i + 1;
    }
}

/// Append the receiver slots to `out`.
fn append_receivers<G: GoldenGroup>(out: &mut Vec<u8>, receivers: &Vec<DealerMessageReceiver<G>>)
    requires
        forall|i: int| 0 <= i < receivers@.len() ==> message_receiver_wf::<G>(#[trigger] receivers@[i]),
    ensures
        final(out)@ == old(out)@ + receivers_bytes::<G>(receivers@),
{
    let ghost start = out@;
    let mut i: usize = 0;
    while i < receivers.len()
        invariant
            i <= receivers@.len(),
            forall|t: int| 0 <= t < receivers@.len() ==> message_receiver_wf::<G>(#[trigger] receivers@[t]),
            out@ == start + receivers_bytes::<G>(receivers@.take(i as int)),
        decreases receivers@.len() - i,
    {
        proof {
            assert(message_receiver_wf::<G>(receivers@[i as int]));
        }
        let pad = G::encode_element(&receivers[i].pad_commitment);
        crate::bytes::append_bytes(out, pad.as_slice());
        let share = encode_protocol_scalar(&receivers[i].encrypted_share);
        crate::bytes::append_bytes(out, share.as_slice());
        proof {
            let next = receivers@.take(i + 1);
            assert(next.drop_last() =~= receivers@.take(i as int));
        }
        i = i + 1;
    }
    assert(receivers@.take(receivers@.len() as int) =~= receivers@);
}

/// The fixed header of a dealer message for `config` and `dealer`.
fn encode_header<G: GoldenGroup>(config: &DkgConfig<G>, dealer: ParticipantIndex) -> (encoded: Vec<u8>)
    ensures
        encoded@ == header_bytes::<G>(config.root_spec(), dealer@),
        config.root_spec().len() == 32,
{
    let curve_id = G::curve_id();
    let root = config.root();
    let mut encoded: Vec<u8> = Vec::new();
    crate::bytes::append_bytes(&mut encoded, "golden-dkg-dealer".as_bytes());
    crate::bytes::append_bytes(&mut encoded, &u32_to_be_bytes(DEALER_MESSAGE_CODEC_VERSION));
    crate::bytes::append_bytes(&mut encoded, &u32_to_be_bytes(PROTOCOL_VERSION));
    crate::bytes::append_bytes(&mut encoded, &u64_to_be_bytes(curve_id.len() as u64));
    crate::bytes::append_bytes(&mut encoded, curve_id);
    crate::bytes::append_bytes(&mut encoded, &root);
    crate::bytes::append_bytes(&mut encoded, &u32_to_be_bytes(dealer.get()));
    assert(encoded@ =~= header_bytes::<G>(config.root_spec(), dealer@));
    encoded
}

/// The configuration-shaped prefix of a well-shaped message: header and
/// instances.
fn encode_prefix<G: GoldenGroup>(config: &DkgConfig<G>, message: &DealerMessageData<G>) -> (encoded:
    Vec<u8>)
    requires
        message_wf(*message),
        message_shape_ok(*config, *message),
    ensures
        encoded@ == header_bytes::<G>(config.root_spec(), message.dealer@) + instances_bytes::<G>(
            message.instances@,
            config.instances_spec(),
        ),
        encoded@.len() == prefix_len_spec(*config),
{
    config.check_invariant();
    let mut encoded = encode_header::<G>(config, message.dealer);
    let ghost header = encoded@;
    let kinds = config.instances();
    proof {
        lemma_shape_counts::<G>(*config, *message);
    }
    let mut i: usize = 0;
    while i < message.instances.len()
        invariant
            i <= message.instances@.len(),
            message.instances@.len() == kinds@.len(),
            kinds@ == config.instances_spec(),
            message_wf(*message),
            message_counts_ok(*config, *message),
            config.threshold_spec() >= 1,
            encoded@ == header + instances_bytes::<G>(message.instances@.take(i as int), kinds@),
        decreases message.instances@.len() - i,
    {
        let inst = &message.instances[i];
        proof {
            lemma_wf_instance::<G>(*message, i as int);
            assert(inst.commitment_coefficients@.len() == config.threshold_spec());
        }
        crate::bytes::append_bytes(&mut encoded, &inst.nonce.0);
        let from: usize = match kinds[i] {
            DkgInstanceKind::Random => 0,
            DkgInstanceKind::Zero => 1,
        };
        append_elements::<G>(&mut encoded, inst.commitment_coefficients.as_slice(), from);
        append_receivers::<G>(&mut encoded, &inst.receivers);
        proof {
            let cs = inst.commitment_coefficients@;
            assert(cs.subrange(0, cs.len() as int) =~= cs);
            let next = message.instances@.take(i + 1);
            assert(next.drop_last() =~= message.instances@.take(i as int));
        }
        i = i + 1;
    }
    proof {
        assert(message.instances@.take(message.instances@.len() as int) =~= message.instances@);
        lemma_prefix_bytes_len::<G>(*config, *message);
    }
    encoded
}

/// The header has its fixed length.
pub proof fn lemma_header_len<G: GoldenGroup>(root: Seq<u8>, dealer: u32)
    requires
        root.len() == 32,
    ensures
        header_bytes::<G>(root, dealer).len() == header_len(G::curve_id_spec().len()),
{
    reveal_strlit("golden-dkg-dealer");
    assert(vstd::string::is_ascii("golden-dkg-dealer"));
    vstd::string::is_ascii_spec_bytes("golden-dkg-dealer");
    assert(dealer_magic_spec().len() == 17);
}

/// The encoded prefix of a message with the configured counts has the
/// prefix length.
pub proof fn lemma_prefix_bytes_len<G: GoldenGroup>(config: DkgConfig<G>, message: DealerMessageData<G>)
    requires
        message_counts_ok(config, message),
        message_wf(message),
        config.threshold_spec() >= 1,
        config.registry_spec().len() >= 1,
        config.root_spec().len() == 32,
    ensures
        (header_bytes::<G>(config.root_spec(), message.dealer@) + instances_bytes::<G>(
            message.instances@,
            config.instances_spec(),
        )).len() == prefix_len_spec(config),
{
    lemma_header_len::<G>(config.root_spec(), message.dealer@);
    lemma_instances_bytes_len::<G>(config, message, message.instances@.len());
    assert(message.instances@.take(message.instances@.len() as int) =~= message.instances@);
    assert(config.instances_spec().take(config.instances_spec().len() as int)
        =~= config.instances_spec());
}

/// Encode one configuration-shaped dealer message followed by its opaque
/// proof suffix.
pub fn encode_dealer_message<G: GoldenGroup>(
    config: &DkgConfig<G>,
    message: &DealerMessageData<G>,
    proof: &[u8],
) -> (result: Result<Vec<u8>, Error>)
    requires
        message_wf(*message),
    ensures
        match encode_outcome(*config, *message, proof@) {
            Ok(bytes) => result matches Ok(v) && v@ == bytes,
            Err(e) => result == Err::<Vec<u8>, Error>(e),
        },
{
    match validate_shape(config, message) {
        Ok(()) => {},
        Err(e) => return Err(e),
    }
    config.check_invariant();
    if config.registry().len() == 1 && proof.len() != 0 {
        return Err(Error::ProofGenerationFailed);
    }
    let prefix_len = match encoded_prefix_len::<G>(config) {
        Ok(v) => v,
        Err(e) => return Err(e),
    };
    let total_len = match checked_add(prefix_len, proof.len()) {
        Ok(v) => v,
        Err(e) => return Err(e),
    };
    if total_len > MAX_DEALER_MESSAGE_BYTES {
        return Err(Error::DealerMessageTooLarge);
    }
    let mut encoded = encode_prefix::<G>(config, message);
    crate::bytes::append_bytes(&mut encoded, proof);
    if encoded.len() != total_len {
        return Err(Error::ProofGenerationFailed);
    }
    Ok(encoded)
}

/// The key registered for participant `dealer` among `entries`.
pub open spec fn registered_key<E>(entries: Seq<(ParticipantIndex, E)>, dealer: u32) -> E {
    entries[choose|k: int| 0 <= k < entries.len() && entries[k].0@ == dealer].1
}

/// In a registry ordered by index, the entry of a participant holds its
/// registered key.
pub proof fn lemma_registered_key<E>(
    entries: Seq<(ParticipantIndex, E)>,
    participant: ParticipantIndex,
    key: E,
)
    requires
        strictly_increasing(entries),
        entries.contains((participant, key)),
    ensures
        registered_key(entries, participant@) == key,
{
    let kd = choose|k: int| 0 <= k < entries.len() && entries[k] == (participant, key);
    assert(entries[kd].0@ == participant@);
    let kc = choose|k: int| 0 <= k < entries.len() && entries[k].0@ == participant@;
    if kc < kd {
        assert(entries[kc].0@ < entries[kd].0@);
    } else if kc > kd {
        assert(entries[kd].0@ < entries[kc].0@);
    }
}

/// Transcript bytes of the commitment coefficients of an instance.
pub open spec fn root_coefficients_bytes<G: GoldenGroup>(cs: Seq<G::Element>) -> Seq<u8>
    decreases cs.len(),
{
    if cs.len() == 0 {
        Seq::empty()
    } else {
        root_coefficients_bytes::<G>(cs.drop_last()) + frame(
            "commitment-coefficient".spec_bytes(),
            G::encode_spec(cs.last()),
        )
    }
}

/// Transcript bytes of one receiver slot at `position`.
pub open spec fn root_receiver_bytes<G: GoldenGroup>(
    position: int,
    r: DealerMessageReceiver<G>,
) -> Seq<u8> {
    frame("receiver-position".spec_bytes(), u64_be(position as u64)) + frame(
        "receiver".spec_bytes(),
        u32_be(r.participant@),
    ) + frame("receiver-public-key".spec_bytes(), G::encode_spec(r.public_key)) + frame(
        "share-commitment".spec_bytes(),
        G::encode_spec(r.share_commitment),
    ) + frame("pad-commitment".spec_bytes(), G::encode_spec(r.pad_commitment)) + frame(
        "encrypted-share".spec_bytes(),
        protocol_scalar_bytes(r.encrypted_share),
    )
}

/// Transcript bytes of the receiver slots of an instance.
pub open spec fn root_receivers_bytes<G: GoldenGroup>(rs: Seq<DealerMessageReceiver<G>>) -> Seq<u8>
    decreases rs.len(),
{
    if rs.len() == 0 {
        Seq::empty()
    } else {
        root_receivers_bytes::<G>(rs.drop_last()) + root_receiver_bytes::<G>(
            rs.len() - 1,
            rs.last(),
        )
    }
}

/// Transcript bytes of one instance at `position`.
pub open spec fn root_instance_bytes<G: GoldenGroup>(
    position: int,
    kind: DkgInstanceKind,
    inst: DealerMessageInstance<G>,
) -> Seq<u8> {
    frame("instance-position".spec_bytes(), u64_be(position as u64)) + frame(
        "instance-kind".spec_bytes(),
        u32_be(kind_code(kind) as u32),
    ) + frame("effective-message".spec_bytes(), inst.effective_message.0@) + frame(
        "commitment-coefficient-count".spec_bytes(),
        u64_be(inst.commitment_coefficients@.len() as u64),
    ) + root_coefficients_bytes::<G>(inst.commitment_coefficients@) + frame(
        "receiver-count".spec_bytes(),
        u64_be(inst.receivers@.len() as u64),
    ) + root_receivers_bytes::<G>(inst.receivers@)
}

/// Transcript bytes of the instances.
pub open spec fn root_instances_bytes<G: GoldenGroup>(
    insts: Seq<DealerMessageInstance<G>>,
    kinds: Seq<DkgInstanceKind>,
) -> Seq<u8>
    decreases insts.len(),
{
    if insts.len() == 0 {
        Seq::empty()
    } else {
        root_instances_bytes::<G>(insts.drop_last(), kinds) + root_instance_bytes::<G>(
            insts.len() - 1,
            kinds[insts.len() - 1],
            insts.last(),
        )
    }
}

/// The bytes whose SHA-256 digest is the root of a dealer message's public
/// statement.
#[verifier::opaque]
pub open spec fn dealer_message_root_preimage<G: GoldenGroup>(
    config: DkgConfig<G>,
    message: DealerMessageData<G>,
) -> Seq<u8> {
    transcript_start(
        "golden-dkg/dealer-message-root/v1".spec_bytes(),
        "public-statement".spec_bytes(),
    ) + frame("protocol-version".spec_bytes(), u32_be(PROTOCOL_VERSION)) + frame(
        "configuration-root".spec_bytes(),
        config.root_spec(),
    ) + frame("dealer".spec_bytes(), u32_be(message.dealer@)) + frame(
        "dealer-public-key".spec_bytes(),
        G::encode_spec(registered_key(config.registry_spec(), message.dealer@)),
    ) + frame("instance-count".spec_bytes(), u64_be(message.instances@.len() as u64))
        + root_instances_bytes::<G>(message.instances@, config.instances_spec())
}

/// Appending pieces one after another appends their concatenation.
proof fn lemma_append_pieces(s: Seq<u8>, pieces: Seq<Seq<u8>>)
    ensures
        appended(s, pieces) == s + appended(Seq::empty(), pieces),
    decreases pieces.len(),
{
    if pieces.len() > 0 {
        lemma_append_pieces(s, pieces.drop_last());
        vstd::seq_lib::lemma_concat_associative(
            s,
            appended(Seq::empty(), pieces.drop_last()),
            pieces.last(),
        );
    } else {
        assert(s + Seq::<u8>::empty() =~= s);
    }
}

/// `s` followed by each of `pieces` in turn.
spec fn appended(s: Seq<u8>, pieces: Seq<Seq<u8>>) -> Seq<u8>
    decreases pieces.len(),
{
    if pieces.len() == 0 {
        s
    } else {
        appended(s, pieces.drop_last()) + pieces.last()
    }
}

fn root_coefficients<G: GoldenGroup>(transcript: &mut TranscriptBuilder, cs: &Vec<G::Element>)
    requires
        forall|i: int| 0 <= i < cs@.len() ==> G::element_wf(#[trigger] cs@[i]),
    ensures
        final(transcript)@ == old(transcript)@ + root_coefficients_bytes::<G>(cs@),
{
    let ghost start = transcript@;
    let mut i: usize = 0;
    while i < cs.len()
        invariant
            i <= cs@.len(),
            forall|t: int| 0 <= t < cs@.len() ==> G::element_wf(#[trigger] cs@[t]),
            transcript@ == start + root_coefficients_bytes::<G>(cs@.take(i as int)),
        decreases cs@.len() - i,
    {
        transcript.element::<G>("commitment-coefficient".as_bytes(), &cs[i]);
        proof {
            assert(cs@.take(i + 1).drop_last() =~= cs@.take(i as int));
            vstd::seq_lib::lemma_concat_associative(
                start,
                root_coefficients_bytes::<G>(cs@.take(i as int)),
                frame("commitment-coefficient".spec_bytes(), G::encode_spec(cs@[i as int])),
            );
        }
        i = i + 1;
    }
    assert(cs@.take(cs@.len() as int) =~= cs@);
}

fn root_receiver<G: GoldenGroup>(
    transcript: &mut TranscriptBuilder,
    position: usize,
    r: &DealerMessageReceiver<G>,
)
    requires
        message_receiver_wf::<G>(*r),
    ensures
        final(transcript)@ == old(transcript)@ + root_receiver_bytes::<G>(position as int, *r),
{
    let ghost s = transcript@;
    transcript.usize("receiver-position".as_bytes(), position);
    transcript.participant("receiver".as_bytes(), r.participant);
    transcript.element::<G>("receiver-public-key".as_bytes(), &r.public_key);
    transcript.element::<G>("share-commitment".as_bytes(), &r.share_commitment);
    transcript.element::<G>("pad-commitment".as_bytes(), &r.pad_commitment);
    let share = encode_protocol_scalar(&r.encrypted_share);
    transcript.bytes("encrypted-share".as_bytes(), share.as_slice());
    proof {
        let pieces = seq![
            frame("receiver-position".spec_bytes(), u64_be(position as u64)),
            frame("receiver".spec_bytes(), u32_be(r.participant@)),
            frame("receiver-public-key".spec_bytes(), G::encode_spec(r.public_key)),
            frame("share-commitment".spec_bytes(), G::encode_spec(r.share_commitment)),
            frame("pad-commitment".spec_bytes(), G::encode_spec(r.pad_commitment)),
            frame("encrypted-share".spec_bytes(), protocol_scalar_bytes(r.encrypted_share)),
        ];
        lemma_append_pieces(s, pieces);
        reveal_with_fuel(appended, 7);
        assert(Seq::<u8>::empty() + pieces[0] =~= pieces[0]);
    }
}

fn root_receivers<G: GoldenGroup>(
    transcript: &mut TranscriptBuilder,
    rs: &Vec<DealerMessageReceiver<G>>,
)
    requires
        forall|i: int| 0 <= i < rs@.len() ==> message_receiver_wf::<G>(#[trigger] rs@[i]),
    ensures
        final(transcript)@ == old(transcript)@ + root_receivers_bytes::<G>(rs@),
{
    let ghost start = transcript@;
    let mut i: usize = 0;
    while i < rs.len()
        invariant
            i <= rs@.len(),
            forall|t: int| 0 <= t < rs@.len() ==> message_receiver_wf::<G>(#[trigger] rs@[t]),
            transcript@ == start + root_receivers_bytes::<G>(rs@.take(i as int)),
        decreases rs@.len() - i,
    {
        proof {
            assert(message_receiver_wf::<G>(rs@[i as int]));
        }
        let ghost before = transcript@;
        root_receiver::<G>(transcript, i, &rs[i]);
        proof {
            assert(rs@.take(i + 1).drop_last() =~= rs@.take(i as int));
            vstd::seq_lib::lemma_concat_associative(
                start,
                root_receivers_bytes::<G>(rs@.take(i as int)),
                root_receiver_bytes::<G>(i as int, rs@[i as int]),
            );
        }
        i = i + 1;
    }
    assert(rs@.take(rs@.len() as int) =~= rs@);
}

#[verifier::spinoff_prover]
#[verifier::rlimit(40)]
fn root_instance<G: GoldenGroup>(
    transcript: &mut TranscriptBuilder,
    position: usize,
    kind: DkgInstanceKind,
    inst: &DealerMessageInstance<G>,
)
    requires
        message_instance_wf::<G>(*inst),
    ensures
        final(transcript)@ == old(transcript)@ + root_instance_bytes::<G>(position as int, kind, *inst),
{
    let ghost start = transcript@;
    transcript.usize("instance-position".as_bytes(), position);
    transcript.u32("instance-kind".as_bytes(), kind.code() as u32);
    transcript.bytes("effective-message".as_bytes(), &inst.effective_message.0);
    transcript.usize("commitment-coefficient-count".as_bytes(), inst.commitment_coefficients.len());
    root_coefficients::<G>(transcript, &inst.commitment_coefficients);
    transcript.usize("receiver-count".as_bytes(), inst.receivers.len());
    root_receivers::<G>(transcript, &inst.receivers);
    assert(transcript@ =~= start + root_instance_bytes::<G>(position as int, kind, *inst));
}

fn root_head<G: GoldenGroup>(
    config_root: &TranscriptRoot,
    dealer: ParticipantIndex,
    dealer_key: &G::Element,
    count: usize,
) -> (transcript: TranscriptBuilder)
    requires
        G::element_wf(*dealer_key),
    ensures
        transcript@ == transcript_start(
            "golden-dkg/dealer-message-root/v1".spec_bytes(),
            "public-statement".spec_bytes(),
        ) + frame("protocol-version".spec_bytes(), u32_be(PROTOCOL_VERSION)) + frame(
            "configuration-root".spec_bytes(),
            config_root@,
        ) + frame("dealer".spec_bytes(), u32_be(dealer@)) + frame(
            "dealer-public-key".spec_bytes(),
            G::encode_spec(*dealer_key),
        ) + frame("instance-count".spec_bytes(), u64_be(count as u64)),
{
    let mut transcript = TranscriptBuilder::with_prefix(
        "golden-dkg/dealer-message-root/v1".as_bytes(),
        "public-statement".as_bytes(),
    );
    transcript.u32("protocol-version".as_bytes(), PROTOCOL_VERSION);
    transcript.bytes("configuration-root".as_bytes(), config_root);
    transcript.participant("dealer".as_bytes(), dealer);
    transcript.element::<G>("dealer-public-key".as_bytes(), dealer_key);
    transcript.usize("instance-count".as_bytes(), count);
    transcript
}

fn root_instances<G: GoldenGroup>(
    transcript: &mut TranscriptBuilder,
    kinds: &[DkgInstanceKind],
    instances: &Vec<DealerMessageInstance<G>>,
)
    requires
        instances@.len() == kinds@.len(),
        forall|i: int|
            0 <= i < instances@.len() ==> message_instance_wf::<G>(#[trigger] instances@[i]),
    ensures
        final(transcript)@ == old(transcript)@ + root_instances_bytes::<G>(instances@, kinds@),
{
    let ghost head = transcript@;
    let mut i: usize = 0;
    while i < instances.len()
        invariant
            i <= instances@.len(),
            instances@.len() == kinds@.len(),
            forall|t: int|
                0 <= t < instances@.len() ==> message_instance_wf::<G>(#[trigger] instances@[t]),
            transcript@ == head + root_instances_bytes::<G>(instances@.take(i as int), kinds@),
        decreases instances@.len() - i,
    {
        proof {
            assert(message_instance_wf::<G>(instances@[i as int]));
        }
        root_instance::<G>(transcript, i, kinds[i], &instances[i]);
        proof {
            assert(instances@.take(i + 1).drop_last() =~= instances@.take(i as int));
            vstd::seq_lib::lemma_concat_associative(
                head,
                root_instances_bytes::<G>(instances@.take(i as int), kinds@),
                root_instance_bytes::<G>(i as int, kinds@[i as int], instances@[i as int]),
            );
        }
        i = i + 1;
    }
    assert(instances@.take(instances@.len() as int) =~= instances@);
}

/// The root of a dealer message's public statement: the configuration
/// root, the dealer and its key, and every instance and receiver slot.
/// A message without the configured shape is `ProofGenerationFailed`.
pub fn dealer_message_root<G: GoldenGroup>(config: &DkgConfig<G>, message: &DealerMessageData<G>) -> (result:
    Result<TranscriptRoot, Error>)
    requires
        message_wf(*message),
    ensures
        !message_shape_ok(*config, *message) ==> result == Err::<TranscriptRoot, Error>(
            Error::ProofGenerationFailed,
        ),
        message_shape_ok(*config, *message) ==> (result matches Ok(root) && root@ == sha256_spec(
            dealer_message_root_preimage(*config, *message),
        )),
{
    match validate_shape(config, message) {
        Ok(()) => {},
        Err(e) => return Err(e),
    }
    config.check_invariant();
    let registry = config.registry();
    let entries = registry.entries();
    let dealer_key = match registry.public_key(message.dealer) {
        Ok(key) => key,
        Err(_) => {
            proof {
                reveal(message_shape_ok);
            }
            return Err(Error::ProofGenerationFailed);
        },
    };
    proof {
        lemma_registered_key(entries@, message.dealer, dealer_key);
        let kd = choose|k: int| 0 <= k < entries@.len() && entries@[k] == (message.dealer, dealer_key);
        assert(G::element_wf(entries@[kd].1));
        reveal(message_wf);
    }
    let root = config.root();
    let kinds = config.instances();
    let mut transcript = root_head::<G>(&root, message.dealer, &dealer_key, message.instances.len());
    proof {
        lemma_shape_counts::<G>(*config, *message);
    }
    root_instances::<G>(&mut transcript, kinds, &message.instances);
    proof {
        reveal(dealer_message_root_preimage);
    }
    Ok(transcript.root())
}

} // verus!
