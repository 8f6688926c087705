//! Parsing and public preflight of opaque dealer broadcasts.
use vstd::prelude::*;
use vstd::string::StringSliceAdditionalSpecFns;

use crate::bytes::{be_to_u32, be_to_u64};
use crate::dealer_message::{
    dealer_magic_spec, decode_protocol_element, decode_protocol_element_spec,
    decode_protocol_scalar, decode_protocol_scalar_spec, encoded_prefix_len, header_len,
    instances_len, physical_coefficients, prefix_len_fits, prefix_len_spec, DealerMessageData,
    DealerMessageInstance, DealerMessageReader, DealerMessageReceiver, MAX_DEALER_MESSAGE_BYTES,
};
use crate::dealer_message::dealer_message_root_preimage;
use crate::dealer_proof::{receivers_of, DealerProofStatement};
use crate::message_statement::{
    flat_coefficients, flat_encrypted_shares, flat_messages, flat_pad_commitments,
    flat_share_commitments,
};
use crate::dkg::strictly_increasing;
use crate::dkg::{DealerMessageNonce, DkgConfig, DkgInstanceKind, EvrfMessage};
use crate::transcript::TranscriptRoot;
use crate::error::DealerMessageError;
use crate::feldman::FeldmanCommitment;
use crate::group::{GoldenGroup, GoldenScalar};
use crate::main_golden::effective_message_preimage;
use crate::participant::{participant_from_raw, ParticipantIndex};
use crate::shamir::poly_value;
use crate::transcript::sha256_spec;

verus! {

/// Width of one receiver slot: a pad commitment and an encrypted share.
pub open spec fn slot_width<G: GoldenGroup>() -> nat {
    G::element_repr_len() + <G::Scalar as GoldenScalar>::repr_len()
}

/// Bytes of all receiver slots of one instance.
pub open spec fn receivers_width<G: GoldenGroup>(config: DkgConfig<G>) -> nat {
    ((config.registry_spec().len() - 1) * slot_width::<G>()) as nat
}

/// Offset of instance `i` in an encoded message.
pub open spec fn instance_offset<G: GoldenGroup>(config: DkgConfig<G>, i: int) -> int {
    (header_len(G::curve_id_spec().len()) + instances_len(
        config.instances_spec().take(i),
        config.threshold_spec() as nat,
        G::element_repr_len(),
        receivers_width(config),
    )) as int
}

/// Number of physical coefficients of instance `i`.
pub open spec fn physical_count<G: GoldenGroup>(config: DkgConfig<G>, i: int) -> nat {
    physical_coefficients(config.instances_spec()[i], config.threshold_spec() as nat)
}

/// Offset of physical coefficient `j` of instance `i`.
pub open spec fn coefficient_offset<G: GoldenGroup>(config: DkgConfig<G>, i: int, j: int) -> int {
    instance_offset(config, i) + 32 + j * G::element_repr_len()
}

/// Offset of receiver slot `k` of instance `i`.
pub open spec fn slot_offset<G: GoldenGroup>(config: DkgConfig<G>, i: int, k: int) -> int {
    coefficient_offset(config, i, physical_count(config, i) as int) + k * slot_width::<G>()
}

/// The decoded physical coefficient `j` of instance `i`, if canonical.
pub open spec fn decoded_coefficient<G: GoldenGroup>(
    config: DkgConfig<G>,
    bytes: Seq<u8>,
    i: int,
    j: int,
) -> Option<G::Element> {
    let off = coefficient_offset(config, i, j);
    decode_protocol_element_spec::<G>(bytes.subrange(off, off + G::element_repr_len()))
}

/// Every physical coefficient of instance `i` decodes.
pub open spec fn coefficients_decode<G: GoldenGroup>(
    config: DkgConfig<G>,
    bytes: Seq<u8>,
    i: int,
) -> bool {
    forall|j: int|
        0 <= j < physical_count(config, i) ==> (#[trigger] decoded_coefficient(config, bytes, i, j))
            is Some
}

/// Logical coefficient `c` of instance `i`: a zero instance starts with
/// the identity, followed by its physical coefficients.
pub open spec fn logical_coefficient<G: GoldenGroup>(
    config: DkgConfig<G>,
    bytes: Seq<u8>,
    i: int,
    c: int,
) -> G::Element {
    if config.instances_spec()[i] == DkgInstanceKind::Zero {
        if c == 0 {
            G::identity_spec()
        } else {
            decoded_coefficient(config, bytes, i, c - 1)->Some_0
        }
    } else {
        decoded_coefficient(config, bytes, i, c)->Some_0
    }
}

/// Logical coefficients of instance `i`.
pub open spec fn logical_coefficients<G: GoldenGroup>(
    config: DkgConfig<G>,
    bytes: Seq<u8>,
    i: int,
) -> Seq<G::Element> {
    Seq::new(config.threshold_spec() as nat, |c: int| logical_coefficient(config, bytes, i, c))
}

/// The public key share the commitment of instance `i` expects for `x`.
pub open spec fn expected_share<G: GoldenGroup>(
    config: DkgConfig<G>,
    bytes: Seq<u8>,
    i: int,
    x: int,
) -> int {
    poly_value(
        crate::feldman::dlogs_of::<G>(logical_coefficients(config, bytes, i)),
        x,
    ) % (<G::Scalar as GoldenScalar>::field_order() as int)
}

/// The decoded pad commitment of receiver slot `k` of instance `i`.
pub open spec fn decoded_pad<G: GoldenGroup>(
    config: DkgConfig<G>,
    bytes: Seq<u8>,
    i: int,
    k: int,
) -> Option<G::Element> {
    let off = slot_offset(config, i, k);
    decode_protocol_element_spec::<G>(bytes.subrange(off, off + G::element_repr_len()))
}

/// The decoded encrypted share of receiver slot `k` of instance `i`.
pub open spec fn decoded_share<G: GoldenGroup>(
    config: DkgConfig<G>,
    bytes: Seq<u8>,
    i: int,
    k: int,
) -> Option<G::Scalar> {
    let off = slot_offset(config, i, k) + G::element_repr_len();
    decode_protocol_scalar_spec::<G::Scalar>(
        bytes.subrange(off, off + <G::Scalar as GoldenScalar>::repr_len()),
    )
}

/// Why receiver slot `k` of instance `i` is rejected, if it is: an
/// undecodable pad or share is malformed; an identity pad, a receiver
/// without an interpolation point, or a share that does not open the
/// commitment plus pad breaks the public relations.
pub open spec fn slot_error<G: GoldenGroup>(
    config: DkgConfig<G>,
    dealer: u32,
    bytes: Seq<u8>,
    i: int,
    k: int,
) -> Option<DealerMessageError> {
    let receiver = receivers_of(config.registry_spec(), dealer)[k].0;
    let order = <G::Scalar as GoldenScalar>::field_order() as int;
    match decoded_pad(config, bytes, i, k) {
        None => Some(DealerMessageError::Malformed),
        Some(pad) => if G::dlog(pad) == 0 {
            Some(DealerMessageError::InvalidPublicRelations)
        } else {
            match decoded_share(config, bytes, i, k) {
                None => Some(DealerMessageError::Malformed),
                Some(share) => if !<G::Scalar as GoldenScalar>::from_u64_succeeds(
                    receiver@ as u64,
                ) {
                    Some(DealerMessageError::InvalidPublicRelations)
                } else if share.value() != (expected_share(config, bytes, i, receiver@ as int)
                    + G::dlog(pad)) % order {
                    Some(DealerMessageError::InvalidPublicRelations)
                } else {
                    None
                },
            }
        },
    }
}

/// The first rejected receiver slot of instance `i` from slot `from` on.
pub open spec fn slots_error<G: GoldenGroup>(
    config: DkgConfig<G>,
    dealer: u32,
    bytes: Seq<u8>,
    i: int,
    from: int,
) -> Option<DealerMessageError>
    decreases config.registry_spec().len() - 1 - from,
{
    if from >= config.registry_spec().len() - 1 || from < 0 {
        None
    } else {
        match slot_error(config, dealer, bytes, i, from) {
            Some(e) => Some(e),
            None => slots_error(config, dealer, bytes, i, from + 1),
        }
    }
}

/// Why instance `i` is rejected, if it is.
pub open spec fn instance_error<G: GoldenGroup>(
    config: DkgConfig<G>,
    dealer: u32,
    bytes: Seq<u8>,
    i: int,
) -> Option<DealerMessageError> {
    if !coefficients_decode(config, bytes, i) {
        Some(DealerMessageError::Malformed)
    } else {
        slots_error(config, dealer, bytes, i, 0)
    }
}

/// The first rejected instance from instance `from` on.
pub open spec fn body_error<G: GoldenGroup>(
    config: DkgConfig<G>,
    dealer: u32,
    bytes: Seq<u8>,
    from: int,
) -> Option<DealerMessageError>
    decreases config.instances_spec().len() - from,
{
    if from >= config.instances_spec().len() || from < 0 {
        None
    } else {
        match instance_error(config, dealer, bytes, from) {
            Some(e) => Some(e),
            None => body_error(config, dealer, bytes, from + 1),
        }
    }
}

/// The header up to the curve identifier is the expected one.
#[verifier::opaque]
pub open spec fn header_fields_ok<G: GoldenGroup>(bytes: Seq<u8>) -> bool {
    let cl = G::curve_id_spec().len() as int;
    &&& bytes.len() >= 33 + cl
    &&& bytes.subrange(0, 17) == dealer_magic_spec()
    &&& be_to_u32(bytes.subrange(17, 21)) == 1
    &&& be_to_u32(bytes.subrange(21, 25)) == 4
    &&& be_to_u64(bytes.subrange(25, 33)) == cl
    &&& bytes.subrange(33, 33 + cl) == G::curve_id_spec()
}

/// The dealer index written in the header.
pub open spec fn encoded_dealer<G: GoldenGroup>(bytes: Seq<u8>) -> u32 {
    let cl = G::curve_id_spec().len() as int;
    be_to_u32(bytes.subrange(65 + cl, 69 + cl))
}

/// The outcome of reading the header of `bytes`: magic, versions, curve,
/// configuration root and dealer, who must be `expected` and registered.
pub open spec fn header_outcome<G: GoldenGroup>(
    config: DkgConfig<G>,
    expected: ParticipantIndex,
    bytes: Seq<u8>,
) -> Result<(), DealerMessageError> {
    let cl = G::curve_id_spec().len() as int;
    if !header_fields_ok::<G>(bytes) || bytes.len() < 65 + cl {
        Err(DealerMessageError::Malformed)
    } else if bytes.subrange(33 + cl, 65 + cl) != config.root_spec() {
        Err(DealerMessageError::ConfigurationMismatch)
    } else if bytes.len() < 69 + cl || encoded_dealer::<G>(bytes) == 0 {
        Err(DealerMessageError::Malformed)
    } else if encoded_dealer::<G>(bytes) != expected@ {
        Err(
            DealerMessageError::DealerMismatch {
                encoded: participant_from_raw(encoded_dealer::<G>(bytes)),
            },
        )
    } else if forall|k: int|
        0 <= k < config.registry_spec().len() ==> config.registry_spec()[k].0@ != expected@ {
        Err(DealerMessageError::InvalidPublicRelations)
    } else {
        Ok(())
    }
}

/// The outcome of parsing `bytes` as a dealer message from `expected` under
/// `config`: the first failed check, in reading order.
pub open spec fn parse_outcome<G: GoldenGroup>(
    config: DkgConfig<G>,
    expected: ParticipantIndex,
    bytes: Seq<u8>,
) -> Result<(), DealerMessageError> {
    let cl = G::curve_id_spec().len() as int;
    let max = MAX_DEALER_MESSAGE_BYTES;
    let prefix = prefix_len_spec(config);
    if bytes.len() > max {
        Err(DealerMessageError::TooLarge { actual: bytes.len() as usize, maximum: max })
    } else if !prefix_len_fits(config) {
        Err(DealerMessageError::TooLarge { actual: bytes.len() as usize, maximum: max })
    } else if prefix > max {
        Err(DealerMessageError::TooLarge { actual: prefix as usize, maximum: max })
    } else if header_outcome(config, expected, bytes) is Err {
        header_outcome(config, expected, bytes)
    } else if bytes.len() < prefix {
        Err(DealerMessageError::Malformed)
    } else if body_error(config, expected@, bytes, 0) is Some {
        Err(body_error(config, expected@, bytes, 0)->Some_0)
    } else if config.registry_spec().len() == 1 && bytes.len() > prefix {
        Err(DealerMessageError::Malformed)
    } else {
        Ok(())
    }
}

/// A parsed instance holds what the bytes of instance `i` encode.
pub open spec fn parsed_instance<G: GoldenGroup>(
    config: DkgConfig<G>,
    dealer: ParticipantIndex,
    bytes: Seq<u8>,
    i: int,
    inst: DealerMessageInstance<G>,
) -> bool {
    let off = instance_offset(config, i);
    let others = receivers_of(config.registry_spec(), dealer@);
    &&& inst.nonce.0@ == bytes.subrange(off, off + 32)
    &&& inst.effective_message.0@ == sha256_spec(
        effective_message_preimage(
            config.root_spec(),
            dealer@,
            i as usize,
            config.instances_spec()[i],
            inst.nonce.0@,
        ),
    )
    &&& inst.commitment_coefficients@ == logical_coefficients(config, bytes, i)
    &&& inst.receivers@.len() == others.len()
    &&& forall|k: int|
        0 <= k < others.len() ==> parsed_receiver(
            config,
            dealer@,
            bytes,
            i,
            k,
            #[trigger] inst.receivers@[k],
        )
}

/// A parsed receiver holds what receiver slot `k` of instance `i` encodes:
/// the registry entry of the `k`-th receiver, the decoded pad and share,
/// and the share commitment that the instance's coefficients expect.
pub open spec fn parsed_receiver<G: GoldenGroup>(
    config: DkgConfig<G>,
    dealer: u32,
    bytes: Seq<u8>,
    i: int,
    k: int,
    r: DealerMessageReceiver<G>,
) -> bool {
    let entry = receivers_of(config.registry_spec(), dealer)[k];
    &&& r.participant == entry.0
    &&& r.public_key == entry.1
    &&& Some(r.pad_commitment) == decoded_pad(config, bytes, i, k)
    &&& Some(r.encrypted_share) == decoded_share(config, bytes, i, k)
    &&& G::element_wf(r.share_commitment)
    &&& G::dlog(r.share_commitment) == expected_share(config, bytes, i, entry.0@ as int)
}

fn read_header_fields<'a, G: GoldenGroup>(reader: &mut DealerMessageReader<'a>) -> (result: Result<
    (),
    DealerMessageError,
>)
    requires
        old(reader).pos() == 0,
    ensures
        final(reader).data() == old(reader).data(),
        result is Ok <==> header_fields_ok::<G>(old(reader).data()),
        result is Err ==> result == Err::<(), DealerMessageError>(DealerMessageError::Malformed),
        result is Ok ==> final(reader).pos() == 33 + G::curve_id_spec().len(),
        result is Ok ==> old(reader).data().len() >= 33 + G::curve_id_spec().len(),
{
    reveal(header_fields_ok);
    let ghost data = reader.data();
    let curve = G::curve_id();
    let expected_len = curve.len();
    let ghost cl = curve@.len() as int;
    let magic = match reader.read_exact(17) {
        Ok(b) => b,
        Err(e) => return Err(e),
    };
    proof {
        assert(data.subrange(0, 17) =~= magic@);
    }
    if !crate::wire::bytes_equal(magic, "golden-dkg-dealer".as_bytes()) {
        return Err(DealerMessageError::Malformed);
    }
    let codec = match reader.read_u32() {
        Ok(v) => v,
        Err(e) => return Err(e),
    };
    proof {
        assert(data.subrange(17, 21) =~= data.subrange(17, data.len() as int).subrange(0, 4));
    }
    if codec != crate::dealer_message::DEALER_MESSAGE_CODEC_VERSION {
        return Err(DealerMessageError::Malformed);
    }
    let version = match reader.read_u32() {
        Ok(v) => v,
        Err(e) => return Err(e),
    };
    proof {
        assert(data.subrange(21, 25) =~= data.subrange(21, data.len() as int).subrange(0, 4));
    }
    if version != crate::dkg::PROTOCOL_VERSION {
        return Err(DealerMessageError::Malformed);
    }
    let curve_len = match reader.read_u64_as_usize() {
        Ok(v) => v,
        Err(e) => return Err(e),
    };
    proof {
        assert(data.subrange(25, 33) =~= data.subrange(25, data.len() as int).subrange(0, 8));
    }
    if curve_len != expected_len {
        return Err(DealerMessageError::Malformed);
    }
    let curve_bytes = match reader.read_exact(curve_len) {
        Ok(b) => b,
        Err(e) => return Err(e),
    };
    proof {
        assert(data.subrange(33, 33 + cl) =~= curve_bytes@);
    }
    if !crate::wire::bytes_equal(curve_bytes, curve) {
        return Err(DealerMessageError::Malformed);
    }
    Ok(())
}

fn read_root<'a, G: GoldenGroup>(config: &DkgConfig<G>, reader: &mut DealerMessageReader<'a>) -> (result:
    Result<(), DealerMessageError>)
    requires
        old(reader).pos() == 33 + G::curve_id_spec().len(),
    ensures
        final(reader).data() == old(reader).data(),
        ({
            let data = old(reader).data();
            let cl = G::curve_id_spec().len() as int;
            &&& data.len() < 65 + cl ==> result == Err::<(), DealerMessageError>(
                DealerMessageError::Malformed,
            )
            &&& data.len() >= 65 + cl && data.subrange(33 + cl, 65 + cl) != config.root_spec()
                ==> result == Err::<(), DealerMessageError>(
                DealerMessageError::ConfigurationMismatch,
            )
            &&& data.len() >= 65 + cl && data.subrange(33 + cl, 65 + cl) == config.root_spec()
                ==> result is Ok && final(reader).pos() == 65 + cl
        }),
{
    let ghost data = reader.data();
    let ghost cl = G::curve_id_spec().len() as int;
    let ghost before = *reader;
    let root_bytes = match reader.read_exact(32) {
        Ok(b) => b,
        Err(e) => return Err(e),
    };
    proof {
        assert(before.pos() == 33 + cl);
        assert(before.data() == data);
        assert(before.rest() == data.subrange(33 + cl, data.len() as int));
        assert(before.rest().len() >= 32);
        assert(root_bytes@ == before.rest().subrange(0, 32));
        assert(data.len() >= 65 + cl);
        assert(root_bytes@.len() == 32);
        assert forall|i: int| 0 <= i < 32 implies data.subrange(33 + cl, 65 + cl)[i] == root_bytes@[i] by {
            assert(root_bytes@[i] == before.rest()[i]);
            assert(before.rest()[i] == data[33 + cl + i]);
        }
        assert(data.subrange(33 + cl, 65 + cl) =~= root_bytes@);
    }
    let root = config.root();
    if !crate::wire::bytes_equal(root_bytes, &root) {
        return Err(DealerMessageError::ConfigurationMismatch);
    }
    Ok(())
}

fn read_dealer<'a, G: GoldenGroup>(
    config: &DkgConfig<G>,
    expected: ParticipantIndex,
    reader: &mut DealerMessageReader<'a>,
) -> (result: Result<ParticipantIndex, DealerMessageError>)
    requires
        old(reader).pos() == 65 + G::curve_id_spec().len(),
    ensures
        final(reader).data() == old(reader).data(),
        ({
            let data = old(reader).data();
            let cl = G::curve_id_spec().len() as int;
            let d = encoded_dealer::<G>(data);
            &&& (data.len() < 69 + cl || d == 0) ==> result == Err::<
                ParticipantIndex,
                DealerMessageError,
            >(DealerMessageError::Malformed)
            &&& data.len() >= 69 + cl && d != 0 && d != expected@ ==> result == Err::<
                ParticipantIndex,
                DealerMessageError,
            >(DealerMessageError::DealerMismatch { encoded: participant_from_raw(d) })
            &&& data.len() >= 69 + cl && d != 0 && d == expected@ && (forall|k: int|
                0 <= k < config.registry_spec().len() ==> config.registry_spec()[k].0@
                    != expected@) ==> result == Err::<ParticipantIndex, DealerMessageError>(
                DealerMessageError::InvalidPublicRelations,
            )
            &&& data.len() >= 69 + cl && d != 0 && d == expected@ && !(forall|k: int|
                0 <= k < config.registry_spec().len() ==> config.registry_spec()[k].0@
                    != expected@) ==> result == Ok::<ParticipantIndex, DealerMessageError>(
                expected,
            ) && final(reader).pos() == 69 + cl
        }),
{
    let ghost data = reader.data();
    let ghost cl = G::curve_id_spec().len() as int;
    let raw = match reader.read_u32() {
        Ok(v) => v,
        Err(e) => return Err(e),
    };
    proof {
        assert(data.subrange(65 + cl, 69 + cl) =~= data.subrange(65 + cl, data.len() as int).subrange(
            0,
            4,
        ));
    }
    proof {
        assert(raw == encoded_dealer::<G>(data));
        crate::participant::lemma_participant_from_raw(raw);
    }
    let dealer = match ParticipantIndex::new(raw) {
        Ok(p) => p,
        Err(_) => return Err(DealerMessageError::Malformed),
    };
    if dealer.get() != expected.get() {
        return Err(DealerMessageError::DealerMismatch { encoded: dealer });
    }
    proof {
        crate::participant::lemma_participant_view_eq(dealer, expected);
    }
    match config.identity_public_key(dealer) {
        Some(_) => {},
        None => return Err(DealerMessageError::InvalidPublicRelations),
    }
    Ok(dealer)
}

fn read_header<'a, G: GoldenGroup>(
    config: &DkgConfig<G>,
    expected: ParticipantIndex,
    reader: &mut DealerMessageReader<'a>,
) -> (result: Result<ParticipantIndex, DealerMessageError>)
    requires
        old(reader).pos() == 0,
    ensures
        final(reader).data() == old(reader).data(),
        header_outcome(*config, expected, old(reader).data()) matches Err(e) ==> result == Err::<
            ParticipantIndex,
            DealerMessageError,
        >(e),
        header_outcome(*config, expected, old(reader).data()) is Ok ==> result == Ok::<
            ParticipantIndex,
            DealerMessageError,
        >(expected) && final(reader).pos() == header_len(G::curve_id_spec().len()),
{
    match read_header_fields::<G>(reader) {
        Ok(()) => {},
        Err(e) => return Err(e),
    }
    match read_root::<G>(config, reader) {
        Ok(()) => {},
        Err(e) => return Err(e),
    }
    read_dealer::<G>(config, expected, reader)
}

/// Offsets of consecutive instances, coefficients and slots.
pub proof fn lemma_instance_layout<G: GoldenGroup>(config: DkgConfig<G>, i: int)
    requires
        0 <= i < config.instances_spec().len(),
        config.registry_spec().len() >= 1,
    ensures
        instance_offset(config, i + 1) == slot_offset(config, i, config.registry_spec().len() - 1),
        instance_offset(config, i + 1) <= prefix_len_spec(config),
        instance_offset(config, i) >= header_len(G::curve_id_spec().len()),
{
    let kinds = config.instances_spec();
    let t = config.threshold_spec() as nat;
    let el = G::element_repr_len();
    let rl = receivers_width(config);
    assert(kinds.take(i + 1).drop_last() =~= kinds.take(i));
    crate::dealer_message::lemma_instances_len_monotone(kinds, t, el, rl);
    assert(kinds.take(kinds.len() as int) =~= kinds);
    assert(instances_len(kinds.take(i + 1), t, el, rl) <= instances_len(kinds, t, el, rl));
    let rpi = config.registry_spec().len() - 1;
    let sw = slot_width::<G>() as int;
    assert(rpi * sw >= 0) by (nonlinear_arith)
        requires
            rpi >= 0,
            sw >= 0,
    ;
}

/// Consecutive coefficients and slots are one width apart.
pub proof fn lemma_step_offsets<G: GoldenGroup>(config: DkgConfig<G>, i: int, j: int)
    ensures
        coefficient_offset(config, i, j + 1) == coefficient_offset(config, i, j)
            + G::element_repr_len(),
        slot_offset(config, i, j + 1) == slot_offset(config, i, j) + slot_width::<G>(),
{
    let el = G::element_repr_len() as int;
    let sw = slot_width::<G>() as int;
    assert((j + 1) * el == j * el + el) by (nonlinear_arith);
    assert((j + 1) * sw == j * sw + sw) by (nonlinear_arith);
}

fn read_logical_coefficients<'a, G: GoldenGroup>(
    config: &DkgConfig<G>,
    reader: &mut DealerMessageReader<'a>,
    i: usize,
    kind: DkgInstanceKind,
) -> (result: Result<Vec<G::Element>, DealerMessageError>)
    requires
        i < config.instances_spec().len(),
        kind == config.instances_spec()[i as int],
        config.threshold_spec() >= 1,
        old(reader).pos() == coefficient_offset(*config, i as int, 0),
        coefficient_offset(*config, i as int, physical_count(*config, i as int) as int) <= old(
            reader,
        ).data().len(),
    ensures
        final(reader).data() == old(reader).data(),
        !coefficients_decode(*config, old(reader).data(), i as int) ==> result == Err::<
            Vec<G::Element>,
            DealerMessageError,
        >(DealerMessageError::Malformed),
        coefficients_decode(*config, old(reader).data(), i as int) ==> (result matches Ok(v)
            && v@ == logical_coefficients(*config, old(reader).data(), i as int) && (forall|c: int|
            0 <= c < v@.len() ==> G::element_wf(#[trigger] v@[c])) && final(reader).pos()
            == coefficient_offset(*config, i as int, physical_count(*config, i as int) as int)),
        kind == DkgInstanceKind::Zero ==> G::dlog(G::identity_spec()) == 0,
{
    let ghost data = reader.data();
    let threshold = config.threshold();
    let element_len = G::element_repr_bytes();
    let physical: usize = match kind {
        DkgInstanceKind::Random => threshold,
        DkgInstanceKind::Zero => threshold - 1,
    };
    let ghost z: int = if kind == DkgInstanceKind::Zero { 1 } else { 0 };
    let mut logical: Vec<G::Element> = Vec::new();
    if let DkgInstanceKind::Zero = kind {
        logical.push(G::identity());
    }
    let mut j: usize = 0;
    while j < physical
        invariant
            j <= physical,
            physical == physical_count(*config, i as int),
            element_len == G::element_repr_len(),
            kind == config.instances_spec()[i as int],
            z == (if kind == DkgInstanceKind::Zero { 1int } else { 0int }),
            kind == DkgInstanceKind::Zero ==> G::dlog(G::identity_spec()) == 0,
            reader.data() == data,
            data == old(reader).data(),
            reader.pos() == coefficient_offset(*config, i as int, j as int),
            coefficient_offset(*config, i as int, physical as int) <= data.len(),
            logical@.len() == j + z,
            forall|c: int| 0 <= c < j + z ==> #[trigger] logical@[c] == logical_coefficient(
                *config,
                data,
                i as int,
                c,
            ),
            forall|c: int| 0 <= c < j + z ==> G::element_wf(#[trigger] logical@[c]),
            forall|jj: int| 0 <= jj < j ==> (#[trigger] decoded_coefficient(*config, data, i as int, jj)) is Some,
        decreases physical - j,
    {
        proof {
            lemma_step_offsets(*config, i as int, j as int);
            let el = G::element_repr_len() as int;
            assert((j + 1) * el <= physical * el) by (nonlinear_arith)
                requires
                    j + 1 <= physical,
                    el >= 0,
            ;
        }
        let bytes = match reader.read_exact(element_len) {
            Ok(b) => b,
            Err(e) => return Err(e),
        };
        let ghost off = coefficient_offset(*config, i as int, j as int);
        proof {
            assert(bytes@ =~= data.subrange(off, off + G::element_repr_len()));
        }
        let element = match decode_protocol_element::<G>(bytes) {
            Ok(e) => e,
            Err(e) => {
                proof {
                    assert(decoded_coefficient(*config, data, i as int, j as int) is None);
                    assert(!coefficients_decode(*config, data, i as int));
                }
                return Err(e);
            },
        };
        logical.push(element);
        j = j + 1;
    }
    proof {
        assert(logical@ =~= logical_coefficients(*config, data, i as int));
    }
    Ok(logical)
}

/// Reading slot after slot: while every earlier slot is accepted, the
/// first rejected slot is the first one from the current slot on.
pub proof fn lemma_slots_error_prefix<G: GoldenGroup>(
    config: DkgConfig<G>,
    dealer: u32,
    bytes: Seq<u8>,
    i: int,
    k: int,
)
    requires
        0 <= k <= config.registry_spec().len() - 1,
        forall|kk: int| 0 <= kk < k ==> (#[trigger] slot_error(config, dealer, bytes, i, kk)) is None,
    ensures
        slots_error(config, dealer, bytes, i, 0) == slots_error(config, dealer, bytes, i, k),
    decreases k,
{
    if k > 0 {
        lemma_slots_error_prefix(config, dealer, bytes, i, k - 1);
        assert(slot_error(config, dealer, bytes, i, k - 1) is None);
    }
}

fn read_slot<'a, G: GoldenGroup>(
    config: &DkgConfig<G>,
    reader: &mut DealerMessageReader<'a>,
    commitment: &FeldmanCommitment<G>,
    dealer: ParticipantIndex,
    i: usize,
    k: usize,
    participant: ParticipantIndex,
    public_key: G::Element,
) -> (result: Result<DealerMessageReceiver<G>, DealerMessageError>)
    requires
        0 <= k < receivers_of(config.registry_spec(), dealer@).len(),
        receivers_of(config.registry_spec(), dealer@)[k as int] == (participant, public_key),
        G::element_wf(public_key),
        old(reader).pos() == slot_offset(*config, i as int, k as int),
        slot_offset(*config, i as int, k as int) + slot_width::<G>() <= old(reader).data().len(),
        commitment.coeffs() == logical_coefficients(*config, old(reader).data(), i as int),
    ensures
        final(reader).data() == old(reader).data(),
        slot_error(*config, dealer@, old(reader).data(), i as int, k as int) matches Some(e)
            ==> result == Err::<DealerMessageReceiver<G>, DealerMessageError>(e),
        slot_error(*config, dealer@, old(reader).data(), i as int, k as int) is None ==> (
        result matches Ok(r) && parsed_receiver(
            *config,
            dealer@,
            old(reader).data(),
            i as int,
            k as int,
            r,
        ) && crate::dealer_message::message_receiver_wf::<G>(r) && final(reader).pos()
            == slot_offset(*config, i as int, k as int) + slot_width::<G>()),
{
    let ghost data = reader.data();
    let ghost off = slot_offset(*config, i as int, k as int);
    let ghost el = G::element_repr_len() as int;
    let element_len = G::element_repr_bytes();
    let scalar_len = <G::Scalar as GoldenScalar>::repr_bytes();
    let pad_bytes = match reader.read_exact(element_len) {
        Ok(b) => b,
        Err(e) => return Err(e),
    };
    proof {
        assert(pad_bytes@ =~= data.subrange(off, off + el));
    }
    let pad_commitment = match decode_protocol_element::<G>(pad_bytes) {
        Ok(e) => e,
        Err(e) => return Err(e),
    };
    if G::is_identity(&pad_commitment) {
        return Err(DealerMessageError::InvalidPublicRelations);
    }
    let share_bytes = match reader.read_exact(scalar_len) {
        Ok(b) => b,
        Err(e) => return Err(e),
    };
    proof {
        assert(share_bytes@ =~= data.subrange(
            off + el,
            off + el + <G::Scalar as GoldenScalar>::repr_len(),
        ));
    }
    let encrypted_share = match decode_protocol_scalar::<G::Scalar>(share_bytes) {
        Ok(s) => s,
        Err(e) => return Err(e),
    };
    let share_commitment = match commitment.public_key_share(participant) {
        Ok(e) => e,
        Err(_) => return Err(DealerMessageError::InvalidPublicRelations),
    };
    let encrypted_commitment = G::mul_generator(&encrypted_share);
    let expected = G::add(&share_commitment, &pad_commitment);
    if !G::element_eq(&encrypted_commitment, &expected) {
        return Err(DealerMessageError::InvalidPublicRelations);
    }
    Ok(DealerMessageReceiver { participant, public_key, share_commitment, pad_commitment, encrypted_share })
}

/// Slots are one width apart, and every slot of an instance lies before
/// the slot one past the last receiver.
pub proof fn lemma_slot_within<G: GoldenGroup>(config: DkgConfig<G>, i: int, k: int, n: int)
    requires
        0 <= k < n,
    ensures
        slot_offset(config, i, k) + slot_width::<G>() <= slot_offset(config, i, n),
        slot_offset(config, i, k + 1) == slot_offset(config, i, k) + slot_width::<G>(),
{
    lemma_step_offsets(config, i, k);
    let sw = slot_width::<G>() as int;
    assert((k + 1) * sw <= n * sw) by (nonlinear_arith)
        requires
            k + 1 <= n,
            sw >= 0,
    ;
}

fn read_slots<'a, G: GoldenGroup>(
    config: &DkgConfig<G>,
    reader: &mut DealerMessageReader<'a>,
    commitment: &FeldmanCommitment<G>,
    entries: &Vec<(ParticipantIndex, G::Element)>,
    dealer: ParticipantIndex,
    i: usize,
) -> (result: Result<Vec<DealerMessageReceiver<G>>, DealerMessageError>)
    requires
        entries@ == config.registry_spec(),
        strictly_increasing(entries@),
        forall|t: int| 0 <= t < entries@.len() ==> G::element_wf(#[trigger] entries@[t].1),
        exists|t: int| 0 <= t < entries@.len() && entries@[t].0@ == dealer@,
        old(reader).pos() == slot_offset(*config, i as int, 0),
        slot_offset(*config, i as int, entries@.len() - 1) <= old(reader).data().len(),
        commitment.coeffs() == logical_coefficients(*config, old(reader).data(), i as int),
    ensures
        final(reader).data() == old(reader).data(),
        slots_error(*config, dealer@, old(reader).data(), i as int, 0) matches Some(e) ==> result
            == Err::<Vec<DealerMessageReceiver<G>>, DealerMessageError>(e),
        slots_error(*config, dealer@, old(reader).data(), i as int, 0) is None ==> (result matches Ok(
            v,
        ) && v@.len() == entries@.len() - 1 && (forall|k: int|
            0 <= k < v@.len() ==> parsed_receiver(
                *config,
                dealer@,
                old(reader).data(),
                i as int,
                k,
                #[trigger] v@[k],
            ) && crate::dealer_message::message_receiver_wf::<G>(v@[k])) && final(reader).pos()
            == slot_offset(*config, i as int, entries@.len() - 1)),
{
    let ghost data = reader.data();
    let ghost others = receivers_of(entries@, dealer@);
    proof {
        crate::dealer_proof::lemma_receivers_of_len(entries@, dealer@);
        crate::dealer_proof::lemma_receiver_scan_ends(entries@, dealer@);
    }
    let ghost rpi = entries@.len() - 1;
    let mut receivers: Vec<DealerMessageReceiver<G>> = Vec::new();
    let mut j: usize = 0;
    let mut k: usize = 0;
    while j < entries.len()
        invariant
            j <= entries@.len(),
            entries@ == config.registry_spec(),
            forall|t: int| 0 <= t < entries@.len() ==> G::element_wf(#[trigger] entries@[t].1),
            others == receivers_of(entries@, dealer@),
            others.len() == rpi,
            rpi == entries@.len() - 1,
            k == receivers_of(entries@.take(j as int), dealer@).len(),
            receivers_of(entries@.take(j as int), dealer@) == others.take(k as int),
            reader.data() == data,
            data == old(reader).data(),
            reader.pos() == slot_offset(*config, i as int, k as int),
            slot_offset(*config, i as int, rpi) <= data.len(),
            commitment.coeffs() == logical_coefficients(*config, data, i as int),
            receivers@.len() == k,
            forall|kk: int|
                0 <= kk < k ==> (#[trigger] slot_error(*config, dealer@, data, i as int, kk)) is None,
            forall|kk: int|
                0 <= kk < k ==> parsed_receiver(
                    *config,
                    dealer@,
                    data,
                    i as int,
                    kk,
                    #[trigger] receivers@[kk],
                ) && crate::dealer_message::message_receiver_wf::<G>(receivers@[kk]),
        decreases entries@.len() - j,
    {
        proof {
            crate::dealer_proof::lemma_receiver_scan_step(entries@, dealer@, j as int, k as int);
        }
        let participant = entries[j].0;
        if participant.get() != dealer.get() {
            proof {
                lemma_slot_within(*config, i as int, k as int, rpi);
                lemma_slots_error_prefix(*config, dealer@, data, i as int, k as int);
            }
            let receiver = match read_slot(
                config,
                reader,
                commitment,
                dealer,
                i,
                k,
                participant,
                entries[j].1,
            ) {
                Ok(r) => r,
                Err(e) => {
                    proof {
                        assert(slots_error(*config, dealer@, data, i as int, k as int) == Some(e));
                    }
                    return Err(e);
                },
            };
            receivers.push(receiver);
            k = k + 1;
        }
        j = j + 1;
    }
    proof {
        assert(entries@.take(entries@.len() as int) =~= entries@);
        lemma_slots_error_prefix(*config, dealer@, data, i as int, k as int);
    }
    Ok(receivers)
}

/// A copy of `elements`.
fn copy_elements<E: Copy>(elements: &Vec<E>) -> (copies: Vec<E>)
    ensures
        copies@ == elements@,
{
    let mut copies: Vec<E> = Vec::new();
    let mut i: usize = 0;
    while i < elements.len()
        invariant
            i <= elements@.len(),
            copies@ == elements@.subrange(0, i as int),
        decreases elements@.len() - i,
    {
        copies.push(elements[i]);
        i = i + 1;
        assert(copies@ =~= elements@.subrange(0, i as int));
    }
    assert(elements@.subrange(0, elements@.len() as int) =~= elements@);
    copies
}

fn read_instance<'a, G: GoldenGroup>(
    config: &DkgConfig<G>,
    reader: &mut DealerMessageReader<'a>,
    entries: &Vec<(ParticipantIndex, G::Element)>,
    dealer: ParticipantIndex,
    root: TranscriptRoot,
    i: usize,
    kind: DkgInstanceKind,
) -> (result: Result<DealerMessageInstance<G>, DealerMessageError>)
    requires
        i < config.instances_spec().len(),
        kind == config.instances_spec()[i as int],
        1 <= config.threshold_spec(),
        root@ == config.root_spec(),
        entries@ == config.registry_spec(),
        strictly_increasing(entries@),
        forall|t: int| 0 <= t < entries@.len() ==> G::element_wf(#[trigger] entries@[t].1),
        exists|t: int| 0 <= t < entries@.len() && entries@[t].0@ == dealer@,
        old(reader).pos() == instance_offset(*config, i as int),
        instance_offset(*config, i as int + 1) <= old(reader).data().len(),
    ensures
        final(reader).data() == old(reader).data(),
        instance_error(*config, dealer@, old(reader).data(), i as int) matches Some(e) ==> result
            == Err::<DealerMessageInstance<G>, DealerMessageError>(e),
        instance_error(*config, dealer@, old(reader).data(), i as int) is None ==> (result matches Ok(
            inst,
        ) && parsed_instance(*config, dealer, old(reader).data(), i as int, inst)
            && crate::dealer_message::message_instance_wf::<G>(inst) && final(reader).pos()
            == instance_offset(*config, i as int + 1) && (kind == DkgInstanceKind::Zero ==> G::dlog(
            inst.commitment_coefficients@[0],
        ) == 0)),
{
    let ghost data = reader.data();
    proof {
        lemma_instance_layout(*config, i as int);
        if entries@.len() - 1 > 0 {
            lemma_slot_within(*config, i as int, 0, entries@.len() - 1);
        }
    }
    let nonce_bytes = match reader.read_exact(32) {
        Ok(b) => b,
        Err(e) => return Err(e),
    };
    let nonce = DealerMessageNonce(crate::util::read32(nonce_bytes));
    let effective_message = crate::main_golden::effective_message(root, dealer, i, kind, nonce);
    let logical = match read_logical_coefficients(config, reader, i, kind) {
        Ok(v) => v,
        Err(e) => return Err(e),
    };
    let copies = copy_elements(&logical);
    let commitment = match FeldmanCommitment::<G>::from_coefficients(copies) {
        Ok(c) => c,
        Err(_) => return Err(DealerMessageError::InvalidPublicRelations),
    };
    let receivers = match read_slots(config, reader, &commitment, entries, dealer, i) {
        Ok(v) => v,
        Err(e) => return Err(e),
    };
    let inst = DealerMessageInstance {
        nonce,
        effective_message,
        commitment_coefficients: logical,
        receivers,
    };
    proof {
        let off = instance_offset(*config, i as int);
        assert(nonce.0@ =~= data.subrange(off, off + 32));
        crate::dealer_proof::lemma_receivers_of_len(entries@, dealer@);
    }
    Ok(inst)
}

/// Reading instance after instance: while every earlier instance is
/// accepted, the first rejected instance is the first one from the
/// current instance on.
pub proof fn lemma_body_error_prefix<G: GoldenGroup>(
    config: DkgConfig<G>,
    dealer: u32,
    bytes: Seq<u8>,
    i: int,
)
    requires
        0 <= i <= config.instances_spec().len(),
        forall|ii: int| 0 <= ii < i ==> (#[trigger] instance_error(config, dealer, bytes, ii)) is None,
    ensures
        body_error(config, dealer, bytes, 0) == body_error(config, dealer, bytes, i),
    decreases i,
{
    if i > 0 {
        lemma_body_error_prefix(config, dealer, bytes, i - 1);
        assert(instance_error(config, dealer, bytes, i - 1) is None);
    }
}

/// The instances start right after the header and end at the prefix
/// length.
pub proof fn lemma_body_bounds<G: GoldenGroup>(config: DkgConfig<G>)
    ensures
        instance_offset(config, 0) == header_len(G::curve_id_spec().len()),
        instance_offset(config, config.instances_spec().len() as int) == prefix_len_spec(config),
{
    let kinds = config.instances_spec();
    assert(kinds.take(0) =~= Seq::<DkgInstanceKind>::empty());
    assert(kinds.take(kinds.len() as int) =~= kinds);
}

fn read_body<'a, G: GoldenGroup>(
    config: &DkgConfig<G>,
    reader: &mut DealerMessageReader<'a>,
    dealer: ParticipantIndex,
) -> (result: Result<Vec<DealerMessageInstance<G>>, DealerMessageError>)
    requires
        exists|t: int|
            0 <= t < config.registry_spec().len() && config.registry_spec()[t].0@ == dealer@,
        old(reader).pos() == header_len(G::curve_id_spec().len()),
        prefix_len_spec(*config) <= old(reader).data().len(),
    ensures
        final(reader).data() == old(reader).data(),
        body_error(*config, dealer@, old(reader).data(), 0) matches Some(e) ==> result == Err::<
            Vec<DealerMessageInstance<G>>,
            DealerMessageError,
        >(e),
        body_error(*config, dealer@, old(reader).data(), 0) is None ==> (result matches Ok(v)
            && v@.len() == config.instances_spec().len() && (forall|i: int|
            0 <= i < v@.len() ==> parsed_instance(
                *config,
                dealer,
                old(reader).data(),
                i,
                #[trigger] v@[i],
            ) && crate::dealer_message::message_instance_wf::<G>(v@[i]) && (
            config.instances_spec()[i] == DkgInstanceKind::Zero ==> G::dlog(
                v@[i].commitment_coefficients@[0],
            ) == 0)) && final(reader).pos() == prefix_len_spec(*config)),
{
    let ghost data = reader.data();
    config.check_invariant();
    let registry = config.registry();
    let entries = registry.entries();
    let _ = registry.len();
    let root = config.root();
    let kinds = config.instances();
    proof {
        lemma_body_bounds(*config);
    }
    let mut instances: Vec<DealerMessageInstance<G>> = Vec::new();
    let mut i: usize = 0;
    while i < kinds.len()
        invariant
            i <= kinds@.len(),
            kinds@ == config.instances_spec(),
            1 <= config.threshold_spec(),
            config.registry_spec().len() >= 1,
            root@ == config.root_spec(),
            entries@ == config.registry_spec(),
            strictly_increasing(entries@),
            forall|t: int| 0 <= t < entries@.len() ==> G::element_wf(#[trigger] entries@[t].1),
            exists|t: int| 0 <= t < entries@.len() && entries@[t].0@ == dealer@,
            reader.data() == data,
            data == old(reader).data(),
            reader.pos() == instance_offset(*config, i as int),
            instance_offset(*config, kinds@.len() as int) == prefix_len_spec(*config),
            prefix_len_spec(*config) <= data.len(),
            instances@.len() == i,
            forall|ii: int|
                0 <= ii < i ==> (#[trigger] instance_error(*config, dealer@, data, ii)) is None,
            forall|ii: int|
                0 <= ii < i ==> parsed_instance(*config, dealer, data, ii, #[trigger] instances@[ii])
                    && crate::dealer_message::message_instance_wf::<G>(instances@[ii]) && (
                kinds@[ii] == DkgInstanceKind::Zero ==> G::dlog(
                    instances@[ii].commitment_coefficients@[0],
                ) == 0),
        decreases kinds@.len() - i,
    {
        proof {
            lemma_instance_layout(*config, i as int);
            crate::dealer_message::lemma_instances_len_monotone(
                config.instances_spec(),
                config.threshold_spec() as nat,
                G::element_repr_len(),
                receivers_width(*config),
            );
            lemma_body_error_prefix(*config, dealer@, data, i as int);
        }
        let inst = match read_instance(config, reader, &entries, dealer, root, i, kinds[i]) {
            Ok(inst) => inst,
            Err(e) => {
                proof {
                    assert(body_error(*config, dealer@, data, i as int) == Some(e));
                }
                return Err(e);
            },
        };
        instances.push(inst);
        i = i + 1;
    }
    proof {
        lemma_body_error_prefix(*config, dealer@, data, i as int);
    }
    Ok(instances)
}

/// One parsed dealer message: the message, its flat proof statement and
/// the proof bytes that follow the configuration-shaped prefix.
pub struct ParsedDealerMessage<G: GoldenGroup> {
    /// The decoded message.
    pub message: DealerMessageData<G>,
    /// The flat public proof statement of the message.
    pub statement: DealerProofStatement<G>,
    /// The uninterpreted proof suffix.
    pub proof: Vec<u8>,
}

/// A parsed message holds what `bytes` encode for dealer `expected`: one
/// parsed instance per configured instance, the proof suffix, and the
/// statement built from the message, bound to its dealer-message root.
pub open spec fn parsed_message<G: GoldenGroup>(
    config: DkgConfig<G>,
    expected: ParticipantIndex,
    bytes: Seq<u8>,
    parsed: ParsedDealerMessage<G>,
) -> bool {
    let insts = parsed.message.instances@;
    &&& parsed.message.dealer == expected
    &&& insts.len() == config.instances_spec().len()
    &&& forall|i: int| 0 <= i < insts.len() ==> parsed_instance(config, expected, bytes, i, #[trigger] insts[i])
    &&& parsed.proof@ == bytes.subrange(prefix_len_spec(config) as int, bytes.len() as int)
    &&& parsed.statement.root_spec()@ == sha256_spec(
        dealer_message_root_preimage(config, parsed.message),
    )
    &&& parsed.statement.built_from(
        &config,
        expected,
        parsed.statement.root_spec(),
        flat_messages(insts),
        flat_coefficients(insts),
        flat_share_commitments(insts),
        flat_pad_commitments(insts),
        flat_encrypted_shares(insts),
    )
}

/// A message read by [`read_body`] has the configured shape.
proof fn lemma_parsed_shape<G: GoldenGroup>(
    config: DkgConfig<G>,
    dealer: ParticipantIndex,
    bytes: Seq<u8>,
    message: DealerMessageData<G>,
)
    requires
        message.dealer == dealer,
        exists|t: int|
            0 <= t < config.registry_spec().len() && config.registry_spec()[t].0@ == dealer@,
        message.instances@.len() == config.instances_spec().len(),
        forall|i: int|
            0 <= i < message.instances@.len() ==> parsed_instance(
                config,
                dealer,
                bytes,
                i,
                #[trigger] message.instances@[i],
            ) && crate::dealer_message::message_instance_wf::<G>(message.instances@[i]) && (
            config.instances_spec()[i] == DkgInstanceKind::Zero ==> G::dlog(
                message.instances@[i].commitment_coefficients@[0],
            ) == 0),
    ensures
        crate::dealer_message::message_shape_ok(config, message),
        crate::dealer_message::message_wf(message),
{
    reveal(crate::dealer_message::message_shape_ok);
    reveal(crate::dealer_message::message_wf);
    let others = receivers_of(config.registry_spec(), dealer@);
    assert forall|i: int| 0 <= i < message.instances@.len() implies crate::dealer_message::instance_shape_ok::<G>(
        config,
        message.dealer,
        others,
        i,
        config.instances_spec()[i],
        #[trigger] message.instances@[i],
    ) by {
        let inst = message.instances@[i];
        assert(parsed_instance(config, dealer, bytes, i, inst));
        assert forall|k: int| 0 <= k < others.len() implies crate::dealer_message::receiver_slot_matches::<G>(
            #[trigger] inst.receivers@[k],
            others[k],
        ) by {
            assert(parsed_receiver(config, dealer@, bytes, i, k, inst.receivers@[k]));
        }
    }
}

/// Parse and publicly check one configuration-shaped dealer message from
/// `expected`: the length limit, the header, every coefficient and receiver
/// slot with its public relation, and a proof suffix only where there are
/// receivers. The proof suffix itself is not interpreted.
pub fn parse_dealer_message<G: GoldenGroup>(
    config: &DkgConfig<G>,
    expected: ParticipantIndex,
    encoded: &[u8],
) -> (result: Result<ParsedDealerMessage<G>, DealerMessageError>)
    ensures
        parse_outcome(*config, expected, encoded@) matches Err(e) ==> result == Err::<
            ParsedDealerMessage<G>,
            DealerMessageError,
        >(e),
        parse_outcome(*config, expected, encoded@) is Ok ==> (result matches Ok(p) && parsed_message(
            *config,
            expected,
            encoded@,
            p,
        )),
{
    if encoded.len() > MAX_DEALER_MESSAGE_BYTES {
        return Err(
            DealerMessageError::TooLarge { actual: encoded.len(), maximum: MAX_DEALER_MESSAGE_BYTES },
        );
    }
    let prefix = match encoded_prefix_len::<G>(config) {
        Ok(n) => n,
        Err(_) => {
            return Err(
                DealerMessageError::TooLarge {
                    actual: encoded.len(),
                    maximum: MAX_DEALER_MESSAGE_BYTES,
                },
            )
        },
    };
    if prefix > MAX_DEALER_MESSAGE_BYTES {
        return Err(DealerMessageError::TooLarge { actual: prefix, maximum: MAX_DEALER_MESSAGE_BYTES });
    }
    let mut reader = DealerMessageReader::new(encoded);
    let dealer = match read_header::<G>(config, expected, &mut reader) {
        Ok(d) => d,
        Err(e) => return Err(e),
    };
    if encoded.len() < prefix {
        return Err(DealerMessageError::Malformed);
    }
    proof {
        assert(!(forall|k: int|
            0 <= k < config.registry_spec().len() ==> config.registry_spec()[k].0@ != expected@));
    }
    let instances = match read_body::<G>(config, &mut reader, dealer) {
        Ok(v) => v,
        Err(e) => return Err(e),
    };
    if reader.position() != prefix {
        return Err(DealerMessageError::Malformed);
    }
    let suffix = reader.remaining();
    if config.registry().len() == 1 && suffix.len() != 0 {
        return Err(DealerMessageError::Malformed);
    }
    let mut proof_bytes: Vec<u8> = Vec::new();
    crate::bytes::append_bytes(&mut proof_bytes, suffix);
    let message = DealerMessageData { dealer, instances };
    config.check_invariant();
    proof {
        lemma_parsed_shape(*config, dealer, encoded@, message);
    }
    let message_root = match crate::dealer_message::dealer_message_root(config, &message) {
        Ok(root) => root,
        Err(_) => return Err(DealerMessageError::InvalidPublicRelations),
    };
    proof {
        crate::dealer_message::lemma_shape_counts(*config, message);
        crate::message_statement::lemma_flat_lengths(
            message.instances@,
            config.threshold_spec() as int,
            config.registry_spec().len() - 1,
        );
    }
    let statement = match crate::message_statement::statement_from_message(
        config,
        &message,
        message_root,
    ) {
        Ok(s) => s,
        Err(_) => return Err(DealerMessageError::InvalidPublicRelations),
    };
    assert(proof_bytes@ =~= encoded@.subrange(prefix as int, encoded@.len() as int));
    Ok(ParsedDealerMessage { message, statement, proof: proof_bytes })
}

} // verus!
