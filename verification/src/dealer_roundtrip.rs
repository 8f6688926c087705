//! An encoded dealer message whose public relations hold passes the public
//! preflight, and the preflight reads back what was encoded.
use vstd::prelude::*;

use crate::dealer_message::{
    decode_protocol_element_spec, decode_protocol_scalar_spec, elements_bytes, instance_bytes,
    instances_bytes, message_receiver_wf, message_wf, physical_elements, protocol_scalar_bytes,
    protocol_scalar_native, receivers_bytes, DealerMessageData, DealerMessageInstance,
    DealerMessageReceiver,
};
use crate::dealer_message::{
    dealer_message_bytes, header_bytes, message_shape_ok, prefix_len_spec,
};
use crate::dealer_parse::{
    coefficient_offset, coefficients_decode, decoded_coefficient, decoded_pad, decoded_share,
    instance_error, instance_offset, logical_coefficients, physical_count, slot_error,
    slot_offset, slot_width,
};
use crate::bytes::{u32_be, u64_be};
use crate::dealer_message::{dealer_magic_spec, encode_outcome, prefix_len_fits};
use crate::dealer_parse::{header_fields_ok, header_outcome, parse_outcome, receivers_width};
use crate::dealer_proof::receivers_of;
use crate::error::Error;
use crate::feldman::dlogs_of;
use crate::shamir::poly_value;
use crate::dkg::{strictly_increasing, DkgConfig, DkgInstanceKind};
use crate::group::{GoldenGroup, GoldenScalar};

verus! {

/// The middle part of a concatenation.
pub proof fn lemma_concat_middle<A>(a: Seq<A>, b: Seq<A>, c: Seq<A>, x: int, y: int)
    requires
        0 <= x <= y <= b.len(),
    ensures
        (a + b + c).subrange(a.len() + x, a.len() + y) == b.subrange(x, y),
{
    assert((a + b + c).subrange(a.len() + x, a.len() + y) =~= b.subrange(x, y));
}

/// The encoding of element `j` sits at `j` element widths.
pub proof fn lemma_elements_bytes_at<G: GoldenGroup>(es: Seq<G::Element>, j: int)
    requires
        forall|i: int| 0 <= i < es.len() ==> G::element_wf(#[trigger] es[i]),
        0 <= j < es.len(),
    ensures
        j * G::element_repr_len() + G::element_repr_len() <= elements_bytes::<G>(es).len(),
        elements_bytes::<G>(es).subrange(
            j * G::element_repr_len(),
            j * G::element_repr_len() + G::element_repr_len(),
        ) == G::encode_spec(es[j]),
    decreases es.len(),
{
    let el = G::element_repr_len() as int;
    let init = es.drop_last();
    assert forall|i: int| 0 <= i < init.len() implies G::element_wf(#[trigger] init[i]) by {
        assert(init[i] == es[i]);
    }
    crate::dealer_message::lemma_elements_bytes_len::<G>(init);
    G::lemma_group_model(es.last());
    let head = elements_bytes::<G>(init);
    let tail = G::encode_spec(es.last());
    assert(elements_bytes::<G>(es) == head + tail);
    if j == es.len() - 1 {
        assert((head + tail).subrange(head.len() as int, head.len() + el) =~= tail);
    } else {
        lemma_elements_bytes_at::<G>(init, j);
        assert(init[j] == es[j]);
        assert((head + tail).subrange(j * el, j * el + el) =~= head.subrange(j * el, j * el + el));
    }
}

/// The slot of receiver `k` sits at `k` slot widths: its pad commitment,
/// then its encrypted share.
pub proof fn lemma_receivers_bytes_at<G: GoldenGroup>(rs: Seq<DealerMessageReceiver<G>>, k: int)
    requires
        forall|i: int| 0 <= i < rs.len() ==> message_receiver_wf::<G>(#[trigger] rs[i]),
        0 <= k < rs.len(),
    ensures
        ({
            let el = G::element_repr_len() as int;
            let sw = (G::element_repr_len() + <G::Scalar as GoldenScalar>::repr_len()) as int;
            let bytes = receivers_bytes::<G>(rs);
            &&& k * sw + sw <= bytes.len()
            &&& bytes.subrange(k * sw, k * sw + el) == G::encode_spec(rs[k].pad_commitment)
            &&& bytes.subrange(k * sw + el, k * sw + sw) == protocol_scalar_bytes(
                rs[k].encrypted_share,
            )
        }),
    decreases rs.len(),
{
    let el = G::element_repr_len() as int;
    let sw = (G::element_repr_len() + <G::Scalar as GoldenScalar>::repr_len()) as int;
    let init = rs.drop_last();
    assert forall|i: int| 0 <= i < init.len() implies message_receiver_wf::<G>(#[trigger] init[i]) by {
        assert(init[i] == rs[i]);
    }
    crate::dealer_message::lemma_receivers_bytes_len::<G>(init);
    G::lemma_group_model(rs.last().pad_commitment);
    crate::dealer_message::lemma_protocol_scalar_len(rs.last().encrypted_share);
    let head = receivers_bytes::<G>(init);
    let pad = G::encode_spec(rs.last().pad_commitment);
    let share = protocol_scalar_bytes(rs.last().encrypted_share);
    assert(receivers_bytes::<G>(rs) == head + pad + share);
    if k == rs.len() - 1 {
        assert(head.len() == k * sw);
        assert((head + pad + share).subrange(k * sw, k * sw + el) =~= pad);
        assert((head + pad + share).subrange(k * sw + el, k * sw + sw) =~= share);
    } else {
        lemma_receivers_bytes_at::<G>(init, k);
        assert(init[k] == rs[k]);
        assert((head + pad + share).subrange(k * sw, k * sw + el) =~= head.subrange(
            k * sw,
            k * sw + el,
        ));
        assert((head + pad + share).subrange(k * sw + el, k * sw + sw) =~= head.subrange(
            k * sw + el,
            k * sw + sw,
        ));
    }
}

/// The encoding of the first `j` instances is a prefix of the encoding of
/// all of them.
pub proof fn lemma_instances_bytes_prefix<G: GoldenGroup>(
    insts: Seq<DealerMessageInstance<G>>,
    kinds: Seq<crate::dkg::DkgInstanceKind>,
    j: int,
)
    requires
        0 <= j <= insts.len(),
    ensures
        instances_bytes::<G>(insts.take(j), kinds).len() <= instances_bytes::<G>(insts, kinds).len(),
        instances_bytes::<G>(insts, kinds).subrange(
            0,
            instances_bytes::<G>(insts.take(j), kinds).len() as int,
        ) == instances_bytes::<G>(insts.take(j), kinds),
    decreases insts.len(),
{
    if j == insts.len() {
        assert(insts.take(j) =~= insts);
        assert(instances_bytes::<G>(insts, kinds).subrange(
            0,
            instances_bytes::<G>(insts, kinds).len() as int,
        ) =~= instances_bytes::<G>(insts, kinds));
    } else {
        let init = insts.drop_last();
        lemma_instances_bytes_prefix::<G>(init, kinds, j);
        assert(init.take(j) =~= insts.take(j));
        let whole = instances_bytes::<G>(insts, kinds);
        let head = instances_bytes::<G>(init, kinds);
        let p = instances_bytes::<G>(insts.take(j), kinds);
        assert(whole.subrange(0, p.len() as int) =~= head.subrange(0, p.len() as int));
    }
}

/// The encoding of the first `i + 1` instances is that of the first `i`
/// followed by instance `i`.
pub proof fn lemma_instances_bytes_step<G: GoldenGroup>(
    insts: Seq<DealerMessageInstance<G>>,
    kinds: Seq<crate::dkg::DkgInstanceKind>,
    i: int,
)
    requires
        0 <= i < insts.len(),
    ensures
        instances_bytes::<G>(insts.take(i + 1), kinds) == instances_bytes::<G>(insts.take(i), kinds)
            + instance_bytes::<G>(insts[i], kinds[i]),
{
    assert(insts.take(i + 1).drop_last() =~= insts.take(i));
    assert(insts.take(i + 1).last() == insts[i]);
}

/// Decoding the protocol encoding of a scalar gives the scalar back.
pub proof fn lemma_protocol_scalar_roundtrip<S: GoldenScalar>(s: S)
    requires
        s.wf(),
    ensures
        decode_protocol_scalar_spec::<S>(protocol_scalar_bytes(s)) == Some(s),
{
    S::lemma_scalar_model(s, s);
    assert(s.repr_of().reverse().reverse() =~= s.repr_of());
    assert(protocol_scalar_native::<S>(protocol_scalar_bytes(s)) == s.repr_of());
}

/// Decoding the encoding of an element gives the element back.
pub proof fn lemma_element_roundtrip<G: GoldenGroup>(e: G::Element)
    requires
        G::element_wf(e),
    ensures
        decode_protocol_element_spec::<G>(G::encode_spec(e)) == Some(e),
{
    G::lemma_group_model(e);
}

/// What every configuration value satisfies: a threshold between one and
/// the number of participants, a strictly increasing registry of valid
/// keys, and a 32-byte root.
pub open spec fn config_facts<G: GoldenGroup>(config: DkgConfig<G>) -> bool {
    &&& 1 <= config.threshold_spec() <= config.registry_spec().len()
    &&& config.instances_spec().len() > 0
    &&& strictly_increasing(config.registry_spec())
    &&& forall|t: int|
        0 <= t < config.registry_spec().len() ==> G::element_wf(#[trigger] config.registry_spec()[t].1)
    &&& config.root_spec().len() == 32
}

/// The bytes of instance `i` of an encoded well-shaped message lie between
/// the offsets of instances `i` and `i + 1`.
pub proof fn lemma_instance_region<G: GoldenGroup>(
    config: DkgConfig<G>,
    message: DealerMessageData<G>,
    proof: Seq<u8>,
    i: int,
)
    requires
        config_facts(config),
        message_shape_ok(config, message),
        message_wf(message),
        0 <= i < message.instances@.len(),
    ensures
        ({
            let bytes = dealer_message_bytes(config, message, proof);
            &&& instance_offset(config, i) + instance_bytes::<G>(
                message.instances@[i],
                config.instances_spec()[i],
            ).len() == instance_offset(config, i + 1)
            &&& instance_offset(config, i + 1) <= prefix_len_spec(config)
            &&& bytes.len() == prefix_len_spec(config) + proof.len()
            &&& bytes.subrange(instance_offset(config, i), instance_offset(config, i + 1))
                == instance_bytes::<G>(message.instances@[i], config.instances_spec()[i])
        }),
{
    let insts = message.instances@;
    let kinds = config.instances_spec();
    crate::dealer_message::lemma_shape_counts(config, message);
    crate::dealer_message::lemma_header_len::<G>(config.root_spec(), message.dealer@);
    crate::dealer_message::lemma_prefix_bytes_len::<G>(config, message);
    crate::dealer_message::lemma_instances_bytes_len::<G>(config, message, i as nat);
    crate::dealer_message::lemma_instances_bytes_len::<G>(config, message, (i + 1) as nat);
    lemma_instances_bytes_step::<G>(insts, kinds, i);
    lemma_instances_bytes_prefix::<G>(insts, kinds, i + 1);
    crate::dealer_parse::lemma_instance_layout(config, i);
    let h = header_bytes::<G>(config.root_spec(), message.dealer@);
    let ib = instances_bytes::<G>(insts, kinds);
    let before = instances_bytes::<G>(insts.take(i), kinds);
    let upto = instances_bytes::<G>(insts.take(i + 1), kinds);
    let inst = instance_bytes::<G>(insts[i], kinds[i]);
    let a = before.len() as int;
    let b = upto.len() as int;
    lemma_concat_middle(h, ib, proof, a, b);
    assert(ib.subrange(a, b) =~= upto.subrange(a, b));
    assert(upto.subrange(a, b) =~= inst);
}

/// The encoding of physical coefficient `j` of instance `i` sits at its
/// coefficient offset.
pub proof fn lemma_coefficient_bytes<G: GoldenGroup>(
    config: DkgConfig<G>,
    message: DealerMessageData<G>,
    proof: Seq<u8>,
    i: int,
    j: int,
)
    requires
        config_facts(config),
        message_shape_ok(config, message),
        message_wf(message),
        0 <= i < message.instances@.len(),
        0 <= j < physical_count(config, i),
    ensures
        ({
            let bytes = dealer_message_bytes(config, message, proof);
            let off = coefficient_offset(config, i, j);
            let phys = physical_elements(
                message.instances@[i].commitment_coefficients@,
                config.instances_spec()[i],
            );
            &&& j < phys.len()
            &&& G::element_wf(phys[j])
            &&& bytes.subrange(off, off + G::element_repr_len()) == G::encode_spec(phys[j])
        }),
{
    let inst = message.instances@[i];
    let kind = config.instances_spec()[i];
    let el = G::element_repr_len() as int;
    crate::dealer_message::lemma_shape_counts(config, message);
    crate::dealer_message::lemma_wf_instance::<G>(message, i);
    lemma_instance_region(config, message, proof, i);
    let phys = physical_elements(inst.commitment_coefficients@, kind);
    assert forall|t: int| 0 <= t < phys.len() implies G::element_wf(#[trigger] phys[t]) by {
        if kind == DkgInstanceKind::Zero {
            assert(phys[t] == inst.commitment_coefficients@[t + 1]);
        } else {
            assert(phys[t] == inst.commitment_coefficients@[t]);
        }
    }
    lemma_elements_bytes_at::<G>(phys, j);
    let bytes = dealer_message_bytes(config, message, proof);
    let start = instance_offset(config, i);
    let region = bytes.subrange(start, instance_offset(config, i + 1));
    let eb = elements_bytes::<G>(phys);
    let rb = receivers_bytes::<G>(inst.receivers@);
    assert(inst.nonce.0@.len() == 32);
    lemma_concat_middle(inst.nonce.0@, eb, rb, j * el, j * el + el);
    assert(region.subrange(32 + j * el, 32 + j * el + el) =~= bytes.subrange(
        start + 32 + j * el,
        start + 32 + j * el + el,
    ));
}

/// The pad commitment and encrypted share of receiver slot `k` of instance
/// `i` sit at the slot offset.
pub proof fn lemma_slot_bytes<G: GoldenGroup>(
    config: DkgConfig<G>,
    message: DealerMessageData<G>,
    proof: Seq<u8>,
    i: int,
    k: int,
)
    requires
        config_facts(config),
        message_shape_ok(config, message),
        message_wf(message),
        0 <= i < message.instances@.len(),
        0 <= k < config.registry_spec().len() - 1,
    ensures
        ({
            let bytes = dealer_message_bytes(config, message, proof);
            let off = slot_offset(config, i, k);
            let el = G::element_repr_len() as int;
            let rl = <G::Scalar as GoldenScalar>::repr_len() as int;
            let r = message.instances@[i].receivers@[k];
            &&& k < message.instances@[i].receivers@.len()
            &&& message_receiver_wf::<G>(r)
            &&& bytes.subrange(off, off + el) == G::encode_spec(r.pad_commitment)
            &&& bytes.subrange(off + el, off + el + rl) == protocol_scalar_bytes(r.encrypted_share)
        }),
{
    let inst = message.instances@[i];
    let kind = config.instances_spec()[i];
    let el = G::element_repr_len() as int;
    let sw = slot_width::<G>() as int;
    crate::dealer_message::lemma_shape_counts(config, message);
    crate::dealer_message::lemma_wf_instance::<G>(message, i);
    lemma_instance_region(config, message, proof, i);
    let phys = physical_elements(inst.commitment_coefficients@, kind);
    assert forall|t: int| 0 <= t < phys.len() implies G::element_wf(#[trigger] phys[t]) by {
        if kind == DkgInstanceKind::Zero {
            assert(phys[t] == inst.commitment_coefficients@[t + 1]);
        } else {
            assert(phys[t] == inst.commitment_coefficients@[t]);
        }
    }
    crate::dealer_message::lemma_elements_bytes_len::<G>(phys);
    lemma_receivers_bytes_at::<G>(inst.receivers@, k);
    let bytes = dealer_message_bytes(config, message, proof);
    let start = instance_offset(config, i);
    let region = bytes.subrange(start, instance_offset(config, i + 1));
    let eb = elements_bytes::<G>(phys);
    let rb = receivers_bytes::<G>(inst.receivers@);
    let nonce = inst.nonce.0@;
    assert(nonce.len() == 32);
    assert(phys.len() == physical_count(config, i));
    let base = 32 + eb.len();
    assert(slot_offset(config, i, k) == start + base + k * sw);
    assert((nonce + eb + rb) == (nonce + eb) + rb);
    lemma_concat_middle(nonce + eb, rb, Seq::<u8>::empty(), k * sw, k * sw + el);
    lemma_concat_middle(nonce + eb, rb, Seq::<u8>::empty(), k * sw + el, k * sw + sw);
    assert((nonce + eb + rb + Seq::<u8>::empty()) =~= region);
    assert(region.subrange(base + k * sw, base + k * sw + el) =~= bytes.subrange(
        start + base + k * sw,
        start + base + k * sw + el,
    ));
    assert(region.subrange(base + k * sw + el, base + k * sw + sw) =~= bytes.subrange(
        start + base + k * sw + el,
        start + base + k * sw + sw,
    ));
}

/// The public relation of one receiver slot: a non-identity pad
/// commitment, a receiver with an interpolation point, and an encrypted
/// share that opens the commitment's expected share plus the pad.
pub open spec fn receiver_relation_holds<G: GoldenGroup>(
    coefficients: Seq<G::Element>,
    r: DealerMessageReceiver<G>,
) -> bool {
    let q = <G::Scalar as GoldenScalar>::field_order() as int;
    &&& G::dlog(r.pad_commitment) != 0
    &&& <G::Scalar as GoldenScalar>::from_u64_succeeds(r.participant@ as u64)
    &&& r.encrypted_share.value() == (poly_value(dlogs_of::<G>(coefficients), r.participant@ as int)
        % q + G::dlog(r.pad_commitment)) % q
}

/// The public relation of every receiver slot of every instance holds.
pub open spec fn message_relations_hold<G: GoldenGroup>(message: DealerMessageData<G>) -> bool {
    forall|i: int, k: int|
        0 <= i < message.instances@.len() && 0 <= k < message.instances@[i].receivers@.len()
            ==> receiver_relation_holds::<G>(
            message.instances@[i].commitment_coefficients@,
            #[trigger] message.instances@[i].receivers@[k],
        )
}

/// Every physical coefficient of an encoded instance decodes back, and the
/// logical coefficients read back have the logarithms of the encoded ones.
pub proof fn lemma_coefficients_read_back<G: GoldenGroup>(
    config: DkgConfig<G>,
    message: DealerMessageData<G>,
    proof: Seq<u8>,
    i: int,
)
    requires
        config_facts(config),
        message_shape_ok(config, message),
        message_wf(message),
        0 <= i < message.instances@.len(),
        G::dlog(G::identity_spec()) == 0,
    ensures
        ({
            let bytes = dealer_message_bytes(config, message, proof);
            &&& coefficients_decode(config, bytes, i)
            &&& dlogs_of::<G>(logical_coefficients(config, bytes, i)) == dlogs_of::<G>(
                message.instances@[i].commitment_coefficients@,
            )
        }),
{
    let bytes = dealer_message_bytes(config, message, proof);
    let inst = message.instances@[i];
    let kind = config.instances_spec()[i];
    let coeffs = inst.commitment_coefficients@;
    let phys = physical_elements(coeffs, kind);
    crate::dealer_message::lemma_shape_counts(config, message);
    crate::dealer_message::lemma_shape_instance(config, message, i);
    assert forall|j: int| 0 <= j < physical_count(config, i) implies #[trigger] decoded_coefficient(
        config,
        bytes,
        i,
        j,
    ) == Some(phys[j]) by {
        lemma_coefficient_bytes(config, message, proof, i, j);
        lemma_element_roundtrip::<G>(phys[j]);
    }
    assert forall|j: int| 0 <= j < physical_count(config, i) implies (#[trigger] decoded_coefficient(
        config,
        bytes,
        i,
        j,
    )) is Some by {
        assert(decoded_coefficient(config, bytes, i, j) == Some(phys[j]));
    }
    let logical = logical_coefficients(config, bytes, i);
    assert forall|c: int| 0 <= c < logical.len() implies #[trigger] dlogs_of::<G>(logical)[c]
        == dlogs_of::<G>(coeffs)[c] by {
        if kind == DkgInstanceKind::Zero {
            if c > 0 {
                assert(decoded_coefficient(config, bytes, i, c - 1) == Some(phys[c - 1]));
                assert(phys[c - 1] == coeffs[c]);
            }
        } else {
            assert(decoded_coefficient(config, bytes, i, c) == Some(phys[c]));
        }
    }
    assert(dlogs_of::<G>(logical) =~= dlogs_of::<G>(coeffs));
}

/// Every receiver slot of an encoded instance whose relations hold is
/// accepted.
pub proof fn lemma_slots_accepted<G: GoldenGroup>(
    config: DkgConfig<G>,
    message: DealerMessageData<G>,
    proof: Seq<u8>,
    i: int,
)
    requires
        config_facts(config),
        message_shape_ok(config, message),
        message_wf(message),
        message_relations_hold(message),
        0 <= i < message.instances@.len(),
        G::dlog(G::identity_spec()) == 0,
    ensures
        instance_error(config, message.dealer@, dealer_message_bytes(config, message, proof), i)
            is None,
{
    let bytes = dealer_message_bytes(config, message, proof);
    let inst = message.instances@[i];
    let dealer = message.dealer@;
    let others = receivers_of(config.registry_spec(), dealer);
    let rpi = config.registry_spec().len() - 1;
    let el = G::element_repr_len() as int;
    let rl = <G::Scalar as GoldenScalar>::repr_len() as int;
    crate::dealer_message::lemma_shape_counts(config, message);
    crate::dealer_message::lemma_shape_instance(config, message, i);
    lemma_coefficients_read_back(config, message, proof, i);
    assert forall|k: int| 0 <= k < rpi implies (#[trigger] slot_error(config, dealer, bytes, i, k)) is None by {
        lemma_slot_bytes(config, message, proof, i, k);
        let r = inst.receivers@[k];
        lemma_element_roundtrip::<G>(r.pad_commitment);
        lemma_protocol_scalar_roundtrip(r.encrypted_share);
        let off = slot_offset(config, i, k);
        assert(decoded_pad(config, bytes, i, k) == Some(r.pad_commitment));
        assert(decoded_share(config, bytes, i, k) == Some(r.encrypted_share));
        assert(crate::dealer_message::receiver_slot_matches::<G>(r, others[k]));
        assert(receiver_relation_holds::<G>(inst.commitment_coefficients@, r));
    }
    crate::dealer_parse::lemma_slots_error_prefix(config, dealer, bytes, i, rpi);
}

/// The header of an encoded well-shaped message from a registered dealer
/// is accepted for that dealer.
pub proof fn lemma_header_accepted<G: GoldenGroup>(
    config: DkgConfig<G>,
    message: DealerMessageData<G>,
    proof: Seq<u8>,
)
    requires
        config_facts(config),
        message_shape_ok(config, message),
        message_wf(message),
        prefix_len_fits(config),
        message.dealer@ != 0,
    ensures
        header_outcome(config, message.dealer, dealer_message_bytes(config, message, proof)) is Ok,
{
    reveal(header_fields_ok);
    let bytes = dealer_message_bytes(config, message, proof);
    let cl = G::curve_id_spec().len() as int;
    let root = config.root_spec();
    let dealer = message.dealer@;
    crate::dealer_message::lemma_shape_counts(config, message);
    crate::dealer_message::lemma_prefix_bytes_len::<G>(config, message);
    crate::dealer_message::lemma_header_len::<G>(root, dealer);
    crate::dealer_message::lemma_shape_instance(config, message, 0);
    crate::dealer_message::lemma_instances_len_monotone(
        config.instances_spec(),
        config.threshold_spec() as nat,
        G::element_repr_len(),
        receivers_width(config),
    );
    assert(config.instances_spec().take(config.instances_spec().len() as int) =~= config.instances_spec());
    assert(config.instances_spec().take(0) =~= Seq::<DkgInstanceKind>::empty());
    let magic = dealer_magic_spec();
    let codec = u32_be(crate::dealer_message::DEALER_MESSAGE_CODEC_VERSION);
    let version = u32_be(crate::dkg::PROTOCOL_VERSION);
    let curve_len = u64_be(cl as u64);
    let curve = G::curve_id_spec();
    let dealer_bytes = u32_be(dealer);
    crate::bytes::lemma_u32_be_roundtrip(crate::dealer_message::DEALER_MESSAGE_CODEC_VERSION);
    crate::bytes::lemma_u32_be_roundtrip(crate::dkg::PROTOCOL_VERSION);
    crate::bytes::lemma_u64_be_roundtrip(cl as u64);
    crate::bytes::lemma_u32_be_roundtrip(dealer);
    assert(magic.len() == 17);
    let h = header_bytes::<G>(root, dealer);
    let rest = instances_bytes::<G>(message.instances@, config.instances_spec()) + proof;
    assert(bytes =~= h + rest);
    assert(h =~= magic + codec + version + curve_len + curve + root + dealer_bytes);
    assert(bytes.subrange(0, 17) =~= magic);
    assert(bytes.subrange(17, 21) =~= codec);
    assert(bytes.subrange(21, 25) =~= version);
    assert(bytes.subrange(25, 33) =~= curve_len);
    assert(bytes.subrange(33, 33 + cl) =~= curve);
    assert(bytes.subrange(33 + cl, 65 + cl) =~= root);
    assert(bytes.subrange(65 + cl, 69 + cl) =~= dealer_bytes);
}

/// An encoded dealer message whose public relations hold passes the public
/// preflight of every peer for its dealer, and the preflight reads back
/// the encoded nonces, pad commitments and encrypted shares.
pub proof fn lemma_encoded_message_passes_preflight<G: GoldenGroup>(
    config: DkgConfig<G>,
    message: DealerMessageData<G>,
    proof: Seq<u8>,
    bytes: Seq<u8>,
)
    requires
        config_facts(config),
        message_wf(message),
        message_relations_hold(message),
        message.dealer@ != 0,
        G::dlog(G::identity_spec()) == 0,
        encode_outcome(config, message, proof) == Ok::<Seq<u8>, Error>(bytes),
    ensures
        parse_outcome(config, message.dealer, bytes) is Ok,
        forall|i: int|
            0 <= i < message.instances@.len() ==> bytes.subrange(
                instance_offset(config, i),
                instance_offset(config, i) + 32,
            ) == (#[trigger] message.instances@[i]).nonce.0@,
        forall|i: int, k: int|
            0 <= i < message.instances@.len() && 0 <= k < config.registry_spec().len() - 1
                ==> decoded_pad(config, bytes, i, k) == Some(
                (#[trigger] message.instances@[i].receivers@[k]).pad_commitment,
            ) && decoded_share(config, bytes, i, k) == Some(
                message.instances@[i].receivers@[k].encrypted_share,
            ),
{
    let dealer = message.dealer@;
    let n = config.instances_spec().len() as int;
    assert(message_shape_ok(config, message));
    assert(bytes == dealer_message_bytes(config, message, proof));
    crate::dealer_message::lemma_shape_counts(config, message);
    crate::dealer_message::lemma_prefix_bytes_len::<G>(config, message);
    lemma_header_accepted(config, message, proof);
    assert forall|i: int| 0 <= i < n implies #[trigger] instance_error(config, dealer, bytes, i)
        is None by {
        lemma_slots_accepted(config, message, proof, i);
    }
    crate::dealer_parse::lemma_body_error_prefix(config, dealer, bytes, n);
    assert forall|i: int| 0 <= i < message.instances@.len() implies bytes.subrange(
        instance_offset(config, i),
        instance_offset(config, i) + 32,
    ) == (#[trigger] message.instances@[i]).nonce.0@ by {
        lemma_instance_region(config, message, proof, i);
        let inst = message.instances@[i];
        let region = bytes.subrange(instance_offset(config, i), instance_offset(config, i + 1));
        assert(inst.nonce.0@.len() == 32);
        assert(region.subrange(0, 32) =~= inst.nonce.0@);
        assert(region.subrange(0, 32) =~= bytes.subrange(
            instance_offset(config, i),
            instance_offset(config, i) + 32,
        ));
    }
    assert forall|i: int, k: int|
        0 <= i < message.instances@.len() && 0 <= k < config.registry_spec().len() - 1 implies decoded_pad(
        config,
        bytes,
        i,
        k,
    ) == Some((#[trigger] message.instances@[i].receivers@[k]).pad_commitment) && decoded_share(
        config,
        bytes,
        i,
        k,
    ) == Some(message.instances@[i].receivers@[k].encrypted_share) by {
        lemma_slot_bytes(config, message, proof, i, k);
        let r = message.instances@[i].receivers@[k];
        lemma_element_roundtrip::<G>(r.pad_commitment);
        lemma_protocol_scalar_roundtrip(r.encrypted_share);
    }
}

/// An encoded dealer message, parsed as coming from any participant other
/// than its dealer, is refused with `DealerMismatch` naming the encoded
/// dealer.
pub proof fn lemma_parse_for_other_dealer_mismatches<G: GoldenGroup>(
    config: DkgConfig<G>,
    message: DealerMessageData<G>,
    proof: Seq<u8>,
    bytes: Seq<u8>,
    other: crate::participant::ParticipantIndex,
)
    requires
        config_facts(config),
        message_wf(message),
        message_relations_hold(message),
        message.dealer@ != 0,
        G::dlog(G::identity_spec()) == 0,
        encode_outcome(config, message, proof) == Ok::<Seq<u8>, Error>(bytes),
        other != message.dealer,
    ensures
        parse_outcome(config, other, bytes) == Err::<(), crate::error::DealerMessageError>(
            crate::error::DealerMessageError::DealerMismatch { encoded: message.dealer },
        ),
{
    lemma_encoded_message_passes_preflight(config, message, proof, bytes);
    let d = crate::dealer_parse::encoded_dealer::<G>(bytes);
    assert(header_outcome(config, message.dealer, bytes) is Ok);
    assert(d == message.dealer@);
    crate::participant::lemma_participant_from_raw(d);
    crate::participant::lemma_participant_view_eq(
        crate::participant::participant_from_raw(d),
        message.dealer,
    );
    if other@ == message.dealer@ {
        crate::participant::lemma_participant_view_eq(other, message.dealer);
    }
}

/// An encoded dealer message, parsed under another configuration of the
/// same group whose root differs and whose prefix fits the length limit, is
/// refused with `ConfigurationMismatch`.
pub proof fn lemma_parse_under_other_config_mismatches<G: GoldenGroup>(
    config: DkgConfig<G>,
    other: DkgConfig<G>,
    message: DealerMessageData<G>,
    proof: Seq<u8>,
    bytes: Seq<u8>,
)
    requires
        config_facts(config),
        message_wf(message),
        message_relations_hold(message),
        message.dealer@ != 0,
        G::dlog(G::identity_spec()) == 0,
        encode_outcome(config, message, proof) == Ok::<Seq<u8>, Error>(bytes),
        other.root_spec() != config.root_spec(),
        prefix_len_fits(other),
        prefix_len_spec(other) <= crate::dealer_message::MAX_DEALER_MESSAGE_BYTES,
    ensures
        parse_outcome(other, message.dealer, bytes) == Err::<(), crate::error::DealerMessageError>(
            crate::error::DealerMessageError::ConfigurationMismatch,
        ),
{
    lemma_encoded_message_passes_preflight(config, message, proof, bytes);
    assert(header_outcome(config, message.dealer, bytes) is Ok);
}

/// Every strict prefix of an encoded dealer message that is shorter than
/// the configuration-shaped prefix is refused as malformed.
pub proof fn lemma_truncated_message_is_malformed<G: GoldenGroup>(
    config: DkgConfig<G>,
    message: DealerMessageData<G>,
    proof: Seq<u8>,
    bytes: Seq<u8>,
    end: int,
)
    requires
        config_facts(config),
        message_wf(message),
        message_relations_hold(message),
        message.dealer@ != 0,
        G::dlog(G::identity_spec()) == 0,
        encode_outcome(config, message, proof) == Ok::<Seq<u8>, Error>(bytes),
        0 <= end < prefix_len_spec(config),
    ensures
        parse_outcome(config, message.dealer, bytes.take(end)) == Err::<
            (),
            crate::error::DealerMessageError,
        >(crate::error::DealerMessageError::Malformed),
{
    lemma_encoded_message_passes_preflight(config, message, proof, bytes);
    assert(header_outcome(config, message.dealer, bytes) is Ok);
    let cl = G::curve_id_spec().len() as int;
    let t = bytes.take(end);
    assert(prefix_len_spec(config) >= 69 + cl);
    assert(end <= bytes.len()) by {
        assert(bytes.len() >= prefix_len_spec(config));
    }
    reveal(header_fields_ok);
    if end >= 33 + cl {
        assert(t.subrange(0, 17) =~= bytes.subrange(0, 17));
        assert(t.subrange(17, 21) =~= bytes.subrange(17, 21));
        assert(t.subrange(21, 25) =~= bytes.subrange(21, 25));
        assert(t.subrange(25, 33) =~= bytes.subrange(25, 33));
        assert(t.subrange(33, 33 + cl) =~= bytes.subrange(33, 33 + cl));
        assert(header_fields_ok::<G>(t));
        if end >= 65 + cl {
            assert(t.subrange(33 + cl, 65 + cl) =~= bytes.subrange(33 + cl, 65 + cl));
            if end >= 69 + cl {
                assert(t.subrange(65 + cl, 69 + cl) =~= bytes.subrange(65 + cl, 69 + cl));
                assert(header_outcome(config, message.dealer, t) is Ok);
            }
        }
    }
}

} // verus!
