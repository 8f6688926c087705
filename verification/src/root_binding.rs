//! What the transcript roots bind: the bytes hashed into the completion root
//! and into a dealer message's root determine, for values of one shape,
//! every public value that goes into them.
use vstd::prelude::*;
use vstd::string::StringSliceAdditionalSpecFns;

use crate::bytes::{u32_be, u64_be};
use crate::dealer_message::{
    dealer_message_root_preimage, message_instance_wf, message_receiver_wf, message_wf,
    protocol_scalar_bytes, root_coefficients_bytes, root_instance_bytes, root_instances_bytes,
    root_receiver_bytes, root_receivers_bytes, DealerMessageData, DealerMessageInstance,
    DealerMessageReceiver,
};
use crate::dkg::{kind_code, DkgConfig, DkgInstanceKind};
use crate::dkg_output::{
    completion_instances_bytes, completion_preimage, completion_shares_bytes, DkgInstanceOutput,
};
use crate::group::{GoldenGroup, GoldenScalar};
use crate::participant::{lemma_participant_view_eq, ParticipantIndex};
use crate::transcript::frame;

verus! {

/// Two concatenations whose second parts have one length are equal only
/// part by part.
pub proof fn lemma_concat_suffix_eq<A>(x1: Seq<A>, y1: Seq<A>, x2: Seq<A>, y2: Seq<A>)
    requires
        x1 + y1 == x2 + y2,
        y1.len() == y2.len(),
    ensures
        x1 == x2,
        y1 == y2,
{
    let z = x1 + y1;
    assert(x1 =~= z.subrange(0, x1.len() as int));
    assert(x2 =~= (x2 + y2).subrange(0, x2.len() as int));
    assert(y1 =~= z.subrange(x1.len() as int, z.len() as int));
    assert(y2 =~= (x2 + y2).subrange(x2.len() as int, z.len() as int));
}

/// A frame holds its label and value with their lengths.
pub proof fn lemma_frame_len(label: Seq<u8>, value: Seq<u8>)
    ensures
        frame(label, value).len() == 16 + label.len() + value.len(),
{
    crate::bytes::lemma_u64_be_roundtrip(label.len() as u64);
    crate::bytes::lemma_u64_be_roundtrip(value.len() as u64);
}

/// Bytes ending in frames of one label and of values of one length are
/// equal only when what comes before and the values are.
pub proof fn lemma_peel_frame(x1: Seq<u8>, v1: Seq<u8>, x2: Seq<u8>, v2: Seq<u8>, label: Seq<u8>)
    requires
        x1 + frame(label, v1) == x2 + frame(label, v2),
        v1.len() == v2.len(),
    ensures
        x1 == x2,
        v1 == v2,
{
    lemma_frame_len(label, v1);
    lemma_frame_len(label, v2);
    lemma_concat_suffix_eq(x1, frame(label, v1), x2, frame(label, v2));
    lemma_concat_suffix_eq(
        u64_be(label.len() as u64) + label + u64_be(v1.len() as u64),
        v1,
        u64_be(label.len() as u64) + label + u64_be(v2.len() as u64),
        v2,
    );
}

/// Equal big-endian `u32` encodings hold equal integers.
pub proof fn lemma_u32_be_injective(a: u32, b: u32)
    requires
        u32_be(a) == u32_be(b),
    ensures
        a == b,
{
    crate::bytes::lemma_u32_be_roundtrip(a);
    crate::bytes::lemma_u32_be_roundtrip(b);
}

/// Equal encodings of group elements are encodings of one element.
pub proof fn lemma_encoding_injective<G: GoldenGroup>(a: G::Element, b: G::Element)
    requires
        G::element_wf(a),
        G::element_wf(b),
        G::encode_spec(a) == G::encode_spec(b),
    ensures
        a == b,
{
    G::lemma_group_model(a);
    G::lemma_group_model(b);
}

/// Every element of a list of public key shares is a group element.
pub open spec fn shares_wf<G: GoldenGroup>(shares: Seq<(ParticipantIndex, G::Element)>) -> bool {
    forall|k: int| 0 <= k < shares.len() ==> G::element_wf(#[trigger] shares[k].1)
}

/// Every public key and public key share of a list of instance outputs is
/// a group element.
pub open spec fn outputs_wf<G: GoldenGroup>(instances: Seq<DkgInstanceOutput<G>>) -> bool {
    forall|i: int|
        0 <= i < instances.len() ==> G::element_wf((#[trigger] instances[i]).public_key_spec())
            && shares_wf::<G>(instances[i].shares_spec())
}

/// Lists of as many valid shares take as many bytes.
proof fn lemma_completion_shares_len<G: GoldenGroup>(
    s1: Seq<(ParticipantIndex, G::Element)>,
    s2: Seq<(ParticipantIndex, G::Element)>,
)
    requires
        s1.len() == s2.len(),
        shares_wf::<G>(s1),
        shares_wf::<G>(s2),
    ensures
        completion_shares_bytes::<G>(s1).len() == completion_shares_bytes::<G>(s2).len(),
    decreases s1.len(),
{
    if s1.len() > 0 {
        lemma_completion_shares_len::<G>(s1.drop_last(), s2.drop_last());
        G::lemma_group_model(s1.last().1);
        G::lemma_group_model(s2.last().1);
        lemma_frame_len("participant".spec_bytes(), u32_be(s1.last().0@));
        lemma_frame_len("participant".spec_bytes(), u32_be(s2.last().0@));
        lemma_frame_len("public-key-share".spec_bytes(), G::encode_spec(s1.last().1));
        lemma_frame_len("public-key-share".spec_bytes(), G::encode_spec(s2.last().1));
        crate::bytes::lemma_u32_be_roundtrip(s1.last().0@);
        crate::bytes::lemma_u32_be_roundtrip(s2.last().0@);
    }
}

/// Lists of as many valid shares with equal bytes are equal.
proof fn lemma_completion_shares_injective<G: GoldenGroup>(
    s1: Seq<(ParticipantIndex, G::Element)>,
    s2: Seq<(ParticipantIndex, G::Element)>,
)
    requires
        s1.len() == s2.len(),
        shares_wf::<G>(s1),
        shares_wf::<G>(s2),
        completion_shares_bytes::<G>(s1) == completion_shares_bytes::<G>(s2),
    ensures
        s1 == s2,
    decreases s1.len(),
{
    if s1.len() > 0 {
        let (p1, e1) = s1.last();
        let (p2, e2) = s2.last();
        G::lemma_group_model(e1);
        G::lemma_group_model(e2);
        crate::bytes::lemma_u32_be_roundtrip(p1@);
        crate::bytes::lemma_u32_be_roundtrip(p2@);
        lemma_peel_frame(
            completion_shares_bytes::<G>(s1.drop_last()) + frame(
                "participant".spec_bytes(),
                u32_be(p1@),
            ),
            G::encode_spec(e1),
            completion_shares_bytes::<G>(s2.drop_last()) + frame(
                "participant".spec_bytes(),
                u32_be(p2@),
            ),
            G::encode_spec(e2),
            "public-key-share".spec_bytes(),
        );
        lemma_peel_frame(
            completion_shares_bytes::<G>(s1.drop_last()),
            u32_be(p1@),
            completion_shares_bytes::<G>(s2.drop_last()),
            u32_be(p2@),
            "participant".spec_bytes(),
        );
        lemma_u32_be_injective(p1@, p2@);
        lemma_participant_view_eq(p1, p2);
        lemma_encoding_injective::<G>(e1, e2);
        lemma_completion_shares_injective::<G>(s1.drop_last(), s2.drop_last());
        assert(s1 =~= s1.drop_last().push(s1.last()));
        assert(s2 =~= s2.drop_last().push(s2.last()));
    }
}

/// Instance outputs of one shape take as many bytes.
proof fn lemma_completion_instances_len<G: GoldenGroup>(
    a: Seq<DkgInstanceOutput<G>>,
    b: Seq<DkgInstanceOutput<G>>,
)
    requires
        a.len() == b.len(),
        forall|i: int| 0 <= i < a.len() ==> (#[trigger] a[i]).shares_spec().len() == b[i].shares_spec().len(),
        outputs_wf::<G>(a),
        outputs_wf::<G>(b),
    ensures
        completion_instances_bytes::<G>(a).len() == completion_instances_bytes::<G>(b).len(),
    decreases a.len(),
{
    if a.len() > 0 {
        let n = a.len() - 1;
        assert(a[n].shares_spec().len() == b[n].shares_spec().len());
        assert(G::element_wf(a[n].public_key_spec()) && shares_wf::<G>(a[n].shares_spec()));
        assert(G::element_wf(b[n].public_key_spec()) && shares_wf::<G>(b[n].shares_spec()));
        lemma_completion_instances_len::<G>(a.drop_last(), b.drop_last());
        lemma_completion_shares_len::<G>(a.last().shares_spec(), b.last().shares_spec());
        G::lemma_group_model(a.last().public_key_spec());
        G::lemma_group_model(b.last().public_key_spec());
        lemma_frame_len("instance-position".spec_bytes(), u64_be(n as u64));
        lemma_frame_len("public-key".spec_bytes(), G::encode_spec(a.last().public_key_spec()));
        lemma_frame_len("public-key".spec_bytes(), G::encode_spec(b.last().public_key_spec()));
        lemma_frame_len(
            "public-key-share-count".spec_bytes(),
            u64_be(a.last().shares_spec().len() as u64),
        );
        lemma_frame_len(
            "public-key-share-count".spec_bytes(),
            u64_be(b.last().shares_spec().len() as u64),
        );
        crate::bytes::lemma_u64_be_roundtrip(n as u64);
        crate::bytes::lemma_u64_be_roundtrip(a.last().shares_spec().len() as u64);
    }
}

/// Instance outputs of one shape with equal bytes have equal public keys
/// and equal public key shares.
proof fn lemma_completion_instances_injective<G: GoldenGroup>(
    a: Seq<DkgInstanceOutput<G>>,
    b: Seq<DkgInstanceOutput<G>>,
)
    requires
        a.len() == b.len(),
        forall|i: int| 0 <= i < a.len() ==> (#[trigger] a[i]).shares_spec().len() == b[i].shares_spec().len(),
        outputs_wf::<G>(a),
        outputs_wf::<G>(b),
        completion_instances_bytes::<G>(a) == completion_instances_bytes::<G>(b),
    ensures
        forall|i: int|
            0 <= i < a.len() ==> (#[trigger] a[i]).public_key_spec() == b[i].public_key_spec()
                && a[i].shares_spec() == b[i].shares_spec(),
    decreases a.len(),
{
    if a.len() > 0 {
        let n = a.len() - 1;
        let la = a.last();
        let lb = b.last();
        assert(a[n].shares_spec().len() == b[n].shares_spec().len());
        assert(G::element_wf(a[n].public_key_spec()) && shares_wf::<G>(a[n].shares_spec()));
        assert(G::element_wf(b[n].public_key_spec()) && shares_wf::<G>(b[n].shares_spec()));
        lemma_completion_shares_len::<G>(la.shares_spec(), lb.shares_spec());
        G::lemma_group_model(la.public_key_spec());
        G::lemma_group_model(lb.public_key_spec());
        crate::bytes::lemma_u64_be_roundtrip(la.shares_spec().len() as u64);
        let head_a = completion_instances_bytes::<G>(a.drop_last()) + frame(
            "instance-position".spec_bytes(),
            u64_be(n as u64),
        ) + frame("public-key".spec_bytes(), G::encode_spec(la.public_key_spec())) + frame(
            "public-key-share-count".spec_bytes(),
            u64_be(la.shares_spec().len() as u64),
        );
        let head_b = completion_instances_bytes::<G>(b.drop_last()) + frame(
            "instance-position".spec_bytes(),
            u64_be(n as u64),
        ) + frame("public-key".spec_bytes(), G::encode_spec(lb.public_key_spec())) + frame(
            "public-key-share-count".spec_bytes(),
            u64_be(lb.shares_spec().len() as u64),
        );
        lemma_concat_suffix_eq(
            head_a,
            completion_shares_bytes::<G>(la.shares_spec()),
            head_b,
            completion_shares_bytes::<G>(lb.shares_spec()),
        );
        lemma_completion_shares_injective::<G>(la.shares_spec(), lb.shares_spec());
        lemma_peel_frame(
            completion_instances_bytes::<G>(a.drop_last()) + frame(
                "instance-position".spec_bytes(),
                u64_be(n as u64),
            ) + frame("public-key".spec_bytes(), G::encode_spec(la.public_key_spec())),
            u64_be(la.shares_spec().len() as u64),
            completion_instances_bytes::<G>(b.drop_last()) + frame(
                "instance-position".spec_bytes(),
                u64_be(n as u64),
            ) + frame("public-key".spec_bytes(), G::encode_spec(lb.public_key_spec())),
            u64_be(lb.shares_spec().len() as u64),
            "public-key-share-count".spec_bytes(),
        );
        lemma_peel_frame(
            completion_instances_bytes::<G>(a.drop_last()) + frame(
                "instance-position".spec_bytes(),
                u64_be(n as u64),
            ),
            G::encode_spec(la.public_key_spec()),
            completion_instances_bytes::<G>(b.drop_last()) + frame(
                "instance-position".spec_bytes(),
                u64_be(n as u64),
            ),
            G::encode_spec(lb.public_key_spec()),
            "public-key".spec_bytes(),
        );
        lemma_peel_frame(
            completion_instances_bytes::<G>(a.drop_last()),
            u64_be(n as u64),
            completion_instances_bytes::<G>(b.drop_last()),
            u64_be(n as u64),
            "instance-position".spec_bytes(),
        );
        lemma_encoding_injective::<G>(la.public_key_spec(), lb.public_key_spec());
        let a2 = a.drop_last();
        let b2 = b.drop_last();
        assert forall|i: int| 0 <= i < a2.len() implies (#[trigger] a2[i]).shares_spec().len()
            == b2[i].shares_spec().len() by {
            assert(a2[i] == a[i]);
            assert(b2[i] == b[i]);
        }
        assert(outputs_wf::<G>(a2)) by {
            assert forall|i: int| 0 <= i < a2.len() implies G::element_wf(
                (#[trigger] a2[i]).public_key_spec(),
            ) && shares_wf::<G>(a2[i].shares_spec()) by {
                assert(a2[i] == a[i]);
            }
        }
        assert(outputs_wf::<G>(b2)) by {
            assert forall|i: int| 0 <= i < b2.len() implies G::element_wf(
                (#[trigger] b2[i]).public_key_spec(),
            ) && shares_wf::<G>(b2[i].shares_spec()) by {
                assert(b2[i] == b[i]);
            }
        }
        lemma_completion_instances_injective::<G>(a2, b2);
        assert forall|i: int| 0 <= i < a.len() implies (#[trigger] a[i]).public_key_spec()
            == b[i].public_key_spec() && a[i].shares_spec() == b[i].shares_spec() by {
            if i < n {
                assert(a2[i] == a[i]);
                assert(b2[i] == b[i]);
            }
        }
    }
}

/// The completion root binds every public value of a batch: two batches of
/// one shape (as many instances, and in each as many public key shares),
/// whose configuration roots have one length and whose completion
/// preimages are equal, have the same configuration root and, instance by
/// instance, the same public key and the same public key shares, each
/// participant with its share, in order.
pub proof fn lemma_completion_preimage_binds_outputs<G: GoldenGroup>(
    root1: Seq<u8>,
    a: Seq<DkgInstanceOutput<G>>,
    root2: Seq<u8>,
    b: Seq<DkgInstanceOutput<G>>,
)
    requires
        root1.len() == root2.len(),
        a.len() == b.len(),
        forall|i: int| 0 <= i < a.len() ==> (#[trigger] a[i]).shares_spec().len() == b[i].shares_spec().len(),
        outputs_wf::<G>(a),
        outputs_wf::<G>(b),
        completion_preimage::<G>(root1, a) == completion_preimage::<G>(root2, b),
    ensures
        root1 == root2,
        forall|i: int|
            0 <= i < a.len() ==> (#[trigger] a[i]).public_key_spec() == b[i].public_key_spec()
                && a[i].shares_spec() == b[i].shares_spec(),
{
    reveal(completion_preimage);
    lemma_completion_instances_len::<G>(a, b);
    let start = crate::transcript::transcript_start(
        "golden-dkg/completion-root/v1".spec_bytes(),
        "common-public-output".spec_bytes(),
    ) + frame("protocol-version".spec_bytes(), u32_be(crate::dkg::PROTOCOL_VERSION));
    lemma_concat_suffix_eq(
        start + frame("configuration-root".spec_bytes(), root1) + frame(
            "instance-count".spec_bytes(),
            u64_be(a.len() as u64),
        ),
        completion_instances_bytes::<G>(a),
        start + frame("configuration-root".spec_bytes(), root2) + frame(
            "instance-count".spec_bytes(),
            u64_be(b.len() as u64),
        ),
        completion_instances_bytes::<G>(b),
    );
    lemma_completion_instances_injective::<G>(a, b);
    lemma_peel_frame(
        start + frame("configuration-root".spec_bytes(), root1),
        u64_be(a.len() as u64),
        start + frame("configuration-root".spec_bytes(), root2),
        u64_be(b.len() as u64),
        "instance-count".spec_bytes(),
    );
    lemma_peel_frame(start, root1, start, root2, "configuration-root".spec_bytes());
}

/// The protocol encoding of a valid scalar has the representation length.
proof fn lemma_protocol_scalar_len<S: GoldenScalar>(s: S)
    requires
        s.wf(),
    ensures
        protocol_scalar_bytes(s).len() == S::repr_len(),
{
    S::lemma_scalar_model(s, s);
}

/// Equal protocol encodings of valid scalars are encodings of one scalar.
proof fn lemma_protocol_scalar_injective<S: GoldenScalar>(a: S, b: S)
    requires
        a.wf(),
        b.wf(),
        protocol_scalar_bytes(a) == protocol_scalar_bytes(b),
    ensures
        a == b,
{
    crate::dealer_roundtrip::lemma_protocol_scalar_roundtrip(a);
    crate::dealer_roundtrip::lemma_protocol_scalar_roundtrip(b);
}

/// The root bytes of two valid receiver slots at one position have one
/// length.
proof fn lemma_root_receiver_len<G: GoldenGroup>(
    p: int,
    r1: DealerMessageReceiver<G>,
    r2: DealerMessageReceiver<G>,
)
    requires
        message_receiver_wf::<G>(r1),
        message_receiver_wf::<G>(r2),
    ensures
        root_receiver_bytes::<G>(p, r1).len() == root_receiver_bytes::<G>(p, r2).len(),
{
    G::lemma_group_model(r1.public_key);
    G::lemma_group_model(r2.public_key);
    G::lemma_group_model(r1.share_commitment);
    G::lemma_group_model(r2.share_commitment);
    G::lemma_group_model(r1.pad_commitment);
    G::lemma_group_model(r2.pad_commitment);
    lemma_protocol_scalar_len(r1.encrypted_share);
    lemma_protocol_scalar_len(r2.encrypted_share);
    crate::bytes::lemma_u32_be_roundtrip(r1.participant@);
    crate::bytes::lemma_u32_be_roundtrip(r2.participant@);
    lemma_frame_len("receiver".spec_bytes(), u32_be(r1.participant@));
    lemma_frame_len("receiver".spec_bytes(), u32_be(r2.participant@));
    lemma_frame_len("receiver-public-key".spec_bytes(), G::encode_spec(r1.public_key));
    lemma_frame_len("receiver-public-key".spec_bytes(), G::encode_spec(r2.public_key));
    lemma_frame_len("share-commitment".spec_bytes(), G::encode_spec(r1.share_commitment));
    lemma_frame_len("share-commitment".spec_bytes(), G::encode_spec(r2.share_commitment));
    lemma_frame_len("pad-commitment".spec_bytes(), G::encode_spec(r1.pad_commitment));
    lemma_frame_len("pad-commitment".spec_bytes(), G::encode_spec(r2.pad_commitment));
    lemma_frame_len("encrypted-share".spec_bytes(), protocol_scalar_bytes(r1.encrypted_share));
    lemma_frame_len("encrypted-share".spec_bytes(), protocol_scalar_bytes(r2.encrypted_share));
}

/// Valid receiver slots at one position with equal root bytes are equal:
/// same receiver, public key, share commitment, pad commitment and
/// encrypted share.
proof fn lemma_root_receiver_injective<G: GoldenGroup>(
    p: int,
    r1: DealerMessageReceiver<G>,
    r2: DealerMessageReceiver<G>,
)
    requires
        message_receiver_wf::<G>(r1),
        message_receiver_wf::<G>(r2),
        root_receiver_bytes::<G>(p, r1) == root_receiver_bytes::<G>(p, r2),
    ensures
        r1 == r2,
{
    G::lemma_group_model(r1.public_key);
    G::lemma_group_model(r2.public_key);
    G::lemma_group_model(r1.share_commitment);
    G::lemma_group_model(r2.share_commitment);
    G::lemma_group_model(r1.pad_commitment);
    G::lemma_group_model(r2.pad_commitment);
    lemma_protocol_scalar_len(r1.encrypted_share);
    lemma_protocol_scalar_len(r2.encrypted_share);
    crate::bytes::lemma_u32_be_roundtrip(r1.participant@);
    crate::bytes::lemma_u32_be_roundtrip(r2.participant@);
    let pos = frame("receiver-position".spec_bytes(), u64_be(p as u64));
    let x1_1 = pos + frame("receiver".spec_bytes(), u32_be(r1.participant@));
    let x1_2 = pos + frame("receiver".spec_bytes(), u32_be(r2.participant@));
    let x2_1 = x1_1 + frame("receiver-public-key".spec_bytes(), G::encode_spec(r1.public_key));
    let x2_2 = x1_2 + frame("receiver-public-key".spec_bytes(), G::encode_spec(r2.public_key));
    let x3_1 = x2_1 + frame("share-commitment".spec_bytes(), G::encode_spec(r1.share_commitment));
    let x3_2 = x2_2 + frame("share-commitment".spec_bytes(), G::encode_spec(r2.share_commitment));
    let x4_1 = x3_1 + frame("pad-commitment".spec_bytes(), G::encode_spec(r1.pad_commitment));
    let x4_2 = x3_2 + frame("pad-commitment".spec_bytes(), G::encode_spec(r2.pad_commitment));
    lemma_peel_frame(
        x4_1,
        protocol_scalar_bytes(r1.encrypted_share),
        x4_2,
        protocol_scalar_bytes(r2.encrypted_share),
        "encrypted-share".spec_bytes(),
    );
    lemma_peel_frame(
        x3_1,
        G::encode_spec(r1.pad_commitment),
        x3_2,
        G::encode_spec(r2.pad_commitment),
        "pad-commitment".spec_bytes(),
    );
    lemma_peel_frame(
        x2_1,
        G::encode_spec(r1.share_commitment),
        x2_2,
        G::encode_spec(r2.share_commitment),
        "share-commitment".spec_bytes(),
    );
    lemma_peel_frame(
        x1_1,
        G::encode_spec(r1.public_key),
        x1_2,
        G::encode_spec(r2.public_key),
        "receiver-public-key".spec_bytes(),
    );
    lemma_peel_frame(
        pos,
        u32_be(r1.participant@),
        pos,
        u32_be(r2.participant@),
        "receiver".spec_bytes(),
    );
    lemma_u32_be_injective(r1.participant@, r2.participant@);
    lemma_participant_view_eq(r1.participant, r2.participant);
    lemma_encoding_injective::<G>(r1.public_key, r2.public_key);
    lemma_encoding_injective::<G>(r1.share_commitment, r2.share_commitment);
    lemma_encoding_injective::<G>(r1.pad_commitment, r2.pad_commitment);
    lemma_protocol_scalar_injective(r1.encrypted_share, r2.encrypted_share);
}

/// Every receiver slot of a list is valid.
pub open spec fn receivers_wf<G: GoldenGroup>(rs: Seq<DealerMessageReceiver<G>>) -> bool {
    forall|k: int| 0 <= k < rs.len() ==> message_receiver_wf::<G>(#[trigger] rs[k])
}

/// Every commitment coefficient of a list is a group element.
pub open spec fn elements_wf<G: GoldenGroup>(cs: Seq<G::Element>) -> bool {
    forall|k: int| 0 <= k < cs.len() ==> G::element_wf(#[trigger] cs[k])
}

/// As many valid receiver slots take as many root bytes.
proof fn lemma_root_receivers_len<G: GoldenGroup>(
    a: Seq<DealerMessageReceiver<G>>,
    b: Seq<DealerMessageReceiver<G>>,
)
    requires
        a.len() == b.len(),
        receivers_wf::<G>(a),
        receivers_wf::<G>(b),
    ensures
        root_receivers_bytes::<G>(a).len() == root_receivers_bytes::<G>(b).len(),
    decreases a.len(),
{
    if a.len() > 0 {
        lemma_root_receivers_len::<G>(a.drop_last(), b.drop_last());
        lemma_root_receiver_len::<G>(a.len() - 1, a.last(), b.last());
    }
}

/// As many valid receiver slots with equal root bytes are equal.
proof fn lemma_root_receivers_injective<G: GoldenGroup>(
    a: Seq<DealerMessageReceiver<G>>,
    b: Seq<DealerMessageReceiver<G>>,
)
    requires
        a.len() == b.len(),
        receivers_wf::<G>(a),
        receivers_wf::<G>(b),
        root_receivers_bytes::<G>(a) == root_receivers_bytes::<G>(b),
    ensures
        a == b,
    decreases a.len(),
{
    if a.len() > 0 {
        lemma_root_receiver_len::<G>(a.len() - 1, a.last(), b.last());
        lemma_concat_suffix_eq(
            root_receivers_bytes::<G>(a.drop_last()),
            root_receiver_bytes::<G>(a.len() - 1, a.last()),
            root_receivers_bytes::<G>(b.drop_last()),
            root_receiver_bytes::<G>(b.len() - 1, b.last()),
        );
        lemma_root_receiver_injective::<G>(a.len() - 1, a.last(), b.last());
        lemma_root_receivers_injective::<G>(a.drop_last(), b.drop_last());
        assert(a =~= a.drop_last().push(a.last()));
        assert(b =~= b.drop_last().push(b.last()));
    }
}

/// As many valid coefficients take as many root bytes.
proof fn lemma_root_coefficients_len<G: GoldenGroup>(a: Seq<G::Element>, b: Seq<G::Element>)
    requires
        a.len() == b.len(),
        elements_wf::<G>(a),
        elements_wf::<G>(b),
    ensures
        root_coefficients_bytes::<G>(a).len() == root_coefficients_bytes::<G>(b).len(),
    decreases a.len(),
{
    if a.len() > 0 {
        lemma_root_coefficients_len::<G>(a.drop_last(), b.drop_last());
        G::lemma_group_model(a.last());
        G::lemma_group_model(b.last());
        lemma_frame_len("commitment-coefficient".spec_bytes(), G::encode_spec(a.last()));
        lemma_frame_len("commitment-coefficient".spec_bytes(), G::encode_spec(b.last()));
    }
}

/// As many valid coefficients with equal root bytes are equal.
proof fn lemma_root_coefficients_injective<G: GoldenGroup>(a: Seq<G::Element>, b: Seq<G::Element>)
    requires
        a.len() == b.len(),
        elements_wf::<G>(a),
        elements_wf::<G>(b),
        root_coefficients_bytes::<G>(a) == root_coefficients_bytes::<G>(b),
    ensures
        a == b,
    decreases a.len(),
{
    if a.len() > 0 {
        G::lemma_group_model(a.last());
        G::lemma_group_model(b.last());
        lemma_peel_frame(
            root_coefficients_bytes::<G>(a.drop_last()),
            G::encode_spec(a.last()),
            root_coefficients_bytes::<G>(b.drop_last()),
            G::encode_spec(b.last()),
            "commitment-coefficient".spec_bytes(),
        );
        lemma_encoding_injective::<G>(a.last(), b.last());
        lemma_root_coefficients_injective::<G>(a.drop_last(), b.drop_last());
        assert(a =~= a.drop_last().push(a.last()));
        assert(b =~= b.drop_last().push(b.last()));
    }
}

/// Two instances of one shape: as many coefficients and as many receiver
/// slots, all valid.
pub open spec fn instances_same_shape<G: GoldenGroup>(
    a: DealerMessageInstance<G>,
    b: DealerMessageInstance<G>,
) -> bool {
    &&& a.commitment_coefficients@.len() == b.commitment_coefficients@.len()
    &&& a.receivers@.len() == b.receivers@.len()
    &&& message_instance_wf::<G>(a)
    &&& message_instance_wf::<G>(b)
}

/// The root bytes of instances of one shape at one position have one
/// length, and are equal only when their effective messages, coefficients
/// and receiver slots are.
proof fn lemma_root_instance_injective<G: GoldenGroup>(
    p: int,
    kind: DkgInstanceKind,
    a: DealerMessageInstance<G>,
    b: DealerMessageInstance<G>,
)
    requires
        instances_same_shape::<G>(a, b),
    ensures
        root_instance_bytes::<G>(p, kind, a).len() == root_instance_bytes::<G>(p, kind, b).len(),
        root_instance_bytes::<G>(p, kind, a) == root_instance_bytes::<G>(p, kind, b) ==> {
            &&& a.effective_message == b.effective_message
            &&& a.commitment_coefficients@ == b.commitment_coefficients@
            &&& a.receivers@ == b.receivers@
        },
{
    let ca = a.commitment_coefficients@;
    let cb = b.commitment_coefficients@;
    let ra = a.receivers@;
    let rb = b.receivers@;
    assert(elements_wf::<G>(ca));
    assert(elements_wf::<G>(cb));
    assert(receivers_wf::<G>(ra));
    assert(receivers_wf::<G>(rb));
    lemma_root_coefficients_len::<G>(ca, cb);
    lemma_root_receivers_len::<G>(ra, rb);
    crate::bytes::lemma_u64_be_roundtrip(ca.len() as u64);
    crate::bytes::lemma_u64_be_roundtrip(ra.len() as u64);
    let head = frame("instance-position".spec_bytes(), u64_be(p as u64)) + frame(
        "instance-kind".spec_bytes(),
        u32_be(kind_code(kind) as u32),
    );
    let x1a = head + frame("effective-message".spec_bytes(), a.effective_message.0@);
    let x1b = head + frame("effective-message".spec_bytes(), b.effective_message.0@);
    let x2a = x1a + frame("commitment-coefficient-count".spec_bytes(), u64_be(ca.len() as u64));
    let x2b = x1b + frame("commitment-coefficient-count".spec_bytes(), u64_be(cb.len() as u64));
    let x3a = x2a + root_coefficients_bytes::<G>(ca);
    let x3b = x2b + root_coefficients_bytes::<G>(cb);
    let x4a = x3a + frame("receiver-count".spec_bytes(), u64_be(ra.len() as u64));
    let x4b = x3b + frame("receiver-count".spec_bytes(), u64_be(rb.len() as u64));
    assert(a.effective_message.0@.len() == 32);
    assert(b.effective_message.0@.len() == 32);
    lemma_frame_len("effective-message".spec_bytes(), a.effective_message.0@);
    lemma_frame_len("effective-message".spec_bytes(), b.effective_message.0@);
    lemma_frame_len("commitment-coefficient-count".spec_bytes(), u64_be(ca.len() as u64));
    lemma_frame_len("commitment-coefficient-count".spec_bytes(), u64_be(cb.len() as u64));
    lemma_frame_len("receiver-count".spec_bytes(), u64_be(ra.len() as u64));
    lemma_frame_len("receiver-count".spec_bytes(), u64_be(rb.len() as u64));
    assert(root_instance_bytes::<G>(p, kind, a) == x4a + root_receivers_bytes::<G>(ra));
    assert(root_instance_bytes::<G>(p, kind, b) == x4b + root_receivers_bytes::<G>(rb));
    if root_instance_bytes::<G>(p, kind, a) == root_instance_bytes::<G>(p, kind, b) {
        lemma_concat_suffix_eq(x4a, root_receivers_bytes::<G>(ra), x4b, root_receivers_bytes::<G>(rb));
        lemma_root_receivers_injective::<G>(ra, rb);
        lemma_peel_frame(
            x3a,
            u64_be(ra.len() as u64),
            x3b,
            u64_be(rb.len() as u64),
            "receiver-count".spec_bytes(),
        );
        lemma_concat_suffix_eq(x2a, root_coefficients_bytes::<G>(ca), x2b, root_coefficients_bytes::<G>(cb));
        lemma_root_coefficients_injective::<G>(ca, cb);
        lemma_peel_frame(
            x1a,
            u64_be(ca.len() as u64),
            x1b,
            u64_be(cb.len() as u64),
            "commitment-coefficient-count".spec_bytes(),
        );
        lemma_peel_frame(
            head,
            a.effective_message.0@,
            head,
            b.effective_message.0@,
            "effective-message".spec_bytes(),
        );
        assert(a.effective_message.0 == b.effective_message.0);
    }
}

/// Every pair of instances at one index has one shape.
pub open spec fn messages_same_shape<G: GoldenGroup>(
    a: Seq<DealerMessageInstance<G>>,
    b: Seq<DealerMessageInstance<G>>,
) -> bool {
    &&& a.len() == b.len()
    &&& forall|i: int| 0 <= i < a.len() ==> instances_same_shape::<G>(#[trigger] a[i], b[i])
}

/// Instance lists of one shape have root bytes of one length, equal only
/// when their effective messages, coefficients and receiver slots are.
proof fn lemma_root_instances_injective<G: GoldenGroup>(
    a: Seq<DealerMessageInstance<G>>,
    b: Seq<DealerMessageInstance<G>>,
    kinds: Seq<DkgInstanceKind>,
)
    requires
        messages_same_shape::<G>(a, b),
    ensures
        root_instances_bytes::<G>(a, kinds).len() == root_instances_bytes::<G>(b, kinds).len(),
        root_instances_bytes::<G>(a, kinds) == root_instances_bytes::<G>(b, kinds) ==> forall|i: int|
            0 <= i < a.len() ==> {
                &&& (#[trigger] a[i]).effective_message == b[i].effective_message
                &&& a[i].commitment_coefficients@ == b[i].commitment_coefficients@
                &&& a[i].receivers@ == b[i].receivers@
            },
    decreases a.len(),
{
    if a.len() > 0 {
        let n = a.len() - 1;
        let a2 = a.drop_last();
        let b2 = b.drop_last();
        assert(instances_same_shape::<G>(a[n], b[n]));
        assert(messages_same_shape::<G>(a2, b2)) by {
            assert forall|i: int| 0 <= i < a2.len() implies instances_same_shape::<G>(
                #[trigger] a2[i],
                b2[i],
            ) by {
                assert(a2[i] == a[i]);
                assert(b2[i] == b[i]);
            }
        }
        lemma_root_instances_injective::<G>(a2, b2, kinds);
        lemma_root_instance_injective::<G>(n, kinds[n], a.last(), b.last());
        if root_instances_bytes::<G>(a, kinds) == root_instances_bytes::<G>(b, kinds) {
            lemma_concat_suffix_eq(
                root_instances_bytes::<G>(a2, kinds),
                root_instance_bytes::<G>(n, kinds[n], a.last()),
                root_instances_bytes::<G>(b2, kinds),
                root_instance_bytes::<G>(n, kinds[n], b.last()),
            );
            assert forall|i: int| 0 <= i < a.len() implies {
                &&& (#[trigger] a[i]).effective_message == b[i].effective_message
                &&& a[i].commitment_coefficients@ == b[i].commitment_coefficients@
                &&& a[i].receivers@ == b[i].receivers@
            } by {
                if i < n {
                    assert(a2[i] == a[i]);
                    assert(b2[i] == b[i]);
                }
            }
        }
    }
}

/// The root of a dealer message binds its public values: two valid
/// messages for one configuration from registered dealers, of one shape (as
/// many instances, and in each as many coefficients and receiver slots),
/// whose root preimages are equal, have the same dealer and, instance by
/// instance, the same effective message, the same
/// commitment coefficients and the same receiver slots, each with the same
/// receiver, public key, share commitment, pad commitment and encrypted
/// share.
pub proof fn lemma_dealer_root_binds_message<G: GoldenGroup>(
    config: DkgConfig<G>,
    m1: DealerMessageData<G>,
    m2: DealerMessageData<G>,
)
    requires
        message_wf::<G>(m1),
        message_wf::<G>(m2),
        m1.instances@.len() == m2.instances@.len(),
        forall|i: int|
            0 <= i < m1.instances@.len() ==> (#[trigger] m1.instances@[i]).commitment_coefficients@.len()
                == m2.instances@[i].commitment_coefficients@.len() && m1.instances@[i].receivers@.len()
                == m2.instances@[i].receivers@.len(),
        G::element_wf(crate::dealer_message::registered_key(config.registry_spec(), m1.dealer@)),
        G::element_wf(crate::dealer_message::registered_key(config.registry_spec(), m2.dealer@)),
        dealer_message_root_preimage::<G>(config, m1) == dealer_message_root_preimage::<G>(config, m2),
    ensures
        m1.dealer == m2.dealer,
        forall|i: int|
            0 <= i < m1.instances@.len() ==> {
                &&& (#[trigger] m1.instances@[i]).effective_message == m2.instances@[i].effective_message
                &&& m1.instances@[i].commitment_coefficients@ == m2.instances@[i].commitment_coefficients@
                &&& m1.instances@[i].receivers@ == m2.instances@[i].receivers@
            },
{
    reveal(message_wf);
    reveal(dealer_message_root_preimage);
    let a = m1.instances@;
    let b = m2.instances@;
    assert(messages_same_shape::<G>(a, b)) by {
        assert forall|i: int| 0 <= i < a.len() implies instances_same_shape::<G>(#[trigger] a[i], b[i]) by {
            assert(message_instance_wf::<G>(a[i]));
            assert(message_instance_wf::<G>(b[i]));
        }
    }
    let kinds = config.instances_spec();
    lemma_root_instances_injective::<G>(a, b, kinds);
    let head1 = crate::transcript::transcript_start(
        "golden-dkg/dealer-message-root/v1".spec_bytes(),
        "public-statement".spec_bytes(),
    ) + frame("protocol-version".spec_bytes(), u32_be(crate::dkg::PROTOCOL_VERSION)) + frame(
        "configuration-root".spec_bytes(),
        config.root_spec(),
    ) + frame("dealer".spec_bytes(), u32_be(m1.dealer@)) + frame(
        "dealer-public-key".spec_bytes(),
        G::encode_spec(crate::dealer_message::registered_key(config.registry_spec(), m1.dealer@)),
    ) + frame("instance-count".spec_bytes(), u64_be(a.len() as u64));
    let head2 = crate::transcript::transcript_start(
        "golden-dkg/dealer-message-root/v1".spec_bytes(),
        "public-statement".spec_bytes(),
    ) + frame("protocol-version".spec_bytes(), u32_be(crate::dkg::PROTOCOL_VERSION)) + frame(
        "configuration-root".spec_bytes(),
        config.root_spec(),
    ) + frame("dealer".spec_bytes(), u32_be(m2.dealer@)) + frame(
        "dealer-public-key".spec_bytes(),
        G::encode_spec(crate::dealer_message::registered_key(config.registry_spec(), m2.dealer@)),
    ) + frame("instance-count".spec_bytes(), u64_be(b.len() as u64));
    lemma_concat_suffix_eq(
        head1,
        root_instances_bytes::<G>(a, kinds),
        head2,
        root_instances_bytes::<G>(b, kinds),
    );
    let k1 = crate::dealer_message::registered_key(config.registry_spec(), m1.dealer@);
    let k2 = crate::dealer_message::registered_key(config.registry_spec(), m2.dealer@);
    let start = crate::transcript::transcript_start(
        "golden-dkg/dealer-message-root/v1".spec_bytes(),
        "public-statement".spec_bytes(),
    ) + frame("protocol-version".spec_bytes(), u32_be(crate::dkg::PROTOCOL_VERSION)) + frame(
        "configuration-root".spec_bytes(),
        config.root_spec(),
    );
    G::lemma_group_model(k1);
    G::lemma_group_model(k2);
    crate::bytes::lemma_u32_be_roundtrip(m1.dealer@);
    crate::bytes::lemma_u32_be_roundtrip(m2.dealer@);
    lemma_peel_frame(
        start + frame("dealer".spec_bytes(), u32_be(m1.dealer@)) + frame(
            "dealer-public-key".spec_bytes(),
            G::encode_spec(k1),
        ),
        u64_be(a.len() as u64),
        start + frame("dealer".spec_bytes(), u32_be(m2.dealer@)) + frame(
            "dealer-public-key".spec_bytes(),
            G::encode_spec(k2),
        ),
        u64_be(b.len() as u64),
        "instance-count".spec_bytes(),
    );
    lemma_peel_frame(
        start + frame("dealer".spec_bytes(), u32_be(m1.dealer@)),
        G::encode_spec(k1),
        start + frame("dealer".spec_bytes(), u32_be(m2.dealer@)),
        G::encode_spec(k2),
        "dealer-public-key".spec_bytes(),
    );
    lemma_peel_frame(start, u32_be(m1.dealer@), start, u32_be(m2.dealer@), "dealer".spec_bytes());
    lemma_u32_be_injective(m1.dealer@, m2.dealer@);
    lemma_participant_view_eq(m1.dealer, m2.dealer);
}

} // verus!
