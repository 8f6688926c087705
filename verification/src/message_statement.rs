//! The flat proof statement of a parsed dealer message.
use vstd::prelude::*;

use crate::dealer_message::{
    message_instance_wf, message_receiver_wf, message_wf, DealerMessageData,
    DealerMessageInstance, DealerMessageReceiver,
};
use crate::dealer_proof::{parts_wf, DealerProofStatement};
use crate::dkg::{DkgConfig, EvrfMessage};
use crate::error::Error;
use crate::group::{GoldenGroup, GoldenScalar};
use crate::transcript::TranscriptRoot;

verus! {

/// The effective messages of the instances, in order.
pub open spec fn flat_messages<G: GoldenGroup>(insts: Seq<DealerMessageInstance<G>>) -> Seq<
    EvrfMessage,
> {
    Seq::new(insts.len(), |i: int| insts[i].effective_message)
}

/// The commitment coefficients of the instances, one instance after the
/// other.
pub open spec fn flat_coefficients<G: GoldenGroup>(insts: Seq<DealerMessageInstance<G>>) -> Seq<
    G::Element,
>
    decreases insts.len(),
{
    if insts.len() == 0 {
        Seq::empty()
    } else {
        flat_coefficients(insts.drop_last()) + insts.last().commitment_coefficients@
    }
}

/// The receiver slots of the instances, one instance after the other.
pub open spec fn flat_receivers<G: GoldenGroup>(insts: Seq<DealerMessageInstance<G>>) -> Seq<
    DealerMessageReceiver<G>,
>
    decreases insts.len(),
{
    if insts.len() == 0 {
        Seq::empty()
    } else {
        flat_receivers(insts.drop_last()) + insts.last().receivers@
    }
}

/// The share commitments of the flat receiver slots.
pub open spec fn flat_share_commitments<G: GoldenGroup>(
    insts: Seq<DealerMessageInstance<G>>,
) -> Seq<G::Element> {
    let rs = flat_receivers(insts);
    Seq::new(rs.len(), |t: int| rs[t].share_commitment)
}

/// The pad commitments of the flat receiver slots.
pub open spec fn flat_pad_commitments<G: GoldenGroup>(insts: Seq<DealerMessageInstance<G>>) -> Seq<
    G::Element,
> {
    let rs = flat_receivers(insts);
    Seq::new(rs.len(), |t: int| rs[t].pad_commitment)
}

/// The encrypted shares of the flat receiver slots.
pub open spec fn flat_encrypted_shares<G: GoldenGroup>(
    insts: Seq<DealerMessageInstance<G>>,
) -> Seq<G::Scalar> {
    let rs = flat_receivers(insts);
    Seq::new(rs.len(), |t: int| rs[t].encrypted_share)
}

/// The flat lists have `threshold` coefficients and `rpi` receiver slots
/// per instance when every instance has.
pub proof fn lemma_flat_lengths<G: GoldenGroup>(
    insts: Seq<DealerMessageInstance<G>>,
    threshold: int,
    rpi: int,
)
    requires
        forall|i: int|
            0 <= i < insts.len() ==> (#[trigger] insts[i]).commitment_coefficients@.len()
                == threshold && insts[i].receivers@.len() == rpi,
    ensures
        flat_coefficients(insts).len() == insts.len() * threshold,
        flat_receivers(insts).len() == insts.len() * rpi,
    decreases insts.len(),
{
    if insts.len() > 0 {
        let init = insts.drop_last();
        assert forall|i: int| 0 <= i < init.len() implies (#[trigger] init[i]).commitment_coefficients@.len()
            == threshold && init[i].receivers@.len() == rpi by {
            assert(init[i] == insts[i]);
        }
        lemma_flat_lengths(init, threshold, rpi);
        assert(insts.last() == insts[insts.len() - 1]);
        let n = insts.len() as int;
        assert((n - 1) * threshold + threshold == n * threshold) by (nonlinear_arith);
        assert((n - 1) * rpi + rpi == n * rpi) by (nonlinear_arith);
    }
}

/// The flat lists of the first `i + 1` instances extend those of the first
/// `i` by instance `i`.
proof fn lemma_flat_step<G: GoldenGroup>(insts: Seq<DealerMessageInstance<G>>, i: int)
    requires
        0 <= i < insts.len(),
    ensures
        flat_coefficients(insts.take(i + 1)) == flat_coefficients(insts.take(i))
            + insts[i].commitment_coefficients@,
        flat_receivers(insts.take(i + 1)) == flat_receivers(insts.take(i)) + insts[i].receivers@,
        flat_messages(insts.take(i + 1)) == flat_messages(insts.take(i)).push(
            insts[i].effective_message,
        ),
{
    assert(insts.take(i + 1).drop_last() =~= insts.take(i));
    assert(flat_messages(insts.take(i + 1)) =~= flat_messages(insts.take(i)).push(
        insts[i].effective_message,
    ));
}

/// Flatten a message into the lists of its proof statement and build the
/// statement: effective messages, coefficients, and the share commitments,
/// pad commitments and encrypted shares of every receiver slot, instance
/// after instance.
pub fn statement_from_message<G: GoldenGroup>(
    config: &DkgConfig<G>,
    message: &DealerMessageData<G>,
    message_root: TranscriptRoot,
) -> (result: Result<DealerProofStatement<G>, Error>)
    requires
        message_wf(*message),
    ensures
        ({
            let insts = message.instances@;
            &&& result is Ok <==> DealerProofStatement::<G>::parts_fit(
                config,
                message.dealer,
                flat_messages(insts),
                flat_coefficients(insts),
                flat_share_commitments(insts),
                flat_pad_commitments(insts),
                flat_encrypted_shares(insts),
            )
            &&& result matches Ok(s) ==> s.built_from(
                config,
                message.dealer,
                message_root,
                flat_messages(insts),
                flat_coefficients(insts),
                flat_share_commitments(insts),
                flat_pad_commitments(insts),
                flat_encrypted_shares(insts),
            )
            &&& result matches Err(e) ==> e == Error::ProofVerificationFailed || e
                == Error::UnknownParticipant(message.dealer@)
        }),
{
    let insts = &message.instances;
    proof {
        reveal(message_wf);
        assert(insts@.take(0) =~= Seq::<DealerMessageInstance<G>>::empty());
        assert(flat_messages(insts@.take(0)) =~= Seq::<EvrfMessage>::empty());
    }
    let mut effective_messages: Vec<EvrfMessage> = Vec::new();
    let mut coefficients: Vec<G::Element> = Vec::new();
    let mut receivers: Vec<DealerMessageReceiver<G>> = Vec::new();
    let mut i: usize = 0;
    while i < insts.len()
        invariant
            i <= insts@.len(),
            insts@ == message.instances@,
            forall|ii: int| 0 <= ii < insts@.len() ==> message_instance_wf::<G>(#[trigger] insts@[ii]),
            effective_messages@ == flat_messages(insts@.take(i as int)),
            coefficients@ == flat_coefficients(insts@.take(i as int)),
            receivers@ == flat_receivers(insts@.take(i as int)),
            forall|c: int| 0 <= c < coefficients@.len() ==> G::element_wf(#[trigger] coefficients@[c]),
            forall|t: int| 0 <= t < receivers@.len() ==> message_receiver_wf::<G>(#[trigger] receivers@[t]),
        decreases insts@.len() - i,
    {
        let inst = &insts[i];
        proof {
            lemma_flat_step(insts@, i as int);
            assert(message_instance_wf::<G>(insts@[i as int]));
        }
        effective_messages.push(inst.effective_message);
        let ghost before_c = coefficients@;
        let mut c: usize = 0;
        while c < inst.commitment_coefficients.len()
            invariant
                c <= inst.commitment_coefficients@.len(),
                message_instance_wf::<G>(*inst),
                coefficients@ == before_c + inst.commitment_coefficients@.take(c as int),
                forall|cc: int| 0 <= cc < before_c.len() ==> G::element_wf(#[trigger] before_c[cc]),
                forall|cc: int| 0 <= cc < coefficients@.len() ==> G::element_wf(#[trigger] coefficients@[cc]),
            decreases inst.commitment_coefficients@.len() - c,
        {
            coefficients.push(inst.commitment_coefficients[c]);
            c = c + 1;
            assert(coefficients@ =~= before_c + inst.commitment_coefficients@.take(c as int));
        }
        assert(inst.commitment_coefficients@.take(c as int) =~= inst.commitment_coefficients@);
        let ghost before_r = receivers@;
        let mut k: usize = 0;
        while k < inst.receivers.len()
            invariant
                k <= inst.receivers@.len(),
                message_instance_wf::<G>(*inst),
                receivers@ == before_r + inst.receivers@.take(k as int),
                forall|t: int| 0 <= t < before_r.len() ==> message_receiver_wf::<G>(#[trigger] before_r[t]),
                forall|t: int| 0 <= t < receivers@.len() ==> message_receiver_wf::<G>(#[trigger] receivers@[t]),
            decreases inst.receivers@.len() - k,
        {
            let r = &inst.receivers[k];
            receivers.push(
                DealerMessageReceiver {
                    participant: r.participant,
                    public_key: r.public_key,
                    share_commitment: r.share_commitment,
                    pad_commitment: r.pad_commitment,
                    encrypted_share: r.encrypted_share,
                },
            );
            k = k + 1;
            assert(receivers@ =~= before_r + inst.receivers@.take(k as int));
        }
        assert(inst.receivers@.take(k as int) =~= inst.receivers@);
        i = i + 1;
    }
    proof {
        assert(insts@.take(insts@.len() as int) =~= insts@);
    }
    let ghost rs = receivers@;
    let mut share_commitments: Vec<G::Element> = Vec::new();
    let mut pad_commitments: Vec<G::Element> = Vec::new();
    let mut encrypted_shares: Vec<G::Scalar> = Vec::new();
    let mut t: usize = 0;
    while t < receivers.len()
        invariant
            t <= rs.len(),
            receivers@ == rs,
            forall|u: int| 0 <= u < rs.len() ==> message_receiver_wf::<G>(#[trigger] rs[u]),
            share_commitments@.len() == t,
            pad_commitments@.len() == t,
            encrypted_shares@.len() == t,
            forall|u: int| 0 <= u < t ==> #[trigger] share_commitments@[u] == rs[u].share_commitment,
            forall|u: int| 0 <= u < t ==> #[trigger] pad_commitments@[u] == rs[u].pad_commitment,
            forall|u: int| 0 <= u < t ==> #[trigger] encrypted_shares@[u] == rs[u].encrypted_share,
        decreases rs.len() - t,
    {
        share_commitments.push(receivers[t].share_commitment);
        pad_commitments.push(receivers[t].pad_commitment);
        encrypted_shares.push(receivers[t].encrypted_share);
        t = t + 1;
    }
    proof {
        assert(share_commitments@ =~= flat_share_commitments(insts@));
        assert(pad_commitments@ =~= flat_pad_commitments(insts@));
        assert(encrypted_shares@ =~= flat_encrypted_shares(insts@));
        assert forall|u: int| 0 <= u < share_commitments@.len() implies G::element_wf(
            #[trigger] share_commitments@[u],
        ) by {
            assert(message_receiver_wf::<G>(rs[u]));
        }
        assert forall|u: int| 0 <= u < pad_commitments@.len() implies G::element_wf(
            #[trigger] pad_commitments@[u],
        ) by {
            assert(message_receiver_wf::<G>(rs[u]));
        }
        assert forall|u: int| 0 <= u < encrypted_shares@.len() implies (
        #[trigger] encrypted_shares@[u]).wf() by {
            assert(message_receiver_wf::<G>(rs[u]));
        }
    }
    DealerProofStatement::build(
        config,
        message.dealer,
        message_root,
        effective_messages,
        coefficients,
        share_commitments,
        pad_commitments,
        encrypted_shares,
    )
}

} // verus!
