//! Dealer-local construction of one opaque, batch-shaped broadcast.
use vstd::prelude::*;

use crate::dealer_message::{DealerMessageData, DealerMessageInstance, DealerMessageReceiver};
use crate::dealer_proof::{receivers_of, DealerProofStatement, DealerProofWitness};
use crate::message_statement::{
    flat_coefficients, flat_encrypted_shares, flat_messages, flat_pad_commitments,
    flat_share_commitments,
};
use crate::dkg::{strictly_increasing, DealerMessageNonce, DkgConfig, DkgInstanceKind, EvrfMessage};
use crate::error::Error;
use crate::feldman::{dlogs_of, FeldmanCommitment};
use crate::group::{GoldenGroup, GoldenScalar};
use crate::main_golden::{effective_message, effective_message_preimage};
use crate::participant::ParticipantIndex;
use crate::shamir::{poly_value, values_of, Polynomial};
use crate::transcript::{sha256_spec, TranscriptRoot};

verus! {

/// The randomness one instance of a dealing draws, in the order the
/// dealing draws it: the constant of a random sharing, the higher
/// polynomial coefficients, and the nonce.
pub struct InstanceRandomness<S: GoldenScalar> {
    /// Polynomial constant of a random sharing; none for a zero sharing.
    pub constant: Option<S>,
    /// Polynomial coefficients of degree one and up.
    pub higher: Vec<S>,
    /// Dealer nonce of the instance.
    pub nonce: DealerMessageNonce,
}

/// The randomness of instance `i` fits its configured kind and threshold.
pub open spec fn instance_randomness_fits<G: GoldenGroup>(
    config: DkgConfig<G>,
    i: int,
    r: InstanceRandomness<G::Scalar>,
) -> bool {
    &&& (r.constant is Some <==> config.instances_spec()[i] == DkgInstanceKind::Random)
    &&& (r.constant matches Some(c) ==> c.wf())
    &&& r.higher@.len() == config.threshold_spec() - 1
    &&& forall|j: int| 0 <= j < r.higher@.len() ==> (#[trigger] r.higher@[j]).wf()
}

/// One fitting randomness entry per configured instance.
pub open spec fn randomness_fits<G: GoldenGroup>(
    config: DkgConfig<G>,
    randomness: Seq<InstanceRandomness<G::Scalar>>,
) -> bool {
    &&& randomness.len() == config.instances_spec().len()
    &&& forall|i: int|
        0 <= i < randomness.len() ==> instance_randomness_fits(config, i, #[trigger] randomness[i])
}

/// Coefficient values of the polynomial an instance shares: its constant
/// (zero for a zero sharing), then the higher coefficients.
pub open spec fn instance_coefficient_values<S: GoldenScalar>(r: InstanceRandomness<S>) -> Seq<int> {
    seq![
        match r.constant {
            Some(c) => c.value() as int,
            None => 0int,
        },
    ] + values_of(r.higher@)
}

/// Receiver slot `r` with private opening `(share, pad)` is the honest slot
/// for registry entry `entry`: the share is the polynomial value at the
/// receiver, the pad is what `evaluate_pad` gave for the receiver key and
/// is nonzero, the commitments are the generator times share and pad, and
/// the encrypted share is their sum.
pub open spec fn honest_receiver<G: GoldenGroup, E: Fn(
    EvrfMessage,
    &G::Scalar,
    &G::Element,
) -> Result<G::Scalar, Error>>(
    evaluate_pad: E,
    message: EvrfMessage,
    secret: G::Scalar,
    coefficients: Seq<int>,
    entry: (ParticipantIndex, G::Element),
    r: DealerMessageReceiver<G>,
    opening: (G::Scalar, G::Scalar),
) -> bool {
    let q = <G::Scalar as GoldenScalar>::field_order() as int;
    &&& r.participant == entry.0
    &&& r.public_key == entry.1
    &&& opening.0.wf()
    &&& opening.1.wf()
    &&& <G::Scalar as GoldenScalar>::from_u64_succeeds(entry.0@ as u64)
    &&& opening.0.value() == poly_value(coefficients, entry.0@ as int) % q
    &&& call_ensures(evaluate_pad, (message, &secret, &entry.1), Ok::<G::Scalar, Error>(opening.1))
    &&& opening.1.value() != 0
    &&& G::element_wf(r.share_commitment)
    &&& G::dlog(r.share_commitment) == opening.0.value()
    &&& G::element_wf(r.pad_commitment)
    &&& G::dlog(r.pad_commitment) == opening.1.value()
    &&& r.encrypted_share.wf()
    &&& r.encrypted_share.value() == (opening.0.value() + opening.1.value()) as int % q
}

/// Instance `position` of a dealing, with the private openings of its
/// receiver slots and the dealer's own share, is the honest instance for
/// randomness `r`.
pub open spec fn honest_instance<G: GoldenGroup, E: Fn(
    EvrfMessage,
    &G::Scalar,
    &G::Element,
) -> Result<G::Scalar, Error>>(
    config: DkgConfig<G>,
    dealer: ParticipantIndex,
    secret: G::Scalar,
    evaluate_pad: E,
    position: int,
    r: InstanceRandomness<G::Scalar>,
    inst: DealerMessageInstance<G>,
    openings: Seq<(G::Scalar, G::Scalar)>,
    own_share: G::Scalar,
) -> bool {
    let others = receivers_of(config.registry_spec(), dealer@);
    let cs = instance_coefficient_values(r);
    let q = <G::Scalar as GoldenScalar>::field_order() as int;
    &&& inst.nonce == r.nonce
    &&& inst.effective_message.0@ == sha256_spec(
        effective_message_preimage(
            config.root_spec(),
            dealer@,
            position as usize,
            config.instances_spec()[position],
            r.nonce.0@,
        ),
    )
    &&& inst.commitment_coefficients@.len() == config.threshold_spec()
    &&& dlogs_of::<G>(inst.commitment_coefficients@) == cs
    &&& forall|c: int|
        0 <= c < inst.commitment_coefficients@.len() ==> G::element_wf(
            #[trigger] inst.commitment_coefficients@[c],
        )
    &&& inst.receivers@.len() == others.len()
    &&& openings.len() == others.len()
    &&& forall|k: int|
        0 <= k < others.len() ==> honest_receiver::<G, E>(
            evaluate_pad,
            inst.effective_message,
            secret,
            cs,
            others[k],
            #[trigger] inst.receivers@[k],
            openings[k],
        )
    &&& own_share.wf()
    &&& own_share.value() == poly_value(cs, dealer@ as int) % q
}

/// Some registered participant has no scalar interpolation point.
pub open spec fn unconvertible_participant<G: GoldenGroup>(config: DkgConfig<G>) -> bool {
    exists|t: int|
        0 <= t < config.registry_spec().len() && !<G::Scalar as GoldenScalar>::from_u64_succeeds(
            (#[trigger] config.registry_spec()[t]).0@ as u64,
        )
}

/// `evaluate_pad` failed with `e`, or returned a zero pad where `e` is
/// `DegenerateEvrfOutput`, for some call.
pub open spec fn pad_failed<G: GoldenGroup, E: Fn(
    EvrfMessage,
    &G::Scalar,
    &G::Element,
) -> Result<G::Scalar, Error>>(evaluate_pad: E, e: Error) -> bool {
    ||| exists|m: EvrfMessage, s: G::Scalar, k: G::Element|
        #[trigger] call_ensures(evaluate_pad, (m, &s, &k), Err::<G::Scalar, Error>(e))
    ||| e == Error::DegenerateEvrfOutput && exists|m: EvrfMessage, s: G::Scalar, k: G::Element, p: G::Scalar|
        #[trigger] call_ensures(evaluate_pad, (m, &s, &k), Ok::<G::Scalar, Error>(p)) && p.value()
            == 0
}

/// Every call of `evaluate_pad` returns a nonzero pad.
pub open spec fn pads_nonzero<G: GoldenGroup, E: Fn(
    EvrfMessage,
    &G::Scalar,
    &G::Element,
) -> Result<G::Scalar, Error>>(evaluate_pad: E) -> bool {
    forall|m: EvrfMessage, s: G::Scalar, k: G::Element, r: Result<G::Scalar, Error>|
        #[trigger] call_ensures(evaluate_pad, (m, &s, &k), r) ==> (r matches Ok(p) && p.value()
            != 0)
}

/// Every call of `evaluate_pad` fails with `e`, or returns a zero pad where
/// `e` is `DegenerateEvrfOutput`.
pub open spec fn pads_all_fail<G: GoldenGroup, E: Fn(
    EvrfMessage,
    &G::Scalar,
    &G::Element,
) -> Result<G::Scalar, Error>>(evaluate_pad: E, e: Error) -> bool {
    forall|m: EvrfMessage, s: G::Scalar, k: G::Element, r: Result<G::Scalar, Error>|
        #[trigger] call_ensures(evaluate_pad, (m, &s, &k), r) ==> r == Err::<G::Scalar, Error>(e)
            || (e == Error::DegenerateEvrfOutput && (r matches Ok(p) && p.value() == 0))
}

/// A copy of `items`.
fn copy_items<T: Copy>(items: &Vec<T>) -> (copies: Vec<T>)
    ensures
        copies@ == items@,
{
    let mut copies: Vec<T> = Vec::new();
    let mut i: usize = 0;
    while i < items.len()
        invariant
            i <= items@.len(),
            copies@ == items@.subrange(0, i as int),
        decreases items@.len() - i,
    {
        copies.push(items[i]);
        i = i + 1;
        assert(copies@ =~= items@.subrange(0, i as int));
    }
    assert(items@.subrange(0, items@.len() as int) =~= items@);
    copies
}

/// Deal one instance: share the instance polynomial, commit to it, and
/// encrypt the share of every receiver under the pad `evaluate_pad` gives
/// for the receiver's key.
fn deal_instance<G: GoldenGroup, E>(
    config: &DkgConfig<G>,
    entries: &Vec<(ParticipantIndex, G::Element)>,
    dealer: ParticipantIndex,
    secret: &G::Scalar,
    root: TranscriptRoot,
    position: usize,
    randomness: &InstanceRandomness<G::Scalar>,
    evaluate_pad: &E,
) -> (result: Result<(DealerMessageInstance<G>, G::Scalar, Vec<(G::Scalar, G::Scalar)>), Error>) where
    E: Fn(EvrfMessage, &G::Scalar, &G::Element) -> Result<G::Scalar, Error>,

    requires
        position < config.instances_spec().len(),
        instance_randomness_fits(*config, position as int, *randomness),
        1 <= config.threshold_spec(),
        root@ == config.root_spec(),
        entries@ == config.registry_spec(),
        strictly_increasing(entries@),
        forall|t: int| 0 <= t < entries@.len() ==> G::element_wf(#[trigger] entries@[t].1),
        exists|t: int| 0 <= t < entries@.len() && entries@[t].0@ == dealer@,
        secret.wf(),
        forall|m: EvrfMessage, s: &G::Scalar, k: &G::Element| call_requires(*evaluate_pad, (m, s, k)),
        forall|m: EvrfMessage, s: &G::Scalar, k: &G::Element, p: G::Scalar|
            call_ensures(*evaluate_pad, (m, s, k), Ok::<G::Scalar, Error>(p)) ==> p.wf(),
    ensures
        result matches Ok(out) ==> honest_instance::<G, E>(
            *config,
            dealer,
            *secret,
            *evaluate_pad,
            position as int,
            *randomness,
            out.0,
            out.2@,
            out.1,
        ),
        result matches Err(e) ==> (e == Error::InvalidEncoding && unconvertible_participant(*config))
            || (config.registry_spec().len() > 1 && pad_failed::<G, E>(*evaluate_pad, e)),
        !unconvertible_participant(*config) && (pads_nonzero::<G, E>(*evaluate_pad)
            || config.registry_spec().len() == 1) ==> result is Ok,
        result is Ok ==> !unconvertible_participant(*config),
        forall|e: Error|
            #![trigger pads_all_fail::<G, E>(*evaluate_pad, e)]
            !unconvertible_participant(*config) && pads_all_fail::<G, E>(*evaluate_pad, e)
                && config.registry_spec().len() > 1 ==> result == Err::<
                (DealerMessageInstance<G>, G::Scalar, Vec<(G::Scalar, G::Scalar)>),
                Error,
            >(e),
{
    let threshold = config.threshold();
    let kinds = config.instances();
    let kind = kinds[position];
    let constant = match randomness.constant {
        Some(c) => c,
        None => <G::Scalar as GoldenScalar>::zero(),
    };
    let higher = copy_items(&randomness.higher);
    let polynomial = match Polynomial::with_secret(constant, threshold, higher) {
        Ok(p) => p,
        Err(e) => return Err(e),
    };
    let ghost cs = instance_coefficient_values(*randomness);
    proof {
        assert(values_of(polynomial.coeffs()) =~= cs);
    }
    let commitment = match FeldmanCommitment::<G>::commit(&polynomial) {
        Ok(c) => c,
        Err(e) => return Err(e),
    };
    let nonce = randomness.nonce;
    let message = effective_message(root, dealer, position, kind, nonce);
    let ghost others = receivers_of(entries@, dealer@);
    proof {
        crate::dealer_proof::lemma_receivers_of_len(entries@, dealer@);
        crate::dealer_proof::lemma_receiver_scan_ends(entries@, dealer@);
    }
    let mut receivers: Vec<DealerMessageReceiver<G>> = Vec::new();
    let mut openings: Vec<(G::Scalar, G::Scalar)> = Vec::new();
    let mut own_share: Option<G::Scalar> = None;
    let mut j: usize = 0;
    let mut k: usize = 0;
    while j < entries.len()
        invariant
            j <= entries@.len(),
            k <= j,
            entries@ == config.registry_spec(),
            forall|t: int| 0 <= t < entries@.len() ==> G::element_wf(#[trigger] entries@[t].1),
            others == receivers_of(entries@, dealer@),
            k == receivers_of(entries@.take(j as int), dealer@).len(),
            receivers_of(entries@.take(j as int), dealer@) == others.take(k as int),
            values_of(polynomial.coeffs()) == cs,
            polynomial.well_formed(),
            forall|m: EvrfMessage, s: &G::Scalar, kk: &G::Element| call_requires(*evaluate_pad, (m, s, kk)),
            forall|m: EvrfMessage, s: &G::Scalar, kk: &G::Element, p: G::Scalar|
                call_ensures(*evaluate_pad, (m, s, kk), Ok::<G::Scalar, Error>(p)) ==> p.wf(),
            secret.wf(),
            receivers@.len() == k,
            openings@.len() == k,
            forall|kk: int|
                0 <= kk < k ==> honest_receiver::<G, E>(
                    *evaluate_pad,
                    message,
                    *secret,
                    cs,
                    others[kk],
                    #[trigger] receivers@[kk],
                    openings@[kk],
                ),
            own_share matches Some(s) ==> s.wf() && s.value() == poly_value(cs, dealer@ as int) % (
            <G::Scalar as GoldenScalar>::field_order() as int),
            (exists|t: int| 0 <= t < j && entries@[t].0@ == dealer@) ==> own_share is Some,
            forall|e: Error|
                #![trigger pads_all_fail::<G, E>(*evaluate_pad, e)]
                pads_all_fail::<G, E>(*evaluate_pad, e) ==> k == 0,
            forall|t: int|
                0 <= t < j ==> <G::Scalar as GoldenScalar>::from_u64_succeeds(
                    (#[trigger] entries@[t]).0@ as u64,
                ),
            exists|t: int| 0 <= t < entries@.len() && entries@[t].0@ == dealer@,
        decreases entries@.len() - j,
    {
        proof {
            crate::dealer_proof::lemma_receiver_scan_step(entries@, dealer@, j as int, k as int);
        }
        let participant = entries[j].0;
        let share = match polynomial.evaluate(participant) {
            Ok(s) => s,
            Err(e) => {
                proof {
                    assert(!<G::Scalar as GoldenScalar>::from_u64_succeeds(
                        config.registry_spec()[j as int].0@ as u64,
                    ));
                }
                return Err(e);
            },
        };
        if participant.get() == dealer.get() {
            own_share = Some(share.value);
        } else {
            proof {
                if entries@.len() == 1 {
                    let t = choose|t: int| 0 <= t < entries@.len() && entries@[t].0@ == dealer@;
                    assert(t == j);
                }
            }
            let key = &entries[j].1;
            let outcome = evaluate_pad(message, secret, key);
            proof {
                assert(call_ensures(*evaluate_pad, (message, &*secret, &*key), outcome));
            }
            let pad = match outcome {
                Ok(p) => p,
                Err(e) => return Err(e),
            };
            if pad.is_zero() {
                return Err(Error::DegenerateEvrfOutput);
            }
            proof {
                assert forall|e: Error| #[trigger]
                    pads_all_fail::<G, E>(*evaluate_pad, e) implies false by {
                    assert(call_ensures(*evaluate_pad, (message, &*secret, &*key), outcome));
                }
            }
            let pad_commitment = G::mul_generator(&pad);
            if G::is_identity(&pad_commitment) {
                return Err(Error::DegenerateEvrfOutput);
            }
            let share_commitment = G::mul_generator(&share.value);
            let encrypted_share = share.value.add(&pad);
            openings.push((share.value, pad));
            receivers.push(
                DealerMessageReceiver {
                    participant,
                    public_key: entries[j].1,
                    share_commitment,
                    pad_commitment,
                    encrypted_share,
                },
            );
            k = k + 1;
        }
        j = j + 1;
    }
    proof {
        assert(entries@.take(entries@.len() as int) =~= entries@);
    }
    let own = match own_share {
        Some(s) => s,
        None => return Err(Error::InvalidEncoding),
    };
    let coefficients = commitment.coefficients();
    let mut copied: Vec<G::Element> = Vec::new();
    let mut c: usize = 0;
    while c < coefficients.len()
        invariant
            c <= coefficients@.len(),
            copied@ == coefficients@.subrange(0, c as int),
        decreases coefficients@.len() - c,
    {
        copied.push(coefficients[c]);
        c = c + 1;
        assert(copied@ =~= coefficients@.subrange(0, c as int));
    }
    proof {
        assert(coefficients@.subrange(0, coefficients@.len() as int) =~= coefficients@);
        assert(dlogs_of::<G>(copied@) =~= cs);
    }
    let inst = DealerMessageInstance {
        nonce,
        effective_message: message,
        commitment_coefficients: copied,
        receivers,
    };
    Ok((inst, own, openings))
}

/// Dealer-local state: the exact opaque broadcast and the private shares.
pub struct OwnDealing<G: GoldenGroup> {
    participant: ParticipantIndex,
    configuration_root: TranscriptRoot,
    dealer_message_bytes: Vec<u8>,
    private_shares: Vec<G::Scalar>,
}

impl<G: GoldenGroup> OwnDealing<G> {
    /// The dealer.
    pub closed spec fn participant_spec(&self) -> ParticipantIndex {
        self.participant
    }

    /// The configuration root the dealing is bound to.
    pub closed spec fn configuration_root_spec(&self) -> TranscriptRoot {
        self.configuration_root
    }

    /// The opaque broadcast.
    pub closed spec fn dealer_message_bytes_spec(&self) -> Seq<u8> {
        self.dealer_message_bytes@
    }

    /// The dealer's own share of every instance.
    pub closed spec fn private_shares_spec(&self) -> Seq<G::Scalar> {
        self.private_shares@
    }

    /// Return the dealer participant.
    pub fn participant(&self) -> (participant: ParticipantIndex)
        ensures
            participant == self.participant_spec(),
    {
        self.participant
    }

    /// Return the exact opaque bytes to broadcast to peers.
    pub fn dealer_message_bytes(&self) -> (bytes: &[u8])
        ensures
            bytes@ == self.dealer_message_bytes_spec(),
    {
        self.dealer_message_bytes.as_slice()
    }

    /// Return the configuration root the dealing is bound to.
    pub fn configuration_root(&self) -> (root: TranscriptRoot)
        ensures
            root == self.configuration_root_spec(),
    {
        self.configuration_root
    }

    /// Return the dealer's own share of every instance.
    pub fn private_shares(&self) -> (shares: &[G::Scalar])
        ensures
            shares@ == self.private_shares_spec(),
    {
        self.private_shares.as_slice()
    }
}

/// Instance `position` of a dealing is the honest instance for randomness
/// `r`, under some private openings of its receiver slots.
pub open spec fn dealt_instance<G: GoldenGroup, E: Fn(
    EvrfMessage,
    &G::Scalar,
    &G::Element,
) -> Result<G::Scalar, Error>>(
    config: DkgConfig<G>,
    dealer: ParticipantIndex,
    secret: G::Scalar,
    evaluate_pad: E,
    position: int,
    r: InstanceRandomness<G::Scalar>,
    inst: DealerMessageInstance<G>,
    own_share: G::Scalar,
) -> bool {
    exists|openings: Seq<(G::Scalar, G::Scalar)>|
        #[trigger] honest_instance::<G, E>(
            config,
            dealer,
            secret,
            evaluate_pad,
            position,
            r,
            inst,
            openings,
            own_share,
        )
}

/// `message` is the honest message of a dealing for `randomness`, and
/// `private_shares` are the dealer's own shares, one per instance.
pub open spec fn dealt_message<G: GoldenGroup, E: Fn(
    EvrfMessage,
    &G::Scalar,
    &G::Element,
) -> Result<G::Scalar, Error>>(
    config: DkgConfig<G>,
    dealer: ParticipantIndex,
    secret: G::Scalar,
    evaluate_pad: E,
    randomness: Seq<InstanceRandomness<G::Scalar>>,
    message: DealerMessageData<G>,
    private_shares: Seq<G::Scalar>,
) -> bool {
    &&& message.dealer == dealer
    &&& message.instances@.len() == config.instances_spec().len()
    &&& private_shares.len() == config.instances_spec().len()
    &&& forall|i: int|
        0 <= i < message.instances@.len() ==> dealt_instance::<G, E>(
            config,
            dealer,
            secret,
            evaluate_pad,
            i,
            randomness[i],
            #[trigger] message.instances@[i],
            private_shares[i],
        )
}

/// The polynomial constants the randomness of a dealing holds, one per
/// instance.
pub open spec fn randomness_constants<S: GoldenScalar>(randomness: Seq<InstanceRandomness<S>>) -> Seq<
    Option<S>,
> {
    Seq::new(randomness.len(), |i: int| randomness[i].constant)
}

/// `proof` is the suffix a dealing of `message` carries: empty where the
/// dealer is the only participant, and otherwise what `prove` returned for
/// the public statement of `message` (under its transcript root) and a
/// witness holding `secret` and the polynomial constants of `randomness`.
pub open spec fn proof_from<G: GoldenGroup, P: FnOnce(
    &DkgConfig<G>,
    &DealerProofStatement<G>,
    &DealerProofWitness<G>,
) -> Result<Vec<u8>, Error>>(
    prove: P,
    config: DkgConfig<G>,
    secret: G::Scalar,
    randomness: Seq<InstanceRandomness<G::Scalar>>,
    message: DealerMessageData<G>,
    proof: Seq<u8>,
) -> bool {
    if config.registry_spec().len() == 1 {
        proof.len() == 0
    } else {
        exists|statement: DealerProofStatement<G>, witness: DealerProofWitness<G>, out: Vec<u8>|
            #[trigger] call_ensures(prove, (&config, &statement, &witness), Ok::<Vec<u8>, Error>(out))
                && statement.root_spec()@ == sha256_spec(
                crate::dealer_message::dealer_message_root_preimage(config, message),
            ) && statement.built_from(
                &config,
                message.dealer,
                statement.root_spec(),
                flat_messages(message.instances@),
                flat_coefficients(message.instances@),
                flat_share_commitments(message.instances@),
                flat_pad_commitments(message.instances@),
                flat_encrypted_shares(message.instances@),
            ) && witness.identity_secret_spec() == secret && witness.constants_spec()
                == randomness_constants(randomness) && out@ == proof
    }
}

/// `bytes` encode an honest message of a dealing for `randomness`,
/// followed by the proof suffix `prove` gave for it.
pub open spec fn dealt_bytes<G: GoldenGroup, E: Fn(
    EvrfMessage,
    &G::Scalar,
    &G::Element,
) -> Result<G::Scalar, Error>, P: FnOnce(
    &DkgConfig<G>,
    &DealerProofStatement<G>,
    &DealerProofWitness<G>,
) -> Result<Vec<u8>, Error>>(
    config: DkgConfig<G>,
    dealer: ParticipantIndex,
    secret: G::Scalar,
    evaluate_pad: E,
    prove: P,
    randomness: Seq<InstanceRandomness<G::Scalar>>,
    bytes: Seq<u8>,
    private_shares: Seq<G::Scalar>,
) -> bool {
    exists|message: DealerMessageData<G>, proof: Seq<u8>|
        #![trigger dealt_message::<G, E>(config, dealer, secret, evaluate_pad, randomness, message, private_shares), crate::dealer_message::encode_outcome(config, message, proof)]
        dealt_message::<G, E>(
            config,
            dealer,
            secret,
            evaluate_pad,
            randomness,
            message,
            private_shares,
        ) && crate::dealer_message::encode_outcome(config, message, proof) == Ok::<Seq<u8>, Error>(
            bytes,
        ) && proof_from::<G, P>(prove, config, secret, randomness, message, proof)
}

/// Every call of `prove` succeeds, with a proof that fits in a dealer
/// message after the configuration-shaped prefix.
pub open spec fn proofs_fit<G: GoldenGroup, P: FnOnce(
    &DkgConfig<G>,
    &DealerProofStatement<G>,
    &DealerProofWitness<G>,
) -> Result<Vec<u8>, Error>>(prove: P, config: DkgConfig<G>) -> bool {
    forall|c: &DkgConfig<G>, s: &DealerProofStatement<G>, w: &DealerProofWitness<G>, r: Result<Vec<u8>, Error>|
        #[trigger] call_ensures(prove, (c, s, w), r) ==> (r matches Ok(out)
            && crate::dealer_message::prefix_len_spec(config) + out@.len()
            <= crate::dealer_message::MAX_DEALER_MESSAGE_BYTES)
}

/// Some call of `prove` returned a proof too long to fit in a dealer
/// message after the configuration-shaped prefix.
pub open spec fn proof_too_long<G: GoldenGroup, P: FnOnce(
    &DkgConfig<G>,
    &DealerProofStatement<G>,
    &DealerProofWitness<G>,
) -> Result<Vec<u8>, Error>>(prove: P, config: DkgConfig<G>) -> bool {
    exists|c: &DkgConfig<G>, s: &DealerProofStatement<G>, w: &DealerProofWitness<G>, out: Vec<u8>|
        #[trigger] call_ensures(prove, (c, s, w), Ok::<Vec<u8>, Error>(out))
            && crate::dealer_message::prefix_len_spec(config) + out@.len()
            > crate::dealer_message::MAX_DEALER_MESSAGE_BYTES
}

/// The proof closure failed with `e` for some arguments.
pub open spec fn prove_failed<G: GoldenGroup, P: FnOnce(
    &DkgConfig<G>,
    &crate::dealer_proof::DealerProofStatement<G>,
    &crate::dealer_proof::DealerProofWitness<G>,
) -> Result<Vec<u8>, Error>>(prove: P, e: Error) -> bool {
    exists|c: &DkgConfig<G>, s: &crate::dealer_proof::DealerProofStatement<G>, w: &crate::dealer_proof::DealerProofWitness<G>|
        #[trigger] call_ensures(prove, (c, s, w), Err::<Vec<u8>, Error>(e))
}

/// An honest message has the configured shape and only valid elements.
proof fn lemma_dealt_shape<G: GoldenGroup, E: Fn(
    EvrfMessage,
    &G::Scalar,
    &G::Element,
) -> Result<G::Scalar, Error>>(
    config: DkgConfig<G>,
    dealer: ParticipantIndex,
    secret: G::Scalar,
    evaluate_pad: E,
    randomness: Seq<InstanceRandomness<G::Scalar>>,
    message: DealerMessageData<G>,
    private_shares: Seq<G::Scalar>,
)
    requires
        dealt_message::<G, E>(config, dealer, secret, evaluate_pad, randomness, message, private_shares),
        randomness_fits(config, randomness),
        exists|t: int|
            0 <= t < config.registry_spec().len() && config.registry_spec()[t].0@ == dealer@,
        forall|t: int|
            0 <= t < config.registry_spec().len() ==> G::element_wf(#[trigger] config.registry_spec()[t].1),
    ensures
        crate::dealer_message::message_shape_ok(config, message),
        crate::dealer_message::message_wf(message),
        crate::dealer_roundtrip::message_relations_hold(message),
{
    reveal(crate::dealer_message::message_shape_ok);
    reveal(crate::dealer_message::message_wf);
    let others = receivers_of(config.registry_spec(), dealer@);
    assert forall|i: int| 0 <= i < message.instances@.len() implies crate::dealer_message::instance_shape_ok::<G>(
        config,
        message.dealer,
        others,
        i,
        config.instances_spec()[i],
        #[trigger] message.instances@[i],
    ) && crate::dealer_message::message_instance_wf::<G>(message.instances@[i]) by {
        let inst = message.instances@[i];
        assert(dealt_instance::<G, E>(config, dealer, secret, evaluate_pad, i, randomness[i], inst, private_shares[i]));
        let openings = choose|openings: Seq<(G::Scalar, G::Scalar)>| #[trigger] honest_instance::<G, E>(
            config,
            dealer,
            secret,
            evaluate_pad,
            i,
            randomness[i],
            inst,
            openings,
            private_shares[i],
        );
        let cs = instance_coefficient_values(randomness[i]);
        assert(instance_randomness_fits(config, i, randomness[i]));
        if config.instances_spec()[i] == DkgInstanceKind::Zero {
            assert(dlogs_of::<G>(inst.commitment_coefficients@)[0] == cs[0]);
        }
        crate::dealer_proof::lemma_receivers_of_members(config.registry_spec(), dealer@);
        assert forall|k: int| 0 <= k < others.len() implies crate::dealer_message::receiver_slot_matches::<G>(
            #[trigger] inst.receivers@[k],
            others[k],
        ) && crate::dealer_message::message_receiver_wf::<G>(inst.receivers@[k]) by {
            assert(honest_receiver::<G, E>(
                evaluate_pad,
                inst.effective_message,
                secret,
                cs,
                others[k],
                inst.receivers@[k],
                openings[k],
            ));
            lemma_receiver_entry_wf::<G>(config.registry_spec(), dealer@, k);
        }
    }
    assert forall|i: int, k: int|
        0 <= i < message.instances@.len() && 0 <= k < message.instances@[i].receivers@.len()
            implies crate::dealer_roundtrip::receiver_relation_holds::<G>(
        message.instances@[i].commitment_coefficients@,
        #[trigger] message.instances@[i].receivers@[k],
    ) by {
        let inst = message.instances@[i];
        assert(dealt_instance::<G, E>(config, dealer, secret, evaluate_pad, i, randomness[i], inst, private_shares[i]));
        let openings = choose|openings: Seq<(G::Scalar, G::Scalar)>| #[trigger] honest_instance::<G, E>(
            config,
            dealer,
            secret,
            evaluate_pad,
            i,
            randomness[i],
            inst,
            openings,
            private_shares[i],
        );
        let cs = instance_coefficient_values(randomness[i]);
        assert(honest_receiver::<G, E>(
            evaluate_pad,
            inst.effective_message,
            secret,
            cs,
            others[k],
            inst.receivers@[k],
            openings[k],
        ));
    }
}

/// Parsing the broadcast of a dealing gives back, as its proof suffix,
/// the proof that `prove` returned for that dealing (empty where the dealer
/// is the only participant).
pub proof fn lemma_parsed_proof_is_dealt<G: GoldenGroup, E: Fn(
    EvrfMessage,
    &G::Scalar,
    &G::Element,
) -> Result<G::Scalar, Error>, P: FnOnce(
    &DkgConfig<G>,
    &DealerProofStatement<G>,
    &DealerProofWitness<G>,
) -> Result<Vec<u8>, Error>>(
    config: DkgConfig<G>,
    dealer: ParticipantIndex,
    secret: G::Scalar,
    evaluate_pad: E,
    prove: P,
    randomness: Seq<InstanceRandomness<G::Scalar>>,
    bytes: Seq<u8>,
    private_shares: Seq<G::Scalar>,
    parsed: crate::dealer_parse::ParsedDealerMessage<G>,
)
    requires
        crate::dealer_roundtrip::config_facts(config),
        randomness_fits(config, randomness),
        exists|t: int|
            0 <= t < config.registry_spec().len() && config.registry_spec()[t].0@ == dealer@,
        dealt_bytes::<G, E, P>(
            config,
            dealer,
            secret,
            evaluate_pad,
            prove,
            randomness,
            bytes,
            private_shares,
        ),
        crate::dealer_parse::parsed_message(config, dealer, bytes, parsed),
    ensures
        exists|message: DealerMessageData<G>|
            #[trigger] dealt_message::<G, E>(
                config,
                dealer,
                secret,
                evaluate_pad,
                randomness,
                message,
                private_shares,
            ) && proof_from::<G, P>(prove, config, secret, randomness, message, parsed.proof@),
{
    let (message, proof) = choose|message: DealerMessageData<G>, proof: Seq<u8>|
        #![trigger dealt_message::<G, E>(config, dealer, secret, evaluate_pad, randomness, message, private_shares), crate::dealer_message::encode_outcome(config, message, proof)]
        dealt_message::<G, E>(
            config,
            dealer,
            secret,
            evaluate_pad,
            randomness,
            message,
            private_shares,
        ) && crate::dealer_message::encode_outcome(config, message, proof) == Ok::<Seq<u8>, Error>(
            bytes,
        ) && proof_from::<G, P>(prove, config, secret, randomness, message, proof);
    lemma_dealt_shape::<G, E>(
        config,
        dealer,
        secret,
        evaluate_pad,
        randomness,
        message,
        private_shares,
    );
    crate::dealer_message::lemma_shape_counts(config, message);
    crate::dealer_message::lemma_prefix_bytes_len::<G>(config, message);
    let prefix = crate::dealer_message::header_bytes::<G>(config.root_spec(), message.dealer@)
        + crate::dealer_message::instances_bytes::<G>(message.instances@, config.instances_spec());
    assert(bytes == prefix + proof);
    assert(bytes.subrange(prefix.len() as int, bytes.len() as int) =~= proof);
    assert(parsed.proof@ == proof);
}

/// Receivers are registry entries, so their keys are valid.
proof fn lemma_receiver_entry_wf<G: GoldenGroup>(
    entries: Seq<(ParticipantIndex, G::Element)>,
    dealer: u32,
    k: int,
)
    requires
        forall|t: int| 0 <= t < entries.len() ==> G::element_wf(#[trigger] entries[t].1),
        0 <= k < receivers_of(entries, dealer).len(),
    ensures
        G::element_wf(receivers_of(entries, dealer)[k].1),
    decreases entries.len(),
{
    let init = entries.drop_last();
    let rest = receivers_of(init, dealer);
    assert forall|t: int| 0 <= t < init.len() implies G::element_wf(#[trigger] init[t].1) by {
        assert(init[t] == entries[t]);
    }
    if k < rest.len() {
        lemma_receiver_entry_wf::<G>(init, dealer, k);
        if entries.last().0@ != dealer {
            assert(receivers_of(entries, dealer)[k] == rest[k]);
        }
    } else {
        assert(entries.last() == entries[entries.len() - 1]);
    }
}

/// Deal every instance in configuration order.
fn deal_message<G: GoldenGroup, E>(
    config: &DkgConfig<G>,
    entries: &Vec<(ParticipantIndex, G::Element)>,
    dealer: ParticipantIndex,
    secret: &G::Scalar,
    randomness: &Vec<InstanceRandomness<G::Scalar>>,
    evaluate_pad: &E,
) -> (result: Result<
    (DealerMessageData<G>, Vec<G::Scalar>, Vec<Option<G::Scalar>>, Vec<(G::Scalar, G::Scalar)>),
    Error,
>) where E: Fn(EvrfMessage, &G::Scalar, &G::Element) -> Result<G::Scalar, Error>
    requires
        randomness_fits(*config, randomness@),
        1 <= config.threshold_spec(),
        entries@ == config.registry_spec(),
        strictly_increasing(entries@),
        forall|t: int| 0 <= t < entries@.len() ==> G::element_wf(#[trigger] entries@[t].1),
        exists|t: int| 0 <= t < entries@.len() && entries@[t].0@ == dealer@,
        secret.wf(),
        forall|m: EvrfMessage, s: &G::Scalar, k: &G::Element| call_requires(*evaluate_pad, (m, s, k)),
        forall|m: EvrfMessage, s: &G::Scalar, k: &G::Element, p: G::Scalar|
            call_ensures(*evaluate_pad, (m, s, k), Ok::<G::Scalar, Error>(p)) ==> p.wf(),
    ensures
        result matches Ok(out) ==> {
            &&& dealt_message::<G, E>(
                *config,
                dealer,
                *secret,
                *evaluate_pad,
                randomness@,
                out.0,
                out.1@,
            )
            &&& out.2@.len() == config.instances_spec().len()
            &&& forall|i: int| 0 <= i < out.2@.len() ==> #[trigger] out.2@[i] == randomness@[i].constant
            &&& out.3@.len() == config.instances_spec().len() * (entries@.len() - 1)
        },
        result matches Err(e) ==> (e == Error::InvalidEncoding && unconvertible_participant(*config))
            || (config.registry_spec().len() > 1 && pad_failed::<G, E>(*evaluate_pad, e)),
        !unconvertible_participant(*config) && (pads_nonzero::<G, E>(*evaluate_pad)
            || config.registry_spec().len() == 1) ==> result is Ok,
        result is Ok && config.instances_spec().len() > 0 ==> !unconvertible_participant(*config),
        forall|e: Error|
            #![trigger pads_all_fail::<G, E>(*evaluate_pad, e)]
            !unconvertible_participant(*config) && pads_all_fail::<G, E>(*evaluate_pad, e)
                && config.registry_spec().len() > 1 && config.instances_spec().len() > 0
                ==> result == Err::<
                (
                    DealerMessageData<G>,
                    Vec<G::Scalar>,
                    Vec<Option<G::Scalar>>,
                    Vec<(G::Scalar, G::Scalar)>,
                ),
                Error,
            >(e),
{
    let root = config.root();
    let count = randomness.len();
    let ghost rpi = entries@.len() - 1;
    proof {
        crate::dealer_proof::lemma_receivers_of_len(entries@, dealer@);
    }
    let mut instances: Vec<DealerMessageInstance<G>> = Vec::new();
    let mut private_shares: Vec<G::Scalar> = Vec::new();
    let mut constants: Vec<Option<G::Scalar>> = Vec::new();
    let mut openings: Vec<(G::Scalar, G::Scalar)> = Vec::new();
    let mut i: usize = 0;
    while i < count
        invariant
            i <= count,
            count == randomness@.len(),
            randomness_fits(*config, randomness@),
            1 <= config.threshold_spec(),
            root@ == config.root_spec(),
            entries@ == config.registry_spec(),
            strictly_increasing(entries@),
            forall|t: int| 0 <= t < entries@.len() ==> G::element_wf(#[trigger] entries@[t].1),
            exists|t: int| 0 <= t < entries@.len() && entries@[t].0@ == dealer@,
            secret.wf(),
            forall|m: EvrfMessage, s: &G::Scalar, k: &G::Element| call_requires(*evaluate_pad, (m, s, k)),
            forall|m: EvrfMessage, s: &G::Scalar, k: &G::Element, p: G::Scalar|
                call_ensures(*evaluate_pad, (m, s, k), Ok::<G::Scalar, Error>(p)) ==> p.wf(),
            rpi == receivers_of(entries@, dealer@).len(),
            instances@.len() == i,
            private_shares@.len() == i,
            constants@.len() == i,
            openings@.len() == i * rpi,
            forall|ii: int| 0 <= ii < i ==> #[trigger] constants@[ii] == randomness@[ii].constant,
            forall|e: Error|
                #![trigger pads_all_fail::<G, E>(*evaluate_pad, e)]
                !unconvertible_participant(*config) && pads_all_fail::<G, E>(*evaluate_pad, e)
                    && config.registry_spec().len() > 1 ==> i == 0,
            i > 0 ==> !unconvertible_participant(*config),
            forall|ii: int|
                0 <= ii < i ==> dealt_instance::<G, E>(
                    *config,
                    dealer,
                    *secret,
                    *evaluate_pad,
                    ii,
                    randomness@[ii],
                    #[trigger] instances@[ii],
                    private_shares@[ii],
                ),
        decreases count - i,
    {
        let r = &randomness[i];
        proof {
            assert(instance_randomness_fits(*config, i as int, randomness@[i as int]));
        }
        let (inst, own, inst_openings) = match deal_instance(
            config,
            entries,
            dealer,
            secret,
            root,
            i,
            r,
            evaluate_pad,
        ) {
            Ok(out) => out,
            Err(e) => return Err(e),
        };
        proof {
            assert(honest_instance::<G, E>(
                *config,
                dealer,
                *secret,
                *evaluate_pad,
                i as int,
                randomness@[i as int],
                inst,
                inst_openings@,
                own,
            ));
        }
        let ghost before = openings@.len();
        let mut k: usize = 0;
        while k < inst_openings.len()
            invariant
                k <= inst_openings@.len(),
                openings@.len() == before + k,
            decreases inst_openings@.len() - k,
        {
            openings.push(inst_openings[k]);
            k = k + 1;
        }
        proof {
            assert(i * rpi + rpi == (i + 1) * rpi) by (nonlinear_arith);
        }
        instances.push(inst);
        private_shares.push(own);
        constants.push(r.constant);
        i = i + 1;
    }
    let message = DealerMessageData { dealer, instances };
    Ok((message, private_shares, constants, openings))
}

/// Create one complete opaque dealer broadcast and its dealer-local state
/// from the randomness the dealing draws, a receiver-pad evaluator and a
/// prover.
///
/// The dealer must be registered with the public key of `secret`. Each
/// instance shares a fresh polynomial, commits to it, and encrypts the
/// share of every other participant under the pad `evaluate_pad` gives for
/// that participant's key; a zero pad is `DegenerateEvrfOutput`. The
/// public statement and private witness of the whole message go to
/// `prove` when there are receivers, and the message is encoded with the
/// proof it returns.
pub fn deal_with<G: GoldenGroup, E, P>(
    config: &DkgConfig<G>,
    dealer: ParticipantIndex,
    dealer_identity_secret: &G::Scalar,
    randomness: &Vec<InstanceRandomness<G::Scalar>>,
    evaluate_pad: &E,
    prove: P,
) -> (result: Result<OwnDealing<G>, Error>) where
    E: Fn(EvrfMessage, &G::Scalar, &G::Element) -> Result<G::Scalar, Error>,
    P: FnOnce(
        &DkgConfig<G>,
        &crate::dealer_proof::DealerProofStatement<G>,
        &crate::dealer_proof::DealerProofWitness<G>,
    ) -> Result<Vec<u8>, Error>,

    requires
        randomness_fits(*config, randomness@),
        dealer_identity_secret.wf(),
        forall|m: EvrfMessage, s: &G::Scalar, k: &G::Element| call_requires(*evaluate_pad, (m, s, k)),
        forall|m: EvrfMessage, s: &G::Scalar, k: &G::Element, p: G::Scalar|
            call_ensures(*evaluate_pad, (m, s, k), Ok::<G::Scalar, Error>(p)) ==> p.wf(),
        forall|c: &DkgConfig<G>, s: &crate::dealer_proof::DealerProofStatement<G>, w: &crate::dealer_proof::DealerProofWitness<G>|
            call_requires(prove, (c, s, w)),
    ensures
        ({
            let entries = config.registry_spec();
            let registered = exists|t: int| 0 <= t < entries.len() && entries[t].0@ == dealer@;
            let key_matches = exists|t: int|
                0 <= t < entries.len() && entries[t].0@ == dealer@ && G::dlog(entries[t].1)
                    == dealer_identity_secret.value();
            let fits = crate::dealer_message::prefix_len_fits(*config)
                && crate::dealer_message::prefix_len_spec(*config)
                <= crate::dealer_message::MAX_DEALER_MESSAGE_BYTES;
            let ready = registered && key_matches && fits && !unconvertible_participant(*config);
            &&& !registered ==> result == Err::<OwnDealing<G>, Error>(
                Error::UnknownParticipant(dealer@),
            )
            &&& registered && !key_matches ==> result == Err::<OwnDealing<G>, Error>(
                Error::IdentityKeyMismatch,
            )
            &&& registered && key_matches && !fits ==> result == Err::<OwnDealing<G>, Error>(
                Error::DealerMessageTooLarge,
            )
            &&& ready && entries.len() == 1 ==> result is Ok
            &&& ready && pads_nonzero::<G, E>(*evaluate_pad) && (entries.len() == 1 || proofs_fit::<
                G,
                P,
            >(prove, *config)) ==> result is Ok
            &&& forall|e: Error|
                #![trigger pads_all_fail::<G, E>(*evaluate_pad, e)]
                ready && entries.len() > 1 && pads_all_fail::<G, E>(*evaluate_pad, e)
                    ==> result == Err::<OwnDealing<G>, Error>(e)
            &&& result matches Ok(d) ==> {
                &&& crate::dealer_parse::parse_outcome(*config, dealer, d.dealer_message_bytes_spec())
                    is Ok
                &&& d.participant_spec() == dealer
                &&& d.configuration_root_spec()@ == config.root_spec()
                &&& dealt_bytes::<G, E, P>(
                    *config,
                    dealer,
                    *dealer_identity_secret,
                    *evaluate_pad,
                    prove,
                    randomness@,
                    d.dealer_message_bytes_spec(),
                    d.private_shares_spec(),
                )
            }
            &&& result matches Err(e) ==> {
                ||| !registered && e == Error::UnknownParticipant(dealer@)
                ||| registered && !key_matches && e == Error::IdentityKeyMismatch
                ||| registered && key_matches && !fits && e == Error::DealerMessageTooLarge
                ||| registered && key_matches && fits && entries.len() > 1 && pad_failed::<G, E>(
                    *evaluate_pad,
                    e,
                )
                ||| registered && key_matches && fits && e == Error::InvalidEncoding
                    && unconvertible_participant(*config)
                ||| ready && entries.len() > 1 && prove_failed::<G, P>(prove, e)
                ||| ready && entries.len() > 1 && e == Error::DealerMessageTooLarge
                    && proof_too_long::<G, P>(prove, *config)
            }
        }),
{
    let ghost prove0 = prove;
    config.check_invariant();
    let registry = config.registry();
    let registered_key = match registry.public_key(dealer) {
        Ok(key) => key,
        Err(e) => return Err(e),
    };
    let entries = registry.entries();
    proof {
        crate::dealer_message::lemma_registered_key(entries@, dealer, registered_key);
    }
    let own_key = G::mul_generator(dealer_identity_secret);
    if !G::element_eq(&own_key, &registered_key) {
        return Err(Error::IdentityKeyMismatch);
    }
    let prefix_len = match crate::dealer_message::encoded_prefix_len::<G>(config) {
        Ok(n) => n,
        Err(e) => return Err(e),
    };
    if prefix_len > crate::dealer_message::MAX_DEALER_MESSAGE_BYTES {
        return Err(Error::DealerMessageTooLarge);
    }
    let (message, private_shares, constants, openings) = match deal_message(
        config,
        &entries,
        dealer,
        dealer_identity_secret,
        randomness,
        evaluate_pad,
    ) {
        Ok(out) => out,
        Err(e) => return Err(e),
    };
    proof {
        lemma_dealt_shape::<G, E>(
            *config,
            dealer,
            *dealer_identity_secret,
            *evaluate_pad,
            randomness@,
            message,
            private_shares@,
        );
    }
    let message_root = match crate::dealer_message::dealer_message_root(config, &message) {
        Ok(root) => root,
        Err(_) => return Err(Error::ProofGenerationFailed),
    };
    proof {
        crate::dealer_message::lemma_shape_counts(*config, message);
        crate::message_statement::lemma_flat_lengths(
            message.instances@,
            config.threshold_spec() as int,
            config.registry_spec().len() - 1,
        );
    }
    let statement = match crate::message_statement::statement_from_message(
        config,
        &message,
        message_root,
    ) {
        Ok(s) => s,
        Err(_) => return Err(Error::ProofGenerationFailed),
    };
    proof {
        let insts = message.instances@;
        crate::dealer_proof::lemma_built_statement_fits(
            statement,
            *config,
            dealer,
            message_root,
            crate::message_statement::flat_messages(insts),
            crate::message_statement::flat_coefficients(insts),
            crate::message_statement::flat_share_commitments(insts),
            crate::message_statement::flat_pad_commitments(insts),
            crate::message_statement::flat_encrypted_shares(insts),
        );
        assert(crate::dealer_proof::constants_match_kinds(constants@, config.instances_spec())) by {
            assert forall|i: int| 0 <= i < constants@.len() && i < config.instances_spec().len() implies (
            (#[trigger] constants@[i] is Some) <==> (config.instances_spec()[i]
                == DkgInstanceKind::Random)) by {
                assert(instance_randomness_fits(*config, i, randomness@[i]));
            }
        }
    }
    let receiver_count = openings.len();
    let ghost consts = constants@;
    proof {
        assert(consts =~= randomness_constants(randomness@));
        if receiver_count == 0 {
            assert(config.instances_spec().len() > 0);
            assert(config.registry_spec().len() - 1 == 0) by (nonlinear_arith)
                requires
                    config.instances_spec().len() * (config.registry_spec().len() - 1) == 0,
                    config.instances_spec().len() > 0,
                    config.registry_spec().len() >= 1,
            ;
        } else {
            assert(config.registry_spec().len() > 1) by (nonlinear_arith)
                requires
                    config.instances_spec().len() * (config.registry_spec().len() - 1) != 0,
                    config.registry_spec().len() >= 1,
            ;
        }
    }
    let witness = match crate::dealer_proof::DealerProofWitness::new(
        config,
        &statement,
        *dealer_identity_secret,
        constants,
        openings,
    ) {
        Ok(w) => w,
        Err(e) => return Err(e),
    };
    let proof_bytes = if receiver_count == 0 {
        Vec::new()
    } else {
        match prove(config, &statement, &witness) {
            Ok(p) => {
                proof {
                    assert(call_ensures(
                        prove0,
                        (&*config, &statement, &witness),
                        Ok::<Vec<u8>, Error>(p),
                    ));
                    assert(statement.root_spec() == message_root);
                    assert(proof_from::<G, P>(
                        prove0,
                        *config,
                        *dealer_identity_secret,
                        randomness@,
                        message,
                        p@,
                    ));
                    if crate::dealer_message::prefix_len_spec(*config) + p@.len()
                        > crate::dealer_message::MAX_DEALER_MESSAGE_BYTES {
                        assert(proof_too_long::<G, P>(prove0, *config));
                    }
                }
                p
            },
            Err(e) => {
                proof {
                    assert(call_ensures(
                        prove0,
                        (&*config, &statement, &witness),
                        Err::<Vec<u8>, Error>(e),
                    ));
                    assert(prove_failed::<G, P>(prove0, e));
                }
                return Err(e);
            },
        }
    };
    proof {
        assert(proof_from::<G, P>(
            prove0,
            *config,
            *dealer_identity_secret,
            randomness@,
            message,
            proof_bytes@,
        ));
    }
    let dealer_message_bytes = match crate::dealer_message::encode_dealer_message(
        config,
        &message,
        proof_bytes.as_slice(),
    ) {
        Ok(bytes) => bytes,
        Err(e) => return Err(e),
    };
    let configuration_root = config.root();
    let _ = dealer.get();
    let _ = G::identity();
    proof {
        crate::dealer_roundtrip::lemma_encoded_message_passes_preflight(
            *config,
            message,
            proof_bytes@,
            dealer_message_bytes@,
        );
    }
    Ok(OwnDealing { participant: dealer, configuration_root, dealer_message_bytes, private_shares })
}

} // verus!
