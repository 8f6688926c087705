//! Flat dealer proof inputs: the public statement and private witness of
//! one dealer's complete contribution.
use vstd::prelude::*;

use crate::dkg::{strictly_increasing, DkgConfig, DkgInstanceKind, EvrfMessage, ParticipantRegistry};
use crate::error::Error;
use crate::group::{GoldenGroup, GoldenScalar};
use crate::participant::ParticipantIndex;
use crate::transcript::TranscriptRoot;

verus! {

/// The registry entries other than the dealer's, in registry order: the
/// receivers of the dealer's shares.
pub open spec fn receivers_of<E>(entries: Seq<(ParticipantIndex, E)>, dealer: u32) -> Seq<
    (ParticipantIndex, E),
>
    decreases entries.len(),
{
    if entries.len() == 0 {
        Seq::empty()
    } else {
        let rest = receivers_of(entries.drop_last(), dealer);
        if entries.last().0@ == dealer {
            rest
        } else {
            rest.push(entries.last())
        }
    }
}

/// The registry entries up to position `k`, without the dealer's.
pub proof fn lemma_receivers_of_step<E>(entries: Seq<(ParticipantIndex, E)>, dealer: u32, k: int)
    requires
        0 <= k < entries.len(),
    ensures
        receivers_of(entries.take(k + 1), dealer) == if entries[k].0@ == dealer {
            receivers_of(entries.take(k), dealer)
        } else {
            receivers_of(entries.take(k), dealer).push(entries[k])
        },
{
    assert(entries.take(k + 1).drop_last() =~= entries.take(k));
}

/// Without the dealer, the receivers are the entries of other participants.
pub proof fn lemma_receivers_of_members<E>(entries: Seq<(ParticipantIndex, E)>, dealer: u32)
    ensures
        forall|i: int|
            0 <= i < receivers_of(entries, dealer).len() ==> #[trigger] receivers_of(
                entries,
                dealer,
            )[i].0@ != dealer,
        receivers_of(entries, dealer).len() <= entries.len(),
    decreases entries.len(),
{
    if entries.len() > 0 {
        lemma_receivers_of_members(entries.drop_last(), dealer);
    }
}

/// When the dealer is registered exactly once, there is one receiver fewer
/// than there are entries.
pub proof fn lemma_receivers_of_len<E>(entries: Seq<(ParticipantIndex, E)>, dealer: u32)
    requires
        strictly_increasing(entries),
        exists|k: int| 0 <= k < entries.len() && entries[k].0@ == dealer,
    ensures
        receivers_of(entries, dealer).len() == entries.len() - 1,
    decreases entries.len(),
{
    let last = entries.last();
    let init = entries.drop_last();
    if last.0@ == dealer {
        lemma_receivers_absent_len(init, dealer);
    } else {
        let k = choose|k: int| 0 <= k < entries.len() && entries[k].0@ == dealer;
        assert(init[k].0@ == dealer);
        lemma_receivers_of_len(init, dealer);
    }
}

/// When the dealer is not among the entries, every entry is a receiver.
pub proof fn lemma_receivers_absent_len<E>(entries: Seq<(ParticipantIndex, E)>, dealer: u32)
    requires
        strictly_increasing(entries),
        forall|k: int| 0 <= k < entries.len() - 1 + 1 ==> entries[k].0@ < dealer
            || entries[k].0@ > dealer,
    ensures
        receivers_of(entries, dealer) == entries,
    decreases entries.len(),
{
    if entries.len() > 0 {
        lemma_receivers_absent_len(entries.drop_last(), dealer);
        assert(entries.drop_last().push(entries.last()) =~= entries);
    }
}

/// One public receiver relation of a dealer statement.
pub struct DealerProofReceiver<G: GoldenGroup> {
    /// Receiver participant.
    pub participant: ParticipantIndex,
    /// Receiver identity public key.
    pub public_key: G::Element,
    /// Public commitment to the receiver share.
    pub share_commitment: G::Element,
    /// Public commitment to the receiver pad.
    pub pad_commitment: G::Element,
    /// Encrypted share scalar.
    pub encrypted_share: G::Scalar,
}

/// Immutable flat public input for one dealer's complete contribution.
pub struct DealerProofStatement<G: GoldenGroup> {
    dealer: ParticipantIndex,
    dealer_public_key: G::Element,
    dealer_message_root: TranscriptRoot,
    threshold: usize,
    receivers_per_instance: usize,
    effective_messages: Vec<EvrfMessage>,
    commitment_coefficients: Vec<G::Element>,
    receivers: Vec<DealerProofReceiver<G>>,
}

/// The flat receiver slot of receiver `k` of instance `i`.
pub open spec fn slot(i: int, receivers_per_instance: int, k: int) -> int {
    i * receivers_per_instance + k
}

/// The receivers of a statement built from the flat share, pad and
/// ciphertext lists: slot `i * rpi + k` holds registry receiver `k`.
pub open spec fn statement_receivers_match<G: GoldenGroup>(
    receivers: Seq<DealerProofReceiver<G>>,
    others: Seq<(ParticipantIndex, G::Element)>,
    instance_count: int,
    share_commitments: Seq<G::Element>,
    pad_commitments: Seq<G::Element>,
    encrypted_shares: Seq<G::Scalar>,
) -> bool {
    let rpi = others.len() as int;
    &&& receivers.len() == instance_count * rpi
    &&& forall|i: int, k: int|
        0 <= i < instance_count && 0 <= k < rpi ==> {
            let r = #[trigger] receivers[slot(i, rpi, k)];
            &&& r.participant == others[k].0
            &&& r.public_key == others[k].1
            &&& r.share_commitment == share_commitments[slot(i, rpi, k)]
            &&& r.pad_commitment == pad_commitments[slot(i, rpi, k)]
            &&& r.encrypted_share == encrypted_shares[slot(i, rpi, k)]
        }
}

/// The receiver at flat slot `t` pairs registry receiver `t % rpi` with the
/// share, pad and ciphertext at slot `t`.
pub open spec fn receiver_from<G: GoldenGroup>(
    r: DealerProofReceiver<G>,
    others: Seq<(ParticipantIndex, G::Element)>,
    rpi: int,
    t: int,
    share_commitments: Seq<G::Element>,
    pad_commitments: Seq<G::Element>,
    encrypted_shares: Seq<G::Scalar>,
) -> bool {
    &&& r.participant == others[t % rpi].0
    &&& r.public_key == others[t % rpi].1
    &&& r.share_commitment == share_commitments[t]
    &&& r.pad_commitment == pad_commitments[t]
    &&& r.encrypted_share == encrypted_shares[t]
}

/// Slot `i * rpi + k` holds receiver `k`: its remainder by `rpi` is `k`.
pub proof fn lemma_slot_split(t: int, rpi: int, i: int, k: int)
    requires
        0 <= i,
        0 <= k < rpi,
        t == slot(i, rpi, k),
    ensures
        t % rpi == k,
{
    vstd::arithmetic::div_mod::lemma_fundamental_div_mod_converse(t, rpi, i, k);
}

/// `0 <= i * rpi + k < n * rpi` for `i < n` and `k < rpi`.
pub proof fn lemma_slot_bounds(i: int, rpi: int, k: int, n: int)
    requires
        0 <= i < n,
        0 <= k < rpi,
    ensures
        0 <= slot(i, rpi, k) < n * rpi,
        slot(i, rpi, k) + 1 <= n * rpi,
{
    assert(0 <= i * rpi) by (nonlinear_arith)
        requires
            0 <= i,
            0 <= rpi,
    ;
    assert(i * rpi + rpi <= n * rpi) by (nonlinear_arith)
        requires
            i + 1 <= n,
            0 <= rpi,
    ;
}

/// Distinct `(i, k)` pairs name distinct slots.
pub proof fn lemma_slot_injective(i1: int, k1: int, i2: int, k2: int, rpi: int)
    requires
        0 <= k1 < rpi,
        0 <= k2 < rpi,
        slot(i1, rpi, k1) == slot(i2, rpi, k2),
    ensures
        i1 == i2,
        k1 == k2,
{
    assert(i1 == i2) by (nonlinear_arith)
        requires
            i1 * rpi + k1 == i2 * rpi + k2,
            0 <= k1 < rpi,
            0 <= k2 < rpi,
    ;
}

/// Every group element and scalar of a receiver relation is valid.
pub open spec fn receiver_wf<G: GoldenGroup>(r: DealerProofReceiver<G>) -> bool {
    &&& G::element_wf(r.public_key)
    &&& G::element_wf(r.share_commitment)
    &&& G::element_wf(r.pad_commitment)
    &&& r.encrypted_share.wf()
}

/// Every element of the flat statement inputs is valid.
pub open spec fn parts_wf<G: GoldenGroup>(
    commitment_coefficients: Seq<G::Element>,
    share_commitments: Seq<G::Element>,
    pad_commitments: Seq<G::Element>,
    encrypted_shares: Seq<G::Scalar>,
) -> bool {
    &&& forall|i: int|
        0 <= i < commitment_coefficients.len() ==> G::element_wf(
            #[trigger] commitment_coefficients[i],
        )
    &&& forall|i: int| 0 <= i < share_commitments.len() ==> G::element_wf(#[trigger] share_commitments[i])
    &&& forall|i: int| 0 <= i < pad_commitments.len() ==> G::element_wf(#[trigger] pad_commitments[i])
    &&& forall|i: int| 0 <= i < encrypted_shares.len() ==> (#[trigger] encrypted_shares[i]).wf()
}

impl<G: GoldenGroup> DealerProofStatement<G> {
    #[verifier::type_invariant]
    spec fn statement_wf(self) -> bool {
        &&& G::element_wf(self.dealer_public_key)
        &&& forall|i: int|
            0 <= i < self.commitment_coefficients@.len() ==> G::element_wf(
                #[trigger] self.commitment_coefficients@[i],
            )
        &&& forall|i: int| 0 <= i < self.receivers@.len() ==> receiver_wf::<G>(#[trigger] self.receivers@[i])
    }

    /// The dealer of the statement.
    pub closed spec fn dealer_spec(&self) -> ParticipantIndex {
        self.dealer
    }

    /// The registered dealer identity public key.
    pub closed spec fn dealer_public_key_spec(&self) -> G::Element {
        self.dealer_public_key
    }

    /// The dealer-message root the statement is bound to.
    pub closed spec fn root_spec(&self) -> TranscriptRoot {
        self.dealer_message_root
    }

    /// The configuration threshold.
    pub closed spec fn threshold_spec(&self) -> usize {
        self.threshold
    }

    /// The number of receiver slots per instance.
    pub closed spec fn receivers_per_instance_spec(&self) -> usize {
        self.receivers_per_instance
    }

    /// The effective messages, one per instance.
    pub closed spec fn effective_messages_spec(&self) -> Seq<EvrfMessage> {
        self.effective_messages@
    }

    /// The logical commitment coefficients, `threshold` per instance.
    pub closed spec fn coefficients_spec(&self) -> Seq<G::Element> {
        self.commitment_coefficients@
    }

    /// The receiver relations, `receivers_per_instance` per instance.
    pub closed spec fn receivers_spec(&self) -> Seq<DealerProofReceiver<G>> {
        self.receivers@
    }

    /// The statement built by [`DealerProofStatement::build`] from these parts.
    pub open spec fn built_from(
        &self,
        config: &DkgConfig<G>,
        dealer: ParticipantIndex,
        dealer_message_root: TranscriptRoot,
        effective_messages: Seq<EvrfMessage>,
        commitment_coefficients: Seq<G::Element>,
        share_commitments: Seq<G::Element>,
        pad_commitments: Seq<G::Element>,
        encrypted_shares: Seq<G::Scalar>,
    ) -> bool {
        let others = receivers_of(config.registry_spec(), dealer@);
        &&& self.dealer_spec() == dealer
        &&& config.registry_spec().contains((dealer, self.dealer_public_key_spec()))
        &&& self.root_spec() == dealer_message_root
        &&& self.threshold_spec() == config.threshold_spec()
        &&& self.receivers_per_instance_spec() == others.len()
        &&& self.effective_messages_spec() == effective_messages
        &&& self.coefficients_spec() == commitment_coefficients
        &&& statement_receivers_match::<G>(
            self.receivers_spec(),
            others,
            effective_messages.len() as int,
            share_commitments,
            pad_commitments,
            encrypted_shares,
        )
    }

    /// The parts fit the configuration: the dealer is registered and every
    /// list has one entry per instance (coefficients: `threshold` per
    /// instance; receiver lists: one per non-dealer participant per
    /// instance).
    pub open spec fn parts_fit(
        config: &DkgConfig<G>,
        dealer: ParticipantIndex,
        effective_messages: Seq<EvrfMessage>,
        commitment_coefficients: Seq<G::Element>,
        share_commitments: Seq<G::Element>,
        pad_commitments: Seq<G::Element>,
        encrypted_shares: Seq<G::Scalar>,
    ) -> bool {
        let n = config.instances_spec().len() as int;
        let rpi = config.registry_spec().len() - 1;
        &&& exists|k: int|
            0 <= k < config.registry_spec().len() && config.registry_spec()[k].0@ == dealer@
        &&& effective_messages.len() == n
        &&& commitment_coefficients.len() == n * config.threshold_spec()
        &&& share_commitments.len() == n * rpi
        &&& pad_commitments.len() == n * rpi
        &&& encrypted_shares.len() == n * rpi
    }

    /// Build the statement from validated dealer data; any mismatch is
    /// reported as `ProofGenerationFailed`.
    pub fn new(
        config: &DkgConfig<G>,
        dealer: ParticipantIndex,
        dealer_message_root: TranscriptRoot,
        effective_messages: Vec<EvrfMessage>,
        commitment_coefficients: Vec<G::Element>,
        share_commitments: Vec<G::Element>,
        pad_commitments: Vec<G::Element>,
        encrypted_shares: Vec<G::Scalar>,
    ) -> (result: Result<Self, Error>)
        requires
            parts_wf::<G>(
                commitment_coefficients@,
                share_commitments@,
                pad_commitments@,
                encrypted_shares@,
            ),
        ensures
            result is Ok <==> Self::parts_fit(
                config,
                dealer,
                effective_messages@,
                commitment_coefficients@,
                share_commitments@,
                pad_commitments@,
                encrypted_shares@,
            ),
            result matches Ok(s) ==> s.built_from(
                config,
                dealer,
                dealer_message_root,
                effective_messages@,
                commitment_coefficients@,
                share_commitments@,
                pad_commitments@,
                encrypted_shares@,
            ),
            result is Err ==> result == Err::<Self, Error>(Error::ProofGenerationFailed),
    {
        match Self::build(
            config,
            dealer,
            dealer_message_root,
            effective_messages,
            commitment_coefficients,
            share_commitments,
            pad_commitments,
            encrypted_shares,
        ) {
            Ok(statement) => Ok(statement),
            Err(_) => Err(Error::ProofGenerationFailed),
        }
    }

    /// Build the statement: look up the dealer key, check every list
    /// length against the configuration, and pair each flat receiver slot
    /// with its registry receiver.
    pub fn build(
        config: &DkgConfig<G>,
        dealer: ParticipantIndex,
        dealer_message_root: TranscriptRoot,
        effective_messages: Vec<EvrfMessage>,
        commitment_coefficients: Vec<G::Element>,
        share_commitments: Vec<G::Element>,
        pad_commitments: Vec<G::Element>,
        encrypted_shares: Vec<G::Scalar>,
    ) -> (result: Result<Self, Error>)
        requires
            parts_wf::<G>(
                commitment_coefficients@,
                share_commitments@,
                pad_commitments@,
                encrypted_shares@,
            ),
        ensures
            result is Ok <==> Self::parts_fit(
                config,
                dealer,
                effective_messages@,
                commitment_coefficients@,
                share_commitments@,
                pad_commitments@,
                encrypted_shares@,
            ),
            result matches Ok(s) ==> s.built_from(
                config,
                dealer,
                dealer_message_root,
                effective_messages@,
                commitment_coefficients@,
                share_commitments@,
                pad_commitments@,
                encrypted_shares@,
            ),
            (forall|k: int|
                0 <= k < config.registry_spec().len() ==> config.registry_spec()[k].0@
                    != dealer@) ==> result == Err::<Self, Error>(
                Error::UnknownParticipant(dealer@),
            ),
            (exists|k: int|
                0 <= k < config.registry_spec().len() && config.registry_spec()[k].0@ == dealer@)
                && result is Err ==> result == Err::<Self, Error>(Error::ProofVerificationFailed),
    {
        let registry = config.registry();
        let entries = registry.entries();
        let participants = registry.len();
        let dealer_public_key = match registry.public_key(dealer) {
            Ok(key) => key,
            Err(e) => return Err(e),
        };
        let ghost others = receivers_of(entries@, dealer@);
        proof {
            let k = choose|k: int| 0 <= k < entries@.len() && entries@[k] == (dealer, dealer_public_key);
            lemma_receivers_of_len(entries@, dealer@);
        }
        let instance_count = config.instances().len();
        let threshold = config.threshold();
        let receivers_per_instance = participants - 1;
        let coefficients_len = commitment_coefficients.len();
        let shares_len = share_commitments.len();
        let coefficient_count = match instance_count.checked_mul(threshold) {
            Some(c) => c,
            None => return Err(Error::ProofVerificationFailed),
        };
        let receiver_count = match instance_count.checked_mul(receivers_per_instance) {
            Some(c) => c,
            None => return Err(Error::ProofVerificationFailed),
        };
        if effective_messages.len() != instance_count || commitment_coefficients.len()
            != coefficient_count || share_commitments.len() != receiver_count
            || pad_commitments.len() != receiver_count || encrypted_shares.len() != receiver_count {
            return Err(Error::ProofVerificationFailed);
        }
        let mut receivers: Vec<DealerProofReceiver<G>> = Vec::new();
        let mut i: usize = 0;
        while i < instance_count
            invariant
                i <= instance_count,
                instance_count == config.instances_spec().len(),
                entries@ == config.registry_spec(),
                others == receivers_of(entries@, dealer@),
                others.len() == receivers_per_instance,
                receiver_count == instance_count * receivers_per_instance,
                share_commitments@.len() == receiver_count,
                pad_commitments@.len() == receiver_count,
                encrypted_shares@.len() == receiver_count,
                receivers@.len() == i * receivers_per_instance,
                parts_wf::<G>(
                    commitment_coefficients@,
                    share_commitments@,
                    pad_commitments@,
                    encrypted_shares@,
                ),
                forall|t: int| 0 <= t < entries@.len() ==> G::element_wf(#[trigger] entries@[t].1),
                forall|t: int| 0 <= t < receivers@.len() ==> receiver_wf::<G>(#[trigger] receivers@[t]),
                forall|t: int|
                    0 <= t < receivers@.len() ==> receiver_from::<G>(
                        #[trigger] receivers@[t],
                        others,
                        receivers_per_instance as int,
                        t,
                        share_commitments@,
                        pad_commitments@,
                        encrypted_shares@,
                    ),
            decreases instance_count - i,
        {
            let ghost start = receivers@.len() as int;
            proof {
                lemma_receiver_scan_ends(entries@, dealer@);
            }
            let mut j: usize = 0;
            let mut k: usize = 0;
            while j < entries.len()
                invariant
                    i < instance_count,
                    j <= entries@.len(),
                    entries@ == config.registry_spec(),
                    others == receivers_of(entries@, dealer@),
                    others.len() == receivers_per_instance,
                    k == receivers_of(entries@.take(j as int), dealer@).len(),
                    receivers_of(entries@.take(j as int), dealer@) == others.take(k as int),
                    receiver_count == instance_count * receivers_per_instance,
                    share_commitments@.len() == receiver_count,
                    pad_commitments@.len() == receiver_count,
                    encrypted_shares@.len() == receiver_count,
                    start == i * receivers_per_instance,
                    receivers@.len() == start + k,
                    parts_wf::<G>(
                        commitment_coefficients@,
                        share_commitments@,
                        pad_commitments@,
                        encrypted_shares@,
                    ),
                    forall|t: int| 0 <= t < entries@.len() ==> G::element_wf(#[trigger] entries@[t].1),
                    forall|t: int| 0 <= t < receivers@.len() ==> receiver_wf::<G>(#[trigger] receivers@[t]),
                    forall|t: int|
                        0 <= t < receivers@.len() ==> receiver_from::<G>(
                            #[trigger] receivers@[t],
                            others,
                            receivers_per_instance as int,
                            t,
                            share_commitments@,
                            pad_commitments@,
                            encrypted_shares@,
                        ),
                decreases entries@.len() - j,
            {
                proof {
                    lemma_receiver_scan_step(entries@, dealer@, j as int, k as int);
                }
                let participant = entries[j].0;
                if participant.get() != dealer.get() {
                    proof {
                        lemma_slot_bounds(
                            i as int,
                            receivers_per_instance as int,
                            k as int,
                            instance_count as int,
                        );
                    }
                    let offset = start_of(i, receivers_per_instance, k);
                    let receiver = DealerProofReceiver {
                        participant,
                        public_key: entries[j].1,
                        share_commitment: share_commitments[offset],
                        pad_commitment: pad_commitments[offset],
                        encrypted_share: encrypted_shares[offset],
                    };
                    proof {
                        lemma_slot_split(offset as int, receivers_per_instance as int, i as int, k as int);
                    }
                    receivers.push(receiver);
                    k = k + 1;
                }
                j = j + 1;
            }
            proof {
                assert(entries@.take(entries@.len() as int) =~= entries@);
                assert(others.take(others.len() as int) =~= others);
                assert(k == receivers_per_instance);
                assert(receivers@.len() == (i + 1) * receivers_per_instance) by (nonlinear_arith)
                    requires
                        receivers@.len() == start + k,
                        start == i * receivers_per_instance,
                        k == receivers_per_instance,
                ;
            }
            i = i + 1;
        }
        proof {
            assert forall|a: int, kk: int|
                0 <= a < instance_count && 0 <= kk < receivers_per_instance implies {
                    let r = #[trigger] receivers@[slot(a, receivers_per_instance as int, kk)];
                    &&& r.participant == others[kk].0
                    &&& r.public_key == others[kk].1
                    &&& r.share_commitment == share_commitments@[slot(
                        a,
                        receivers_per_instance as int,
                        kk,
                    )]
                    &&& r.pad_commitment == pad_commitments@[slot(a, receivers_per_instance as int, kk)]
                    &&& r.encrypted_share == encrypted_shares@[slot(
                        a,
                        receivers_per_instance as int,
                        kk,
                    )]
                } by {
                let t = slot(a, receivers_per_instance as int, kk);
                lemma_slot_bounds(a, receivers_per_instance as int, kk, instance_count as int);
                assert(receiver_from::<G>(
                    receivers@[t],
                    others,
                    receivers_per_instance as int,
                    t,
                    share_commitments@,
                    pad_commitments@,
                    encrypted_shares@,
                ));
                lemma_slot_split(t, receivers_per_instance as int, a, kk);
            }
        }
        proof {
            let kd = choose|k: int| 0 <= k < entries@.len() && entries@[k] == (dealer, dealer_public_key);
            assert(G::element_wf(entries@[kd].1));
        }
        let statement = DealerProofStatement {
            dealer,
            dealer_public_key,
            dealer_message_root,
            threshold,
            receivers_per_instance,
            effective_messages,
            commitment_coefficients,
            receivers,
        };
        Ok(statement)
    }

    /// Check that the statement was built for this configuration: dealer
    /// key, threshold, list lengths, and receiver order and keys.
    pub fn validate_against(&self, config: &DkgConfig<G>) -> (result: Result<(), Error>)
        ensures
            result is Ok <==> self.fits(config),
            result is Err ==> result == Err::<(), Error>(Error::ProofVerificationFailed),
    {
        proof {
            use_type_invariant(self);
        }
        let registry = config.registry();
        let entries = registry.entries();
        let participants = registry.len();
        let expected = match registry.public_key(self.dealer) {
            Ok(key) => key,
            Err(_) => return Err(Error::ProofVerificationFailed),
        };
        let ghost kd = choose|k: int| 0 <= k < entries@.len() && entries@[k] == (self.dealer, expected);
        proof {
            assert(0 <= kd < entries@.len() && entries@[kd] == (self.dealer, expected));
            assert(G::element_wf(entries@[kd].1));
            lemma_receivers_of_len(entries@, self.dealer@);
            assert forall|k: int|
                0 <= k < entries@.len() && entries@[k].0@ == self.dealer@ implies k == kd by {
                if k < kd {
                    assert(entries@[k].0@ < entries@[kd].0@);
                } else if k > kd {
                    assert(entries@[kd].0@ < entries@[k].0@);
                }
            }
        }
        let instance_count = config.instances().len();
        let receivers_per_instance = participants - 1;
        let coefficients_len = self.commitment_coefficients.len();
        let receivers_len = self.receivers.len();
        let coefficient_count = match instance_count.checked_mul(config.threshold()) {
            Some(c) => c,
            None => return Err(Error::ProofVerificationFailed),
        };
        let receiver_count = match instance_count.checked_mul(receivers_per_instance) {
            Some(c) => c,
            None => return Err(Error::ProofVerificationFailed),
        };
        if !G::element_eq(&expected, &self.dealer_public_key) || self.threshold
            != config.threshold() || self.receivers_per_instance != receivers_per_instance
            || self.effective_messages.len() != instance_count || coefficients_len
            != coefficient_count || receivers_len != receiver_count {
            return Err(Error::ProofVerificationFailed);
        }
        let ghost others = receivers_of(entries@, self.dealer@);
        let mut i: usize = 0;
        while i < instance_count
            invariant
                i <= instance_count,
                instance_count == config.instances_spec().len(),
                entries@ == config.registry_spec(),
                others == receivers_of(entries@, self.dealer@),
                others.len() == receivers_per_instance,
                receivers_per_instance == entries@.len() - 1,
                receivers_per_instance == self.receivers_per_instance,
                self.receivers@.len() == instance_count * receivers_per_instance,
                instance_count * receivers_per_instance <= usize::MAX,
                forall|t: int| 0 <= t < entries@.len() ==> G::element_wf(#[trigger] entries@[t].1),
                forall|t: int|
                    0 <= t < self.receivers@.len() ==> receiver_wf::<G>(#[trigger] self.receivers@[t]),
                forall|a: int, k: int|
                    0 <= a < i && 0 <= k < receivers_per_instance ==> receiver_matches::<G>(
                        #[trigger] self.receivers@[slot(a, receivers_per_instance as int, k)],
                        others[k],
                    ),
            decreases instance_count - i,
        {
            proof {
                lemma_receiver_scan_ends(entries@, self.dealer@);
            }
            let mut j: usize = 0;
            let mut k: usize = 0;
            while j < entries.len()
                invariant
                    i < instance_count,
                    j <= entries@.len(),
                    entries@ == config.registry_spec(),
                    others == receivers_of(entries@, self.dealer@),
                    others.len() == receivers_per_instance,
                    receivers_per_instance == entries@.len() - 1,
                    instance_count == config.instances_spec().len(),
                    k == receivers_of(entries@.take(j as int), self.dealer@).len(),
                    receivers_of(entries@.take(j as int), self.dealer@) == others.take(k as int),
                    self.receivers@.len() == instance_count * receivers_per_instance,
                    instance_count * receivers_per_instance <= usize::MAX,
                    forall|t: int| 0 <= t < entries@.len() ==> G::element_wf(#[trigger] entries@[t].1),
                    forall|t: int|
                        0 <= t < self.receivers@.len() ==> receiver_wf::<G>(#[trigger] self.receivers@[t]),
                    forall|a: int, kk: int|
                        0 <= a < i && 0 <= kk < receivers_per_instance ==> receiver_matches::<G>(
                            #[trigger] self.receivers@[slot(a, receivers_per_instance as int, kk)],
                            others[kk],
                        ),
                    forall|kk: int|
                        0 <= kk < k ==> receiver_matches::<G>(
                            #[trigger] self.receivers@[slot(i as int, receivers_per_instance as int, kk)],
                            others[kk],
                        ),
                decreases entries@.len() - j,
            {
                proof {
                    lemma_receiver_scan_step(entries@, self.dealer@, j as int, k as int);
                }
                let participant = entries[j].0;
                if participant.get() != self.dealer.get() {
                    proof {
                        lemma_slot_bounds(
                            i as int,
                            receivers_per_instance as int,
                            k as int,
                            instance_count as int,
                        );
                    }
                    let offset = start_of(i, receivers_per_instance, k);
                    let receiver = &self.receivers[offset];
                    if receiver.participant.get() != participant.get() || !G::element_eq(
                        &receiver.public_key,
                        &entries[j].1,
                    ) {
                        proof {
                            assert(!receiver_matches::<G>(
                                self.receivers@[slot(i as int, receivers_per_instance as int, k as int)],
                                others[k as int],
                            ));
                            if self.fits(config) {
                                assert(receiver_matches::<G>(
                                    self.receivers_spec()[slot(
                                        i as int,
                                        receivers_per_instance as int,
                                        k as int,
                                    )],
                                    others[k as int],
                                ));
                            }
                        }
                        return Err(Error::ProofVerificationFailed);
                    }
                    k = k + 1;
                }
                j = j + 1;
            }
            proof {
                assert(entries@.take(entries@.len() as int) =~= entries@);
                assert(others.take(others.len() as int) =~= others);
            }
            i = i + 1;
        }
        Ok(())
    }

    /// The statement fits the configuration: registered dealer with the
    /// same key, the configured threshold, one slot per non-dealer
    /// participant and instance, and receivers in registry order with their
    /// registered keys.
    pub open spec fn fits(&self, config: &DkgConfig<G>) -> bool {
        let entries = config.registry_spec();
        let others = receivers_of(entries, self.dealer_spec()@);
        let n = config.instances_spec().len() as int;
        let rpi = entries.len() - 1;
        &&& exists|k: int|
            0 <= k < entries.len() && entries[k].0@ == self.dealer_spec()@ && G::dlog(entries[k].1)
                == G::dlog(self.dealer_public_key_spec())
        &&& self.threshold_spec() == config.threshold_spec()
        &&& self.receivers_per_instance_spec() == rpi
        &&& self.effective_messages_spec().len() == n
        &&& self.coefficients_spec().len() == n * config.threshold_spec()
        &&& self.receivers_spec().len() == n * rpi
        &&& forall|i: int, k: int|
            0 <= i < n && 0 <= k < rpi ==> receiver_matches::<G>(
                #[trigger] self.receivers_spec()[slot(i, rpi, k)],
                others[k],
            )
    }

    /// Return the dealer participant.
    pub fn dealer(&self) -> (dealer: ParticipantIndex)
        ensures
            dealer == self.dealer_spec(),
    {
        self.dealer
    }

    /// Return the registered dealer identity public key.
    pub fn dealer_public_key(&self) -> (key: G::Element)
        ensures
            key == self.dealer_public_key_spec(),
    {
        self.dealer_public_key
    }

    /// Return the proof-independent canonical dealer-message root.
    pub fn dealer_message_root(&self) -> (root: TranscriptRoot)
        ensures
            root == self.root_spec(),
    {
        self.dealer_message_root
    }

    /// Return the number of configured instances.
    pub fn instance_count(&self) -> (n: usize)
        ensures
            n == self.effective_messages_spec().len(),
    {
        self.effective_messages.len()
    }

    /// Return the number of non-dealer receiver slots per instance.
    pub fn receiver_count(&self) -> (n: usize)
        ensures
            n == self.receivers_per_instance_spec(),
    {
        self.receivers_per_instance
    }

    /// Return the effective Main Golden message of one instance.
    pub fn effective_message(&self, position: usize) -> (message: Option<EvrfMessage>)
        ensures
            position < self.effective_messages_spec().len() ==> message == Some(
                self.effective_messages_spec()[position as int],
            ),
            position >= self.effective_messages_spec().len() ==> message is None,
    {
        if position < self.effective_messages.len() {
            Some(self.effective_messages[position])
        } else {
            None
        }
    }
}

/// The statement receiver names the registry receiver with its key.
pub open spec fn receiver_matches<G: GoldenGroup>(
    receiver: DealerProofReceiver<G>,
    entry: (ParticipantIndex, G::Element),
) -> bool {
    receiver.participant@ == entry.0@ && G::dlog(receiver.public_key) == G::dlog(entry.1)
}

/// The receivers among the first `j` entries are the first receivers.
pub proof fn lemma_receivers_prefix<E>(entries: Seq<(ParticipantIndex, E)>, dealer: u32, j: int)
    requires
        0 <= j <= entries.len(),
    ensures
        receivers_of(entries.take(j), dealer).len() <= receivers_of(entries, dealer).len(),
        receivers_of(entries, dealer).take(receivers_of(entries.take(j), dealer).len() as int)
            == receivers_of(entries.take(j), dealer),
    decreases entries.len() - j,
{
    if j < entries.len() {
        lemma_receivers_prefix(entries, dealer, j + 1);
        lemma_receivers_of_step(entries, dealer, j);
        let a = receivers_of(entries.take(j), dealer);
        let b = receivers_of(entries.take(j + 1), dealer);
        let all = receivers_of(entries, dealer);
        if entries[j].0@ != dealer {
            assert(b == a.push(entries[j]));
            assert(all.take(a.len() as int) =~= b.take(a.len() as int));
        }
    } else {
        assert(entries.take(j) =~= entries);
        assert(receivers_of(entries, dealer).take(receivers_of(entries, dealer).len() as int)
            =~= receivers_of(entries, dealer));
    }
}

/// One step of a scan over the registry that skips the dealer: a receiver
/// entry is the next receiver, the dealer's entry is skipped.
pub proof fn lemma_receiver_scan_step<E>(
    entries: Seq<(ParticipantIndex, E)>,
    dealer: u32,
    j: int,
    k: int,
)
    requires
        0 <= j < entries.len(),
        0 <= k,
        receivers_of(entries.take(j), dealer) == receivers_of(entries, dealer).take(k),
        k == receivers_of(entries.take(j), dealer).len(),
    ensures
        entries[j].0@ != dealer ==> k < receivers_of(entries, dealer).len() && receivers_of(
            entries,
            dealer,
        )[k] == entries[j] && receivers_of(entries.take(j + 1), dealer) == receivers_of(
            entries,
            dealer,
        ).take(k + 1),
        entries[j].0@ == dealer ==> receivers_of(entries.take(j + 1), dealer) == receivers_of(
            entries,
            dealer,
        ).take(k),
{
    let others = receivers_of(entries, dealer);
    lemma_receivers_of_step(entries, dealer, j);
    lemma_receivers_prefix(entries, dealer, j + 1);
    if entries[j].0@ != dealer {
        let b = receivers_of(entries.take(j + 1), dealer);
        assert(b == others.take(k).push(entries[j]));
        assert(b.len() == k + 1);
        assert(others.take(k + 1) == b);
        assert(others.take(k + 1)[k] == others[k]);
    }
}

/// The scan starts with no receivers and ends with all of them.
pub proof fn lemma_receiver_scan_ends<E>(entries: Seq<(ParticipantIndex, E)>, dealer: u32)
    ensures
        receivers_of(entries.take(0), dealer) == receivers_of(entries, dealer).take(0),
        receivers_of(entries.take(entries.len() as int), dealer) == receivers_of(entries, dealer),
{
    assert(entries.take(0) =~= Seq::<(ParticipantIndex, E)>::empty());
    assert(receivers_of(entries, dealer).take(0) =~= Seq::<(ParticipantIndex, E)>::empty());
    assert(entries.take(entries.len() as int) =~= entries);
}

/// Slots of earlier instances come before the slots of instance `i`.
pub proof fn lemma_slot_before(a: int, kk: int, rpi: int, i: int)
    requires
        0 <= a < i,
        0 <= kk < rpi,
    ensures
        0 <= slot(a, rpi, kk) < i * rpi,
{
    assert(0 <= a * rpi + kk < i * rpi) by (nonlinear_arith)
        requires
            0 <= a < i,
            0 <= kk < rpi,
    ;
}

/// `i * rpi + k`, the flat slot of receiver `k` of instance `i`.
fn start_of(i: usize, rpi: usize, k: usize) -> (offset: usize)
    requires
        i * rpi + k < usize::MAX,
    ensures
        offset == slot(i as int, rpi as int, k as int),
{
    proof {
        assert(0 <= i * rpi <= i * rpi + k) by (nonlinear_arith);
    }
    i * rpi + k
}

impl<G: GoldenGroup> DealerProofStatement<G> {
    /// Borrow one configured instance in protocol order.
    pub fn instance(&self, position: usize) -> (view: Option<DealerProofInstanceView<'_, G>>)
        ensures
            position < self.effective_messages_spec().len() ==> (view matches Some(v) && v.position
                == position && v.statement == self),
            position >= self.effective_messages_spec().len() ==> view is None,
    {
        if position < self.effective_messages.len() {
            Some(DealerProofInstanceView { statement: self, position })
        } else {
            None
        }
    }
}

/// Immutable view of one flat dealer-proof instance.
pub struct DealerProofInstanceView<'a, G: GoldenGroup> {
    /// The statement viewed.
    pub statement: &'a DealerProofStatement<G>,
    /// The instance position.
    pub position: usize,
}

impl<'a, G: GoldenGroup> DealerProofInstanceView<'a, G> {
    /// Return the effective Main Golden message.
    pub fn effective_message(&self) -> (message: EvrfMessage)
        requires
            self.position < self.statement.effective_messages_spec().len(),
        ensures
            message == self.statement.effective_messages_spec()[self.position as int],
    {
        self.statement.effective_messages[self.position]
    }

    /// Return the complete logical Feldman coefficient commitments.
    pub fn commitment_coefficients(&self) -> (coefficients: Vec<G::Element>)
        requires
            self.statement.fits_counts(),
            self.position < self.statement.effective_messages_spec().len(),
        ensures
            coefficients@ == self.statement.coefficients_spec().subrange(
                self.position * self.statement.threshold_spec(),
                self.position * self.statement.threshold_spec() + self.statement.threshold_spec(),
            ),
    {
        let threshold = self.statement.threshold;
        let position = self.position;
        let total = self.statement.commitment_coefficients.len();
        proof {
            let n = self.statement.effective_messages@.len() as int;
            assert(position * threshold + threshold <= n * threshold) by (nonlinear_arith)
                requires
                    position + 1 <= n,
            ;
            assert(0 <= position * threshold) by (nonlinear_arith);
        }
        let start = position * threshold;
        let mut out: Vec<G::Element> = Vec::new();
        let mut t: usize = 0;
        while t < threshold
            invariant
                t <= threshold,
                threshold == self.statement.threshold,
                start == position * threshold,
                start + threshold <= self.statement.commitment_coefficients@.len(),
                self.statement.commitment_coefficients@.len() == total,
                out@ == self.statement.commitment_coefficients@.subrange(start as int, start + t),
            decreases threshold - t,
        {
            out.push(self.statement.commitment_coefficients[start + t]);
            t = t + 1;
            assert(out@ =~= self.statement.commitment_coefficients@.subrange(start as int, start + t));
        }
        out
    }

    /// Return the number of non-dealer receiver slots.
    pub fn receiver_count(&self) -> (n: usize)
        ensures
            n == self.statement.receivers_per_instance_spec(),
    {
        self.statement.receivers_per_instance
    }

    /// Borrow one receiver slot in canonical registry order.
    pub fn receiver(&self, position: usize) -> (view: Option<&'a DealerProofReceiver<G>>)
        requires
            self.statement.fits_counts(),
            self.position < self.statement.effective_messages_spec().len(),
        ensures
            position >= self.statement.receivers_per_instance_spec() ==> view is None,
            position < self.statement.receivers_per_instance_spec() ==> view == Some(
                &self.statement.receivers_spec()[slot(
                    self.position as int,
                    self.statement.receivers_per_instance_spec() as int,
                    position as int,
                )],
            ),
    {
        let rpi = self.statement.receivers_per_instance;
        let total = self.statement.receivers.len();
        if position >= rpi {
            return None;
        }
        proof {
            lemma_slot_bounds(
                self.position as int,
                rpi as int,
                position as int,
                self.statement.effective_messages@.len() as int,
            );
        }
        let offset = start_of(self.position, rpi, position);
        Some(&self.statement.receivers[offset])
    }
}

impl<G: GoldenGroup> DealerProofStatement<G> {
    /// The flat lists hold `threshold` coefficients and
    /// `receivers_per_instance` receivers per instance.
    pub open spec fn fits_counts(&self) -> bool {
        &&& self.coefficients_spec().len() == self.effective_messages_spec().len()
            * self.threshold_spec()
        &&& self.receivers_spec().len() == self.effective_messages_spec().len()
            * self.receivers_per_instance_spec()
    }
}

/// Private share and pad opening of one receiver slot.
pub struct DealerProofReceiverWitness<S: GoldenScalar> {
    /// The receiver share opening.
    pub share: S,
    /// The receiver pad opening.
    pub pad: S,
}

/// Immutable private input for one dealer's complete contribution.
pub struct DealerProofWitness<G: GoldenGroup> {
    identity_secret: G::Scalar,
    polynomial_constants: Vec<Option<G::Scalar>>,
    receivers_per_instance: usize,
    receivers: Vec<DealerProofReceiverWitness<G::Scalar>>,
}

/// Each instance carries a constant exactly when it is a random sharing.
pub open spec fn constants_match_kinds<S>(
    constants: Seq<Option<S>>,
    kinds: Seq<DkgInstanceKind>,
) -> bool {
    forall|i: int|
        0 <= i < constants.len() && i < kinds.len() ==> ((#[trigger] constants[i] is Some) <==> (
        kinds[i] == DkgInstanceKind::Random))
}

impl<G: GoldenGroup> DealerProofWitness<G> {
    /// The dealer identity secret.
    pub closed spec fn identity_secret_spec(&self) -> G::Scalar {
        self.identity_secret
    }

    /// The polynomial constants, one per instance.
    pub closed spec fn constants_spec(&self) -> Seq<Option<G::Scalar>> {
        self.polynomial_constants@
    }

    /// The number of receiver slots per instance.
    pub closed spec fn receivers_per_instance_spec(&self) -> usize {
        self.receivers_per_instance
    }

    /// The receiver openings, in statement slot order.
    pub closed spec fn receivers_spec(&self) -> Seq<DealerProofReceiverWitness<G::Scalar>> {
        self.receivers@
    }

    /// Build the witness; any mismatch is reported as
    /// `ProofGenerationFailed`.
    pub fn new(
        config: &DkgConfig<G>,
        statement: &DealerProofStatement<G>,
        identity_secret: G::Scalar,
        polynomial_constants: Vec<Option<G::Scalar>>,
        receiver_openings: Vec<(G::Scalar, G::Scalar)>,
    ) -> (result: Result<Self, Error>)
        ensures
            result is Ok <==> Self::revealed_parts_fit(
                config,
                statement,
                polynomial_constants@,
                receiver_openings@.len() as int,
            ),
            result is Err ==> result == Err::<Self, Error>(Error::ProofGenerationFailed),
            result matches Ok(w) ==> w.identity_secret_spec() == identity_secret
                && w.constants_spec() == polynomial_constants@
                && w.receivers_per_instance_spec() == statement.receivers_per_instance_spec()
                && w.receivers_spec().len() == receiver_openings@.len() && forall|i: int|
                0 <= i < receiver_openings@.len() ==> (#[trigger] w.receivers_spec()[i]).share
                    == receiver_openings@[i].0 && w.receivers_spec()[i].pad
                    == receiver_openings@[i].1,
    {
        match Self::from_revealed_parts(
            config,
            statement,
            identity_secret,
            polynomial_constants,
            receiver_openings,
        ) {
            Ok(witness) => Ok(witness),
            Err(_) => Err(Error::ProofGenerationFailed),
        }
    }

    /// The revealed parts fit the statement and configuration.
    pub open spec fn revealed_parts_fit(
        config: &DkgConfig<G>,
        statement: &DealerProofStatement<G>,
        polynomial_constants: Seq<Option<G::Scalar>>,
        receiver_opening_count: int,
    ) -> bool {
        &&& statement.fits(config)
        &&& polynomial_constants.len() == statement.effective_messages_spec().len()
        &&& constants_match_kinds(polynomial_constants, config.instances_spec())
        &&& receiver_opening_count == statement.effective_messages_spec().len()
            * statement.receivers_per_instance_spec()
    }

    /// Build the witness from revealed openings, checking them against the
    /// statement and configuration.
    pub fn from_revealed_parts(
        config: &DkgConfig<G>,
        statement: &DealerProofStatement<G>,
        identity_secret: G::Scalar,
        polynomial_constants: Vec<Option<G::Scalar>>,
        receiver_openings: Vec<(G::Scalar, G::Scalar)>,
    ) -> (result: Result<Self, Error>)
        ensures
            result is Ok <==> Self::revealed_parts_fit(
                config,
                statement,
                polynomial_constants@,
                receiver_openings@.len() as int,
            ),
            result is Err ==> result == Err::<Self, Error>(Error::ProofVerificationFailed),
            result matches Ok(w) ==> w.identity_secret_spec() == identity_secret
                && w.constants_spec() == polynomial_constants@
                && w.receivers_per_instance_spec() == statement.receivers_per_instance_spec()
                && w.receivers_spec().len() == receiver_openings@.len() && forall|i: int|
                0 <= i < receiver_openings@.len() ==> (#[trigger] w.receivers_spec()[i]).share
                    == receiver_openings@[i].0 && w.receivers_spec()[i].pad
                    == receiver_openings@[i].1,
    {
        match statement.validate_against(config) {
            Ok(()) => {},
            Err(e) => return Err(e),
        }
        let kinds = config.instances();
        let n = statement.instance_count();
        let openings_len = receiver_openings.len();
        if polynomial_constants.len() != n {
            return Err(Error::ProofVerificationFailed);
        }
        let mut i: usize = 0;
        while i < n
            invariant
                i <= n,
                n == polynomial_constants@.len(),
                n == kinds@.len(),
                kinds@ == config.instances_spec(),
                forall|t: int|
                    0 <= t < i ==> ((#[trigger] polynomial_constants@[t] is Some) <==> (kinds@[t]
                        == DkgInstanceKind::Random)),
            decreases n - i,
        {
            let random = match kinds[i] {
                DkgInstanceKind::Random => true,
                DkgInstanceKind::Zero => false,
            };
            if polynomial_constants[i].is_some() != random {
                return Err(Error::ProofVerificationFailed);
            }
            i = i + 1;
        }
        let receiver_count = match n.checked_mul(statement.receiver_count()) {
            Some(c) => c,
            None => return Err(Error::ProofVerificationFailed),
        };
        if openings_len != receiver_count {
            return Err(Error::ProofVerificationFailed);
        }
        let mut receivers: Vec<DealerProofReceiverWitness<G::Scalar>> = Vec::new();
        let mut t: usize = 0;
        while t < openings_len
            invariant
                t <= openings_len,
                openings_len == receiver_openings@.len(),
                receivers@.len() == t,
                forall|u: int|
                    0 <= u < t ==> (#[trigger] receivers@[u]).share == receiver_openings@[u].0
                        && receivers@[u].pad == receiver_openings@[u].1,
            decreases openings_len - t,
        {
            let (share, pad) = receiver_openings[t];
            receivers.push(DealerProofReceiverWitness { share, pad });
            t = t + 1;
        }
        Ok(
            DealerProofWitness {
                identity_secret,
                polynomial_constants,
                receivers_per_instance: statement.receiver_count(),
                receivers,
            },
        )
    }

    /// Check the witness shape against the statement and configuration.
    pub fn validate_shape(&self, config: &DkgConfig<G>, statement: &DealerProofStatement<G>) -> (result:
        Result<(), Error>)
        ensures
            result is Ok <==> {
                &&& self.constants_spec().len() == statement.effective_messages_spec().len()
                &&& self.receivers_per_instance_spec() == statement.receivers_per_instance_spec()
                &&& self.receivers_spec().len() == statement.effective_messages_spec().len()
                    * statement.receivers_per_instance_spec()
                &&& constants_match_kinds(self.constants_spec(), config.instances_spec())
            },
            result is Err ==> result == Err::<(), Error>(Error::ProofVerificationFailed),
    {
        let n = statement.instance_count();
        let receivers_len = self.receivers.len();
        let receiver_count = match n.checked_mul(statement.receiver_count()) {
            Some(c) => c,
            None => return Err(Error::ProofVerificationFailed),
        };
        if self.polynomial_constants.len() != n || self.receivers_per_instance
            != statement.receiver_count() || receivers_len != receiver_count {
            return Err(Error::ProofVerificationFailed);
        }
        let kinds = config.instances();
        let m = if n < kinds.len() {
            n
        } else {
            kinds.len()
        };
        let mut i: usize = 0;
        while i < m
            invariant
                i <= m,
                m <= n,
                m <= kinds@.len(),
                n == self.polynomial_constants@.len(),
                m == n || m == kinds@.len(),
                forall|t: int|
                    0 <= t < i ==> ((#[trigger] self.polynomial_constants@[t] is Some) <==> (
                    kinds@[t] == DkgInstanceKind::Random)),
                kinds@ == config.instances_spec(),
            decreases m - i,
        {
            let random = match kinds[i] {
                DkgInstanceKind::Random => true,
                DkgInstanceKind::Zero => false,
            };
            if self.polynomial_constants[i].is_some() != random {
                proof {
                    assert(self.constants_spec()[i as int] == self.polynomial_constants@[i as int]);
                    assert(config.instances_spec()[i as int] == kinds@[i as int]);
                }
                return Err(Error::ProofVerificationFailed);
            }
            i = i + 1;
        }
        Ok(())
    }

    /// Return the dealer identity secret.
    pub fn identity_secret(&self) -> (secret: G::Scalar)
        ensures
            secret == self.identity_secret_spec(),
    {
        self.identity_secret
    }

    /// Return the number of configured witness instances.
    pub fn instance_count(&self) -> (n: usize)
        ensures
            n == self.constants_spec().len(),
    {
        self.polynomial_constants.len()
    }

    /// Return the Random constant opening of one instance, or `None` for a
    /// Zero instance or a position past the end.
    pub fn polynomial_constant(&self, position: usize) -> (constant: Option<G::Scalar>)
        ensures
            position < self.constants_spec().len() ==> constant == self.constants_spec()[position as int],
            position >= self.constants_spec().len() ==> constant is None,
    {
        if position < self.polynomial_constants.len() {
            self.polynomial_constants[position]
        } else {
            None
        }
    }

    /// Return the share and pad opening of receiver `position` of
    /// instance `instance`.
    pub fn receiver(&self, instance: usize, position: usize) -> (opening: Option<(G::Scalar, G::Scalar)>)
        ensures
            opening matches Some(o) ==> (position < self.receivers_per_instance_spec() && {
                let t = slot(instance as int, self.receivers_per_instance_spec() as int, position as int);
                &&& 0 <= t < self.receivers_spec().len()
                &&& o == (self.receivers_spec()[t].share, self.receivers_spec()[t].pad)
            }),
            opening is None ==> position >= self.receivers_per_instance_spec() || slot(
                instance as int,
                self.receivers_per_instance_spec() as int,
                position as int,
            ) >= self.receivers_spec().len(),
    {
        let total = self.receivers.len();
        if position >= self.receivers_per_instance {
            return None;
        }
        let offset = match instance.checked_mul(self.receivers_per_instance) {
            Some(start) => match start.checked_add(position) {
                Some(o) => o,
                None => return None,
            },
            None => return None,
        };
        if offset >= self.receivers.len() {
            return None;
        }
        Some((self.receivers[offset].share, self.receivers[offset].pad))
    }
}

/// A statement built from parts that fit the configuration fits the
/// configuration.
pub proof fn lemma_built_statement_fits<G: GoldenGroup>(
    statement: DealerProofStatement<G>,
    config: DkgConfig<G>,
    dealer: ParticipantIndex,
    dealer_message_root: TranscriptRoot,
    effective_messages: Seq<EvrfMessage>,
    commitment_coefficients: Seq<G::Element>,
    share_commitments: Seq<G::Element>,
    pad_commitments: Seq<G::Element>,
    encrypted_shares: Seq<G::Scalar>,
)
    requires
        strictly_increasing(config.registry_spec()),
        DealerProofStatement::<G>::parts_fit(
            &config,
            dealer,
            effective_messages,
            commitment_coefficients,
            share_commitments,
            pad_commitments,
            encrypted_shares,
        ),
        statement.built_from(
            &config,
            dealer,
            dealer_message_root,
            effective_messages,
            commitment_coefficients,
            share_commitments,
            pad_commitments,
            encrypted_shares,
        ),
    ensures
        statement.fits(&config),
        statement.effective_messages_spec() == effective_messages,
        statement.receivers_per_instance_spec() == config.registry_spec().len() - 1,
{
    let entries = config.registry_spec();
    let others = receivers_of(entries, dealer@);
    lemma_receivers_of_len(entries, dealer@);
    let n = config.instances_spec().len() as int;
    let rpi = entries.len() - 1;
    let kd = choose|k: int| 0 <= k < entries.len() && entries[k] == (dealer, statement.dealer_public_key_spec());
    assert(0 <= kd < entries.len() && entries[kd].0@ == statement.dealer_spec()@ && G::dlog(entries[kd].1)
        == G::dlog(statement.dealer_public_key_spec()));
    assert forall|i: int, k: int| 0 <= i < n && 0 <= k < rpi implies receiver_matches::<G>(
        #[trigger] statement.receivers_spec()[slot(i, rpi, k)],
        others[k],
    ) by {
    }
}

} // verus!
