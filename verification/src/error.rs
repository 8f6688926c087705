//! Error types for Golden operations.
use vstd::prelude::*;

use crate::participant::ParticipantIndex;

verus! {

/// Coarse reason why one attributed opaque dealer message was rejected.
///
/// These reasons intentionally omit byte offsets, instance and receiver
/// positions, parsed values, and proof-system details.
#[derive(Clone, Debug, Eq, PartialEq)]
pub enum DealerMessageError {
    /// The complete opaque message exceeded the protocol limit.
    TooLarge {
        /// Supplied byte length (or the minimum length required by the config).
        actual: usize,
        /// Maximum accepted whole-message length.
        maximum: usize,
    },
    /// The envelope or configuration-selected body grammar was malformed.
    Malformed,
    /// The message was bound to another DKG configuration.
    ConfigurationMismatch,
    /// The encoded dealer disagreed with the caller's routing metadata.
    DealerMismatch {
        /// Canonically decoded dealer carried by the message.
        encoded: ParticipantIndex,
    },
    /// A public algebraic relation in the message was invalid.
    InvalidPublicRelations,
}

/// Errors returned by Golden core operations.
#[derive(Clone, Debug, Eq, PartialEq)]
pub enum Error {
    /// A participant registry contained no entries.
    EmptyParticipantRegistry,
    /// A participant index was zero.
    ZeroParticipantIndex,
    /// A participant index appeared more than once.
    DuplicateParticipantIndex(u32),
    /// A participant identity public key appeared more than once.
    DuplicateParticipantPublicKey {
        /// First participant index using the public key.
        first: u32,
        /// Second participant index using the public key.
        second: u32,
    },
    /// The threshold was invalid for the requested operation.
    InvalidThreshold {
        /// Requested threshold.
        threshold: usize,
        /// Number of participants.
        participants: usize,
    },
    /// A DKG batch contained no sharing instances.
    EmptyDkgBatch,
    /// An interpolation denominator was not invertible.
    NonInvertibleDenominator,
    /// A scalar or point encoding was rejected by the backend.
    InvalidEncoding,
    /// A Feldman commitment had no coefficients.
    EmptyCommitment,
    /// A Feldman commitment had the wrong number of coefficients.
    InvalidCommitmentDegree {
        /// Expected coefficient count.
        expected: usize,
        /// Actual coefficient count.
        actual: usize,
    },
    /// A message or output belongs to a different DKG configuration.
    ConfigurationMismatch,
    /// A dealer message had the wrong number of dealing bodies.
    InvalidDealingCount {
        /// Configured instance count.
        expected: usize,
        /// Message dealing count.
        actual: usize,
    },
    /// A dealing's constant commitment shape disagreed with its configured kind.
    CommitmentKindMismatch(usize),
    /// An identity secret key did not match the registered identity public key.
    IdentityKeyMismatch,
    /// A participant was not present in the registry.
    UnknownParticipant(u32),
    /// A peer dealing map key did not match the message's dealer.
    DealerKeyMismatch {
        /// Dealer index from the peer-dealing map key.
        map_key: u32,
        /// Dealer index claimed by the dealer message.
        message_dealer: u32,
    },
    /// A required dealing was missing.
    MissingDealing(u32),
    /// A required share was missing.
    MissingShare(u32),
    /// A dealing contained a share or proof for an unexpected participant.
    UnexpectedShare(u32),
    /// A proof backend rejected the statement.
    ProofVerificationFailed,
    /// A proof system could not produce a proof for a valid request.
    ProofGenerationFailed,
    /// A complete opaque dealer message exceeded the protocol size bound.
    DealerMessageTooLarge,
    /// The native Main Golden relation could not be evaluated.
    RelationEvaluationFailed,
    /// Local eVRF evaluation produced a zero pad and must be retried afresh.
    DegenerateEvrfOutput,
    /// Dealer-local state does not belong to this participant/configuration.
    OwnDealingMismatch,
    /// No candidate was supplied for one configured peer dealer.
    MissingDealer {
        /// Missing configured dealer.
        dealer: ParticipantIndex,
    },
    /// More than one candidate was supplied for a configured dealer.
    DuplicateDealer {
        /// Duplicated dealer.
        dealer: ParticipantIndex,
    },
    /// A candidate named a participant outside the expected peer set.
    UnexpectedDealer {
        /// Unexpected dealer.
        dealer: ParticipantIndex,
    },
    /// One attributed opaque candidate failed coarse message validation.
    InvalidDealerMessage {
        /// Expected dealer supplied as routing metadata.
        dealer: ParticipantIndex,
        /// Coarse public reason for rejection.
        reason: DealerMessageError,
    },
    /// Individual fallback identified every invalid dealer proof.
    InvalidDealerProofs {
        /// Invalid dealers in canonical participant order.
        dealers: Vec<ParticipantIndex>,
    },
    /// Batch verification failed although every individual proof passed.
    BatchVerificationFailed,
    /// Prepared proof-system state cannot serve the requested configuration.
    InsufficientProofCapacity {
        /// Minimum padded generator capacity required by the configuration.
        required: usize,
        /// Declared padded generator capacity available to the proof system.
        available: usize,
    },
    /// A prepared proof-generator persistence artifact was malformed.
    MalformedPreparedGenerators,
    /// A verified dealer message could not be decrypted for this participant.
    ShareDecryptionFailed {
        /// Dealer whose receiver share could not be recovered.
        dealer: ParticipantIndex,
    },
    /// A dealer proof failed individual verification after a batch failure.
    DealerProofVerificationFailed(u32),
    /// A dealing share did not match its Feldman commitment.
    CommitmentVerificationFailed,
    /// Authenticated decryption failed.
    DecryptionFailed,
}

} // verus!
