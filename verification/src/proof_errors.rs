//! Errors and metrics of the Bulletproofs R1CS proof path.
use vstd::prelude::*;

verus! {

/// Error raised while creating or verifying a proof, or parsing proof bytes.
#[derive(Clone, Copy, Debug, Eq, PartialEq, Structural)]
pub enum ProofError {
    /// The proof did not verify.
    VerificationError,
    /// The proof bytes could not be parsed.
    FormatError,
    /// The generators supplied were too few for the proof shape.
    InvalidGeneratorsLength,
    /// The input vectors did not share a single power-of-two length.
    InvalidInputLength,
}

/// Error raised while creating or verifying an R1CS proof.
#[derive(Clone, Copy, Debug, Eq, PartialEq, Structural)]
pub enum R1CSError {
    /// Too few generators for the number of multiplication gates.
    InvalidGeneratorsLength,
    /// The proof bytes could not be parsed.
    FormatError,
    /// The R1CS proof did not verify.
    VerificationError,
    /// A gadget needed a variable assignment that was not provided.
    MissingAssignment,
}

/// The R1CS error a proof error becomes: an invalid input length is a
/// failed verification, every other error keeps its meaning.
pub open spec fn r1cs_error_of(e: ProofError) -> R1CSError {
    match e {
        ProofError::InvalidGeneratorsLength => R1CSError::InvalidGeneratorsLength,
        ProofError::FormatError => R1CSError::FormatError,
        ProofError::VerificationError => R1CSError::VerificationError,
        ProofError::InvalidInputLength => R1CSError::VerificationError,
    }
}

impl From<ProofError> for R1CSError {
    fn from(e: ProofError) -> (r: R1CSError) {
        match e {
            ProofError::InvalidGeneratorsLength => R1CSError::InvalidGeneratorsLength,
            ProofError::FormatError => R1CSError::FormatError,
            ProofError::VerificationError => R1CSError::VerificationError,
            ProofError::InvalidInputLength => R1CSError::VerificationError,
        }
    }
}

impl vstd::std_specs::convert::FromSpecImpl<ProofError> for R1CSError {
    open spec fn obeys_from_spec() -> bool {
        true
    }

    open spec fn from_spec(e: ProofError) -> R1CSError {
        r1cs_error_of(e)
    }
}

/// Counts of multipliers and constraints in a constraint system.
#[derive(Clone, Copy, Debug, Eq, PartialEq, Structural)]
pub struct Metrics {
    /// Multiplication gates allocated.
    pub multipliers: usize,
    /// Total constraints (phase one + phase two).
    pub constraints: usize,
    /// Phase-one constraints.
    pub phase_one_constraints: usize,
    /// Phase-two (randomized) callbacks registered, not the constraints
    /// those callbacks add when they run.
    pub phase_two_constraints: usize,
}

impl Default for Metrics {
    fn default() -> (m: Metrics)
        ensures
            m == (Metrics {
                multipliers: 0,
                constraints: 0,
                phase_one_constraints: 0,
                phase_two_constraints: 0,
            }),
    {
        Metrics { multipliers: 0, constraints: 0, phase_one_constraints: 0, phase_two_constraints: 0 }
    }
}

} // verus!
