use golden_dkg::jubjub_cycle::JubjubCycle;
use golden_dkg::proof_bytes::{InnerProductProof, LinearProof, R1CSProof};
use golden_dkg::proof_errors::{ProofError, R1CSError};
use golden_dkg::ristretto_cycle::RistrettoCycle;

fn expect_ok<T, E: std::fmt::Debug>(result: Result<T, E>) -> T {
    match result {
        Ok(value) => value,
        Err(error) => panic!("unexpected error: {error:?}"),
    }
}

fn expect_err<T, E>(result: Result<T, E>) -> E {
    match result {
        Ok(_) => panic!("expected an error"),
        Err(error) => error,
    }
}

/// A canonical little-endian scalar encoding of a small value.
fn small_scalar(value: u8) -> [u8; 32] {
    let mut bytes = [0u8; 32];
    bytes[0] = value;
    bytes
}

/// `rounds` pairs of 32-byte points followed by two small scalars.
fn ipp_bytes(rounds: usize) -> Vec<u8> {
    let mut bytes = Vec::new();
    for round in 0..rounds {
        bytes.extend_from_slice(&[0x10 + round as u8; 32]);
        bytes.extend_from_slice(&[0x40 + round as u8; 32]);
    }
    bytes.extend_from_slice(&small_scalar(3));
    bytes.extend_from_slice(&small_scalar(5));
    bytes
}

#[test]
fn inner_product_proof_bytes_round_trip_over_both_cycles() {
    for rounds in [0usize, 1, 2, 6] {
        let bytes = ipp_bytes(rounds);
        let proof = expect_ok(InnerProductProof::<JubjubCycle>::from_bytes(&bytes));
        assert_eq!(proof.serialized_size(), bytes.len());
        assert_eq!(proof.to_bytes(), bytes);

        let proof = expect_ok(InnerProductProof::<RistrettoCycle>::from_bytes(&bytes));
        assert_eq!(proof.serialized_size(), bytes.len());
        assert_eq!(proof.to_bytes(), bytes);
    }
}

#[test]
fn inner_product_proof_rejects_bad_lengths_and_noncanonical_scalars() {
    assert_eq!(
        expect_err(InnerProductProof::<JubjubCycle>::from_bytes(&[0u8; 63])),
        ProofError::FormatError
    );
    let mut odd = ipp_bytes(1);
    odd.insert(0, 0);
    assert_eq!(
        expect_err(InnerProductProof::<JubjubCycle>::from_bytes(&odd)),
        ProofError::FormatError
    );
    let mut noncanonical = ipp_bytes(1);
    let len = noncanonical.len();
    noncanonical[len - 32..].copy_from_slice(&[0xff; 32]);
    assert_eq!(
        expect_err(InnerProductProof::<JubjubCycle>::from_bytes(&noncanonical)),
        ProofError::FormatError
    );
    assert_eq!(
        expect_err(InnerProductProof::<RistrettoCycle>::from_bytes(&noncanonical)),
        ProofError::FormatError
    );
}

fn linear_bytes(rounds: usize) -> Vec<u8> {
    let mut bytes = Vec::new();
    for round in 0..rounds {
        bytes.extend_from_slice(&[0x20 + round as u8; 32]);
        bytes.extend_from_slice(&[0x60 + round as u8; 32]);
    }
    bytes.extend_from_slice(&[0x77; 32]);
    bytes.extend_from_slice(&small_scalar(9));
    bytes.extend_from_slice(&small_scalar(11));
    bytes
}

#[test]
fn linear_proof_bytes_round_trip_and_reject_malformed_input() {
    for rounds in [0usize, 1, 3] {
        let bytes = linear_bytes(rounds);
        let proof = expect_ok(LinearProof::<RistrettoCycle>::from_bytes(&bytes));
        assert_eq!(proof.serialized_size(), bytes.len());
        assert_eq!(proof.to_bytes(), bytes);
        let proof = expect_ok(LinearProof::<JubjubCycle>::from_bytes(&bytes));
        assert_eq!(proof.to_bytes(), bytes);
    }
    assert_eq!(
        expect_err(LinearProof::<RistrettoCycle>::from_bytes(&[0u8; 95])),
        ProofError::FormatError
    );
    let mut noncanonical = linear_bytes(0);
    noncanonical[32..64].copy_from_slice(&[0xff; 32]);
    assert_eq!(
        expect_err(LinearProof::<RistrettoCycle>::from_bytes(&noncanonical)),
        ProofError::FormatError
    );
}

fn r1cs_bytes(version: u8, phase_two: [u8; 32], rounds: usize) -> Vec<u8> {
    let mut bytes = vec![version];
    for point in 0..3u8 {
        bytes.extend_from_slice(&[0x30 + point; 32]);
    }
    if version == 1 {
        for _ in 0..3 {
            bytes.extend_from_slice(&phase_two);
        }
    }
    for point in 0..5u8 {
        bytes.extend_from_slice(&[0x50 + point; 32]);
    }
    for value in [1u8, 2, 4] {
        bytes.extend_from_slice(&small_scalar(value));
    }
    bytes.extend_from_slice(&ipp_bytes(rounds));
    bytes
}

#[test]
fn r1cs_proof_bytes_round_trip_for_one_and_two_phase_proofs() {
    for rounds in [0usize, 2] {
        let one_phase = r1cs_bytes(0, [0; 32], rounds);
        let proof = expect_ok(R1CSProof::<JubjubCycle>::from_bytes(&one_phase));
        assert_eq!(proof.to_bytes(), one_phase);
        assert_eq!(
            one_phase.len(),
            R1CSProof::<JubjubCycle>::single_phase_wire_len(rounds)
        );

        let two_phase = r1cs_bytes(1, [0x99; 32], rounds);
        let proof = expect_ok(R1CSProof::<RistrettoCycle>::from_bytes(&two_phase));
        assert_eq!(proof.to_bytes(), two_phase);
    }
}

#[test]
fn r1cs_two_phase_encoding_with_identity_second_phase_reencodes_as_one_phase() {
    // The compressed Jubjub identity is the point (0, 1).
    let mut identity = [0u8; 32];
    identity[0] = 1;
    let two_phase = r1cs_bytes(1, identity, 1);
    let proof = expect_ok(R1CSProof::<JubjubCycle>::from_bytes(&two_phase));
    assert_eq!(proof.to_bytes(), r1cs_bytes(0, identity, 1));

    // The compressed Ristretto identity is all zero.
    let two_phase = r1cs_bytes(1, [0u8; 32], 1);
    let proof = expect_ok(R1CSProof::<RistrettoCycle>::from_bytes(&two_phase));
    assert_eq!(proof.to_bytes(), r1cs_bytes(0, [0u8; 32], 1));
}

#[test]
fn r1cs_proof_rejects_malformed_bytes() {
    assert_eq!(
        expect_err(R1CSProof::<JubjubCycle>::from_bytes(&[])),
        R1CSError::FormatError
    );
    let mut bad_version = r1cs_bytes(0, [0; 32], 0);
    bad_version[0] = 2;
    assert_eq!(
        expect_err(R1CSProof::<JubjubCycle>::from_bytes(&bad_version)),
        R1CSError::FormatError
    );
    let short = r1cs_bytes(0, [0; 32], 0);
    assert_eq!(
        expect_err(R1CSProof::<JubjubCycle>::from_bytes(&short[..short.len() - 1])),
        R1CSError::FormatError
    );
    assert_eq!(R1CSProof::<JubjubCycle>::single_phase_wire_len(0), 417);
}
