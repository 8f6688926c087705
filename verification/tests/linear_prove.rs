use golden_dkg::bls_cycle::{BlsG1Element, Bls12_381G1Cycle};
use golden_dkg::bls_scalar::BlsScalar;
use golden_dkg::group::GoldenScalar;
use golden_dkg::proof_bytes::LinearProof;
use golden_dkg::proof_cycle::Cycle;
use golden_dkg::proof_errors::ProofError;
use golden_dkg::proof_transcript::ProofTranscript;

fn scalar(v: u64) -> BlsScalar {
    BlsScalar::from_u64(v).unwrap()
}

fn point(seed: u8) -> BlsG1Element {
    Bls12_381G1Cycle::point_hash_from_uniform(&[seed; 64]).unwrap()
}

fn create(
    n_a: usize,
    n_b: usize,
    n_g: usize,
) -> (Result<LinearProof<Bls12_381G1Cycle>, ProofError>, ProofTranscript) {
    let mut t = ProofTranscript::new(b"linear-proof-tests");
    let blindings: Vec<BlsScalar> = (0..12u64).map(|i| scalar(31 + i)).collect();
    let commitment = <Bls12_381G1Cycle as Cycle>::compressed_identity();
    let a: Vec<BlsScalar> = (0..n_a as u64).map(|i| scalar(i + 2)).collect();
    let b: Vec<BlsScalar> = (0..n_b as u64).map(|i| scalar(3 * i + 1)).collect();
    let g: Vec<BlsG1Element> = (0..n_g as u8).map(|i| point(10 + i)).collect();
    let result = LinearProof::<Bls12_381G1Cycle>::create(
        &mut t,
        &blindings,
        &commitment,
        scalar(5),
        a,
        b,
        g,
        &point(1),
        &point(2),
    );
    (result, t)
}

#[test]
fn linear_proofs_have_one_point_pair_per_round() {
    let (result, _) = create(4, 4, 4);
    let proof = match result {
        Ok(p) => p,
        Err(e) => panic!("proof must be created: {e:?}"),
    };
    // Two rounds of two points, then S and two scalars.
    assert_eq!(proof.serialized_size(), 2 * 2 * 48 + 48 + 64);
    let bytes = proof.to_bytes();
    let parsed = match LinearProof::<Bls12_381G1Cycle>::from_bytes(&bytes) {
        Ok(p) => p,
        Err(e) => panic!("created proof must parse: {e:?}"),
    };
    assert_eq!(parsed.to_bytes(), bytes);
}

#[test]
fn linear_proofs_are_deterministic_in_their_inputs() {
    let (first, mut t1) = create(2, 2, 2);
    let (second, mut t2) = create(2, 2, 2);
    assert_eq!(first.unwrap().to_bytes(), second.unwrap().to_bytes());
    assert_eq!(t1.challenge_bytes(b"next", 32), t2.challenge_bytes(b"next", 32));
}

#[test]
fn linear_proofs_check_their_lengths() {
    assert_eq!(create(4, 4, 2).0.err(), Some(ProofError::InvalidGeneratorsLength));
    assert_eq!(create(2, 4, 4).0.err(), Some(ProofError::InvalidInputLength));
    assert_eq!(create(3, 3, 3).0.err(), Some(ProofError::InvalidInputLength));
    assert_eq!(create(0, 0, 0).0.err(), Some(ProofError::InvalidInputLength));
    assert!(create(1, 1, 1).0.is_ok());
}
