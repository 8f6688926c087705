use golden_dkg::bls_cycle::{BlsG1Element, Bls12_381G1Cycle};
use golden_dkg::bls_scalar::BlsScalar;
use golden_dkg::group::GoldenScalar;
use golden_dkg::jubjub_cycle::JubjubCycle;
use golden_dkg::jubjub_group::JubjubScalar;
use golden_dkg::proof_bytes::InnerProductProof;
use golden_dkg::proof_cycle::Cycle;
use golden_dkg::proof_errors::ProofError;
use golden_dkg::proof_transcript::{append_point, challenge_scalar, ProofTranscript, R1csDomain};


fn point(first: u8) -> [u8; 32] {
    let mut p = [0u8; 32];
    p[0] = first;
    p
}

/// An inner-product proof over Jubjub with the given round points and zero
/// final scalars.
fn ipp_proof(points: &[([u8; 32], [u8; 32])]) -> InnerProductProof<JubjubCycle> {
    let mut bytes = Vec::new();
    for (l, r) in points {
        bytes.extend_from_slice(l);
        bytes.extend_from_slice(r);
    }
    bytes.extend_from_slice(&[0u8; 64]);
    match InnerProductProof::<JubjubCycle>::from_bytes(&bytes) {
        Ok(p) => p,
        Err(e) => panic!("proof bytes must parse: {e:?}"),
    }
}

fn transcript() -> ProofTranscript {
    ProofTranscript::new(b"ipp-verification-tests")
}

fn next_challenge(t: &mut ProofTranscript) -> Vec<u8> {
    t.challenge_bytes(b"next", 32)
}

#[test]
fn verification_scalars_follow_the_transcript_challenges() {
    let rounds = [(point(2), point(3)), (point(4), point(5))];
    let ipp = ipp_proof(&rounds);
    let mut t = transcript();
    let (sq, inv_sq, s) = match ipp.verification_scalars(4, &mut t) {
        Ok(v) => v,
        Err(e) => panic!("scalars must be derived: {e:?}"),
    };

    // The same transcript operations, replayed by hand.
    let mut replay = transcript();
    replay.innerproduct_domain_sep(4);
    let mut us: Vec<JubjubScalar> = Vec::new();
    for (l, r) in &rounds {
        append_point::<JubjubCycle>(&mut replay, b"L", l);
        append_point::<JubjubCycle>(&mut replay, b"R", r);
        us.push(challenge_scalar::<JubjubCycle>(&mut replay, b"u"));
    }
    assert_eq!(next_challenge(&mut t), next_challenge(&mut replay));

    assert_eq!(sq.len(), 2);
    assert_eq!(inv_sq.len(), 2);
    assert_eq!(s.len(), 4);
    let one = JubjubScalar::one();
    for k in 0..2 {
        assert_eq!(sq[k], us[k].mul(&us[k]));
        assert_eq!(inv_sq[k].mul(&sq[k]), one);
    }
    assert_eq!(s[0].mul(&us[0]).mul(&us[1]), one);
    assert_eq!(s[1], s[0].mul(&sq[1]));
    assert_eq!(s[2], s[0].mul(&sq[0]));
    assert_eq!(s[3], s[1].mul(&sq[0]));
}

#[test]
fn verification_scalars_reject_a_length_other_than_two_to_the_rounds() {
    let ipp = ipp_proof(&[(point(2), point(3))]);
    let mut t = transcript();
    assert_eq!(
        ipp.verification_scalars(3, &mut t).err(),
        Some(ProofError::VerificationError)
    );
    // The transcript is left untouched.
    assert_eq!(next_challenge(&mut t), next_challenge(&mut transcript()));
}

#[test]
fn verification_scalars_reject_an_identity_round_point() {
    let identity = <JubjubCycle as Cycle>::compressed_identity();
    let ipp = ipp_proof(&[(point(2), point(3)), (point(4), identity)]);
    let mut t = transcript();
    assert_eq!(
        ipp.verification_scalars(4, &mut t).err(),
        Some(ProofError::VerificationError)
    );
}

#[test]
fn verification_scalars_of_an_empty_proof() {
    let ipp = ipp_proof(&[]);
    let mut t = transcript();
    let (sq, inv_sq, s) = match ipp.verification_scalars(1, &mut t) {
        Ok(v) => v,
        Err(e) => panic!("scalars must be derived: {e:?}"),
    };
    assert!(sq.is_empty());
    assert!(inv_sq.is_empty());
    assert_eq!(s, vec![JubjubScalar::one()]);
}

fn bls_scalar(v: u64) -> BlsScalar {
    BlsScalar::from_u64(v).unwrap()
}

fn bls_point(seed: u8) -> BlsG1Element {
    Bls12_381G1Cycle::point_hash_from_uniform(&[seed; 64]).unwrap()
}

#[test]
fn created_proofs_have_log_rounds_and_replay_in_the_verifier() {
    let n = 8usize;
    let g: Vec<_> = (0..n as u8).map(|i| bls_point(3 + i)).collect();
    let h: Vec<_> = (0..n as u8).map(|i| bls_point(100 + i)).collect();
    let q = bls_point(7);
    let ones = vec![BlsScalar::one(); n];
    let a: Vec<_> = (0..n as u64).map(|i| bls_scalar(i + 1)).collect();
    let b: Vec<_> = (0..n as u64).map(|i| bls_scalar(2 * i + 5)).collect();

    let mut prover = transcript();
    let created = InnerProductProof::<Bls12_381G1Cycle>::create(
        &mut prover, &q, &ones, &ones, &g, &h, a, b,
    );
    assert_eq!(created.serialized_size(), 2 * 3 * 48 + 64);

    // The verifier walks the same transcript and ends in the same state.
    let mut verifier = transcript();
    assert!(created.verification_scalars(n, &mut verifier).is_ok());
    assert_eq!(next_challenge(&mut prover), next_challenge(&mut verifier));

    // The proof survives its byte encoding.
    let bytes = created.to_bytes();
    let parsed = match InnerProductProof::<Bls12_381G1Cycle>::from_bytes(&bytes) {
        Ok(p) => p,
        Err(e) => panic!("created proof must parse: {e:?}"),
    };
    assert_eq!(parsed.to_bytes(), bytes);
}

#[test]
fn a_proof_of_length_one_has_no_rounds() {
    let g = vec![bls_point(1)];
    let h = vec![bls_point(2)];
    let q = bls_point(3);
    let ones = vec![BlsScalar::one()];
    let mut prover = transcript();
    let created = InnerProductProof::<Bls12_381G1Cycle>::create(
        &mut prover,
        &q,
        &ones,
        &ones,
        &g,
        &h,
        vec![bls_scalar(4)],
        vec![bls_scalar(9)],
    );
    assert_eq!(created.serialized_size(), 64);
    let mut replay = transcript();
    replay.innerproduct_domain_sep(1);
    assert_eq!(next_challenge(&mut prover), next_challenge(&mut replay));
}
