use golden_dkg::bls_cycle::{BlsG1Element, Bls12_381G1Cycle};
use golden_dkg::bls_scalar::BlsScalar;
use golden_dkg::group::GoldenScalar;
use golden_dkg::proof_errors::R1CSError;
use golden_dkg::r1cs_verify::VerificationEquation;

type Equation = VerificationEquation<Bls12_381G1Cycle>;

fn scalar(v: u64) -> BlsScalar {
    BlsScalar::from_u64(v).unwrap()
}

fn point(seed: u8) -> BlsG1Element {
    Bls12_381G1Cycle::point_hash_from_uniform(&[seed; 64]).unwrap()
}

/// `2 P + 3 Q + 5 G0 - 2 P - 3 Q - 5 G0`, with the given proof points.
fn equation(
    pedersen: [BlsG1Element; 2],
    g_points: Vec<BlsG1Element>,
    proof_scalar_0: BlsScalar,
    proof_points: Vec<Option<BlsG1Element>>,
) -> Equation {
    VerificationEquation {
        pedersen_scalars: vec![scalar(2), scalar(3)],
        pedersen_points: pedersen.to_vec(),
        g_scalars: vec![scalar(5)],
        g_points,
        h_scalars: vec![],
        h_points: vec![point(40)],
        proof_scalars: vec![proof_scalar_0, scalar(3).neg(), scalar(5).neg()],
        proof_points,
    }
}

fn balanced() -> Equation {
    let (p, q, g0, g1) = (point(1), point(2), point(3), point(4));
    equation([p, q], vec![g0, g1], scalar(2).neg(), vec![Some(p), Some(q), Some(g0)])
}

fn unbalanced() -> Equation {
    let (p, q, g0, g1) = (point(1), point(2), point(3), point(4));
    equation([p, q], vec![g0, g1], scalar(1).neg(), vec![Some(p), Some(q), Some(g0)])
}

#[test]
fn a_balanced_equation_verifies() {
    assert_eq!(balanced().verify(), Ok(()));
}

#[test]
fn an_unbalanced_equation_fails() {
    assert_eq!(unbalanced().verify(), Err(R1CSError::VerificationError));
}

#[test]
fn a_missing_proof_point_fails() {
    let (p, q, g0, g1) = (point(1), point(2), point(3), point(4));
    let e = equation([p, q], vec![g0, g1], scalar(2).neg(), vec![Some(p), Some(q), None]);
    assert_eq!(e.verify(), Err(R1CSError::VerificationError));
}

#[test]
fn a_batch_of_balanced_equations_verifies() {
    let weights = vec![scalar(3), scalar(7)];
    assert_eq!(Equation::verify_batch(vec![balanced(), balanced()], &weights), Ok(()));
}

#[test]
fn a_batch_with_an_unbalanced_equation_fails() {
    let weights = vec![scalar(3), scalar(7)];
    assert_eq!(
        Equation::verify_batch(vec![balanced(), unbalanced()], &weights),
        Err(R1CSError::VerificationError)
    );
}

#[test]
fn an_empty_batch_fails() {
    assert_eq!(Equation::verify_batch(vec![], &[]), Err(R1CSError::VerificationError));
}

#[test]
fn a_batch_needs_shared_generators() {
    let (p, q, g0, g1) = (point(1), point(2), point(3), point(4));
    let weights = vec![scalar(3), scalar(7)];
    // Other Pedersen generators.
    let other_pedersen =
        equation([q, p], vec![g0, g1], scalar(2).neg(), vec![Some(q), Some(p), Some(g0)]);
    assert_eq!(
        Equation::verify_batch(vec![balanced(), other_pedersen], &weights),
        Err(R1CSError::VerificationError)
    );
    // Generators that disagree on their shared prefix.
    let swapped =
        || equation([p, q], vec![g1, g0], scalar(2).neg(), vec![Some(p), Some(q), Some(g1)]);
    assert_eq!(swapped().verify(), Ok(()));
    assert_eq!(
        Equation::verify_batch(vec![balanced(), swapped()], &weights),
        Err(R1CSError::VerificationError)
    );
}
