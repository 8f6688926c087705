use golden_dkg::group::GoldenScalar;
use golden_dkg::jubjub_cycle::JubjubCycle;
use golden_dkg::proof_cycle::Cycle;
use golden_dkg::proof_errors::ProofError;
use golden_dkg::proof_transcript::{
    append_point, append_scalar, challenge_scalar, validate_and_append_point, R1csDomain,
};
use golden_dkg::ristretto_cycle::{RistrettoCycle, RistrettoScalar};
use golden_dkg::proof_transcript::ProofTranscript;
use merlin::Transcript;

fn challenge_after<F: FnOnce(&mut ProofTranscript)>(label: &'static [u8], apply: F) -> Vec<u8> {
    let mut t = ProofTranscript::new(b"bulletproofs-cycle-tests");
    apply(&mut t);
    t.challenge_bytes(label, 32)
}

#[test]
fn r1cs_domain_sep_yields_stable_bytes() {
    let a = challenge_after(b"chal", |t| t.r1cs_domain_sep());
    let b = challenge_after(b"chal", |t| t.r1cs_domain_sep());
    assert_eq!(a, b);
}

#[test]
fn r1cs_1phase_and_2phase_domain_seps_disagree() {
    let one = challenge_after(b"chal", |t| t.r1cs_1phase_domain_sep());
    let two = challenge_after(b"chal", |t| t.r1cs_2phase_domain_sep());
    assert_ne!(one, two, "1phase and 2phase domain seps must disagree");
}

#[test]
fn innerproduct_domain_sep_binds_n() {
    let small = challenge_after(b"chal", |t| t.innerproduct_domain_sep(8));
    let large = challenge_after(b"chal", |t| t.innerproduct_domain_sep(16));
    assert_ne!(small, large, "ipp domain sep must bind n");
}

#[test]
fn domain_seps_do_not_collide_with_each_other() {
    let r1cs = challenge_after(b"chal", |t| t.r1cs_domain_sep());
    let phase1 = challenge_after(b"chal", |t| t.r1cs_1phase_domain_sep());
    let phase2 = challenge_after(b"chal", |t| t.r1cs_2phase_domain_sep());
    let ipp = challenge_after(b"chal", |t| t.innerproduct_domain_sep(8));
    let all = [r1cs, phase1, phase2, ipp];
    for i in 0..all.len() {
        for j in (i + 1)..all.len() {
            assert_ne!(all[i], all[j], "domain seps {i} and {j} collide");
        }
    }
}

#[test]
fn domain_seps_differ_from_bare_transcript() {
    let bare = challenge_after(b"chal", |_| {});
    let r1cs = challenge_after(b"chal", |t| t.r1cs_domain_sep());
    let phase1 = challenge_after(b"chal", |t| t.r1cs_1phase_domain_sep());
    let phase2 = challenge_after(b"chal", |t| t.r1cs_2phase_domain_sep());
    let ipp = challenge_after(b"chal", |t| t.innerproduct_domain_sep(8));
    for (i, got) in [r1cs, phase1, phase2, ipp].iter().enumerate() {
        assert_ne!(*got, bare, "domain sep {i} is a no-op relative to bare transcript");
    }
}

#[test]
fn domain_separators_append_what_merlin_appends() {
    // The helpers append the same messages as merlin's own calls.
    let via_helper = challenge_after(b"chal", |t| t.innerproduct_domain_sep(8));
    let direct = challenge_after(b"chal", |t| {
        t.append_message(b"dom-sep", b"ipp v1");
        t.append_u64(b"n", 8);
    });
    assert_eq!(via_helper, direct);
}

#[test]
fn scalars_and_points_are_appended_by_their_encodings() {
    let scalar = RistrettoScalar::from_bytes([5u8; 32].map(|b| b & 0x0f)).unwrap();
    let point = [7u8; 32];
    let via_helper = challenge_after(b"chal", |t| {
        append_scalar::<RistrettoCycle>(t, b"s", &scalar);
        append_point::<RistrettoCycle>(t, b"p", &point);
    });
    let direct = challenge_after(b"chal", |t| {
        t.append_message(b"s", &scalar.to_bytes());
        t.append_message(b"p", &point);
    });
    assert_eq!(via_helper, direct);
}

#[test]
fn identity_points_are_rejected_without_touching_the_transcript() {
    let mut t = ProofTranscript::new(b"bulletproofs-cycle-tests");
    let identity = RistrettoCycle::compressed_identity();
    assert_eq!(
        validate_and_append_point::<RistrettoCycle>(&mut t, b"L", &identity),
        Err(ProofError::VerificationError)
    );
    assert_eq!(t.challenge_bytes(b"chal", 32), challenge_after(b"chal", |_| {}));

    let mut t = ProofTranscript::new(b"bulletproofs-cycle-tests");
    assert_eq!(validate_and_append_point::<RistrettoCycle>(&mut t, b"L", &[9u8; 32]), Ok(()));
}

#[test]
fn challenge_scalars_reduce_the_challenge_bytes() {
    let mut a = ProofTranscript::new(b"bulletproofs-cycle-tests");
    let mut b = Transcript::new(b"bulletproofs-cycle-tests");
    let from_helper = challenge_scalar::<JubjubCycle>(&mut a, b"u");
    let mut wide = [0u8; 64];
    b.challenge_bytes(b"u", &mut wide);
    assert_eq!(from_helper, JubjubCycle::scalar_from_wide(&wide));
    let r = challenge_scalar::<RistrettoCycle>(&mut a, b"u");
    let mut wide = [0u8; 64];
    b.challenge_bytes(b"u", &mut wide);
    assert_eq!(r, RistrettoCycle::scalar_from_wide(&wide));
}

#[test]
fn ristretto_scalar_field_arithmetic() {
    let a = RistrettoScalar::from_u64(6).unwrap();
    let b = RistrettoScalar::from_u64(7).unwrap();
    assert_eq!(a.mul(&b), RistrettoScalar::from_u64(42).unwrap());
    assert_eq!(a.add(&b), RistrettoScalar::from_u64(13).unwrap());
    assert_eq!(b.sub(&a), RistrettoScalar::one());
    assert_eq!(a.sub(&b).add(&RistrettoScalar::one()), RistrettoScalar::zero());
    let inverse = a.invert().unwrap();
    assert_eq!(inverse.mul(&a), RistrettoScalar::one());
    assert!(RistrettoScalar::zero().invert().is_none());
    assert!(RistrettoScalar::zero().is_zero());
    // 2^512 - 1 reduced modulo the group order is not 2^512 - 1.
    let reduced = RistrettoCycle::scalar_from_wide(&[0xff; 64]);
    assert_ne!(reduced.to_bytes(), [0xff; 32]);
    assert_eq!(
        RistrettoScalar::from_repr(&reduced.to_repr()).unwrap(),
        reduced
    );
}

#[test]
fn proof_transcript_matches_a_merlin_transcript() {
    // The same operations on a plain merlin transcript give the same bytes.
    let mut ours = ProofTranscript::new(b"same-label");
    let mut theirs = Transcript::new(b"same-label");
    ours.append_message(b"m", b"hello");
    theirs.append_message(b"m", b"hello");
    ours.append_u64(b"n", 77);
    theirs.append_u64(b"n", 77);
    let mut expected = [0u8; 48];
    theirs.challenge_bytes(b"c", &mut expected);
    assert_eq!(ours.challenge_bytes(b"c", 48), expected.to_vec());
}
