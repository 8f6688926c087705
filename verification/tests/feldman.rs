use golden_dkg::error::Error;
use golden_dkg::feldman::FeldmanCommitment;
use golden_dkg::group::{GoldenGroup, GoldenScalar};
use golden_dkg::participant::ParticipantIndex;
use golden_dkg::shamir::Polynomial;
use golden_dkg::tiny_group::{TinyGroup, TinyScalar};
use rand_chacha::rand_core::{RngCore, SeedableRng};
use rand_chacha::ChaCha20Rng;

fn participants(values: &[u32]) -> Vec<ParticipantIndex> {
    values
        .iter()
        .map(|value| ParticipantIndex::new(*value).expect("nonzero participant"))
        .collect()
}

fn random_with_secret(
    secret: TinyScalar,
    threshold: usize,
    rng: &mut impl RngCore,
) -> Polynomial<TinyScalar> {
    let higher: Vec<TinyScalar> = (1..threshold)
        .map(|_| TinyScalar((rng.next_u32() % 97) as u8))
        .collect();
    Polynomial::with_secret(secret, threshold, higher).unwrap()
}

#[test]
fn valid_shares_verify() {
    let mut rng = ChaCha20Rng::from_seed([9u8; 32]);
    let secret = TinyScalar::from_u64(11).unwrap();
    let poly = random_with_secret(secret, 3, &mut rng);
    let commitment = FeldmanCommitment::<TinyGroup>::commit(&poly).unwrap();

    for share in poly.shares(&participants(&[1, 2, 3, 4, 5])).unwrap() {
        assert!(commitment.verify_share(&share).unwrap());
    }
}

#[test]
fn altered_share_is_rejected() {
    let mut rng = ChaCha20Rng::from_seed([10u8; 32]);
    let secret = TinyScalar::from_u64(13).unwrap();
    let poly = random_with_secret(secret, 3, &mut rng);
    let commitment = FeldmanCommitment::<TinyGroup>::commit(&poly).unwrap();
    let mut share = poly.evaluate(ParticipantIndex::new(2).unwrap()).unwrap();
    share.value = share.value.add(&TinyScalar::one());

    assert!(!commitment.verify_share(&share).unwrap());
}

#[test]
fn altered_commitment_is_rejected() {
    let mut rng = ChaCha20Rng::from_seed([11u8; 32]);
    let secret = TinyScalar::from_u64(13).unwrap();
    let poly = random_with_secret(secret, 3, &mut rng);
    let commitment = FeldmanCommitment::<TinyGroup>::commit(&poly).unwrap();
    let mut coefficients = commitment.coefficients().to_vec();
    coefficients[1] = TinyGroup::add(&coefficients[1], &TinyGroup::generator());
    let altered = FeldmanCommitment::<TinyGroup>::from_coefficients(coefficients).unwrap();
    let share = poly.evaluate(ParticipantIndex::new(2).unwrap()).unwrap();

    assert!(!altered.verify_share(&share).unwrap());
}

#[test]
fn public_key_is_generator_times_secret() {
    let secret = TinyScalar::from_u64(17).unwrap();
    let poly = Polynomial::from_coefficients(vec![secret]).unwrap();
    let commitment = FeldmanCommitment::<TinyGroup>::commit(&poly).unwrap();

    assert_eq!(commitment.public_key(), TinyGroup::mul_generator(&secret));
}

#[test]
fn group_distributes_over_scalar_addition() {
    let a = TinyScalar::from_u64(12).unwrap();
    let b = TinyScalar::from_u64(29).unwrap();
    let lhs = TinyGroup::mul_generator(&a.add(&b));
    let rhs = TinyGroup::add(&TinyGroup::mul_generator(&a), &TinyGroup::mul_generator(&b));
    assert_eq!(lhs, rhs);
}

#[test]
fn element_encoding_round_trips_and_rejects_noncanonical() {
    let point = TinyGroup::mul_generator(&TinyScalar::from_u64(23).unwrap());
    let repr = TinyGroup::encode_element(&point);
    assert_eq!(TinyGroup::decode_element(&repr).unwrap(), point);
    assert!(TinyGroup::decode_element(&[97]).is_err());
}

#[test]
fn element_decoding_rejects_malformed_bytes() {
    for value in 97..=u8::MAX {
        assert_eq!(
            TinyGroup::decode_element(&[value]).unwrap_err(),
            Error::InvalidEncoding
        );
    }
}

#[test]
fn commitment_from_no_coefficients_is_rejected() {
    assert_eq!(
        FeldmanCommitment::<TinyGroup>::from_coefficients(Vec::new()).unwrap_err(),
        Error::EmptyCommitment
    );
}

#[test]
fn public_key_share_matches_generator_times_share() {
    // p(x) = 4 + 7x over the tiny field; the public key share of participant
    // 3 is the commitment evaluated at 3, that is g * 25.
    let poly = Polynomial::from_coefficients(vec![TinyScalar(4), TinyScalar(7)]).unwrap();
    let commitment = FeldmanCommitment::<TinyGroup>::commit(&poly).unwrap();
    let share = commitment
        .public_key_share(ParticipantIndex::new(3).unwrap())
        .unwrap();
    assert_eq!(share, TinyGroup::mul_generator(&TinyScalar(25)));
}
