use golden_dkg::error::Error;
use golden_dkg::group::GoldenScalar;
use golden_dkg::participant::ParticipantIndex;
use golden_dkg::shamir::{
    batch_invert, lagrange_interpolate_at_zero, reconstruct_secret, Polynomial, Share,
};
use golden_dkg::tiny_group::TinyScalar;
use rand_chacha::rand_core::{RngCore, SeedableRng};
use rand_chacha::ChaCha20Rng;

fn participants(values: &[u32]) -> Vec<ParticipantIndex> {
    values
        .iter()
        .map(|value| ParticipantIndex::new(*value).expect("nonzero participant"))
        .collect()
}

fn random_tiny(rng: &mut impl RngCore) -> TinyScalar {
    TinyScalar((rng.next_u32() % 97) as u8)
}

fn random_with_secret(
    secret: TinyScalar,
    threshold: usize,
    rng: &mut impl RngCore,
) -> Polynomial<TinyScalar> {
    let higher: Vec<TinyScalar> = (1..threshold.max(1)).map(|_| random_tiny(rng)).collect();
    Polynomial::with_secret(secret, threshold, higher).unwrap()
}

fn threshold_subsets<S: GoldenScalar>(shares: &[Share<S>], threshold: usize) -> Vec<Vec<Share<S>>> {
    fn collect<S: GoldenScalar>(
        shares: &[Share<S>],
        threshold: usize,
        offset: usize,
        current: &mut Vec<Share<S>>,
        output: &mut Vec<Vec<Share<S>>>,
    ) {
        if current.len() == threshold {
            output.push(current.clone());
            return;
        }
        for index in offset..shares.len() {
            current.push(shares[index]);
            collect(shares, threshold, index + 1, current, output);
            current.pop();
        }
    }
    let mut output = Vec::new();
    collect(shares, threshold, 0, &mut Vec::new(), &mut output);
    output
}

fn randomized_subset<S: GoldenScalar>(
    shares: &[Share<S>],
    threshold: usize,
    rng: &mut impl RngCore,
) -> Vec<Share<S>> {
    let mut indexes: Vec<_> = (0..shares.len()).collect();
    for index in 0..indexes.len() {
        let swap_with = index + (rng.next_u32() as usize % (indexes.len() - index));
        indexes.swap(index, swap_with);
    }
    indexes
        .into_iter()
        .take(threshold)
        .map(|index| shares[index])
        .collect()
}

#[test]
fn reconstructs_from_threshold_subset() {
    let mut rng = ChaCha20Rng::from_seed([7u8; 32]);
    let secret = TinyScalar::from_u64(42).unwrap();
    let poly = random_with_secret(secret, 3, &mut rng);
    let shares = poly.shares(&participants(&[1, 2, 3, 4, 5])).unwrap();

    assert_eq!(reconstruct_secret(&shares[0..3], 3).unwrap(), secret);
    assert_eq!(
        reconstruct_secret(&[shares[0], shares[2], shares[4]], 3).unwrap(),
        secret
    );
}

#[test]
fn fewer_than_threshold_shares_are_rejected_by_reconstruction_api() {
    let mut rng = ChaCha20Rng::from_seed([8u8; 32]);
    let secret = TinyScalar::from_u64(42).unwrap();
    let poly = random_with_secret(secret, 3, &mut rng);
    let shares = poly.shares(&participants(&[1, 2, 3, 4, 5])).unwrap();

    assert_eq!(
        reconstruct_secret(&shares[0..2], 3).unwrap_err(),
        Error::InvalidThreshold {
            threshold: 3,
            participants: 2
        }
    );
}

#[test]
fn all_threshold_subsets_reconstruct_for_small_committees() {
    let mut rng = ChaCha20Rng::from_seed([11u8; 32]);
    for n in 1..=6usize {
        for threshold in 1..=n {
            let secret = TinyScalar::from_u64((10 + n + threshold) as u64).unwrap();
            let poly = random_with_secret(secret, threshold, &mut rng);
            let indexes: Vec<_> = (1..=n as u32).map(|value| participants(&[value])[0]).collect();
            let shares = poly.shares(&indexes).unwrap();
            for subset in threshold_subsets(&shares, threshold) {
                assert_eq!(reconstruct_secret(&subset, threshold).unwrap(), secret);
            }
        }
    }
}

#[test]
fn randomized_committee_sizes_reconstruct_from_threshold_subset() {
    let mut chooser = ChaCha20Rng::from_seed([21u8; 32]);
    let mut polynomial_rng = ChaCha20Rng::from_seed([22u8; 32]);

    for case in 0..128 {
        let n = 1 + (chooser.next_u32() as usize % 16);
        let threshold = 1 + (chooser.next_u32() as usize % n);
        let secret = TinyScalar::from_u64(1 + u64::from(chooser.next_u32())).unwrap();
        let polynomial = random_with_secret(secret, threshold, &mut polynomial_rng);
        let indexes: Vec<_> = (1..=n as u32).map(|value| participants(&[value])[0]).collect();
        let shares = polynomial.shares(&indexes).unwrap();
        let subset = randomized_subset(&shares, threshold, &mut chooser);

        assert_eq!(
            reconstruct_secret(&subset, threshold).unwrap(),
            secret,
            "case {case}: n={n}, threshold={threshold}"
        );
    }
}

#[test]
fn polynomial_from_coefficients_rejects_empty() {
    assert_eq!(
        Polynomial::<TinyScalar>::from_coefficients(Vec::new()).unwrap_err(),
        Error::InvalidThreshold {
            threshold: 0,
            participants: 0
        }
    );
}

#[test]
fn polynomial_evaluates_known_value() {
    let poly = Polynomial::from_coefficients(vec![
        TinyScalar::from_u64(1).unwrap(),
        TinyScalar::from_u64(2).unwrap(),
        TinyScalar::from_u64(3).unwrap(),
    ])
    .unwrap();
    let x = TinyScalar::from_u64(2).unwrap();
    let got = poly.evaluate_at_scalar(&x);
    let want = TinyScalar::from_u64(17).unwrap();
    assert_eq!(got, want);
}

#[test]
fn scalar_decoding_rejects_malformed_bytes() {
    for value in 97..=u8::MAX {
        assert_eq!(
            TinyScalar::from_repr(&[value]).unwrap_err(),
            Error::InvalidEncoding
        );
    }
}

#[test]
fn interpolation_primitive_still_accepts_exact_shares() {
    let mut rng = ChaCha20Rng::from_seed([12u8; 32]);
    let secret = TinyScalar::from_u64(42).unwrap();
    let poly = random_with_secret(secret, 3, &mut rng);
    let shares = poly.shares(&participants(&[1, 2, 3, 4, 5])).unwrap();

    assert_eq!(
        lagrange_interpolate_at_zero(&[shares[0], shares[2], shares[4]]).unwrap(),
        secret
    );
}

#[test]
fn duplicate_participant_indexes_are_rejected() {
    let shares = vec![
        Share {
            participant: ParticipantIndex::new(1).unwrap(),
            value: TinyScalar::from_u64(3).unwrap(),
        },
        Share {
            participant: ParticipantIndex::new(1).unwrap(),
            value: TinyScalar::from_u64(5).unwrap(),
        },
    ];

    assert_eq!(
        lagrange_interpolate_at_zero(&shares).unwrap_err(),
        Error::DuplicateParticipantIndex(1)
    );
}

#[test]
fn field_inversion_property_holds() {
    for value in 1..96 {
        let scalar = TinyScalar::from_u64(value).unwrap();
        let inverse = scalar.invert().unwrap();
        assert_eq!(scalar.mul(&inverse), TinyScalar::one());
    }
}

#[test]
fn scalar_encoding_round_trips_and_rejects_noncanonical() {
    let scalar = TinyScalar::from_u64(96).unwrap();
    let repr = scalar.to_repr();
    assert_eq!(TinyScalar::from_repr(&repr).unwrap(), scalar);
    assert!(TinyScalar::from_repr(&[97]).is_err());
}

#[test]
fn batch_invert_matches_individual_inversions() {
    let mut values: Vec<TinyScalar> = (1u64..12)
        .map(|value| TinyScalar::from_u64(value).unwrap())
        .collect();
    let expected: Vec<TinyScalar> = values.iter().map(|v| v.invert().unwrap()).collect();

    batch_invert(&mut values).unwrap();

    assert_eq!(values, expected);
}

#[test]
fn batch_invert_empty_slice_is_a_noop() {
    let mut values: Vec<TinyScalar> = Vec::new();
    assert!(batch_invert(&mut values).is_some());
    assert!(values.is_empty());
}

#[test]
fn batch_invert_rejects_a_zero_element() {
    let mut values = vec![
        TinyScalar::from_u64(3).unwrap(),
        TinyScalar::zero(),
        TinyScalar::from_u64(5).unwrap(),
    ];
    assert!(batch_invert(&mut values).is_none());
}

#[test]
fn polynomial_with_secret_rejects_zero_threshold() {
    assert_eq!(
        Polynomial::with_secret(TinyScalar(5), 0, Vec::new()).unwrap_err(),
        Error::InvalidThreshold {
            threshold: 0,
            participants: 0
        }
    );
}

#[test]
fn polynomial_shares_evaluate_at_each_participant() {
    // p(x) = 5 + 3x + x^2 over the tiny field.
    let poly = Polynomial::with_secret(TinyScalar(5), 3, vec![TinyScalar(3), TinyScalar(1)]).unwrap();
    let shares = poly.shares(&participants(&[1, 2, 10])).unwrap();
    assert_eq!(shares[0].value, TinyScalar(9));
    assert_eq!(shares[1].value, TinyScalar(15));
    assert_eq!(shares[2].value, TinyScalar(135 % 97));
    assert_eq!(shares[2].participant.get(), 10);
}
