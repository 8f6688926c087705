use std::cell::Cell;

use golden_dkg::deal::{deal_with, InstanceRandomness};
use golden_dkg::dealer_parse::parse_dealer_message;
use golden_dkg::dkg::{DealerMessageNonce, DkgConfig, DkgInstanceKind, ParticipantRegistry, SessionId};
use golden_dkg::error::Error;
use golden_dkg::group::{GoldenGroup, GoldenScalar};
use golden_dkg::participant::ParticipantIndex;
use golden_dkg::tiny_group::{TinyGroup, TinyScalar};
use rand_chacha::rand_core::{RngCore, SeedableRng};
use rand_chacha::ChaCha20Rng;

fn participant(value: u32) -> ParticipantIndex {
    ParticipantIndex::new(value).unwrap()
}

fn secret(value: u64) -> TinyScalar {
    TinyScalar::from_u64(value).unwrap()
}

fn config_with(participant_count: u32, threshold: usize) -> DkgConfig<TinyGroup> {
    let registry = expect_ok(ParticipantRegistry::new(
        (1..=participant_count)
            .map(|value| {
                (
                    participant(value),
                    TinyGroup::mul_generator(&secret(u64::from(value))),
                )
            })
            .collect(),
    ));
    expect_ok(DkgConfig::new(
        threshold,
        SessionId([6; 32]),
        registry,
        vec![DkgInstanceKind::Random],
    ))
}

fn config(participant_count: u32) -> DkgConfig<TinyGroup> {
    config_with(participant_count, usize::try_from(participant_count).unwrap())
}

fn expect_ok<T, E: std::fmt::Debug>(result: Result<T, E>) -> T {
    match result {
        Ok(value) => value,
        Err(error) => panic!("unexpected error: {error:?}"),
    }
}

// The dealer-local state holds secret shares and has no `Debug`.
fn expect_err<T>(result: Result<T, Error>) -> Error {
    match result {
        Ok(_) => panic!("expected an error"),
        Err(error) => error,
    }
}

fn random_tiny(rng: &mut impl RngCore) -> TinyScalar {
    TinyScalar((rng.next_u32() % 97) as u8)
}

fn randomness(
    config: &DkgConfig<TinyGroup>,
    rng: &mut impl RngCore,
) -> Vec<InstanceRandomness<TinyScalar>> {
    config
        .instances()
        .iter()
        .map(|kind| {
            let constant = match kind {
                DkgInstanceKind::Random => Some(random_tiny(rng)),
                DkgInstanceKind::Zero => None,
            };
            let higher = (1..config.threshold()).map(|_| random_tiny(rng)).collect();
            let mut nonce = [0u8; 32];
            rng.fill_bytes(&mut nonce);
            InstanceRandomness {
                constant,
                higher,
                nonce: DealerMessageNonce(nonce),
            }
        })
        .collect()
}

#[test]
fn zero_pad_is_a_coarse_retryable_failure_before_proving() {
    let config = config(2);
    let proof_calls = Cell::new(0usize);
    let mut rng = ChaCha20Rng::from_seed([8; 32]);
    let randomness = randomness(&config, &mut rng);

    let result = deal_with(
        &config,
        participant(1),
        &secret(1),
        &randomness,
        &|_, _, _| Ok(TinyScalar::zero()),
        |_, _, _| {
            proof_calls.set(proof_calls.get() + 1);
            Ok(Vec::new())
        },
    );

    assert_eq!(expect_err(result), Error::DegenerateEvrfOutput);
    assert_eq!(proof_calls.get(), 0);
}

#[test]
fn single_participant_uses_an_empty_proof_suffix() {
    let config = config(1);
    let proof_calls = Cell::new(0usize);
    let mut rng = ChaCha20Rng::from_seed([9; 32]);
    let randomness = randomness(&config, &mut rng);

    let own_dealing = deal_with(
        &config,
        participant(1),
        &secret(1),
        &randomness,
        &|_, _, _| Err(Error::RelationEvaluationFailed),
        |_, _, _| {
            proof_calls.set(proof_calls.get() + 1);
            Ok(vec![1])
        },
    );
    let own_dealing = match own_dealing {
        Ok(own_dealing) => own_dealing,
        Err(error) => panic!("dealing failed: {error:?}"),
    };

    assert_eq!(proof_calls.get(), 0);
    assert!(!own_dealing.dealer_message_bytes().is_empty());
}

#[test]
fn dealing_rejects_an_unregistered_dealer() {
    let config = config(2);
    let mut rng = ChaCha20Rng::from_seed([10; 32]);
    let randomness = randomness(&config, &mut rng);
    let result = deal_with(
        &config,
        participant(3),
        &secret(3),
        &randomness,
        &|_, _, _| Ok(TinyScalar(1)),
        |_, _, _| Ok(Vec::new()),
    );
    assert_eq!(expect_err(result), Error::UnknownParticipant(3));
}

#[test]
fn dealing_rejects_a_secret_that_does_not_match_the_registered_key() {
    let config = config(2);
    let mut rng = ChaCha20Rng::from_seed([11; 32]);
    let randomness = randomness(&config, &mut rng);
    let result = deal_with(
        &config,
        participant(1),
        &secret(2),
        &randomness,
        &|_, _, _| Ok(TinyScalar(1)),
        |_, _, _| Ok(Vec::new()),
    );
    assert_eq!(expect_err(result), Error::IdentityKeyMismatch);
}

#[test]
fn dealing_propagates_a_pad_failure() {
    let config = config(2);
    let mut rng = ChaCha20Rng::from_seed([12; 32]);
    let randomness = randomness(&config, &mut rng);
    let result = deal_with(
        &config,
        participant(1),
        &secret(1),
        &randomness,
        &|_, _, _| Err(Error::RelationEvaluationFailed),
        |_, _, _| Ok(Vec::new()),
    );
    assert_eq!(expect_err(result), Error::RelationEvaluationFailed);
}

#[test]
fn dealt_message_parses_back_with_its_proof_suffix() {
    let config = config_with(3, 2);
    let mut rng = ChaCha20Rng::from_seed([13; 32]);
    let randomness = randomness(&config, &mut rng);
    let own_dealing = deal_with(
        &config,
        participant(2),
        &secret(2),
        &randomness,
        &|_, _, _| Ok(TinyScalar(5)),
        |_, _, _| Ok(vec![0xaa, 0xbb]),
    );
    let own_dealing = match own_dealing {
        Ok(own_dealing) => own_dealing,
        Err(error) => panic!("dealing failed: {error:?}"),
    };

    assert_eq!(own_dealing.participant(), participant(2));
    assert_eq!(own_dealing.configuration_root(), config.root());
    // The dealer keeps its own share of each instance.
    assert_eq!(own_dealing.private_shares().len(), 1);

    let parsed = expect_ok(parse_dealer_message(
        &config,
        participant(2),
        own_dealing.dealer_message_bytes(),
    ));
    assert_eq!(parsed.proof, vec![0xaa, 0xbb]);
    assert_eq!(parsed.message.instances.len(), 1);
    assert_eq!(parsed.message.instances[0].nonce, randomness[0].nonce);
}
