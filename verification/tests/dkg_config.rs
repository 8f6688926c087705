use golden_dkg::dealer_proof::{DealerProofStatement, DealerProofWitness};
use golden_dkg::dkg::{
    DealerMessageNonce, DkgConfig, DkgInstanceKind, EvrfMessage, ParticipantRegistry, SessionId,
    PROTOCOL_VERSION,
};
use golden_dkg::dkg_output::{DkgInstanceOutput, DkgOutput};
use golden_dkg::error::Error;
use golden_dkg::group::{GoldenGroup, GoldenScalar};
use golden_dkg::main_golden::effective_message;
use golden_dkg::participant::ParticipantIndex;
use golden_dkg::tiny_group::{TinyGroup, TinyScalar};

fn idx(value: u32) -> ParticipantIndex {
    ParticipantIndex::new(value).unwrap()
}

fn secret(participant: ParticipantIndex) -> TinyScalar {
    TinyScalar::from_u64(u64::from(participant.get())).unwrap()
}

fn registry() -> ParticipantRegistry<TinyGroup> {
    ParticipantRegistry::new(
        [idx(1), idx(2), idx(3)]
            .into_iter()
            .map(|participant| (participant, TinyGroup::mul_generator(&secret(participant))))
            .collect(),
    )
    .unwrap()
}

fn mixed_config() -> DkgConfig<TinyGroup> {
    DkgConfig::new(
        2,
        SessionId([7; 32]),
        registry(),
        vec![DkgInstanceKind::Random, DkgInstanceKind::Zero],
    )
    .unwrap()
}

fn s(value: u64) -> TinyScalar {
    TinyScalar::from_u64(value).unwrap()
}

fn flat_statement(config: &DkgConfig<TinyGroup>) -> DealerProofStatement<TinyGroup> {
    DealerProofStatement::new(
        config,
        idx(1),
        [13; 32],
        vec![EvrfMessage([21; 32]), EvrfMessage([22; 32])],
        vec![s(5), s(7), TinyScalar::zero(), s(9)],
        vec![s(19), s(26), s(18), s(27)],
        vec![s(31), s(32), s(33), s(34)],
        vec![s(50), s(58), s(51), s(61)],
    )
    .ok()
    .unwrap()
}

fn revealed_openings() -> Vec<(TinyScalar, TinyScalar)> {
    [(19, 31), (26, 32), (18, 33), (27, 34)]
        .into_iter()
        .map(|(share, pad)| (s(share), s(pad)))
        .collect()
}

#[test]
fn registry_and_config_expose_the_final_validated_contract() {
    assert_eq!(
        ParticipantRegistry::<TinyGroup>::new(Vec::new()).err(),
        Some(Error::EmptyParticipantRegistry)
    );

    let registry = registry();
    let config = DkgConfig::new(
        2,
        SessionId([7; 32]),
        self::registry(),
        vec![DkgInstanceKind::Random, DkgInstanceKind::Zero],
    )
    .unwrap();

    assert_eq!(PROTOCOL_VERSION, 4);
    assert_eq!(config.threshold(), 2);
    assert_eq!(config.session_id(), SessionId([7; 32]));
    assert_eq!(config.registry().entries(), registry.entries());
    assert_eq!(config.registry().root(), registry.root());
    assert_eq!(config.identity_public_key(idx(2)), Some(registry.public_key(idx(2)).unwrap()));
    assert_eq!(config.identity_public_key(idx(4)), None);
    assert_eq!(config.instance(0), Some(DkgInstanceKind::Random));
    assert_eq!(config.instance(1), Some(DkgInstanceKind::Zero));
    assert_eq!(config.instance(2), None);
}

#[test]
fn flat_dealer_proof_views_preserve_instance_and_receiver_order() {
    let config = mixed_config();
    let statement = flat_statement(&config);
    let witness = DealerProofWitness::from_revealed_parts(
        &config,
        &statement,
        secret(idx(1)),
        vec![Some(s(5)), None],
        revealed_openings(),
    )
    .ok()
    .unwrap();

    assert_eq!(statement.dealer(), idx(1));
    assert_eq!(statement.dealer_public_key(), secret(idx(1)));
    assert_eq!(statement.dealer_message_root(), [13; 32]);
    assert_eq!(statement.instance_count(), 2);

    let random = statement.instance(0).unwrap();
    assert_eq!(random.effective_message(), EvrfMessage([21; 32]));
    assert_eq!(random.commitment_coefficients(), vec![s(5), s(7)]);
    assert_eq!(random.receiver_count(), 2);
    let first_receiver = random.receiver(0).unwrap();
    assert_eq!(first_receiver.participant, idx(2));
    assert_eq!(first_receiver.public_key, secret(idx(2)));
    assert_eq!(first_receiver.share_commitment, s(19));
    assert_eq!(first_receiver.pad_commitment, s(31));
    assert_eq!(first_receiver.encrypted_share, s(50));
    assert_eq!(random.receiver(1).unwrap().participant, idx(3));
    assert!(random.receiver(2).is_none());
    assert!(statement.instance(2).is_none());

    assert_eq!(witness.identity_secret(), secret(idx(1)));
    assert_eq!(witness.instance_count(), 2);
    assert_eq!(witness.polynomial_constant(0), Some(s(5)));
    assert_eq!(witness.receiver(0, 0), Some((s(19), s(31))));
    assert!(witness.receiver(0, 2).is_none());
    assert_eq!(witness.polynomial_constant(1), None);
    assert_eq!(witness.polynomial_constant(2), None);
}

#[test]
fn flat_statement_construction_rejects_inexact_dimensions() {
    let config = mixed_config();
    let result = DealerProofStatement::new(
        &config,
        idx(1),
        [13; 32],
        vec![EvrfMessage([21; 32]), EvrfMessage([22; 32])],
        vec![TinyScalar::zero(); 3],
        vec![TinyScalar::one(); 4],
        vec![TinyScalar::one(); 4],
        vec![TinyScalar::one(); 4],
    );

    assert_eq!(result.err(), Some(Error::ProofGenerationFailed));
}

#[test]
fn revealed_witness_reconstruction_checks_dimensions_and_kind_grammar() {
    let config = mixed_config();
    let statement = flat_statement(&config);
    let identity_secret = secret(idx(1));
    let random = s(5);

    let cases = [
        (vec![Some(random)], revealed_openings()),
        (vec![None, None], revealed_openings()),
        (vec![Some(random), Some(TinyScalar::zero())], revealed_openings()),
        (vec![Some(random), None], revealed_openings().into_iter().take(3).collect()),
    ];

    for (polynomial_constants, receiver_openings) in cases {
        assert_eq!(
            DealerProofWitness::from_revealed_parts(
                &config,
                &statement,
                identity_secret,
                polynomial_constants,
                receiver_openings,
            )
            .err(),
            Some(Error::ProofVerificationFailed)
        );
    }
}

fn persisted_shares(constant: u64, slope: u64) -> Vec<(ParticipantIndex, TinyScalar)> {
    [idx(1), idx(2), idx(3)]
        .into_iter()
        .map(|share_participant| {
            let x = s(u64::from(share_participant.get()));
            let value = s(constant).add(&s(slope).mul(&x));
            (share_participant, TinyGroup::mul_generator(&value))
        })
        .collect()
}

fn share_of(shares: &[(ParticipantIndex, TinyScalar)], participant: ParticipantIndex) -> TinyScalar {
    shares.iter().find(|(p, _)| *p == participant).unwrap().1
}

fn persisted_instance(
    participant: ParticipantIndex,
    constant: u64,
    slope: u64,
) -> DkgInstanceOutput<TinyGroup> {
    let shares = persisted_shares(constant, slope);
    let secret_share = share_of(&shares, participant);
    DkgInstanceOutput::new(TinyGroup::mul_generator(&s(constant)), secret_share, shares)
}

#[test]
fn persisted_instance_reconstruction_validates_its_algebra() {
    let participant = idx(2);
    let random = persisted_instance(participant, 9, 4);
    let expected = DkgInstanceOutput::<TinyGroup>::from_persisted_parts(
        *random.public_key(),
        *random.secret_share(),
        random.public_key_shares().to_vec(),
    )
    .ok()
    .unwrap();
    assert_eq!(expected.public_key(), random.public_key());
    assert_eq!(expected.secret_share(), random.secret_share());
    assert_eq!(expected.public_key_shares(), random.public_key_shares());

    let cases = [
        (*random.public_key(), *random.secret_share(), Vec::new()),
        (*random.public_key(), s(96), random.public_key_shares().to_vec()),
        (TinyGroup::identity(), *random.secret_share(), random.public_key_shares().to_vec()),
    ];
    for (public_key, secret_share, public_key_shares) in cases {
        assert_eq!(
            DkgInstanceOutput::<TinyGroup>::from_persisted_parts(
                public_key,
                secret_share,
                public_key_shares,
            )
            .err(),
            Some(Error::InvalidEncoding)
        );
    }
}

fn restored(instance: &DkgInstanceOutput<TinyGroup>) -> DkgInstanceOutput<TinyGroup> {
    DkgInstanceOutput::<TinyGroup>::from_persisted_parts(
        *instance.public_key(),
        *instance.secret_share(),
        instance.public_key_shares().to_vec(),
    )
    .ok()
    .unwrap()
}

#[test]
fn persisted_output_reconstruction_validates_only_batch_composition() {
    let participant = idx(2);
    let random = restored(&persisted_instance(participant, 9, 4));
    let zero = restored(&persisted_instance(participant, 0, 7));
    let expected = DkgOutput::from_persisted_parts(
        participant,
        mixed_config().root(),
        vec![restored(&random), restored(&zero)],
    )
    .ok()
    .unwrap();
    assert_eq!(expected.instances().len(), 2);
    assert_eq!(expected.instances()[0].public_key_shares(), random.public_key_shares());
    assert_eq!(expected.instances()[1].public_key_shares(), zero.public_key_shares());
    assert_eq!(expected.instances()[1].public_key(), &TinyGroup::identity());

    let mut missing_local_shares = random.public_key_shares().to_vec();
    missing_local_shares.retain(|(p, _)| *p != participant);
    let missing_local = DkgInstanceOutput::<TinyGroup>::from_persisted_parts(
        *random.public_key(),
        share_of(&missing_local_shares, idx(1)),
        missing_local_shares,
    )
    .ok()
    .unwrap();
    let wrong_local = DkgInstanceOutput::<TinyGroup>::from_persisted_parts(
        *random.public_key(),
        share_of(random.public_key_shares(), idx(1)),
        random.public_key_shares().to_vec(),
    )
    .ok()
    .unwrap();
    let mut different_participant_shares = zero.public_key_shares().to_vec();
    different_participant_shares.retain(|(p, _)| *p != idx(3));
    let different_participants = DkgInstanceOutput::<TinyGroup>::from_persisted_parts(
        *zero.public_key(),
        *zero.secret_share(),
        different_participant_shares,
    )
    .ok()
    .unwrap();

    for instances in [
        Vec::new(),
        vec![missing_local],
        vec![wrong_local],
        vec![restored(&random), different_participants],
    ] {
        assert_eq!(
            DkgOutput::from_persisted_parts(participant, mixed_config().root(), instances).err(),
            Some(Error::InvalidEncoding)
        );
    }
}

#[test]
fn completion_root_binds_the_public_output() {
    let participant = idx(2);
    let a = DkgOutput::new(participant, mixed_config().root(), vec![restored(&persisted_instance(participant, 9, 4))]);
    let b = DkgOutput::new(participant, mixed_config().root(), vec![restored(&persisted_instance(participant, 9, 4))]);
    let c = DkgOutput::new(participant, mixed_config().root(), vec![restored(&persisted_instance(participant, 8, 4))]);
    assert_eq!(a.completion_root(), b.completion_root());
    assert_ne!(a.completion_root(), c.completion_root());
    assert_eq!(a.participant(), participant);
    assert!(a.instance(1).is_none());
}

#[test]
fn config_constructors_validate_shape_and_bind_order() {
    for (config, expected) in [
        (DkgConfig::new_random(2, SessionId([7; 32]), registry()).ok().unwrap(), DkgInstanceKind::Random),
        (DkgConfig::new_zero(2, SessionId([7; 32]), registry()).ok().unwrap(), DkgInstanceKind::Zero),
    ] {
        assert_eq!(config.instances(), [expected]);
    }

    for threshold in [0, 4] {
        assert_eq!(
            DkgConfig::new_random(threshold, SessionId([7; 32]), registry()).err(),
            Some(Error::InvalidThreshold { threshold, participants: 3 })
        );
    }

    assert_eq!(
        DkgConfig::new(2, SessionId([7; 32]), registry(), Vec::new()).err(),
        Some(Error::EmptyDkgBatch)
    );
    let config = mixed_config();
    let reversed = DkgConfig::new(
        config.threshold(),
        config.session_id(),
        registry(),
        vec![DkgInstanceKind::Zero, DkgInstanceKind::Random],
    )
    .ok()
    .unwrap();
    assert_ne!(config.root(), reversed.root());
}

#[test]
fn effective_message_binds_configuration_dealer_position_kind_and_nonce() {
    let configuration = mixed_config().root();
    let dealer = idx(1);
    let position = 0;
    let kind = DkgInstanceKind::Random;
    let nonce = DealerMessageNonce([3; 32]);
    let message = effective_message(configuration, dealer, position, kind, nonce);
    let variants = [
        effective_message([9; 32], dealer, position, kind, nonce),
        effective_message(configuration, idx(2), position, kind, nonce),
        effective_message(configuration, dealer, 1, kind, nonce),
        effective_message(configuration, dealer, position, DkgInstanceKind::Zero, nonce),
        effective_message(configuration, dealer, position, kind, DealerMessageNonce([4; 32])),
    ];
    for changed in variants {
        assert_ne!(message, changed);
    }
}

#[test]
fn config_root_binds_every_configuration_dimension() {
    let base = mixed_config();
    let changed_registry = ParticipantRegistry::new(vec![
        (idx(1), TinyGroup::mul_generator(&s(4))),
        (idx(2), TinyGroup::mul_generator(&s(5))),
        (idx(3), TinyGroup::mul_generator(&s(6))),
    ])
    .unwrap();
    let variants = [
        DkgConfig::new(2, SessionId([8; 32]), registry(), base.instances().to_vec()).ok().unwrap(),
        DkgConfig::new(3, base.session_id(), registry(), base.instances().to_vec()).ok().unwrap(),
        DkgConfig::new(2, base.session_id(), changed_registry, base.instances().to_vec())
            .ok()
            .unwrap(),
        DkgConfig::new(
            2,
            base.session_id(),
            registry(),
            vec![DkgInstanceKind::Zero, DkgInstanceKind::Random],
        )
        .ok()
        .unwrap(),
    ];
    for changed in variants {
        assert_ne!(base.root(), changed.root());
    }
}
