use golden_dkg::dealer_message::{
    dealer_message_root, encode_dealer_message, encode_protocol_scalar, encoded_prefix_len,
    DealerMessageData, DealerMessageInstance, DealerMessageReceiver, DEALER_MESSAGE_CODEC_VERSION,
    MAX_DEALER_MESSAGE_BYTES,
};
use golden_dkg::dealer_parse::parse_dealer_message;
use golden_dkg::dkg::{
    DealerMessageNonce, DkgConfig, DkgInstanceKind, ParticipantRegistry, SessionId,
    PROTOCOL_VERSION,
};
use golden_dkg::error::{DealerMessageError, Error};
use golden_dkg::group::{GoldenGroup, GoldenScalar};
use golden_dkg::main_golden::effective_message;
use golden_dkg::participant::ParticipantIndex;
use golden_dkg::tiny_group::{TinyGroup, TinyScalar};

const GOLDEN_TEST_CURVE_ID: &str = "golden-test-tiny-v1";

fn participant(value: u32) -> ParticipantIndex {
    ParticipantIndex::new(value).unwrap()
}

fn scalar(value: u64) -> TinyScalar {
    TinyScalar::from_u64(value).unwrap()
}

fn config(kind: DkgInstanceKind, participants: u32) -> DkgConfig<TinyGroup> {
    let registry = ParticipantRegistry::new(
        (1..=participants).map(|value| (participant(value), scalar(u64::from(value)))).collect(),
    )
    .unwrap();
    DkgConfig::new(1, SessionId([4; 32]), registry, vec![kind]).unwrap()
}

fn message_with_share(config: &DkgConfig<TinyGroup>, share: u64) -> DealerMessageData<TinyGroup> {
    let dealer = participant(1);
    let nonce = DealerMessageNonce([9; 32]);
    let kind = config.instance(0).unwrap();
    DealerMessageData {
        dealer,
        instances: vec![DealerMessageInstance {
            nonce,
            effective_message: effective_message(config.root(), dealer, 0, kind, nonce),
            commitment_coefficients: vec![match kind {
                DkgInstanceKind::Random => scalar(5),
                DkgInstanceKind::Zero => TinyScalar::zero(),
            }],
            receivers: config
                .registry()
                .entries()
                .into_iter()
                .filter(|(participant, _)| *participant != dealer)
                .map(|(participant, public_key)| DealerMessageReceiver {
                    participant,
                    public_key,
                    share_commitment: scalar(share),
                    pad_commitment: scalar(8),
                    encrypted_share: scalar(9),
                })
                .collect(),
        }],
    }
}

fn message(config: &DkgConfig<TinyGroup>) -> DealerMessageData<TinyGroup> {
    message_with_share(config, 7)
}

#[test]
fn canonical_encoding_is_configuration_shaped() {
    for kind in [DkgInstanceKind::Random, DkgInstanceKind::Zero] {
        let config = config(kind, 2);
        let message = message(&config);
        let proof = [0xaa, 0xbb];
        let encoded = encode_dealer_message(&config, &message, &proof).unwrap();

        let mut expected = Vec::new();
        expected.extend_from_slice(b"golden-dkg-dealer");
        expected.extend_from_slice(&DEALER_MESSAGE_CODEC_VERSION.to_be_bytes());
        expected.extend_from_slice(&PROTOCOL_VERSION.to_be_bytes());
        expected.extend_from_slice(&(GOLDEN_TEST_CURVE_ID.len() as u64).to_be_bytes());
        expected.extend_from_slice(GOLDEN_TEST_CURVE_ID.as_bytes());
        expected.extend_from_slice(&config.root());
        expected.extend_from_slice(&1u32.to_be_bytes());
        expected.extend_from_slice(&[9; 32]);
        if kind == DkgInstanceKind::Random {
            expected.push(5);
        }
        expected.extend_from_slice(&[8, 9]);
        expected.extend_from_slice(&proof);

        assert_eq!(encoded, expected);
    }
}

#[test]
fn protocol_scalar_encoding_uses_canonical_big_endian_bytes() {
    let encoded = encode_protocol_scalar(&scalar(9));

    assert_eq!(encoded, [9]);
}

#[test]
fn whole_message_limit_includes_the_opaque_proof_suffix() {
    let config = config(DkgInstanceKind::Random, 2);
    let message = message(&config);
    let prefix_len = encoded_prefix_len::<TinyGroup>(&config).unwrap();
    let exact_proof = vec![0u8; MAX_DEALER_MESSAGE_BYTES - prefix_len];

    assert_eq!(
        encode_dealer_message(&config, &message, &exact_proof).unwrap().len(),
        MAX_DEALER_MESSAGE_BYTES
    );
    assert_eq!(
        encode_dealer_message(
            &config,
            &message,
            &vec![0u8; MAX_DEALER_MESSAGE_BYTES - prefix_len + 1],
        )
        .unwrap_err(),
        Error::DealerMessageTooLarge
    );
}

#[test]
fn dealer_root_binds_logical_public_values() {
    let config = config(DkgInstanceKind::Zero, 2);
    let message = message(&config);
    let root = dealer_message_root(&config, &message).unwrap();

    let changed = message_with_share(&config, 6);
    assert_ne!(root, dealer_message_root(&config, &changed).unwrap());
}

#[test]
fn single_participant_rejects_a_nonempty_proof_suffix() {
    let config = config(DkgInstanceKind::Zero, 1);
    let message = message(&config);

    assert_eq!(
        encode_dealer_message(&config, &message, &[1]).unwrap_err(),
        Error::ProofGenerationFailed
    );
}

/// A message whose receiver slots satisfy the public relation: with
/// threshold one the expected share is the constant coefficient, so the
/// encrypted share must be that plus the pad.
fn consistent_message(config: &DkgConfig<TinyGroup>) -> DealerMessageData<TinyGroup> {
    let dealer = participant(1);
    let nonce = DealerMessageNonce([3; 32]);
    let kind = config.instance(0).unwrap();
    let constant = match kind {
        DkgInstanceKind::Random => 5,
        DkgInstanceKind::Zero => 0,
    };
    DealerMessageData {
        dealer,
        instances: vec![DealerMessageInstance {
            nonce,
            effective_message: effective_message(config.root(), dealer, 0, kind, nonce),
            commitment_coefficients: vec![scalar(constant)],
            receivers: config
                .registry()
                .entries()
                .into_iter()
                .filter(|(participant, _)| *participant != dealer)
                .map(|(participant, public_key)| DealerMessageReceiver {
                    participant,
                    public_key,
                    share_commitment: scalar(constant),
                    pad_commitment: scalar(8),
                    encrypted_share: scalar(constant + 8),
                })
                .collect(),
        }],
    }
}

#[test]
fn encoded_consistent_message_parses_back() {
    for kind in [DkgInstanceKind::Random, DkgInstanceKind::Zero] {
        let config = config(kind, 3);
        let message = consistent_message(&config);
        let encoded = encode_dealer_message(&config, &message, &[0x42, 0x43]).unwrap();
        let parsed = parse_dealer_message(&config, participant(1), &encoded).unwrap();

        assert_eq!(parsed.proof, vec![0x42, 0x43]);
        assert_eq!(parsed.message.dealer, participant(1));
        let instance = &parsed.message.instances[0];
        assert_eq!(instance.nonce, DealerMessageNonce([3; 32]));
        assert_eq!(instance.receivers.len(), 2);
        assert_eq!(instance.receivers[0].participant, participant(2));
        assert_eq!(instance.receivers[1].participant, participant(3));
        assert_eq!(instance.receivers[0].pad_commitment, scalar(8));
        assert_eq!(parsed.statement.dealer(), participant(1));
        assert_eq!(
            parsed.statement.dealer_message_root(),
            dealer_message_root(&config, &message).unwrap()
        );
    }
}

#[test]
fn parse_rejects_a_broken_public_relation() {
    let config = config(DkgInstanceKind::Random, 2);
    let message = message(&config);
    let encoded = encode_dealer_message(&config, &message, &[]).unwrap();

    assert_eq!(
        parse_dealer_message(&config, participant(1), &encoded).err(),
        Some(DealerMessageError::InvalidPublicRelations)
    );
}

#[test]
fn parse_rejects_wrong_dealer_truncation_and_bad_root() {
    let config = config(DkgInstanceKind::Random, 2);
    let message = consistent_message(&config);
    let encoded = encode_dealer_message(&config, &message, &[7]).unwrap();

    assert_eq!(
        parse_dealer_message(&config, participant(2), &encoded).err(),
        Some(DealerMessageError::DealerMismatch { encoded: participant(1) })
    );
    assert_eq!(
        parse_dealer_message(&config, participant(1), &encoded[..encoded.len() - 3]).err(),
        Some(DealerMessageError::Malformed)
    );
    let mut bad_root = encoded.clone();
    let root_at = 17 + 4 + 4 + 8 + GOLDEN_TEST_CURVE_ID.len();
    bad_root[root_at] ^= 1;
    assert_eq!(
        parse_dealer_message(&config, participant(1), &bad_root).err(),
        Some(DealerMessageError::ConfigurationMismatch)
    );
    let too_large = vec![0u8; MAX_DEALER_MESSAGE_BYTES + 1];
    assert_eq!(
        parse_dealer_message(&config, participant(1), &too_large).err(),
        Some(DealerMessageError::TooLarge {
            actual: MAX_DEALER_MESSAGE_BYTES + 1,
            maximum: MAX_DEALER_MESSAGE_BYTES,
        })
    );
}

#[test]
fn parse_rejects_a_noncanonical_scalar_and_an_identity_pad() {
    let config = config(DkgInstanceKind::Random, 2);
    let message = consistent_message(&config);
    let encoded = encode_dealer_message(&config, &message, &[]).unwrap();
    let slot_at = encoded.len() - 2;

    let mut identity_pad = encoded.clone();
    identity_pad[slot_at] = 0;
    assert_eq!(
        parse_dealer_message(&config, participant(1), &identity_pad).err(),
        Some(DealerMessageError::InvalidPublicRelations)
    );
    let mut noncanonical = encoded.clone();
    noncanonical[slot_at + 1] = 97;
    assert_eq!(
        parse_dealer_message(&config, participant(1), &noncanonical).err(),
        Some(DealerMessageError::Malformed)
    );
    assert_eq!(TinyGroup::generator(), scalar(1));
}

#[test]
fn every_truncation_below_the_prefix_is_malformed() {
    let config = config(DkgInstanceKind::Random, 2);
    let message = consistent_message(&config);
    let encoded = encode_dealer_message(&config, &message, &[7]).unwrap();
    let prefix = encoded_prefix_len::<TinyGroup>(&config).unwrap();
    assert!(prefix < encoded.len());
    for end in 0..prefix {
        assert_eq!(
            parse_dealer_message(&config, participant(1), &encoded[..end]).err(),
            Some(DealerMessageError::Malformed),
            "prefix of {end} bytes"
        );
    }
}
