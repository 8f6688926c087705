use golden_dkg::dkg::{DealerMessageNonce, SessionId};
use golden_dkg::error::Error;
use golden_dkg::participant::ParticipantIndex;
use golden_dkg::transcript::transcript_root_from_slice;
use golden_dkg::util::read32;
use golden_dkg::wire::{from_wire_bytes, to_wire_bytes};

#[test]
fn read32_copies_first_32_bytes() {
    let mut data = vec![0u8; 64];
    for (i, b) in data.iter_mut().enumerate() {
        *b = i as u8;
    }
    let got = read32(&data);
    assert_eq!(got, {
        let mut want = [0u8; 32];
        for (i, b) in want.iter_mut().enumerate() {
            *b = i as u8;
        }
        want
    });
}

#[test]
#[should_panic(expected = "range end index 32")]
fn read32_panics_on_short_input() {
    let data = [0u8; 31];
    let _ = read32(&data);
}

#[test]
fn invalid_participant_zero_is_rejected() {
    assert_eq!(
        ParticipantIndex::new(0).unwrap_err(),
        Error::ZeroParticipantIndex
    );
}

#[test]
fn transcript_root_decoding_requires_exact_length() {
    let root = [7u8; 32];

    assert_eq!(transcript_root_from_slice(&root).unwrap(), root);
    assert_eq!(
        transcript_root_from_slice(&root[..31]).unwrap_err(),
        Error::InvalidEncoding
    );
    assert_eq!(
        transcript_root_from_slice(&[0u8; 33]).unwrap_err(),
        Error::InvalidEncoding
    );
}

#[test]
fn wrong_top_level_tag_is_rejected() {
    let nonce = DealerMessageNonce([9u8; 32]);
    let bytes = to_wire_bytes(&nonce);

    assert_eq!(
        from_wire_bytes::<SessionId>(&bytes).unwrap_err(),
        Error::InvalidEncoding
    );
}

#[test]
fn wrong_top_level_context_is_rejected() {
    let session_id = SessionId([7u8; 32]);
    let mut bytes = to_wire_bytes(&session_id);
    bytes[golden_dkg::wire::magic().len() + 1 + 8] ^= 1;

    assert_eq!(
        from_wire_bytes::<SessionId>(&bytes).unwrap_err(),
        Error::InvalidEncoding
    );
}

#[test]
fn session_id_and_nonce_round_trip_through_the_wire() {
    let session_id = SessionId([3u8; 32]);
    let bytes = to_wire_bytes(&session_id);
    assert!(bytes.starts_with(golden_dkg::wire::magic()));
    assert_eq!(from_wire_bytes::<SessionId>(&bytes).unwrap(), session_id);

    let nonce = DealerMessageNonce([4u8; 32]);
    let bytes = to_wire_bytes(&nonce);
    assert_eq!(from_wire_bytes::<DealerMessageNonce>(&bytes).unwrap(), nonce);

    let mut trailing = bytes.clone();
    trailing.push(0);
    assert_eq!(
        from_wire_bytes::<DealerMessageNonce>(&trailing).unwrap_err(),
        Error::InvalidEncoding
    );
    assert_eq!(
        from_wire_bytes::<DealerMessageNonce>(&bytes[..bytes.len() - 1]).unwrap_err(),
        Error::InvalidEncoding
    );
}
