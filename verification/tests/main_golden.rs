use golden_dkg::error::Error;
use golden_dkg::main_golden::sample_beta;

#[test]
fn beta_sampler_rejects_an_attempt_resets_blocks_and_accepts_zero() {
    let mut calls = Vec::new();
    let coefficient = sample_beta(
        48,
        |attempt, block| {
            calls.push((attempt, block));
            Ok(if attempt == 0 { [0xff; 32] } else { [0; 32] })
        },
        |candidate: &[u8]| {
            candidate
                .iter()
                .all(|byte| *byte == 0)
                .then_some(candidate.to_vec())
        },
    )
    .expect("attempt one is the all-zero canonical candidate");

    assert_eq!(coefficient, vec![0; 48]);
    assert_eq!(calls, [(0, 0), (0, 1), (1, 0), (1, 1)]);
}

#[test]
fn beta_sampler_returns_an_expansion_error_unchanged() {
    let result: Result<Vec<u8>, Error> = sample_beta(
        32,
        |_attempt, _block| Err(Error::InvalidEncoding),
        |candidate: &[u8]| Some(candidate.to_vec()),
    );
    assert_eq!(result, Err(Error::InvalidEncoding));
}

#[test]
fn beta_sampler_uses_a_single_block_for_short_representations() {
    let mut calls = Vec::new();
    let value = sample_beta(
        20,
        |attempt, block| {
            calls.push((attempt, block));
            Ok([7u8; 32])
        },
        |candidate: &[u8]| Some(candidate.to_vec()),
    )
    .unwrap();
    assert_eq!(value, vec![7u8; 20]);
    assert_eq!(calls, [(0, 0)]);
}
