use golden_dkg::group::{hash_to_scalar, GoldenScalar};
use golden_dkg::jubjub_group::JubjubScalar;
use golden_dkg::tiny_group::TinyScalar;

#[test]
fn hash_to_scalar_takes_the_first_canonical_nonzero_candidate() {
    // Candidate 0 of ("domain", "message") is not below 97; candidate 1 is 10.
    assert_eq!(
        hash_to_scalar::<TinyScalar>(b"domain", b"message").unwrap(),
        TinyScalar(10)
    );
    assert_eq!(
        hash_to_scalar::<TinyScalar>(b"domain", b"other").unwrap(),
        TinyScalar(62)
    );
    assert_eq!(hash_to_scalar::<TinyScalar>(b"", b"").unwrap(), TinyScalar(59));
}

#[test]
fn hash_to_scalar_over_jubjub_is_canonical_and_deterministic() {
    let scalar = hash_to_scalar::<JubjubScalar>(b"domain", b"message").unwrap();
    let mut expected = [0u8; 32];
    let hex = "68edf6c41ed75bd22bcb66a11eb56c8641f15244127a671d402f60c4b9ad350a";
    for (i, byte) in expected.iter_mut().enumerate() {
        *byte = u8::from_str_radix(&hex[2 * i..2 * i + 2], 16).unwrap();
    }
    assert_eq!(scalar.to_bytes(), expected);
    assert!(!scalar.is_zero());
    assert_eq!(
        hash_to_scalar::<JubjubScalar>(b"domain", b"message").unwrap(),
        scalar
    );
}
