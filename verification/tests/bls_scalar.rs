use rand_chacha::rand_core::{RngCore, SeedableRng};
use sha2::{Digest, Sha256};
use golden_dkg::bls_cycle::Bls12_381G1Cycle;
use golden_dkg::bls_scalar::BlsScalar;
use golden_dkg::group::GoldenScalar;
use golden_dkg::proof_cycle::Cycle;

fn scalar(value: u64) -> BlsScalar {
    BlsScalar::from_u64(value).unwrap()
}

/// The field order, little-endian.
fn modulus_bytes() -> [u8; 32] {
    let limbs: [u64; 4] = [
        0xffff_ffff_0000_0001,
        0x53bd_a402_fffe_5bfe,
        0x3339_d808_09a1_d805,
        0x73ed_a753_299d_7d48,
    ];
    let mut out = [0u8; 32];
    for (i, limb) in limbs.iter().enumerate() {
        out[8 * i..8 * i + 8].copy_from_slice(&limb.to_le_bytes());
    }
    out
}

#[test]
fn bls_scalar_arithmetic_matches_small_integers() {
    assert_eq!(scalar(2).add(&scalar(3)), scalar(5));
    assert_eq!(scalar(6).mul(&scalar(7)), scalar(42));
    assert_eq!(scalar(3).sub(&scalar(5)).add(&scalar(2)), BlsScalar::zero());
    assert!(BlsScalar::zero().is_zero());
    assert!(!BlsScalar::one().is_zero());
    let mut five = [0u8; 32];
    five[0] = 5;
    assert_eq!(scalar(5).to_bytes(), five);
}

#[test]
fn bls_scalar_inverts_nonzero_values_only() {
    let inverse = scalar(7).invert().unwrap();
    assert_eq!(inverse.mul(&scalar(7)), BlsScalar::one());
    assert!(BlsScalar::zero().invert().is_none());
    assert_eq!(Bls12_381G1Cycle::scalar_invert(&BlsScalar::zero()), BlsScalar::zero());
}

#[test]
fn bls_scalar_canonical_encoding_stops_below_the_order() {
    let modulus = modulus_bytes();
    assert!(Bls12_381G1Cycle::scalar_from_canonical(&modulus).is_none());
    let mut below = modulus;
    below[0] -= 1;
    let top = Bls12_381G1Cycle::scalar_from_canonical(&below).unwrap();
    assert_eq!(top.add(&BlsScalar::one()), BlsScalar::zero());
    assert_eq!(<Bls12_381G1Cycle as Cycle>::scalar_to_canonical(&top), below);
}

#[test]
fn bls_scalar_from_wide_reduces_modulo_the_order() {
    let mut wide = [0u8; 64];
    wide[0] = 9;
    assert_eq!(Bls12_381G1Cycle::scalar_from_wide(&wide), scalar(9));
    // The order itself reduces to zero, and the order plus 4 to 4.
    let mut order = [0u8; 64];
    order[..32].copy_from_slice(&modulus_bytes());
    assert_eq!(Bls12_381G1Cycle::scalar_from_wide(&order), BlsScalar::zero());
    order[0] += 4;
    assert_eq!(Bls12_381G1Cycle::scalar_from_wide(&order), scalar(4));
}

#[test]
fn bls_scalar_batch_invert_inverts_each_item() {
    let mut items = vec![scalar(2), scalar(3), scalar(5)];
    let product_inverse = Bls12_381G1Cycle::scalar_batch_invert(&mut items);
    assert_eq!(items[0].mul(&scalar(2)), BlsScalar::one());
    assert_eq!(items[1].mul(&scalar(3)), BlsScalar::one());
    assert_eq!(items[2].mul(&scalar(5)), BlsScalar::one());
    assert_eq!(product_inverse.mul(&scalar(30)), BlsScalar::one());

    let mut with_zero = vec![scalar(2), BlsScalar::zero()];
    let zero = Bls12_381G1Cycle::scalar_batch_invert(&mut with_zero);
    assert_eq!(zero, BlsScalar::zero());
    assert_eq!(with_zero, vec![BlsScalar::zero(), BlsScalar::zero()]);

    let mut empty: Vec<BlsScalar> = Vec::new();
    assert_eq!(Bls12_381G1Cycle::scalar_batch_invert(&mut empty), BlsScalar::one());
}

#[test]
fn bls_cycle_identity_encoding_has_the_infinity_flags() {
    let identity = <Bls12_381G1Cycle as Cycle>::compressed_identity();
    assert_eq!(identity[0], 0xc0);
    assert!(identity[1..].iter().all(|b| *b == 0));
    assert!(<Bls12_381G1Cycle as Cycle>::compressed_is_identity(&identity));
    assert_eq!(<Bls12_381G1Cycle as Cycle>::compressed_bytes(), 48);
}

fn random_bls_scalars(seed: u64, count: usize) -> Vec<BlsScalar> {
    let mut rng = rand_chacha::ChaCha20Rng::seed_from_u64(seed);
    (0..count)
        .map(|_| {
            let mut wide = [0u8; 64];
            rng.fill_bytes(&mut wide);
            Bls12_381G1Cycle::scalar_from_wide(&wide)
        })
        .collect()
}

#[test]
fn cycle_scalar_batch_invert_matches_individual_inversions() {
    let mut items = random_bls_scalars(3, 8);
    let expected: Vec<BlsScalar> = items.iter().map(|s| s.invert().unwrap()).collect();
    Bls12_381G1Cycle::scalar_batch_invert(&mut items);
    assert_eq!(items, expected);
}

#[test]
fn scalar_wide_and_canonical_round_trip() {
    let bytes = [5u8; 32];
    let scalar = Bls12_381G1Cycle::scalar_from_canonical(&bytes).unwrap();
    assert_eq!(Bls12_381G1Cycle::scalar_to_canonical(&scalar), bytes);
}

/// The try-and-increment candidate for `seed` and `counter`, as the hash to
/// G1 derives it.
fn candidate_compressed_bytes(seed: &[u8; 64], counter: u64) -> [u8; 48] {
    let domain: &[u8] = b"golden-bulletproofs-bls12-381-g1-v1";
    let mut out = [0u8; 48];
    let mut first = Sha256::new();
    first.update(domain);
    first.update(seed);
    first.update(counter.to_be_bytes());
    first.update(0u32.to_be_bytes());
    out[..32].copy_from_slice(&first.finalize());
    let mut second = Sha256::new();
    second.update(domain);
    second.update(seed);
    second.update(counter.to_be_bytes());
    second.update(1u32.to_be_bytes());
    out[32..].copy_from_slice(&second.finalize()[..16]);
    out[0] &= 0b0011_1111;
    out[0] |= 0b1000_0000;
    out
}

#[test]
fn compressed_decompress_rejects_off_subgroup_point() {
    // A candidate on the curve is accepted exactly when it lies in the
    // prime-order subgroup.
    let candidate = candidate_compressed_bytes(&[9u8; 64], 0);
    let Some(affine) = Option::<bls12_381::G1Affine>::from(
        bls12_381::G1Affine::from_compressed_unchecked(&candidate),
    ) else {
        return;
    };
    let is_torsion_free = bool::from(affine.is_torsion_free());
    let reference_encoding = affine.to_compressed();
    let encoding = Bls12_381G1Cycle::compressed_from_bytes(&reference_encoding);
    let checked = Bls12_381G1Cycle::compressed_decompress(&encoding);
    assert_eq!(checked.is_some(), is_torsion_free);
}

fn assert_compressed_decode_parity(bytes: &[u8; 48]) {
    let reference = Option::<bls12_381::G1Affine>::from(bls12_381::G1Affine::from_compressed(bytes));
    let encoded = Bls12_381G1Cycle::compressed_from_bytes(bytes);
    let actual = Bls12_381G1Cycle::compressed_decompress(&encoded);
    assert_eq!(actual.is_some(), reference.is_some());
}

#[test]
fn malformed_compressed_encodings_match_reference_rejection() {
    let mut off_curve = [0u8; 48];
    off_curve[0] = 0x80;
    off_curve[47] = 2;

    let noncanonical_x = [
        0x9a, 0x01, 0x11, 0xea, 0x39, 0x7f, 0xe6, 0x9a, 0x4b, 0x1b, 0xa7, 0xb6, 0x43, 0x4b, 0xac,
        0xd7, 0x64, 0x77, 0x4b, 0x84, 0xf3, 0x85, 0x12, 0xbf, 0x67, 0x30, 0xd2, 0xa0, 0xf6, 0xb0,
        0xf6, 0x24, 0x1e, 0xab, 0xff, 0xfe, 0xb1, 0x53, 0xff, 0xff, 0xb9, 0xfe, 0xff, 0xff, 0xff,
        0xff, 0xaa, 0xab,
    ];

    let mut malformed_identity = [0u8; 48];
    malformed_identity[0] = 0xc0;
    malformed_identity[47] = 1;

    for bytes in [off_curve, noncanonical_x, malformed_identity] {
        assert!(
            Option::<bls12_381::G1Affine>::from(bls12_381::G1Affine::from_compressed(&bytes))
                .is_none()
        );
        assert_compressed_decode_parity(&bytes);
    }
}
