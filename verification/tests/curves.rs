use rand_chacha::rand_core::SeedableRng;
use golden_dkg::bls_cycle::Bls12_381G1Cycle;
use golden_dkg::group::{GoldenGroup, GoldenHashToGroup, GoldenScalar};
use golden_dkg::jubjub_cycle::JubjubCycle;
use golden_dkg::jubjub_group::{JubjubElement, JubjubGoldenGroup, JubjubScalar};

#[test]
fn cycle_point_hash_from_uniform_differs_across_inputs() {
    let a = Bls12_381G1Cycle::point_hash_from_uniform(&[1u8; 64]);
    let b = Bls12_381G1Cycle::point_hash_from_uniform(&[2u8; 64]);
    assert_ne!(a, b);
}

#[test]
fn jubjub_cycle_point_hash_from_uniform_differs_across_inputs() {
    let a = JubjubCycle::point_hash_from_uniform(&[1u8; 64]);
    let b = JubjubCycle::point_hash_from_uniform(&[2u8; 64]);
    assert_ne!(a, b);
}

#[test]
fn cycle_point_hash_from_uniform_is_deterministic_and_in_prime_order_subgroup() {
    let bytes = [7u8; 64];
    let a = Bls12_381G1Cycle::point_hash_from_uniform(&bytes).unwrap();
    let b = Bls12_381G1Cycle::point_hash_from_uniform(&bytes).unwrap();
    assert_eq!(a, b);
    assert!(!a.is_identity());
    let encoded = Bls12_381G1Cycle::point_compress(&a);
    let reference = Option::<bls12_381::G1Affine>::from(bls12_381::G1Affine::from_compressed(
        &encoded,
    ));
    assert!(reference.is_some());
}

#[test]
fn jubjub_cycle_point_hash_from_uniform_is_deterministic_and_in_prime_order_subgroup() {
    let bytes = [7u8; 64];
    let a = JubjubCycle::point_hash_from_uniform(&bytes).unwrap();
    let b = JubjubCycle::point_hash_from_uniform(&bytes).unwrap();
    assert_eq!(a, b);
    assert!(!a.is_identity());
}

#[test]
fn scalar_encoding_round_trips() {
    let s = JubjubScalar::from_u64(42).unwrap();
    let repr = s.to_repr();
    assert_eq!(JubjubScalar::from_repr(&repr).unwrap(), s);
}

#[test]
fn element_encoding_round_trips() {
    let p = JubjubGoldenGroup::mul_generator(&JubjubScalar::from_u64(7).unwrap());
    let repr = JubjubGoldenGroup::encode_element(&p);
    assert_eq!(JubjubGoldenGroup::decode_element(&repr).unwrap(), p);
}

#[test]
fn identity_encoding_is_fixed_width_and_zero_tagged() {
    let repr = JubjubGoldenGroup::encode_element(&JubjubGoldenGroup::identity());
    assert_eq!(repr[0], 0);
    assert_eq!(repr.len(), 33);
}

#[test]
fn decode_element_rejects_nonzero_tag_byte() {
    let mut repr = JubjubGoldenGroup::encode_element(&JubjubGoldenGroup::generator());
    repr[0] = 1;
    assert!(JubjubGoldenGroup::decode_element(&repr).is_err());
}

#[test]
fn hash_to_group_is_deterministic_and_non_identity() {
    let a = JubjubGoldenGroup::hash_to_group(b"dom", b"msg").unwrap();
    let b = JubjubGoldenGroup::hash_to_group(b"dom", b"msg").unwrap();
    assert_eq!(a, b);
    assert!(!JubjubGoldenGroup::is_identity(&a));
}

#[test]
fn hash_to_group_differs_across_messages() {
    let a = JubjubGoldenGroup::hash_to_group(b"dom", b"one").unwrap();
    let b = JubjubGoldenGroup::hash_to_group(b"dom", b"two").unwrap();
    assert_ne!(a, b);
}

#[test]
fn jubjub_cycle_compressed_round_trips() {
    let mut rng = rand_chacha::ChaCha20Rng::seed_from_u64(0);
    let point = <jubjub::SubgroupPoint as group::Group>::random(&mut rng);
    let bytes = group::GroupEncoding::to_bytes(&point);
    let decoded = JubjubCycle::compressed_decompress(&bytes).unwrap();
    assert_eq!(JubjubCycle::point_compress(&decoded), bytes);
}

#[test]
fn jubjub_cycle_scalar_batch_invert_matches_individual_inversions() {
    let mut rng = rand_chacha::ChaCha20Rng::seed_from_u64(3);
    let scalars: Vec<jubjub::Fr> = (0..8)
        .map(|_| <jubjub::Fr as ff::Field>::random(&mut rng))
        .collect();
    let mut items: Vec<JubjubScalar> = scalars
        .iter()
        .map(|s| JubjubScalar::from_bytes(s.to_bytes()).unwrap())
        .collect();
    let expected: Vec<[u8; 32]> = scalars
        .iter()
        .map(|s| Option::<jubjub::Fr>::from(ff::Field::invert(s)).unwrap().to_bytes())
        .collect();
    JubjubCycle::scalar_batch_invert(&mut items);
    let actual: Vec<[u8; 32]> = items.iter().map(|s| s.to_bytes()).collect();
    assert_eq!(actual, expected);
}

#[test]
fn jubjub_batch_invert_with_a_zero_item_zeroes_every_item() {
    let mut items = vec![
        JubjubScalar::from_u64(3).unwrap(),
        JubjubScalar::zero(),
        JubjubScalar::from_u64(5).unwrap(),
    ];
    let product_inverse = JubjubCycle::scalar_batch_invert(&mut items);
    assert!(product_inverse.is_zero());
    assert!(items.iter().all(|s| s.is_zero()));
}

#[test]
fn jubjub_scalar_from_wide_reduces_modulo_the_order() {
    let mut wide = [0u8; 64];
    wide[0] = 5;
    assert_eq!(JubjubCycle::scalar_from_wide(&wide), JubjubScalar::from_u64(5).unwrap());
    let expected = jubjub::Fr::from_bytes_wide(&[0xff; 64]).to_bytes();
    assert_eq!(JubjubCycle::scalar_from_wide(&[0xff; 64]).to_bytes(), expected);
}

#[test]
fn jubjub_compressed_identity_is_recognised() {
    let identity = JubjubCycle::compressed_identity();
    assert!(JubjubCycle::compressed_is_identity(&identity));
    let mut expected = [0u8; 32];
    expected[0] = 1;
    assert_eq!(identity, expected);
    let g = JubjubCycle::point_compress(&JubjubGoldenGroup::generator());
    assert!(!JubjubCycle::compressed_is_identity(&g));
}

#[test]
fn bls_compressed_identity_is_recognised() {
    let identity = Bls12_381G1Cycle::compressed_identity();
    assert_eq!(identity[0], 0xc0);
    assert!(identity[1..].iter().all(|b| *b == 0));
    assert!(Bls12_381G1Cycle::compressed_is_identity(&identity));
    let p = Bls12_381G1Cycle::point_hash_from_uniform(&[3u8; 64]).unwrap();
    assert!(!Bls12_381G1Cycle::compressed_is_identity(&Bls12_381G1Cycle::point_compress(&p)));
}

#[test]
fn cycle_compressed_round_trips() {
    let p = Bls12_381G1Cycle::point_hash_from_uniform(&[4u8; 64]).unwrap();
    let compressed = Bls12_381G1Cycle::point_compress(&p);
    let decoded = Bls12_381G1Cycle::compressed_decompress(&compressed).unwrap();
    assert_eq!(decoded, p);
    let mut wide = vec![9u8; 10];
    wide.splice(0..0, compressed.iter().copied());
    assert_eq!(Bls12_381G1Cycle::compressed_from_bytes(&wide), compressed);
}

#[test]
fn jubjub_group_arithmetic_follows_the_scalar_field() {
    let two = JubjubScalar::from_u64(2).unwrap();
    let three = JubjubScalar::from_u64(3).unwrap();
    let five = JubjubScalar::from_u64(5).unwrap();
    let p2 = JubjubGoldenGroup::mul_generator(&two);
    let p3 = JubjubGoldenGroup::mul_generator(&three);
    let p5 = JubjubGoldenGroup::mul_generator(&five);
    assert_eq!(JubjubGoldenGroup::add(&p2, &p3), p5);
    assert_eq!(JubjubGoldenGroup::sub(&p5, &p3), p2);
    assert!(JubjubGoldenGroup::element_eq(&p5, &JubjubGoldenGroup::add(&p3, &p2)));
    let element: JubjubElement = JubjubGoldenGroup::sub(&p2, &p2);
    assert!(JubjubGoldenGroup::is_identity(&element));
}
