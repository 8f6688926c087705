use golden_dkg::group::{GoldenGroup, GoldenScalar};
use golden_dkg::jubjub_cycle::{JubjubCycle, JUBJUB_SCALAR_BITS};
use golden_dkg::jubjub_group::{JubjubElement, JubjubGoldenGroup, JubjubScalar};
use golden_dkg::pippenger::multi_scalar_mul;
use golden_dkg::tiny_group::{TinyGroup, TinyScalar};
use rand_chacha::rand_core::{RngCore, SeedableRng};
use rand_chacha::ChaCha20Rng;

fn random_scalar(rng: &mut impl RngCore) -> JubjubScalar {
    let mut wide = [0u8; 64];
    rng.fill_bytes(&mut wide);
    JubjubCycle::scalar_from_wide(&wide)
}

fn random_point(rng: &mut impl RngCore) -> JubjubElement {
    JubjubGoldenGroup::mul_generator(&random_scalar(rng))
}

fn naive_msm(scalars: &[JubjubScalar], points: &[JubjubElement]) -> JubjubElement {
    let mut acc = JubjubGoldenGroup::identity();
    for (s, p) in scalars.iter().zip(points) {
        acc = JubjubGoldenGroup::add(&acc, &JubjubGoldenGroup::mul(p, s));
    }
    acc
}

#[test]
fn pippenger_matches_naive_sum_for_random_inputs() {
    // The bucket method is checked against the naive sum over the tiny
    // group for many lengths, and over Jubjub for short inputs.
    let mut rng = ChaCha20Rng::seed_from_u64(1);
    for len in [0usize, 1, 2, 3, 5, 17, 64] {
        let scalars: Vec<u8> = (0..len).map(|_| (rng.next_u32() % 97) as u8).collect();
        let points: Vec<TinyScalar> = (0..len)
            .map(|_| TinyScalar((rng.next_u32() % 97) as u8))
            .collect();
        let bytes: Vec<[u8; 32]> = scalars
            .iter()
            .map(|s| {
                let mut b = [0u8; 32];
                b[0] = *s;
                b
            })
            .collect();
        let got = multi_scalar_mul::<TinyGroup>(&bytes, &points, 7);
        let mut want = TinyGroup::identity();
        for (s, p) in scalars.iter().zip(&points) {
            want = TinyGroup::add(&want, &TinyGroup::mul(p, &TinyScalar(*s)));
        }
        assert_eq!(got, want, "mismatch at len={len}");
    }
    for len in [0usize, 1] {
        let scalars: Vec<JubjubScalar> = (0..len).map(|_| random_scalar(&mut rng)).collect();
        let points: Vec<JubjubElement> = (0..len).map(|_| random_point(&mut rng)).collect();
        let bytes: Vec<[u8; 32]> = scalars.iter().map(|s| s.to_bytes()).collect();
        let got = multi_scalar_mul::<JubjubGoldenGroup>(&bytes, &points, JUBJUB_SCALAR_BITS);
        let want = naive_msm(&scalars, &points);
        assert_eq!(got, want, "mismatch at len={len}");
    }
}

#[test]
fn pippenger_empty_input_is_identity() {
    let out = multi_scalar_mul::<JubjubGoldenGroup>(&[], &[], JUBJUB_SCALAR_BITS);
    assert_eq!(out, JubjubGoldenGroup::identity());
}

#[test]
fn pippenger_reads_exactly_the_given_bit_length() {
    // Over the tiny group, 3 * 5 + 200 * 7 = 1415 = 14 * 97 + 57 when all
    // eight bits are read. With a bit length of 5 (or 4), 200 is read as its
    // low bits, 200 mod 32 = 200 mod 16 = 8: 3 * 5 + 8 * 7 = 71.
    let mut three = [0u8; 32];
    three[0] = 3;
    let mut two_hundred = [0u8; 32];
    two_hundred[0] = 200;
    let points = [TinyScalar(5), TinyScalar(7)];
    assert_eq!(
        multi_scalar_mul::<TinyGroup>(&[three, two_hundred], &points, 8),
        TinyScalar(57)
    );
    assert_eq!(
        multi_scalar_mul::<TinyGroup>(&[three, two_hundred], &points, 5),
        TinyScalar(71)
    );
    assert_eq!(
        multi_scalar_mul::<TinyGroup>(&[three, two_hundred], &points, 4),
        TinyScalar((3 * 5 + 8 * 7) as u8)
    );
}

#[test]
fn pippenger_ignores_bits_above_the_bit_length() {
    // The scalar 2 read for one bit is zero: the result is the identity.
    let mut two = [0u8; 32];
    two[0] = 2;
    let generator = JubjubGoldenGroup::generator();
    assert_eq!(
        multi_scalar_mul::<JubjubGoldenGroup>(&[two], &[generator], 1),
        JubjubGoldenGroup::identity()
    );
    assert_eq!(
        multi_scalar_mul::<TinyGroup>(&[two], &[TinyScalar(1)], 1),
        TinyScalar(0)
    );
    // Read for two bits it is 2.
    assert_eq!(
        multi_scalar_mul::<TinyGroup>(&[two], &[TinyScalar(1)], 2),
        TinyScalar(2)
    );
    // 0b1011_0110 read for 6 bits is 0b11_0110 = 54.
    let mut v = [0u8; 32];
    v[0] = 0b1011_0110;
    assert_eq!(
        multi_scalar_mul::<TinyGroup>(&[v], &[TinyScalar(1)], 6),
        TinyScalar(54)
    );
}

#[test]
fn jubjub_cycle_vartime_msm_matches_generator_mul_for_single_term() {
    let mut rng = ChaCha20Rng::seed_from_u64(4);
    let scalar = random_scalar(&mut rng);
    let point = JubjubGoldenGroup::generator();
    let msm = JubjubCycle::vartime_msm(&[scalar], &[point]);
    assert_eq!(msm, JubjubGoldenGroup::mul(&point, &scalar));
}

#[test]
fn vartime_msm_optional_skips_identities() {
    let mut rng = ChaCha20Rng::seed_from_u64(9);
    let scalars: Vec<JubjubScalar> = (0..2).map(|_| random_scalar(&mut rng)).collect();
    let p0 = random_point(&mut rng);
    let identity = JubjubGoldenGroup::identity();
    let got = JubjubCycle::vartime_msm_optional(&scalars, &[Some(identity), Some(p0)]);
    assert_eq!(got, Some(JubjubGoldenGroup::mul(&p0, &scalars[1])));
}

#[test]
fn vartime_msm_optional_rejects_missing_points() {
    let mut rng = ChaCha20Rng::seed_from_u64(10);
    let scalars: Vec<JubjubScalar> = (0..3).map(|_| random_scalar(&mut rng)).collect();
    let p0 = random_point(&mut rng);
    let identity = JubjubGoldenGroup::identity();
    assert_eq!(
        JubjubCycle::vartime_msm_optional(&scalars, &[Some(p0), None, Some(p0)]),
        None
    );
    assert_eq!(
        JubjubCycle::vartime_msm_optional(&scalars, &[Some(identity), Some(identity)]),
        Some(identity)
    );
    // Only the common length of the two slices counts: the missing third
    // point is never looked at.
    assert_eq!(
        JubjubCycle::vartime_msm_optional(&scalars[..2], &[Some(identity), Some(identity), None]),
        Some(identity)
    );
}
