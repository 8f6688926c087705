use golden_dkg::bls_cycle::{BlsG1Element, Bls12_381G1Cycle};
use golden_dkg::bls_scalar::BlsScalar;
use golden_dkg::group::GoldenScalar;
use golden_dkg::tile_sum::combine_tiles;

fn scalar(v: u64) -> BlsScalar {
    BlsScalar::from_u64(v).unwrap()
}

fn point(seed: u8) -> BlsG1Element {
    Bls12_381G1Cycle::point_hash_from_uniform(&[seed; 64]).unwrap()
}

#[test]
fn tile_results_recombine_with_window_shifts() {
    // Rows from the most significant window: 2^3 * (t0 + t1) + (t2 + t3).
    let tiles = vec![point(1), point(2), point(3), point(4)];
    let got = combine_tiles::<Bls12_381G1Cycle>(&tiles, 2, 2, 3);
    let want = Bls12_381G1Cycle::vartime_msm(&[scalar(8), scalar(8), scalar(1), scalar(1)], &tiles);
    assert_eq!(got, want);
}

#[test]
fn three_rows_shift_twice() {
    let tiles = vec![point(5), point(6), point(7)];
    let got = combine_tiles::<Bls12_381G1Cycle>(&tiles, 1, 3, 2);
    let want = Bls12_381G1Cycle::vartime_msm(&[scalar(16), scalar(4), scalar(1)], &tiles);
    assert_eq!(got, want);
}

#[test]
fn no_tiles_give_the_identity() {
    let got = combine_tiles::<Bls12_381G1Cycle>(&[], 0, 0, 4);
    assert!(got.is_identity());
}
