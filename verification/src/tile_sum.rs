//! Recombination of the tile results of the multi-core MSM schedule.
use vstd::arithmetic::power2::pow2;
use vstd::prelude::*;

use crate::group::GoldenScalar;
use crate::ipp_prove::CycleGroup;
use crate::proof_cycle::Cycle;
use crate::r1cs_verify::{order, point_add};

verus! {

/// `sum_{c < k} dlogs[row * nx + c]`.
pub open spec fn row_sum(dlogs: Seq<int>, nx: nat, row: nat, k: nat) -> int
    decreases k,
{
    if k == 0 {
        0
    } else {
        row_sum(dlogs, nx, row, (k - 1) as nat) + dlogs[row * nx + k - 1]
    }
}

/// The value of the first `rows` rows of tile results: each row shifts the
/// rows before it up by `window` bits and adds its own tiles.
pub open spec fn tiles_value(dlogs: Seq<int>, nx: nat, window: nat, rows: nat) -> int
    decreases rows,
{
    if rows == 0 {
        0
    } else {
        pow2(window) * tiles_value(dlogs, nx, window, (rows - 1) as nat) + row_sum(
            dlogs,
            nx,
            (rows - 1) as nat,
            nx,
        )
    }
}

/// Add a point to a value tracked modulo the group order.
fn add_to<C: CycleGroup>(acc: &C::Point, p: &C::Point, Ghost(x): Ghost<int>) -> (sum: C::Point)
    requires
        C::point_wf(*acc),
        C::point_wf(*p),
        order::<C>() > 0,
        C::point_dlog(*acc) == x % order::<C>(),
    ensures
        C::point_wf(sum),
        C::point_dlog(sum) == (x + C::point_dlog(*p)) % order::<C>(),
{
    proof {
        vstd::arithmetic::div_mod::lemma_add_mod_noop(x, C::point_dlog(*p) as int, order::<C>());
        C::lemma_point(*p);
        vstd::arithmetic::div_mod::lemma_small_mod(C::point_dlog(*p), order::<C>() as nat);
    }
    point_add::<C>(acc, p)
}

/// Recombine the results of an `nx` by `ny` tile schedule, row by row from
/// the most significant window: before each row after the first, the sum so
/// far is doubled `window` times; then the row's tiles are added.
pub fn combine_tiles<C: CycleGroup>(tiles: &[C::Point], nx: usize, ny: usize, window: usize) -> (sum:
    C::Point)
    requires
        tiles@.len() == nx * ny,
        forall|i: int| 0 <= i < tiles@.len() ==> C::point_wf(#[trigger] tiles@[i]),
    ensures
        C::point_wf(sum),
        C::point_dlog(sum) == tiles_value(
            tiles@.map_values(|p: C::Point| C::point_dlog(p) as int),
            nx as nat,
            window as nat,
            ny as nat,
        ) % order::<C>(),
{
    let ghost dl = tiles@.map_values(|p: C::Point| C::point_dlog(p) as int);
    let no_scalars: Vec<C::Scalar> = Vec::new();
    let no_points: Vec<C::Point> = Vec::new();
    let mut result = C::vartime_msm(no_scalars.as_slice(), no_points.as_slice());
    let ghost mut val: int = 0;
    let total = tiles.len();
    let one = <C::Scalar as GoldenScalar>::one();
    proof {
        <C::Scalar as GoldenScalar>::lemma_field_order();
        C::lemma_scalar_field(one);
        C::lemma_point(result);
        vstd::arithmetic::div_mod::lemma_small_mod(0, order::<C>() as nat);
        vstd::arithmetic::power2::lemma2_to64();
    }
    let mut row: usize = 0;
    while row < ny
        invariant
            row <= ny,
            tiles@.len() == nx * ny,
            total == nx * ny,
            dl == tiles@.map_values(|p: C::Point| C::point_dlog(p) as int),
            forall|i: int| 0 <= i < tiles@.len() ==> C::point_wf(#[trigger] tiles@[i]),
            order::<C>() > 1,
            C::point_wf(result),
            val == tiles_value(dl, nx as nat, window as nat, row as nat),
            C::point_dlog(result) == val % order::<C>(),
        decreases ny - row,
    {
        let ghost before = val;
        proof {
            vstd::arithmetic::power2::lemma2_to64();
            assert(pow2(0) * before == before);
        }
        if row != 0 {
            let mut b: usize = 0;
            while b < window
                invariant
                    b <= window,
                    order::<C>() > 1,
                    C::point_wf(result),
                    val == pow2(b as nat) * before,
                    C::point_dlog(result) == val % order::<C>(),
                decreases window - b,
            {
                let doubled = add_to::<C>(&result, &result, Ghost(val));
                proof {
                    vstd::arithmetic::div_mod::lemma_add_mod_noop(val, val, order::<C>());
                    vstd::arithmetic::div_mod::lemma_mod_twice(val, order::<C>());
                    vstd::arithmetic::div_mod::lemma_add_mod_noop(val, C::point_dlog(result) as int, order::<C>());
                    vstd::arithmetic::power2::lemma_pow2_unfold((b + 1) as nat);
                    assert(val + val == pow2((b + 1) as nat) * before) by (nonlinear_arith)
                        requires
                            val == pow2(b as nat) * before,
                            pow2((b + 1) as nat) == 2 * pow2(b as nat),
                    ;
                    val = val + val;
                }
                result = doubled;
                b = b + 1;
            }
        } else {
            proof {
                assert(before == 0);
                assert(pow2(window as nat) * 0 == 0) by (nonlinear_arith);
                val = pow2(window as nat) * before;
            }
        }
        proof {
            assert(row * nx + nx <= nx * ny) by (nonlinear_arith)
                requires
                    row < ny,
            ;
        }
        let mut col: usize = 0;
        while col < nx
            invariant
                col <= nx,
                row < ny,
                row * nx + nx <= nx * ny,
                tiles@.len() == nx * ny,
                total == nx * ny,
                dl == tiles@.map_values(|p: C::Point| C::point_dlog(p) as int),
                forall|i: int| 0 <= i < tiles@.len() ==> C::point_wf(#[trigger] tiles@[i]),
                order::<C>() > 1,
                C::point_wf(result),
                val == pow2(window as nat) * before + row_sum(dl, nx as nat, row as nat, col as nat),
                C::point_dlog(result) == val % order::<C>(),
            decreases nx - col,
        {
            proof {
                assert(row * nx + col < nx * ny) by (nonlinear_arith)
                    requires
                        col < nx,
                        row * nx + nx <= nx * ny,
                ;
            }
            let idx = row * nx + col;
            let next = add_to::<C>(&result, &tiles[idx], Ghost(val));
            proof {
                assert(dl[idx as int] == C::point_dlog(tiles@[idx as int]));
                val = val + C::point_dlog(tiles@[idx as int]);
            }
            result = next;
            col = col + 1;
        }
        row = row + 1;
    }
    result
}

} // verus!
