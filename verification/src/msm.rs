//! Integer scheduling helpers for bucket-method multi-scalar multiplication.
use vstd::prelude::*;

verus! {

/// Number of significant bits of `n` (zero for zero).
pub open spec fn bit_length(n: nat) -> nat
    decreases n,
{
    if n == 0 {
        0
    } else {
        1 + bit_length(n / 2)
    }
}

/// The bit length of a machine word is at most its width.
pub proof fn lemma_bit_length_bound(n: nat, k: nat)
    requires
        n < vstd::arithmetic::power2::pow2(k),
    ensures
        bit_length(n) <= k,
    decreases n,
{
    if n > 0 {
        if k == 0 {
            vstd::arithmetic::power2::lemma2_to64();
        } else {
            vstd::arithmetic::power2::lemma_pow2_unfold(k);
            lemma_bit_length_bound(n / 2, (k - 1) as nat);
        }
    }
}

/// Every number is below two to the power of its bit length.
pub proof fn lemma_bit_length_upper(n: nat)
    ensures
        n < vstd::arithmetic::power2::pow2(bit_length(n)),
    decreases n,
{
    if n == 0 {
        vstd::arithmetic::power2::lemma2_to64();
    } else {
        lemma_bit_length_upper(n / 2);
        vstd::arithmetic::power2::lemma_pow2_unfold(bit_length(n));
    }
}

/// Bit length is monotone.
pub proof fn lemma_bit_length_monotone(a: nat, b: nat)
    requires
        a <= b,
    ensures
        bit_length(a) <= bit_length(b),
    decreases b,
{
    if a > 0 {
        lemma_bit_length_monotone(a / 2, b / 2);
    }
}

/// Number of significant bits of `value`.
pub fn num_bits(value: usize) -> (bits: usize)
    ensures
        bits == bit_length(value as nat),
        bits <= 64,
{
    let mut bits: usize = 0;
    let mut rest: usize = value;
    proof {
        vstd::arithmetic::power2::lemma2_to64();
        lemma_bit_length_bound(value as nat, 64);
    }
    while rest > 0
        invariant
            bits + bit_length(rest as nat) == bit_length(value as nat),
            bit_length(value as nat) <= 64,
        decreases rest,
    {
        rest = rest / 2;
        bits = bits + 1;
    }
    bits
}

/// The Pippenger window width chosen for `npoints` points.
pub open spec fn window_size_spec(npoints: nat) -> nat {
    let bits = bit_length(npoints);
    if bits > 13 {
        (bits - 4) as nat
    } else if bits > 5 {
        (bits - 3) as nat
    } else {
        2
    }
}

/// The Pippenger window width chosen for `npoints` points.
pub fn pippenger_window_size(npoints: usize) -> (window: usize)
    ensures
        window == window_size_spec(npoints as nat),
        2 <= window <= 60,
{
    let bits = num_bits(npoints);
    if bits > 13 {
        bits - 4
    } else if bits > 5 {
        bits - 3
    } else {
        2
    }
}

/// `ceil(a / b)`.
pub open spec fn div_ceil(a: nat, b: nat) -> nat {
    if a % b == 0 {
        a / b
    } else {
        a / b + 1
    }
}

/// The split-window loop of the multi-core schedule: widen the split until
/// enough work items exist for `ncpus` cores or the window reaches one bit.
pub open spec fn split_loop(nbits: nat, window: nat, ncpus: nat, nx: nat, wnd: nat) -> (nat, nat)
    decreases ncpus + 1 - nx,
{
    if wnd > 1 && (nbits / wnd + 1) * nx < ncpus && nx <= ncpus {
        let next = nx + 1;
        split_loop(nbits, window, ncpus, next, (window - bit_length(3 * next / 2)) as nat)
    } else {
        (nx, wnd)
    }
}

/// The `(nx, ny, window)` work breakdown of the multi-core schedule.
pub open spec fn breakdown_spec(nbits: nat, window: nat, ncpus: nat) -> (nat, nat, nat) {
    let (nx, wnd) = if nbits > window * ncpus {
        let quarter_bits = bit_length(ncpus / 4);
        if window + quarter_bits > 18 {
            (1nat, (window - quarter_bits) as nat)
        } else {
            let wide = div_ceil(nbits / window, ncpus);
            (1nat, if div_ceil(nbits / (window + 1), ncpus) < wide {
                window + 1
            } else {
                window
            })
        }
    } else if window > 3 {
        let (nx, _) = split_loop(nbits, window, ncpus, 2, (window - 2) as nat);
        let nx = (nx - 1) as nat;
        (nx, (window - bit_length(3 * nx / 2)) as nat)
    } else {
        (1nat, window)
    };
    let ny = nbits / wnd + 1;
    (nx, ny, nbits / ny + 1)
}

/// `value - bit_length(3 * nx / 2)` stays positive along the split loop.
proof fn lemma_split_step(window: nat, nx: nat)
    requires
        nx >= 2,
    ensures
        bit_length(3 * (nx + 1) / 2) <= bit_length(3 * nx / 2) + 1,
        bit_length((3 * (nx - 1) / 2) as nat) <= bit_length(3 * nx / 2),
{
    assert(3 * (nx + 1) / 2 <= 2 * (3 * nx / 2) + 1);
    lemma_bit_length_monotone(3 * (nx + 1) / 2, 2 * (3 * nx / 2) + 1);
    assert((2 * (3 * nx / 2) + 1) / 2 == 3 * nx / 2);
    lemma_bit_length_monotone((3 * (nx - 1) / 2) as nat, 3 * nx / 2);
}

/// The multi-core `(nx, ny, window)` breakdown used by the bucket-method
/// scheduler for `nbits`-bit scalars, a `window`-bit Pippenger window and
/// `ncpus` cores.
pub fn pippenger_breakdown(nbits: usize, window: usize, ncpus: usize) -> (result: (
    usize,
    usize,
    usize,
))
    requires
        window >= 1,
        ncpus >= 1,
        window * ncpus <= usize::MAX,
        (nbits + 1) * (ncpus + 1) <= usize::MAX,
        3 * (ncpus + 1) <= usize::MAX,
        nbits > window * ncpus ==> window + bit_length(ncpus as nat / 4) + 1 <= usize::MAX,
        nbits > window * ncpus && window + bit_length(ncpus as nat / 4) > 18 ==> bit_length(
            ncpus as nat / 4,
        ) < window,
    ensures
        (result.0 as nat, result.1 as nat, result.2 as nat) == breakdown_spec(
            nbits as nat,
            window as nat,
            ncpus as nat,
        ),
        result.1 >= 1,
        result.2 >= 1,
{
    let mut nx: usize = 1;
    let mut wnd: usize = window;
    proof {
        assert(nbits + 1 <= usize::MAX) by (nonlinear_arith)
            requires
                (nbits + 1) * (ncpus + 1) <= usize::MAX,
        ;
    }

    if nbits > window * ncpus {
        wnd = num_bits(ncpus / 4);
        if window + wnd > 18 {
            wnd = window - wnd;
        } else {
            let whole = nbits / window;
            wnd = whole / ncpus + if whole % ncpus == 0 {
                0
            } else {
                1
            };
            let part = nbits / (window + 1);
            let narrow = part / ncpus + if part % ncpus == 0 {
                0
            } else {
                1
            };
            wnd = if narrow < wnd {
                window + 1
            } else {
                window
            };
        }
    } else if window > 3 {
        nx = 2;
        wnd = window - 2;
        proof {
            assert(bit_length(3) == 2) by {
                reveal_with_fuel(bit_length, 3);
            }
        }
        while wnd > 1
            invariant_except_break
                window > 3,
                2 <= nx <= ncpus + 1,
                1 <= wnd <= window,
                wnd as nat == (window - bit_length(3 * nx as nat / 2)) as nat,
                bit_length(3 * nx as nat / 2) < window,
                nbits + 1 <= usize::MAX,
                3 * (ncpus + 1) <= usize::MAX,
                (nbits + 1) * (ncpus + 1) <= usize::MAX,
                split_loop(nbits as nat, window as nat, ncpus as nat, nx as nat, wnd as nat)
                    == split_loop(nbits as nat, window as nat, ncpus as nat, 2, (window - 2) as nat),
            ensures
                2 <= nx <= ncpus + 1,
                1 <= wnd <= window,
                wnd as nat == (window - bit_length(3 * nx as nat / 2)) as nat,
                bit_length(3 * nx as nat / 2) < window,
                split_loop(nbits as nat, window as nat, ncpus as nat, nx as nat, wnd as nat) == (
                nx as nat, wnd as nat),
                split_loop(nbits as nat, window as nat, ncpus as nat, nx as nat, wnd as nat)
                    == split_loop(nbits as nat, window as nat, ncpus as nat, 2, (window - 2) as nat),
            decreases ncpus + 1 - nx,
        {
            let per_core = nbits / wnd + 1;
            proof {
                assert(per_core <= nbits + 1) by (nonlinear_arith)
                    requires
                        wnd >= 1,
                        per_core == nbits / wnd + 1,
                ;
                assert(per_core * nx <= (nbits + 1) * (ncpus + 1)) by (nonlinear_arith)
                    requires
                        per_core <= nbits + 1,
                        nx <= ncpus + 1,
                ;
            }
            if per_core * nx >= ncpus {
                break;
            }
            proof {
                assert(nx <= ncpus) by (nonlinear_arith)
                    requires
                        per_core * nx < ncpus,
                        per_core >= 1,
                ;
                lemma_split_step(window as nat, nx as nat);
            }
            nx = nx + 1;
            wnd = window - num_bits(3 * nx / 2);
        }
        proof {
            lemma_split_step(window as nat, nx as nat);
        }
        nx = nx - 1;
        wnd = window - num_bits(3 * nx / 2);
    }
    proof {
        assert(wnd >= 1);
    }
    let ny = nbits / wnd + 1;
    wnd = nbits / ny + 1;

    (nx, ny, wnd)
}

/// Bit `pos` of the little-endian integer `bytes` (zero past the end).
pub open spec fn bit_at(bytes: Seq<u8>, pos: nat) -> nat {
    if pos / 8 < bytes.len() {
        ((bytes[(pos / 8) as int] >> ((pos % 8) as u8)) & 1u8) as nat
    } else {
        0
    }
}

/// The number made of the `count` bits of `bytes` starting at bit
/// `offset`, least significant first.
pub open spec fn bits_value(bytes: Seq<u8>, offset: nat, count: nat) -> nat
    decreases count,
{
    if count == 0 {
        0
    } else {
        bits_value(bytes, offset, (count - 1) as nat) + bit_at(bytes, (offset + count - 1) as nat)
            * vstd::arithmetic::power2::pow2((count - 1) as nat)
    }
}

proof fn lemma_or_high_bit(digit: u64, bit: u64, i: u64)
    requires
        i < 64,
        bit <= 1,
        digit < (1u64 << i),
    ensures
        digit | (bit << i) == digit + bit * (1u64 << i),
        digit | (bit << i) < (1u64 << i) * 2,
{
    assert(digit | (bit << i) == digit + bit * (1u64 << i) && digit | (bit << i) < (1u64 << i)
        * 2) by (bit_vector)
        requires
            i < 64,
            bit <= 1,
            digit < (1u64 << i),
    ;
}

/// Extract the `window_bits`-bit digit at `window_idx` from a little-endian
/// byte array (digit 0 is the least-significant window).
pub fn window_digit(bytes: &[u8; 32], window_idx: u32, window_bits: u32) -> (digit: usize)
    requires
        window_bits <= usize::BITS,
        window_idx * window_bits + window_bits <= u32::MAX + 1,
    ensures
        digit == bits_value(bytes@, (window_idx * window_bits) as nat, window_bits as nat),
{
    let bit_offset = window_idx * window_bits;
    let mut digit: u64 = 0;
    let mut i: u32 = 0;
    proof {
        vstd::arithmetic::power2::lemma2_to64();
    }
    while i < window_bits
        invariant
            i <= window_bits <= usize::BITS,
            usize::BITS == 32 || usize::BITS == 64,
            bit_offset == window_idx * window_bits,
            bit_offset + window_bits <= u32::MAX + 1,
            digit == bits_value(bytes@, bit_offset as nat, i as nat),
            digit < vstd::arithmetic::power2::pow2(i as nat),
        decreases window_bits - i,
    {
        let bit_pos = (bit_offset + i) as usize;
        let byte_idx = bit_pos / 8;
        let bit: u8 = if byte_idx < 32 {
            (bytes[byte_idx] >> ((bit_pos % 8) as u8)) & 1u8
        } else {
            0
        };
        proof {
            assert(bit <= 1) by (bit_vector)
                requires
                    bit == 0 || exists|b: u8, s: u8| bit == (b >> s) & 1u8,
            ;
            vstd::bits::lemma_u64_pow2_no_overflow(i as nat);
            vstd::bits::lemma_u64_shl_is_mul(1u64, i as u64);
            vstd::arithmetic::power2::lemma_pow2_pos(i as nat);
            vstd::arithmetic::power2::lemma_pow2_unfold((i + 1) as nat);
            lemma_or_high_bit(digit, bit as u64, i as u64);
        }
        digit = digit | ((bit as u64) << (i as u64));
        i = i + 1;
    }
    proof {
        vstd::arithmetic::power2::lemma2_to64();
        if window_bits < usize::BITS {
            vstd::arithmetic::power2::lemma_pow2_strictly_increases(
                window_bits as nat,
                usize::BITS as nat,
            );
        }
    }
    digit as usize
}


/// One work item of the multi-core schedule: the points `x .. x + dx`,
/// read in the window that starts at scalar bit `bit`.
#[derive(Clone, Copy, Debug, PartialEq, Eq)]
pub struct PippengerTile {
    /// First point of the tile.
    pub x: usize,
    /// Number of points in the tile.
    pub dx: usize,
    /// Lowest scalar bit of the tile's window.
    pub bit: usize,
}

/// The tile in row `row` and column `column` of an `nx` by `ny` schedule of
/// `npoints` points: columns split the points into `nx` chunks of
/// `npoints / nx`, the last taking the remainder, and rows run over the
/// windows from the most significant one down.
pub open spec fn tile_spec(
    npoints: nat,
    nx: nat,
    ny: nat,
    window: nat,
    row: nat,
    column: nat,
) -> (nat, nat, nat) {
    let chunk = npoints / nx;
    let x = column * chunk;
    (
        x,
        if column + 1 == nx {
            (npoints - x) as nat
        } else {
            chunk
        },
        window * (ny - row - 1) as nat,
    )
}

/// The work items of the multi-core schedule, row by row.
pub fn pippenger_tiles(npoints: usize, nx: usize, ny: usize, window: usize) -> (tiles: Vec<
    PippengerTile,
>)
    requires
        nx >= 1,
        ny >= 1,
        nx * ny <= usize::MAX,
        window * ny <= usize::MAX,
    ensures
        tiles@.len() == nx * ny,
        forall|row: int, column: int|
            0 <= row < ny && 0 <= column < nx ==> {
                let t = #[trigger] tiles@[row * nx + column];
                (t.x as nat, t.dx as nat, t.bit as nat) == tile_spec(
                    npoints as nat,
                    nx as nat,
                    ny as nat,
                    window as nat,
                    row as nat,
                    column as nat,
                )
            },
{
    let mut tiles: Vec<PippengerTile> = Vec::new();
    let chunk = npoints / nx;
    proof {
        lemma_chunks_fit(npoints as nat, nx as nat);
    }
    let mut row: usize = 0;
    while row < ny
        invariant
            row <= ny,
            nx >= 1,
            nx * ny <= usize::MAX,
            window * ny <= usize::MAX,
            chunk == npoints / nx,
            nx * chunk <= npoints,
            tiles@.len() == row * nx,
            forall|r: int, c: int|
                0 <= r < row && 0 <= c < nx ==> {
                    let t = #[trigger] tiles@[r * nx + c];
                    (t.x as nat, t.dx as nat, t.bit as nat) == tile_spec(
                        npoints as nat,
                        nx as nat,
                        ny as nat,
                        window as nat,
                        r as nat,
                        c as nat,
                    )
                },
        decreases ny - row,
    {
        proof {
            assert(window * (ny - row - 1) <= window * ny) by (nonlinear_arith)
                requires
                    row < ny,
            ;
            assert((row + 1) * nx <= nx * ny) by (nonlinear_arith)
                requires
                    row < ny,
            ;
        }
        let bit = window * (ny - row - 1);
        let mut column: usize = 0;
        while column < nx
            invariant
                row < ny,
                column <= nx,
                nx >= 1,
                nx * ny <= usize::MAX,
                (row + 1) * nx <= nx * ny,
                chunk == npoints / nx,
                nx * chunk <= npoints,
                bit == window * (ny - row - 1),
                tiles@.len() == row * nx + column,
                forall|r: int, c: int|
                    0 <= r < row && 0 <= c < nx ==> {
                        let t = #[trigger] tiles@[r * nx + c];
                        (t.x as nat, t.dx as nat, t.bit as nat) == tile_spec(
                            npoints as nat,
                            nx as nat,
                            ny as nat,
                            window as nat,
                            r as nat,
                            c as nat,
                        )
                    },
                forall|c: int|
                    0 <= c < column ==> {
                        let t = #[trigger] tiles@[row * nx + c];
                        (t.x as nat, t.dx as nat, t.bit as nat) == tile_spec(
                            npoints as nat,
                            nx as nat,
                            ny as nat,
                            window as nat,
                            row as nat,
                            c as nat,
                        )
                    },
            decreases nx - column,
        {
            proof {
                assert(column * chunk <= nx * chunk) by (nonlinear_arith)
                    requires
                        column < nx,
                ;
            }
            let x = column * chunk;
            let dx = if column + 1 == nx {
                npoints - x
            } else {
                chunk
            };
            let ghost before = tiles@;
            tiles.push(PippengerTile { x, dx, bit });
            proof {
                assert forall|r: int, c: int| 0 <= r < row && 0 <= c < nx implies {
                    let t = #[trigger] tiles@[r * nx + c];
                    (t.x as nat, t.dx as nat, t.bit as nat) == tile_spec(
                        npoints as nat,
                        nx as nat,
                        ny as nat,
                        window as nat,
                        r as nat,
                        c as nat,
                    )
                } by {
                    assert(r * nx + c < row * nx) by (nonlinear_arith)
                        requires
                            r < row,
                            c < nx,
                    ;
                    assert(tiles@[r * nx + c] == before[r * nx + c]);
                }
                assert forall|c: int| 0 <= c < column + 1 implies {
                    let t = #[trigger] tiles@[row * nx + c];
                    (t.x as nat, t.dx as nat, t.bit as nat) == tile_spec(
                        npoints as nat,
                        nx as nat,
                        ny as nat,
                        window as nat,
                        row as nat,
                        c as nat,
                    )
                } by {
                    if c < column {
                        assert(tiles@[row * nx + c] == before[row * nx + c]);
                    }
                }
            }
            column = column + 1;
        }
        proof {
            assert forall|r: int, c: int| 0 <= r < row + 1 && 0 <= c < nx implies {
                let t = #[trigger] tiles@[r * nx + c];
                (t.x as nat, t.dx as nat, t.bit as nat) == tile_spec(
                    npoints as nat,
                    nx as nat,
                    ny as nat,
                    window as nat,
                    r as nat,
                    c as nat,
                )
            } by {
                if r == row {
                    assert(tiles@[row * nx + c] == tiles@[r * nx + c]);
                }
            }
            assert(row * nx + nx == (row + 1) * nx) by (nonlinear_arith);
        }
        row = row + 1;
    }
    assert(ny * nx == nx * ny) by (nonlinear_arith);
    tiles
}

/// `nx` chunks of `npoints / nx` points fit in the points.
proof fn lemma_chunks_fit(npoints: nat, nx: nat)
    requires
        nx >= 1,
    ensures
        nx * (npoints / nx) <= npoints,
{
    vstd::arithmetic::div_mod::lemma_fundamental_div_mod(npoints as int, nx as int);
}

/// The tiles of one row cover the points exactly: the first starts at the
/// first point, each starts where the one before it ends, and the last ends
/// at the last point.
pub proof fn lemma_tile_row_covers_points(npoints: nat, nx: nat, ny: nat, window: nat, row: nat)
    requires
        nx >= 1,
    ensures
        tile_spec(npoints, nx, ny, window, row, 0).0 == 0,
        forall|c: nat|
            c + 1 < nx ==> #[trigger] tile_spec(npoints, nx, ny, window, row, c).0 + tile_spec(
                npoints,
                nx,
                ny,
                window,
                row,
                c,
            ).1 == tile_spec(npoints, nx, ny, window, row, c + 1).0,
        tile_spec(npoints, nx, ny, window, row, (nx - 1) as nat).0 + tile_spec(
            npoints,
            nx,
            ny,
            window,
            row,
            (nx - 1) as nat,
        ).1 == npoints,
{
    let chunk = npoints / nx;
    lemma_chunks_fit(npoints, nx);
    assert forall|c: nat| c + 1 < nx implies #[trigger] tile_spec(
        npoints,
        nx,
        ny,
        window,
        row,
        c,
    ).0 + tile_spec(npoints, nx, ny, window, row, c).1 == tile_spec(
        npoints,
        nx,
        ny,
        window,
        row,
        c + 1,
    ).0 by {
        assert(c * chunk + chunk == (c + 1) * chunk) by (nonlinear_arith);
    }
    assert(((nx - 1) as nat) * chunk <= nx * chunk) by (nonlinear_arith)
        requires
            nx >= 1,
    ;
}

} // verus!
