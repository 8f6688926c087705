//! Bucket-method (Pippenger) multi-scalar multiplication over any Golden
//! group, using only group addition: the scalars are read as little-endian
//! integers in windows of four bits.
use vstd::arithmetic::div_mod::{lemma_add_mod_noop, lemma_mul_mod_noop_general, lemma_small_mod};
use vstd::arithmetic::power2::{
    lemma2_to64, lemma_pow2_adds, lemma_pow2_pos, lemma_pow2_strictly_increases, pow2,
};
use vstd::prelude::*;

use crate::group::{GoldenGroup, GoldenScalar};
use crate::bytes::le_value;
use crate::msm::{bit_at, bits_value, window_digit};

verus! {

/// Window size in bits.
pub const WINDOW_BITS: u32 = 4;

/// A bit of a byte string is zero or one.
pub proof fn lemma_bit_at_bound(bytes: Seq<u8>, pos: nat)
    ensures
        bit_at(bytes, pos) <= 1,
{
    if pos / 8 < bytes.len() {
        let b = bytes[(pos / 8) as int];
        let s = (pos % 8) as u8;
        assert((b >> s) & 1u8 <= 1u8) by (bit_vector);
    }
}

/// `count` bits make a number below `2^count`.
pub proof fn lemma_bits_value_bound(bytes: Seq<u8>, offset: nat, count: nat)
    ensures
        bits_value(bytes, offset, count) < pow2(count),
    decreases count,
{
    if count == 0 {
        lemma2_to64();
    } else {
        let c = (count - 1) as nat;
        lemma_bits_value_bound(bytes, offset, c);
        lemma_bit_at_bound(bytes, offset + c);
        lemma_pow2_adds(c, 1);
        lemma2_to64();
        let b = bit_at(bytes, offset + c);
        let v = bits_value(bytes, offset, c);
        assert(v + b * pow2(c) < pow2(c) * 2) by (nonlinear_arith)
            requires
                v < pow2(c),
                b <= 1,
        ;
    }
}

/// The bits of `c1 + c2` positions split into the low `c1` and the high
/// `c2`: `value(off, c1 + c2) == value(off, c1) + 2^c1 * value(off + c1, c2)`.
pub proof fn lemma_bits_value_split(bytes: Seq<u8>, offset: nat, c1: nat, c2: nat)
    ensures
        bits_value(bytes, offset, c1 + c2) == bits_value(bytes, offset, c1) + pow2(c1)
            * bits_value(bytes, offset + c1, c2),
    decreases c2,
{
    if c2 > 0 {
        let k = (c2 - 1) as nat;
        lemma_bits_value_split(bytes, offset, c1, k);
        lemma_pow2_adds(c1, k);
        let top = bit_at(bytes, (offset + c1 + k) as nat);
        assert((c1 + c2 - 1) as nat == c1 + k);
        assert((offset + (c1 + c2) - 1) as nat == (offset + c1 + k) as nat);
        assert(((offset + c1) + c2 - 1) as nat == (offset + c1 + k) as nat);
        let lo = bits_value(bytes, offset, c1);
        let hi = bits_value(bytes, offset + c1, k);
        assert(pow2(c1) * (hi + top * pow2(k)) == pow2(c1) * hi + top * (pow2(c1) * pow2(k)))
            by (nonlinear_arith);
        assert(bits_value(bytes, offset, c1 + c2) == bits_value(bytes, offset, c1 + k) + top
            * pow2(c1 + k));
        assert(bits_value(bytes, offset + c1, c2) == hi + top * pow2(k));
    } else {
        assert(bits_value(bytes, offset + c1, 0) == 0);
        assert(pow2(c1) * 0 == 0) by (nonlinear_arith);
        assert(c1 + c2 == c1);
    }
}

/// `sum_{j < k} bits_value(bytes[j], offset, count) * dlog(points[j])`.
pub open spec fn msm_sum<G: GoldenGroup>(
    bytes: Seq<[u8; 32]>,
    points: Seq<G::Element>,
    offset: nat,
    count: nat,
    k: nat,
) -> int
    decreases k,
{
    if k == 0 {
        0
    } else {
        msm_sum::<G>(bytes, points, offset, count, (k - 1) as nat) + bits_value(
            bytes[k - 1]@,
            offset,
            count,
        ) * G::dlog(points[k - 1])
    }
}

/// Sum of the logarithms of the points whose digit at `offset` is `d`.
pub open spec fn bucket_sum<G: GoldenGroup>(
    bytes: Seq<[u8; 32]>,
    points: Seq<G::Element>,
    offset: nat,
    width: nat,
    d: nat,
    k: nat,
) -> int
    decreases k,
{
    if k == 0 {
        0
    } else {
        bucket_sum::<G>(bytes, points, offset, width, d, (k - 1) as nat) + if bits_value(
            bytes[k - 1]@,
            offset,
            width,
        ) == d {
            G::dlog(points[k - 1]) as int
        } else {
            0
        }
    }
}

/// `sum_{d = e}^{15} d * bucket(d)`.
pub open spec fn digit_weighted_buckets<G: GoldenGroup>(
    bytes: Seq<[u8; 32]>,
    points: Seq<G::Element>,
    offset: nat,
    width: nat,
    e: nat,
    k: nat,
) -> int
    decreases 16 - e,
{
    if e >= 16 {
        0
    } else {
        e * bucket_sum::<G>(bytes, points, offset, width, e, k) + digit_weighted_buckets::<G>(bytes, points, offset, width,
            e + 1,
            k,
        )
    }
}

/// Adding point `k - 1` adds `d * dlog` to the weighted buckets from `e`
/// up, where `d` is its digit, if `d >= e`.
proof fn lemma_weighted_buckets_step<G: GoldenGroup>(
    bytes: Seq<[u8; 32]>,
    points: Seq<G::Element>,
    offset: nat,
    width: nat,
    e: nat,
    k: nat,
)
    requires
        k >= 1,
    ensures
        ({
            let d = bits_value(bytes[k - 1]@, offset, width);
            digit_weighted_buckets::<G>(bytes, points, offset, width, e, k) == digit_weighted_buckets::<G>(bytes, points, offset, width,
                e,
                (k - 1) as nat,
            ) + if e <= d < 16 {
                d * G::dlog(points[k - 1])
            } else {
                0
            }
        }),
    decreases 16 - e,
{
    if e < 16 {
        lemma_weighted_buckets_step::<G>(bytes, points, offset, width, e + 1, k);
        let d = bits_value(bytes[k - 1]@, offset, width);
        let p = G::dlog(points[k - 1]) as int;
        let b = bucket_sum::<G>(bytes, points, offset, width, e, (k - 1) as nat);
        if d == e {
            assert(e * (b + p) == e * b + d * p) by (nonlinear_arith)
                requires
                    d == e,
            ;
        } else {
            assert(e * (b + 0) == e * b) by (nonlinear_arith);
        }
    }
}

/// The buckets weighted by their digits sum the points weighted by their
/// digits: `sum_{d=1}^{15} d * bucket(d) == sum_j digit_j * dlog(P_j)`.
pub proof fn lemma_buckets_regroup<G: GoldenGroup>(
    bytes: Seq<[u8; 32]>,
    points: Seq<G::Element>,
    offset: nat,
    width: nat,
    k: nat,
)
    requires
        width <= 4,
    ensures
        digit_weighted_buckets::<G>(bytes, points, offset, width, 1, k) == msm_sum::<G>(
            bytes,
            points,
            offset,
            width,
            k,
        ),
    decreases k,
{
    if k == 0 {
        lemma_weighted_buckets_zero::<G>(bytes, points, offset, width, 1);
        assert(digit_weighted_buckets::<G>(bytes, points, offset, width, 1, 0) == 0);
    } else {
        lemma_buckets_regroup::<G>(bytes, points, offset, width, (k - 1) as nat);
        lemma_weighted_buckets_step::<G>(bytes, points, offset, width, 1, k);
        let d = bits_value(bytes[k - 1]@, offset, width);
        lemma_bits_value_bound(bytes[k - 1]@, offset, width);
        lemma2_to64();
        if width < 4 {
            lemma_pow2_strictly_increases(width, 4);
        }
        if d == 0 {
            assert(d * G::dlog(points[k - 1]) == 0);
        }
    }
}

/// Without points every weighted bucket sum is zero.
proof fn lemma_weighted_buckets_zero<G: GoldenGroup>(
    bytes: Seq<[u8; 32]>,
    points: Seq<G::Element>,
    offset: nat,
    width: nat,
    e: nat,
)
    ensures
        digit_weighted_buckets::<G>(bytes, points, offset, width, e, 0) == 0,
    decreases 16 - e,
{
    if e < 16 {
        lemma_weighted_buckets_zero::<G>(bytes, points, offset, width, e + 1);
        assert(e * bucket_sum::<G>(bytes, points, offset, width, e, 0) == 0);
    }
}

/// The sum over the points is linear in the digit values: reading `width`
/// more low bits adds the new digit to `2^width` times the old value.
pub proof fn lemma_msm_sum_shift<G: GoldenGroup>(
    bytes: Seq<[u8; 32]>,
    points: Seq<G::Element>,
    offset: nat,
    width: nat,
    count: nat,
    k: nat,
)
    ensures
        msm_sum::<G>(bytes, points, offset, width + count, k) == msm_sum::<G>(
            bytes,
            points,
            offset,
            width,
            k,
        ) + pow2(width) * msm_sum::<G>(bytes, points, offset + width, count, k),
    decreases k,
{
    if k > 0 {
        lemma_msm_sum_shift::<G>(bytes, points, offset, width, count, (k - 1) as nat);
        lemma_bits_value_split(bytes[k - 1]@, offset, width, count);
        let lo = bits_value(bytes[k - 1]@, offset, width);
        let hi = bits_value(bytes[k - 1]@, offset + width, count);
        let p = G::dlog(points[k - 1]) as int;
        let f = pow2(width) as int;
        let a = msm_sum::<G>(bytes, points, offset + width, count, (k - 1) as nat);
        assert((lo + f * hi) * p == lo * p + f * (hi * p)) by (nonlinear_arith);
        assert(f * (a + hi * p) == f * a + f * (hi * p)) by (nonlinear_arith);
    } else {
        assert(pow2(width) * 0 == 0) by (nonlinear_arith);
    }
}


/// `sum_{d = e}^{15} bucket(d)`.
pub open spec fn bucket_suffix<G: GoldenGroup>(
    bytes: Seq<[u8; 32]>,
    points: Seq<G::Element>,
    offset: nat,
    width: nat,
    e: nat,
    k: nat,
) -> int
    decreases 16 - e,
{
    if e >= 16 {
        0
    } else {
        bucket_sum::<G>(bytes, points, offset, width, e, k) + bucket_suffix::<G>(bytes, points, offset, width,
            e + 1,
            k,
        )
    }
}

/// The running-sum accumulation from bucket 15 down to bucket `e`: each
/// step adds the running suffix sum.
pub open spec fn running_window<G: GoldenGroup>(
    bytes: Seq<[u8; 32]>,
    points: Seq<G::Element>,
    offset: nat,
    width: nat,
    e: nat,
    k: nat,
) -> int
    decreases 16 - e,
{
    if e >= 16 {
        0
    } else {
        running_window::<G>(bytes, points, offset, width, e + 1, k) + bucket_suffix::<G>(bytes, points, offset, width,
            e,
            k,
        )
    }
}

/// The running-sum trick: accumulating suffix sums from bucket 15 down to
/// bucket `e` weighs bucket `d` by `d - e + 1`.
proof fn lemma_running_window<G: GoldenGroup>(
    bytes: Seq<[u8; 32]>,
    points: Seq<G::Element>,
    offset: nat,
    width: nat,
    e: nat,
    k: nat,
)
    requires
        1 <= e <= 16,
    ensures
        running_window::<G>(bytes, points, offset, width, e, k) == digit_weighted_buckets::<G>(bytes, points, offset, width,
            e,
            k,
        ) - (e - 1) * bucket_suffix::<G>(bytes, points, offset, width, e, k),
    decreases 16 - e,
{
    if e < 16 {
        lemma_running_window::<G>(bytes, points, offset, width, e + 1, k);
        let b = bucket_sum::<G>(bytes, points, offset, width, e, k);
        let s1 = bucket_suffix::<G>(bytes, points, offset, width, e + 1, k);
        let d1 = digit_weighted_buckets::<G>(bytes, points, offset, width, e + 1, k);
        assert(d1 - e * s1 + (b + s1) == e * b + d1 - (e - 1) * (b + s1)) by (nonlinear_arith);
    }
}

/// With no bits read, every scalar is zero.
proof fn lemma_msm_sum_no_bits<G: GoldenGroup>(
    bytes: Seq<[u8; 32]>,
    points: Seq<G::Element>,
    offset: nat,
    k: nat,
)
    ensures
        msm_sum::<G>(bytes, points, offset, 0, k) == 0,
    decreases k,
{
    if k > 0 {
        lemma_msm_sum_no_bits::<G>(bytes, points, offset, (k - 1) as nat);
        assert(bits_value(bytes[k - 1]@, offset, 0) == 0);
        assert(0 * G::dlog(points[k - 1]) == 0) by (nonlinear_arith);
    }
}

/// The order of the scalar field of `G`.
pub open spec fn group_order<G: GoldenGroup>() -> int {
    <G::Scalar as GoldenScalar>::field_order() as int
}

/// Add a point to a value tracked modulo the group order.
fn add_tracked<G: GoldenGroup>(
    a: &G::Element,
    b: &G::Element,
    Ghost(x): Ghost<int>,
    Ghost(y): Ghost<int>,
) -> (sum: G::Element)
    requires
        G::element_wf(*a),
        G::element_wf(*b),
        G::dlog(*a) == x % group_order::<G>(),
        G::dlog(*b) == y % group_order::<G>(),
    ensures
        G::element_wf(sum),
        G::dlog(sum) == (x + y) % group_order::<G>(),
{
    proof {
        <G::Scalar as GoldenScalar>::lemma_field_order();
        lemma_add_mod_noop(x, y, group_order::<G>());
    }
    G::add(a, b)
}

/// Number of four-bit windows of a `bit_len`-bit scalar.
pub open spec fn num_windows(bit_len: nat) -> nat {
    ((bit_len + 3) / 4) as nat
}

/// How many of the `bit_len` bits of a scalar lie at or above `offset`.
pub open spec fn bits_from(bit_len: nat, offset: nat) -> nat {
    if bit_len > offset {
        (bit_len - offset) as nat
    } else {
        0
    }
}

/// The low `w` bits of a four-bit digit are the digit modulo `2^w`.
proof fn lemma_digit_low_bits(b: Seq<u8>, off: nat, w: nat)
    requires
        w <= 4,
    ensures
        bits_value(b, off, 4) % pow2(w) == bits_value(b, off, w),
{
    let hi_count = (4 - w) as nat;
    lemma_bits_value_split(b, off, w, hi_count);
    lemma_bits_value_bound(b, off, w);
    lemma_pow2_pos(w);
    assert(w + hi_count == 4);
    let lo = bits_value(b, off, w);
    let hi = bits_value(b, off + w, hi_count);
    assert(pow2(w) * hi == hi * pow2(w)) by (nonlinear_arith);
    vstd::arithmetic::div_mod::lemma_fundamental_div_mod_converse_mod(
        bits_value(b, off, 4) as int,
        pow2(w) as int,
        hi as int,
        lo as int,
    );
}

/// Multi-scalar multiplication `sum(scalars[i] * points[i])`.
///
/// `scalar_bytes[i]` is the little-endian encoding of the `i`-th scalar, read
/// for exactly `scalar_bit_len` bits (higher bits, if any, are ignored).
pub fn multi_scalar_mul<G: GoldenGroup>(
    scalar_bytes: &[[u8; 32]],
    points: &[G::Element],
    scalar_bit_len: u32,
) -> (result: G::Element)
    requires
        scalar_bytes@.len() == points@.len(),
        forall|i: int| 0 <= i < points@.len() ==> G::element_wf(#[trigger] points@[i]),
    ensures
        G::element_wf(result),
        G::dlog(result) == msm_sum::<G>(
            scalar_bytes@,
            points@,
            0,
            scalar_bit_len as nat,
            points@.len(),
        ) % group_order::<G>(),
{
    let ghost q = group_order::<G>();
    let ghost bytes = scalar_bytes@;
    let ghost pts = points@;
    let ghost len: nat = scalar_bit_len as nat;
    let n = points.len();
    proof {
        <G::Scalar as GoldenScalar>::lemma_field_order();
        lemma_small_mod(0, q as nat);
        lemma2_to64();
    }
    if n == 0 {
        return G::identity();
    }
    let num_windows_exec: u32 = scalar_bit_len / WINDOW_BITS + if scalar_bit_len % WINDOW_BITS
        == 0 {
        0
    } else {
        1
    };
    let ghost nw = num_windows(len);
    assert(num_windows_exec == nw);
    proof {
        lemma_msm_sum_no_bits::<G>(bytes, pts, (4 * nw) as nat, n as nat);
        assert(bits_from(len, (4 * nw) as nat) == 0);
    }
    let mut result = G::identity();
    let mut w: u32 = num_windows_exec;
    while w > 0
        invariant
            q == group_order::<G>(),
            q > 1,
            bytes == scalar_bytes@,
            pts == points@,
            n == points@.len(),
            bytes.len() == n,
            len == scalar_bit_len,
            nw == num_windows(len),
            w <= nw,
            nw * 4 <= u32::MAX + 1,
            forall|i: int| 0 <= i < n ==> G::element_wf(#[trigger] points@[i]),
            G::element_wf(result),
            G::dlog(result) == msm_sum::<G>(
                bytes,
                pts,
                (4 * w) as nat,
                bits_from(len, (4 * w) as nat),
                n as nat,
            ) % q,
        decreases w,
    {
        let window_idx = w - 1;
        let ghost off: nat = (4 * window_idx) as nat;
        let ghost high = msm_sum::<G>(
            bytes,
            pts,
            (4 * w) as nat,
            bits_from(len, (4 * w) as nat),
            n as nat,
        );
        // Bits of this window that lie below `scalar_bit_len`.
        assert(off < len);
        let rest: u32 = scalar_bit_len - WINDOW_BITS * window_idx;
        let width_exec: u32 = if rest >= WINDOW_BITS {
            WINDOW_BITS
        } else {
            rest
        };
        let ghost width: nat = width_exec as nat;
        let modulus: usize = if width_exec == 1 {
            2
        } else if width_exec == 2 {
            4
        } else if width_exec == 3 {
            8
        } else {
            16
        };
        proof {
            lemma2_to64();
        }
        assert(modulus == pow2(width));
        // Shift the accumulated value up by one window.
        let mut b: u32 = 0;
        let ghost mut shifted: int = high;
        while b < WINDOW_BITS
            invariant
                q == group_order::<G>(),
                q > 1,
                b <= 4,
                shifted == pow2(b as nat) * high,
                G::element_wf(result),
                G::dlog(result) == shifted % q,
            decreases 4 - b,
        {
            let doubled = add_tracked::<G>(&result, &result, Ghost(shifted), Ghost(shifted));
            proof {
                vstd::arithmetic::power2::lemma_pow2_unfold((b + 1) as nat);
                assert(shifted + shifted == pow2((b + 1) as nat) * high) by (nonlinear_arith)
                    requires
                        shifted == pow2(b as nat) * high,
                        pow2((b + 1) as nat) == 2 * pow2(b as nat),
                ;
                shifted = shifted + shifted;
            }
            result = doubled;
            b = b + 1;
        }
        // Sort the points into buckets by their digit in this window.
        let mut buckets: Vec<G::Element> = Vec::new();
        let mut d: usize = 0;
        while d < 16
            invariant
                d <= 16,
                q == group_order::<G>(),
                q > 1,
                buckets@.len() == d,
                forall|t: int|
                    0 <= t < d ==> G::element_wf(#[trigger] buckets@[t]) && G::dlog(buckets@[t])
                        == 0,
            decreases 16 - d,
        {
            buckets.push(G::identity());
            d = d + 1;
        }
        let mut i: usize = 0;
        proof {
            lemma_small_mod(0, q as nat);
        }
        while i < n
            invariant
                i <= n,
                q == group_order::<G>(),
                q > 1,
                bytes == scalar_bytes@,
                pts == points@,
                n == points@.len(),
                bytes.len() == n,
                window_idx < nw,
                nw * 4 <= u32::MAX + 1,
                off == 4 * window_idx,
                1 <= width <= 4,
                modulus == pow2(width),
                2 <= modulus <= 16,
                forall|t: int| 0 <= t < n ==> G::element_wf(#[trigger] points@[t]),
                buckets@.len() == 16,
                forall|t: int| 0 <= t < 16 ==> G::element_wf(#[trigger] buckets@[t]),
                forall|t: int|
                    1 <= t < 16 ==> G::dlog(#[trigger] buckets@[t]) == bucket_sum::<G>(
                        bytes,
                        pts,
                        off,
                        width,
                        t as nat,
                        i as nat,
                    ) % q,
            decreases n - i,
        {
            let digit = window_digit(&scalar_bytes[i], window_idx, WINDOW_BITS) % modulus;
            proof {
                lemma2_to64();
                lemma_digit_low_bits(bytes[i as int]@, off, width);
                lemma_bits_value_bound(bytes[i as int]@, off, width);
                G::lemma_group_model(points@[i as int]);
                lemma_small_mod(G::dlog(points@[i as int]), q as nat);
            }
            if digit != 0 {
                let ghost before = bucket_sum::<G>(bytes, pts, off, width, digit as nat, i as nat);
                let updated = add_tracked::<G>(
                    &buckets[digit],
                    &points[i],
                    Ghost(before),
                    Ghost(G::dlog(points@[i as int]) as int),
                );
                buckets.set(digit, updated);
            }
            i = i + 1;
        }
        // Weigh each bucket by its digit with running sums, from the top.
        let mut window_sum = G::identity();
        let mut running_sum = G::identity();
        let mut e: usize = 16;
        while e > 1
            invariant
                1 <= e <= 16,
                q == group_order::<G>(),
                q > 1,
                buckets@.len() == 16,
                forall|t: int| 0 <= t < 16 ==> G::element_wf(#[trigger] buckets@[t]),
                forall|t: int|
                    1 <= t < 16 ==> G::dlog(#[trigger] buckets@[t]) == bucket_sum::<G>(
                        bytes,
                        pts,
                        off,
                        width,
                        t as nat,
                        n as nat,
                    ) % q,
                G::element_wf(running_sum),
                G::element_wf(window_sum),
                G::dlog(running_sum) == bucket_suffix::<G>(
                    bytes,
                    pts,
                    off,
                    width,
                    e as nat,
                    n as nat,
                ) % q,
                G::dlog(window_sum) == running_window::<G>(
                    bytes,
                    pts,
                    off,
                    width,
                    e as nat,
                    n as nat,
                ) % q,
            decreases e,
        {
            e = e - 1;
            let ghost s1 = bucket_suffix::<G>(bytes, pts, off, width, (e + 1) as nat, n as nat);
            let ghost be = bucket_sum::<G>(bytes, pts, off, width, e as nat, n as nat);
            running_sum = add_tracked::<G>(&running_sum, &buckets[e], Ghost(s1), Ghost(be));
            proof {
                assert(s1 + be == bucket_suffix::<G>(bytes, pts, off, width, e as nat, n as nat));
            }
            let ghost r1 = running_window::<G>(bytes, pts, off, width, (e + 1) as nat, n as nat);
            window_sum = add_tracked::<G>(
                &window_sum,
                &running_sum,
                Ghost(r1),
                Ghost(bucket_suffix::<G>(bytes, pts, off, width, e as nat, n as nat)),
            );
        }
        proof {
            let above = bits_from(len, (4 * w) as nat);
            lemma_running_window::<G>(bytes, pts, off, width, 1, n as nat);
            lemma_buckets_regroup::<G>(bytes, pts, off, width, n as nat);
            lemma_msm_sum_shift::<G>(bytes, pts, off, width, above, n as nat);
            assert(off + 4 == 4 * w);
            assert(bits_from(len, off) == width + above);
            lemma2_to64();
            if width < 4 {
                assert(above == 0);
                lemma_msm_sum_no_bits::<G>(bytes, pts, off + width, n as nat);
                lemma_msm_sum_no_bits::<G>(bytes, pts, (4 * w) as nat, n as nat);
                assert(pow2(width) * 0 == 0) by (nonlinear_arith);
            }
            assert(shifted == 16 * high);
        }
        result = add_tracked::<G>(
            &result,
            &window_sum,
            Ghost(shifted),
            Ghost(msm_sum::<G>(bytes, pts, off, width, n as nat)),
        );
        w = window_idx;
    }
    proof {
        assert(bits_from(len, 0) == len);
    }
    result
}

/// The eight bits of byte `j`, read as a number, are the byte.
pub proof fn lemma_byte_bits(bytes: Seq<u8>, j: nat)
    requires
        j < bytes.len(),
    ensures
        bits_value(bytes, 8 * j, 8) == bytes[j as int] as nat,
{
    let x = bytes[j as int];
    let o = 8 * j;
    lemma2_to64();
    assert(bit_at(bytes, o + 0) == ((x >> 0u8) & 1u8) as nat);
    assert(bit_at(bytes, o + 1) == ((x >> 1u8) & 1u8) as nat);
    assert(bit_at(bytes, o + 2) == ((x >> 2u8) & 1u8) as nat);
    assert(bit_at(bytes, o + 3) == ((x >> 3u8) & 1u8) as nat);
    assert(bit_at(bytes, o + 4) == ((x >> 4u8) & 1u8) as nat);
    assert(bit_at(bytes, o + 5) == ((x >> 5u8) & 1u8) as nat);
    assert(bit_at(bytes, o + 6) == ((x >> 6u8) & 1u8) as nat);
    assert(bit_at(bytes, o + 7) == ((x >> 7u8) & 1u8) as nat);
    assert(bits_value(bytes, o, 0) == 0);
    assert(bits_value(bytes, o, 1) == bits_value(bytes, o, 0) + bit_at(bytes, o + 0) * pow2(0));
    assert(bits_value(bytes, o, 2) == bits_value(bytes, o, 1) + bit_at(bytes, o + 1) * pow2(1));
    assert(bits_value(bytes, o, 3) == bits_value(bytes, o, 2) + bit_at(bytes, o + 2) * pow2(2));
    assert(bits_value(bytes, o, 4) == bits_value(bytes, o, 3) + bit_at(bytes, o + 3) * pow2(3));
    assert(bits_value(bytes, o, 5) == bits_value(bytes, o, 4) + bit_at(bytes, o + 4) * pow2(4));
    assert(bits_value(bytes, o, 6) == bits_value(bytes, o, 5) + bit_at(bytes, o + 5) * pow2(5));
    assert(bits_value(bytes, o, 7) == bits_value(bytes, o, 6) + bit_at(bytes, o + 6) * pow2(6));
    assert(bits_value(bytes, o, 8) == bits_value(bytes, o, 7) + bit_at(bytes, o + 7) * pow2(7));
    assert(x as nat == ((x >> 0u8) & 1u8) as nat + ((x >> 1u8) & 1u8) as nat * 2 + ((x >> 2u8)
        & 1u8) as nat * 4 + ((x >> 3u8) & 1u8) as nat * 8 + ((x >> 4u8) & 1u8) as nat * 16 + ((x
        >> 5u8) & 1u8) as nat * 32 + ((x >> 6u8) & 1u8) as nat * 64 + ((x >> 7u8) & 1u8) as nat
        * 128) by (bit_vector);
}

/// Reading the bytes from byte `j` on bit by bit gives their little-endian
/// value.
pub proof fn lemma_bits_value_le(bytes: Seq<u8>, j: nat)
    requires
        j <= bytes.len(),
    ensures
        bits_value(bytes, 8 * j, (8 * (bytes.len() - j)) as nat) == le_value(
            bytes.subrange(j as int, bytes.len() as int),
        ),
    decreases bytes.len() - j,
{
    let rest = bytes.subrange(j as int, bytes.len() as int);
    if j == bytes.len() {
        assert(rest.len() == 0);
    } else {
        lemma_bits_value_le(bytes, j + 1);
        lemma_byte_bits(bytes, j);
        let c = (8 * (bytes.len() - j - 1)) as nat;
        lemma_bits_value_split(bytes, 8 * j, 8, c);
        lemma2_to64();
        assert(8 + c == (8 * (bytes.len() - j)) as nat);
        assert(8 * j + 8 == 8 * (j + 1));
        assert(rest.subrange(1, rest.len() as int) =~= bytes.subrange(
            (j + 1) as int,
            bytes.len() as int,
        ));
    }
}

/// A little-endian number below `2^n` is read in full by its low `n` bits
/// (`n <= 8 * len`).
pub proof fn lemma_bits_value_of_small(bytes: Seq<u8>, n: nat)
    requires
        n <= 8 * bytes.len(),
        le_value(bytes) < pow2(n),
    ensures
        bits_value(bytes, 0, n) == le_value(bytes),
{
    lemma_bits_value_le(bytes, 0);
    assert(bytes.subrange(0, bytes.len() as int) =~= bytes);
    let total = (8 * bytes.len()) as nat;
    let hi_count = (total - n) as nat;
    lemma_bits_value_split(bytes, 0, n, hi_count);
    assert(n + hi_count == total);
    lemma_bits_value_bound(bytes, 0, n);
    let lo = bits_value(bytes, 0, n);
    let hi = bits_value(bytes, n, hi_count);
    lemma_pow2_pos(n);
    if hi > 0 {
        assert(pow2(n) * hi >= pow2(n)) by (nonlinear_arith)
            requires
                hi >= 1,
                pow2(n) > 0,
        ;
    } else {
        assert(pow2(n) * hi == 0) by (nonlinear_arith)
            requires
                hi == 0,
        ;
    }
}

} // verus!
