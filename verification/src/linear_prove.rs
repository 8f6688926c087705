//! The prover's side of the linear proof: a folding argument that the
//! committed vector `a` has inner product `<a, b>` with a public vector `b`.
use vstd::arithmetic::power2::pow2;
use vstd::prelude::*;
use vstd::string::StringSliceAdditionalSpecFns;

use crate::cycle::scalar_invert_or_zero;
use crate::group::GoldenScalar;
use crate::ipp_prove::{dot, fold_halves, inverse_mod, lemma_inverse_mod, CycleGroup};
use crate::ipp_verify::{ipp_start, lemma_top_bit, top_bit};
use crate::proof_bytes::LinearProof;
use crate::proof_cycle::Cycle;
use crate::proof_errors::ProofError;
use crate::proof_transcript::{
    append_point, append_scalar, challenge_scalar, u32_le, ProofTranscript, R1csDomain,
};
use crate::util::inner_product;
use crate::bytes::le_value;
use crate::proof_transcript::merlin_challenge;
use crate::shamir::values_of;

verus! {

/// The history after the public inputs of a linear proof: the inner-product
/// domain separator, the commitment, the entries of `b`, the generators,
/// then `F` and `B`.
pub open spec fn linear_start<C: CycleGroup>(
    history: Seq<(bool, Seq<u8>, Seq<u8>)>,
    commitment: C::Compressed,
    b: Seq<C::Scalar>,
    g: Seq<C::Point>,
    f: C::Point,
    base: C::Point,
) -> Seq<(bool, Seq<u8>, Seq<u8>)> {
    (ipp_start(history, b.len() as u64).push((false, "C".spec_bytes(), C::compressed_view(commitment)))
        + Seq::new(b.len(), |i: int| (false, "b_i".spec_bytes(), C::scalar_view(b[i]))) + Seq::new(
        g.len(),
        |i: int| (false, "G_i".spec_bytes(), C::point_encoding(g[i])),
    )).push((false, "F".spec_bytes(), C::point_encoding(f))).push(
        (false, "B".spec_bytes(), C::point_encoding(base)),
    )
}

/// The history after `k` folding rounds of a linear proof: each appends
/// `L`, `R` and draws the challenge `x_j`.
pub open spec fn linear_rounds<C: Cycle>(
    history: Seq<(bool, Seq<u8>, Seq<u8>)>,
    ls: Seq<C::Compressed>,
    rs: Seq<C::Compressed>,
    k: nat,
) -> Seq<(bool, Seq<u8>, Seq<u8>)>
    decreases k,
{
    if k == 0 {
        history
    } else {
        linear_rounds::<C>(history, ls, rs, (k - 1) as nat).push(
            (false, "L".spec_bytes(), C::compressed_view(ls[k - 1])),
        ).push((false, "R".spec_bytes(), C::compressed_view(rs[k - 1]))).push(
            (true, "x_j".spec_bytes(), u32_le(64)),
        )
    }
}

proof fn lemma_linear_rounds_prefix<C: Cycle>(
    h: Seq<(bool, Seq<u8>, Seq<u8>)>,
    ls: Seq<C::Compressed>,
    rs: Seq<C::Compressed>,
    ls2: Seq<C::Compressed>,
    rs2: Seq<C::Compressed>,
    k: nat,
)
    requires
        k <= ls.len(),
        k <= rs.len(),
        k <= ls2.len(),
        k <= rs2.len(),
        forall|i: int| 0 <= i < k ==> ls[i] == ls2[i] && rs[i] == rs2[i],
    ensures
        linear_rounds::<C>(h, ls, rs, k) == linear_rounds::<C>(h, ls2, rs2, k),
    decreases k,
{
    if k > 0 {
        lemma_linear_rounds_prefix::<C>(h, ls, rs, ls2, rs2, (k - 1) as nat);
    }
}

/// The challenge `x_j` of round `k`: the 64 challenge bytes drawn after
/// that round's `L` and `R`, reduced modulo the scalar field order.
pub open spec fn linear_challenge<C: Cycle>(
    history: Seq<(bool, Seq<u8>, Seq<u8>)>,
    ls: Seq<C::Compressed>,
    rs: Seq<C::Compressed>,
    k: nat,
) -> int {
    (le_value(
        merlin_challenge(
            linear_rounds::<C>(history, ls, rs, k).push(
                (false, "L".spec_bytes(), C::compressed_view(ls[k as int])),
            ).push((false, "R".spec_bytes(), C::compressed_view(rs[k as int]))),
            "x_j".spec_bytes(),
            64,
        ),
    ) % C::scalar_order()) as int
}

/// The challenges of the first `k` rounds of a linear proof.
pub open spec fn linear_challenges<C: Cycle>(
    history: Seq<(bool, Seq<u8>, Seq<u8>)>,
    ls: Seq<C::Compressed>,
    rs: Seq<C::Compressed>,
    k: nat,
) -> Seq<int> {
    Seq::new(k, |i: int| linear_challenge::<C>(history, ls, rs, i as nat))
}

/// The vector `a` of a linear proof after folding by the challenges `xs` in
/// order: round `j` maps `a` to `a_L + x_j^-1 * a_R`.
pub open spec fn linear_fold_a(v: Seq<int>, xs: Seq<int>, q: int) -> Seq<int>
    decreases xs.len(),
{
    if xs.len() == 0 {
        v
    } else {
        fold_halves(linear_fold_a(v, xs.drop_last(), q), 1, inverse_mod(xs.last(), q), q)
    }
}

/// The blinding of a linear proof after folding by the challenges `xs`:
/// round `j` adds `x_j * s_j + x_j^-1 * t_j`, where `s_j` and `t_j` are the
/// blindings `2j` and `2j + 1`.
pub open spec fn linear_fold_r(r: int, blindings: Seq<int>, xs: Seq<int>, q: int) -> int
    decreases xs.len(),
{
    if xs.len() == 0 {
        r
    } else {
        let j = xs.len() - 1;
        (linear_fold_r(r, blindings, xs.drop_last(), q) + xs.last() * blindings[2 * j]
            + inverse_mod(xs.last(), q) * blindings[2 * j + 1]) % q
    }
}

/// A vector of a linear proof folded upwards by the challenges `xs` in
/// order: round `j` maps `v` to `v_L + x_j * v_R`. This is how `b` and the
/// discrete logarithms of the generators `G` fold.
pub open spec fn linear_fold_up(v: Seq<int>, xs: Seq<int>, q: int) -> Seq<int>
    decreases xs.len(),
{
    if xs.len() == 0 {
        v
    } else {
        fold_halves(linear_fold_up(v, xs.drop_last(), q), 1, xs.last(), q)
    }
}

/// The discrete logarithms of a list of points.
pub open spec fn point_dlogs<C: CycleGroup>(points: Seq<C::Point>) -> Seq<int> {
    points.map_values(|p: C::Point| C::point_dlog(p) as int)
}

/// The discrete logarithm of a round's `L = <a_L, G_R> + s * B + c_L * F`,
/// where `c_L = <a_L, b_R>`, for the folded `a`, `b` and generator
/// logarithms `g` of that round and the logarithms `base` of `B` and `f`
/// of `F`.
pub open spec fn linear_l_dlog(
    a: Seq<int>,
    b: Seq<int>,
    g: Seq<int>,
    s: int,
    base: int,
    f: int,
    q: int,
) -> int {
    let m = a.len() / 2;
    (dot(a.subrange(0, m as int), g.subrange(m as int, 2 * m as int), m) + s * base + (dot(
        a.subrange(0, m as int),
        b.subrange(m as int, 2 * m as int),
        m,
    ) % q) * f) % q
}

/// The discrete logarithm of a round's `R = <a_R, G_L> + t * B + c_R * F`,
/// where `c_R = <a_R, b_L>`.
pub open spec fn linear_r_dlog(
    a: Seq<int>,
    b: Seq<int>,
    g: Seq<int>,
    t: int,
    base: int,
    f: int,
    q: int,
) -> int {
    let m = a.len() / 2;
    (dot(a.subrange(m as int, 2 * m as int), g.subrange(0, m as int), m) + t * base + (dot(
        a.subrange(m as int, 2 * m as int),
        b.subrange(0, m as int),
        m,
    ) % q) * f) % q
}

/// The point has the given encoding and discrete logarithm.
pub open spec fn encodes_point_with_dlog<C: CycleGroup>(c: C::Compressed, d: int) -> bool {
    exists|p: C::Point|
        C::point_wf(p) && C::compressed_view(c) == #[trigger] C::point_encoding(p) && C::point_dlog(p)
            == d
}

/// Sums over sequences that agree on their first `k` entries are equal.
proof fn lemma_dot_agree(xs1: Seq<int>, ys1: Seq<int>, xs2: Seq<int>, ys2: Seq<int>, k: nat)
    requires
        forall|i: int| 0 <= i < k ==> xs1[i] == xs2[i] && ys1[i] == ys2[i],
    ensures
        dot(xs1, ys1, k) == dot(xs2, ys2, k),
    decreases k,
{
    if k > 0 {
        lemma_dot_agree(xs1, ys1, xs2, ys2, (k - 1) as nat);
    }
}

/// The sum over `xs` and `ys` with two entries pushed is the sum over the
/// prefix plus the two products.
proof fn lemma_dot_push2(xs: Seq<int>, ys: Seq<int>, m: nat, x1: int, y1: int, x2: int, y2: int)
    requires
        xs.len() == m,
        ys.len() == m,
    ensures
        dot(xs.push(x1).push(x2), ys.push(y1).push(y2), m + 2) == dot(xs, ys, m) + x1 * y1 + x2 * y2,
{
    let xs2 = xs.push(x1).push(x2);
    let ys2 = ys.push(y1).push(y2);
    lemma_dot_agree(xs2, ys2, xs, ys, m);
    assert(dot(xs2, ys2, m + 1) == dot(xs2, ys2, m) + xs2[m as int] * ys2[m as int]);
    assert(dot(xs2, ys2, m + 2) == dot(xs2, ys2, m + 1) + xs2[m as int + 1] * ys2[m as int + 1]);
}

/// The prefix sum of the scalar helpers is the same sum.
proof fn lemma_dot_prefix_is_dot(xs: Seq<int>, ys: Seq<int>, k: nat)
    ensures
        crate::util::dot_prefix(xs, ys, k) == dot(xs, ys, k),
    decreases k,
{
    if k > 0 {
        lemma_dot_prefix_is_dot(xs, ys, (k - 1) as nat);
    }
}

/// A sum of three products.
proof fn lemma_dot3(xs: Seq<int>, ys: Seq<int>)
    requires
        xs.len() == 3,
        ys.len() == 3,
    ensures
        dot(xs, ys, 3) == xs[0] * ys[0] + xs[1] * ys[1] + xs[2] * ys[2],
{
    assert(dot(xs, ys, 0) == 0);
    assert(dot(xs, ys, 1) == xs[0] * ys[0]);
    assert(dot(xs, ys, 2) == dot(xs, ys, 1) + xs[1] * ys[1]);
}

/// A sum of two products.
proof fn lemma_dot2(xs: Seq<int>, ys: Seq<int>)
    requires
        xs.len() == 2,
        ys.len() == 2,
    ensures
        dot(xs, ys, 2) == xs[0] * ys[0] + xs[1] * ys[1],
{
    assert(dot(xs, ys, 0) == 0);
    assert(dot(xs, ys, 1) == xs[0] * ys[0]);
}

/// The multiscalar sums a folding round forms for `L` and `R` have the
/// discrete logarithms of `L` and `R`.
proof fn lemma_linear_round_dlogs<C: CycleGroup>(
    a: Seq<C::Scalar>,
    b: Seq<C::Scalar>,
    g: Seq<C::Point>,
    m: nat,
    s: C::Scalar,
    t: C::Scalar,
    cl: C::Scalar,
    cr: C::Scalar,
    sl: Seq<C::Scalar>,
    pl: Seq<C::Point>,
    sr: Seq<C::Scalar>,
    pr: Seq<C::Point>,
    base: C::Point,
    f: C::Point,
    q: int,
)
    requires
        a.len() == 2 * m,
        b.len() == 2 * m,
        g.len() == 2 * m,
        sl == a.subrange(0, m as int).push(s).push(cl),
        pl == g.subrange(m as int, 2 * m as int).push(base).push(f),
        sr == a.subrange(m as int, 2 * m as int).push(t).push(cr),
        pr == g.subrange(0, m as int).push(base).push(f),
        cl.value() == crate::util::inner_product_value(a.subrange(0, m as int), b.subrange(m as int, 2 * m as int)),
        cr.value() == crate::util::inner_product_value(a.subrange(m as int, 2 * m as int), b.subrange(0, m as int)),
        q == <C::Scalar as GoldenScalar>::field_order(),
    ensures
        dot(values_of(sl), pl.map_values(|p: C::Point| C::point_dlog(p) as int), m + 2) % q
            == linear_l_dlog(
            values_of(a),
            values_of(b),
            point_dlogs::<C>(g),
            s.value() as int,
            C::point_dlog(base) as int,
            C::point_dlog(f) as int,
            q,
        ),
        dot(values_of(sr), pr.map_values(|p: C::Point| C::point_dlog(p) as int), m + 2) % q
            == linear_r_dlog(
            values_of(a),
            values_of(b),
            point_dlogs::<C>(g),
            t.value() as int,
            C::point_dlog(base) as int,
            C::point_dlog(f) as int,
            q,
        ),
{
    let av = values_of(a);
    let bv = values_of(b);
    let gv = point_dlogs::<C>(g);
    let mi = m as int;
    let db = C::point_dlog(base) as int;
    let df = C::point_dlog(f) as int;
    assert(values_of(sl) =~= av.subrange(0, mi).push(s.value() as int).push(cl.value() as int));
    assert(pl.map_values(|p: C::Point| C::point_dlog(p) as int) =~= gv.subrange(mi, 2 * mi).push(db).push(df));
    assert(values_of(sr) =~= av.subrange(mi, 2 * mi).push(t.value() as int).push(cr.value() as int));
    assert(pr.map_values(|p: C::Point| C::point_dlog(p) as int) =~= gv.subrange(0, mi).push(db).push(df));
    lemma_dot_push2(av.subrange(0, mi), gv.subrange(mi, 2 * mi), m, s.value() as int, db, cl.value() as int, df);
    lemma_dot_push2(av.subrange(mi, 2 * mi), gv.subrange(0, mi), m, t.value() as int, db, cr.value() as int, df);
    assert(values_of(a.subrange(0, mi)) =~= av.subrange(0, mi));
    assert(values_of(a.subrange(mi, 2 * mi)) =~= av.subrange(mi, 2 * mi));
    assert(values_of(b.subrange(0, mi)) =~= bv.subrange(0, mi));
    assert(values_of(b.subrange(mi, 2 * mi)) =~= bv.subrange(mi, 2 * mi));
    lemma_dot_prefix_is_dot(av.subrange(0, mi), bv.subrange(mi, 2 * mi), m);
    lemma_dot_prefix_is_dot(av.subrange(mi, 2 * mi), bv.subrange(0, mi), m);
}

/// The challenges of the first `k` rounds depend on the first `k` round
/// points alone.
proof fn lemma_linear_challenges_prefix<C: Cycle>(
    h: Seq<(bool, Seq<u8>, Seq<u8>)>,
    ls: Seq<C::Compressed>,
    rs: Seq<C::Compressed>,
    ls2: Seq<C::Compressed>,
    rs2: Seq<C::Compressed>,
    k: nat,
)
    requires
        k <= ls.len(),
        k <= rs.len(),
        k <= ls2.len(),
        k <= rs2.len(),
        forall|i: int| 0 <= i < k ==> ls[i] == ls2[i] && rs[i] == rs2[i],
    ensures
        linear_challenges::<C>(h, ls, rs, k) == linear_challenges::<C>(h, ls2, rs2, k),
{
    assert forall|i: int| 0 <= i < k implies #[trigger] linear_challenge::<C>(h, ls, rs, i as nat)
        == linear_challenge::<C>(h, ls2, rs2, i as nat) by {
        lemma_linear_rounds_prefix::<C>(h, ls, rs, ls2, rs2, i as nat);
    }
    assert(linear_challenges::<C>(h, ls, rs, k) =~= linear_challenges::<C>(h, ls2, rs2, k));
}

/// The halves `v[0 .. m]` and `v[m .. 2m]` of a vector of length `2m`.
fn halves<T: Copy>(v: &Vec<T>, m: usize) -> (parts: (Vec<T>, Vec<T>))
    requires
        v@.len() == 2 * m,
    ensures
        parts.0@ == v@.subrange(0, m as int),
        parts.1@ == v@.subrange(m as int, 2 * m as int),
{
    let total = v.len();
    let mut lo: Vec<T> = Vec::new();
    let mut hi: Vec<T> = Vec::new();
    let mut i: usize = 0;
    while i < m
        invariant
            i <= m,
            v@.len() == 2 * m,
            total == 2 * m,
            lo@ == v@.subrange(0, i as int),
            hi@ == v@.subrange(m as int, m + i),
        decreases m - i,
    {
        lo.push(v[i]);
        hi.push(v[m + i]);
        i = i + 1;
        assert(lo@ =~= v@.subrange(0, i as int));
        assert(hi@ =~= v@.subrange(m as int, m + i));
    }
    (lo, hi)
}

impl<C: CycleGroup> LinearProof<C> {
    /// Create a linear proof that the vector `a` committed by `commitment`
    /// (blinded by `r`) has inner product `<a, b>` with the public vector
    /// `b`, with respect to the generators `g`, `f` and `base`.
    ///
    /// `blindings` holds the random scalars the proof draws: `s_j` and `t_j`
    /// for each folding round, then `s_star` and `t_star`.
    ///
    /// Generators of another length than `b` are `InvalidGeneratorsLength`;
    /// an `a` of another length, or a length that is not a power of two, is
    /// `InvalidInputLength`. Otherwise the proof has one `L` and one `R`
    /// point per round, `log2(n)` rounds, and the transcript takes the
    /// public inputs, per round `L`, `R` and the challenge `x_j`, then `S`
    /// and the challenge `x_star`.
    #[verifier::spinoff_prover]
    #[verifier::rlimit(100)]
    pub fn create(
        transcript: &mut ProofTranscript,
        blindings: &[C::Scalar],
        commitment: &C::Compressed,
        r: C::Scalar,
        a_vec: Vec<C::Scalar>,
        b_vec: Vec<C::Scalar>,
        g_vec: Vec<C::Point>,
        f: &C::Point,
        base: &C::Point,
    ) -> (result: Result<Self, ProofError>)
        requires
            b_vec@.len() < 0x1_0000_0000,
            blindings@.len() >= 2 * top_bit(b_vec@.len() as nat) + 2,
            r.wf(),
            C::point_wf(*f),
            C::point_wf(*base),
            forall|i: int| 0 <= i < blindings@.len() ==> (#[trigger] blindings@[i]).wf(),
            forall|i: int| 0 <= i < a_vec@.len() ==> (#[trigger] a_vec@[i]).wf(),
            forall|i: int| 0 <= i < b_vec@.len() ==> (#[trigger] b_vec@[i]).wf(),
            forall|i: int| 0 <= i < g_vec@.len() ==> C::point_wf(#[trigger] g_vec@[i]),
        ensures
            ({
                let n = b_vec@.len();
                let lg = top_bit(n as nat);
                &&& g_vec@.len() != n ==> result == Err::<Self, ProofError>(
                    ProofError::InvalidGeneratorsLength,
                )
                &&& g_vec@.len() == n && (a_vec@.len() != n || n != pow2(lg))
                    ==> result == Err::<Self, ProofError>(ProofError::InvalidInputLength)
                &&& g_vec@.len() == n && a_vec@.len() == n && n == pow2(lg) ==> result is Ok
                &&& result matches Ok(p) ==> {
                    &&& p.ls().len() == lg
                    &&& p.rs().len() == lg
                    &&& final(transcript).history() == linear_rounds::<C>(
                        linear_start::<C>(
                            old(transcript).history(),
                            *commitment,
                            b_vec@,
                            g_vec@,
                            *f,
                            *base,
                        ),
                        p.ls(),
                        p.rs(),
                        lg,
                    ).push((false, "S".spec_bytes(), C::compressed_view(p.s_spec()))).push(
                        (true, "x_star".spec_bytes(), u32_le(64)),
                    )
                    &&& {
                        let h0 = linear_start::<C>(
                            old(transcript).history(),
                            *commitment,
                            b_vec@,
                            g_vec@,
                            *f,
                            *base,
                        );
                        let q = C::scalar_order() as int;
                        let xs = linear_challenges::<C>(h0, p.ls(), p.rs(), lg);
                        let x_star = (le_value(
                            merlin_challenge(
                                linear_rounds::<C>(h0, p.ls(), p.rs(), lg).push(
                                    (false, "S".spec_bytes(), C::compressed_view(p.s_spec())),
                                ),
                                "x_star".spec_bytes(),
                                64,
                            ),
                        ) % C::scalar_order()) as int;
                        let bl = values_of(blindings@);
                        &&& p.a_spec().value() == (bl[2 * lg as int] + x_star * linear_fold_a(
                            values_of(a_vec@),
                            xs,
                            q,
                        )[0]) % q
                        &&& p.r_spec().value() == (bl[2 * lg as int + 1] + x_star * linear_fold_r(
                            r.value() as int,
                            bl,
                            xs,
                            q,
                        )) % q
                        &&& forall|k: int|
                            0 <= k < lg ==> encodes_point_with_dlog::<C>(
                                #[trigger] p.ls()[k],
                                linear_l_dlog(
                                    linear_fold_a(values_of(a_vec@), linear_challenges::<C>(h0, p.ls(), p.rs(), k as nat), q),
                                    linear_fold_up(values_of(b_vec@), linear_challenges::<C>(h0, p.ls(), p.rs(), k as nat), q),
                                    linear_fold_up(point_dlogs::<C>(g_vec@), linear_challenges::<C>(h0, p.ls(), p.rs(), k as nat), q),
                                    bl[2 * k],
                                    C::point_dlog(*base) as int,
                                    C::point_dlog(*f) as int,
                                    q,
                                ),
                            )
                        &&& forall|k: int|
                            0 <= k < lg ==> encodes_point_with_dlog::<C>(
                                #[trigger] p.rs()[k],
                                linear_r_dlog(
                                    linear_fold_a(values_of(a_vec@), linear_challenges::<C>(h0, p.ls(), p.rs(), k as nat), q),
                                    linear_fold_up(values_of(b_vec@), linear_challenges::<C>(h0, p.ls(), p.rs(), k as nat), q),
                                    linear_fold_up(point_dlogs::<C>(g_vec@), linear_challenges::<C>(h0, p.ls(), p.rs(), k as nat), q),
                                    bl[2 * k + 1],
                                    C::point_dlog(*base) as int,
                                    C::point_dlog(*f) as int,
                                    q,
                                ),
                            )
                        &&& encodes_point_with_dlog::<C>(
                            p.s_spec(),
                            (bl[2 * lg as int + 1] * C::point_dlog(*base) + ((bl[2 * lg as int]
                                * linear_fold_up(values_of(b_vec@), xs, q)[0]) % q) * C::point_dlog(*f)
                                + bl[2 * lg as int] * linear_fold_up(point_dlogs::<C>(g_vec@), xs, q)[0]) % q,
                        )
                    }
                }
            }),
    {
        let n = b_vec.len();
        if g_vec.len() != n {
            return Err(ProofError::InvalidGeneratorsLength);
        }
        if a_vec.len() != n {
            return Err(ProofError::InvalidInputLength);
        }
        if n == 0 {
            proof {
                vstd::arithmetic::power2::lemma2_to64();
            }
            return Err(ProofError::InvalidInputLength);
        }
        // Whether `n` is a power of two, and its logarithm.
        let mut lg_n: usize = 0;
        let mut size: u64 = 1;
        proof {
            vstd::arithmetic::power2::lemma2_to64();
        }
        while size < n as u64
            invariant
                size == pow2(lg_n as nat),
                size >= 1,
                lg_n + 1 <= size,
                size <= 2 * n,
                1 <= n < 0x1_0000_0000,
                lg_n > 0 ==> pow2((lg_n - 1) as nat) < n,
            decreases 2 * n - size,
        {
            proof {
                vstd::arithmetic::power2::lemma_pow2_unfold((lg_n + 1) as nat);
            }
            size = 2 * size;
            lg_n = lg_n + 1;
        }
        if size != n as u64 {
            proof {
                // A power of two has its highest bit as its logarithm.
                if n == pow2(top_bit(n as nat)) {
                    let t = top_bit(n as nat);
                    if lg_n < t {
                        vstd::arithmetic::power2::lemma_pow2_strictly_increases(lg_n as nat, t);
                    } else if t < lg_n {
                        vstd::arithmetic::power2::lemma_pow2_unfold(lg_n as nat);
                        vstd::arithmetic::power2::lemma_pow2_pos((lg_n - 1) as nat);
                        if t < lg_n - 1 {
                            vstd::arithmetic::power2::lemma_pow2_strictly_increases(
                                t,
                                (lg_n - 1) as nat,
                            );
                        }
                    }
                }
            }
            return Err(ProofError::InvalidInputLength);
        }
        proof {
            vstd::arithmetic::power2::lemma_pow2_unfold((lg_n + 1) as nat);
            lemma_top_bit(n as nat, lg_n as nat);
            if lg_n >= 32 {
                if lg_n > 32 {
                    vstd::arithmetic::power2::lemma_pow2_strictly_increases(32, lg_n as nat);
                }
                assert(false);
            }
            reveal_strlit("C");
            reveal_strlit("b_i");
            reveal_strlit("G_i");
            reveal_strlit("F");
            reveal_strlit("B");
            reveal_strlit("L");
            reveal_strlit("R");
            reveal_strlit("x_j");
            reveal_strlit("S");
            reveal_strlit("x_star");
        }
        let ghost h_old = transcript.history();
        transcript.innerproduct_domain_sep(n as u64);
        append_point::<C>(transcript, "C".as_bytes(), commitment);
        let ghost h1 = transcript.history();
        let mut i: usize = 0;
        while i < n
            invariant
                i <= n,
                b_vec@.len() == n,
                forall|t: int| 0 <= t < n ==> (#[trigger] b_vec@[t]).wf(),
                transcript.history() == h1 + Seq::new(
                    i as nat,
                    |t: int| (false, "b_i".spec_bytes(), C::scalar_view(b_vec@[t])),
                ),
            decreases n - i,
        {
            proof {
                C::lemma_scalar_field(b_vec@[i as int]);
            }
            append_scalar::<C>(transcript, "b_i".as_bytes(), &b_vec[i]);
            i = i + 1;
            assert(transcript.history() =~= h1 + Seq::new(
                i as nat,
                |t: int| (false, "b_i".spec_bytes(), C::scalar_view(b_vec@[t])),
            ));
        }
        let ghost h2 = transcript.history();
        let mut i: usize = 0;
        while i < n
            invariant
                i <= n,
                g_vec@.len() == n,
                forall|t: int| 0 <= t < n ==> C::point_wf(#[trigger] g_vec@[t]),
                transcript.history() == h2 + Seq::new(
                    i as nat,
                    |t: int| (false, "G_i".spec_bytes(), C::point_encoding(g_vec@[t])),
                ),
            decreases n - i,
        {
            let comp = C::point_compress(&g_vec[i]);
            append_point::<C>(transcript, "G_i".as_bytes(), &comp);
            i = i + 1;
            assert(transcript.history() =~= h2 + Seq::new(
                i as nat,
                |t: int| (false, "G_i".spec_bytes(), C::point_encoding(g_vec@[t])),
            ));
        }
        let f_comp = C::point_compress(f);
        let b_comp = C::point_compress(base);
        append_point::<C>(transcript, "F".as_bytes(), &f_comp);
        append_point::<C>(transcript, "B".as_bytes(), &b_comp);
        let ghost h0 = transcript.history();
        assert(h0 == linear_start::<C>(h_old, *commitment, b_vec@, g_vec@, *f, *base));
        let ghost a0 = values_of(a_vec@);
        let ghost b0 = values_of(b_vec@);
        let ghost gd0 = point_dlogs::<C>(g_vec@);
        let ghost d_base = C::point_dlog(*base) as int;
        let ghost d_f = C::point_dlog(*f) as int;
        let ghost r0 = r.value() as int;
        let ghost bl = values_of(blindings@);
        let ghost qo = C::scalar_order() as int;
        proof {
            C::lemma_scalar_field(r);
            <C::Scalar as GoldenScalar>::lemma_scalar_model(r, r);
        }
        let mut a = a_vec;
        let mut b = b_vec;
        let mut g = g_vec;
        let mut r = r;
        let mut l_vec: Vec<C::Compressed> = Vec::new();
        let mut r_vec: Vec<C::Compressed> = Vec::new();
        let mut cur: usize = n;
        let mut round: usize = 0;
        let one = <C::Scalar as GoldenScalar>::one();
        while round < lg_n
            invariant
                round <= lg_n,
                lg_n < 32,
                cur == pow2((lg_n - round) as nat),
                a@.len() == cur,
                b@.len() == cur,
                g@.len() == cur,
                blindings@.len() >= 2 * lg_n + 2,
                one.wf(),
                one.value() == 1,
                r.wf(),
                C::point_wf(*f),
                C::point_wf(*base),
                forall|i: int| 0 <= i < blindings@.len() ==> (#[trigger] blindings@[i]).wf(),
                forall|i: int| 0 <= i < cur ==> (#[trigger] a@[i]).wf(),
                forall|i: int| 0 <= i < cur ==> (#[trigger] b@[i]).wf(),
                forall|i: int| 0 <= i < cur ==> C::point_wf(#[trigger] g@[i]),
                l_vec@.len() == round,
                r_vec@.len() == round,
                transcript.history() == linear_rounds::<C>(h0, l_vec@, r_vec@, round as nat),
                qo == C::scalar_order(),
                qo == <C::Scalar as GoldenScalar>::field_order(),
                qo > 1,
                bl == values_of(blindings@),
                values_of(a@) == linear_fold_a(
                    a0,
                    linear_challenges::<C>(h0, l_vec@, r_vec@, round as nat),
                    qo,
                ),
                r.value() == linear_fold_r(
                    r0,
                    bl,
                    linear_challenges::<C>(h0, l_vec@, r_vec@, round as nat),
                    qo,
                ),
                values_of(b@) == linear_fold_up(
                    b0,
                    linear_challenges::<C>(h0, l_vec@, r_vec@, round as nat),
                    qo,
                ),
                point_dlogs::<C>(g@) == linear_fold_up(
                    gd0,
                    linear_challenges::<C>(h0, l_vec@, r_vec@, round as nat),
                    qo,
                ),
                d_base == C::point_dlog(*base),
                d_f == C::point_dlog(*f),
                forall|k: int|
                    0 <= k < round ==> encodes_point_with_dlog::<C>(
                        #[trigger] l_vec@[k],
                        linear_l_dlog(
                            linear_fold_a(a0, linear_challenges::<C>(h0, l_vec@, r_vec@, k as nat), qo),
                            linear_fold_up(b0, linear_challenges::<C>(h0, l_vec@, r_vec@, k as nat), qo),
                            linear_fold_up(gd0, linear_challenges::<C>(h0, l_vec@, r_vec@, k as nat), qo),
                            bl[2 * k],
                            d_base,
                            d_f,
                            qo,
                        ),
                    ),
                forall|k: int|
                    0 <= k < round ==> encodes_point_with_dlog::<C>(
                        #[trigger] r_vec@[k],
                        linear_r_dlog(
                            linear_fold_a(a0, linear_challenges::<C>(h0, l_vec@, r_vec@, k as nat), qo),
                            linear_fold_up(b0, linear_challenges::<C>(h0, l_vec@, r_vec@, k as nat), qo),
                            linear_fold_up(gd0, linear_challenges::<C>(h0, l_vec@, r_vec@, k as nat), qo),
                            bl[2 * k + 1],
                            d_base,
                            d_f,
                            qo,
                        ),
                    ),
            decreases lg_n - round,
        {
            proof {
                vstd::arithmetic::power2::lemma_pow2_unfold((lg_n - round) as nat);
                vstd::arithmetic::power2::lemma_pow2_pos((lg_n - round - 1) as nat);
            }
            let m = cur / 2;
            let (a_l, a_r) = halves(&a, m);
            let (b_l, b_r) = halves(&b, m);
            let (g_l, g_r) = halves(&g, m);
            let c_l = inner_product(a_l.as_slice(), b_r.as_slice());
            let c_r = inner_product(a_r.as_slice(), b_l.as_slice());
            let s_j = blindings[2 * round];
            let t_j = blindings[2 * round + 1];
            // L = <a_L, G_R> + s_j * B + c_L * F
            let (mut scalars_l, mut scalars_r) = halves(&a, m);
            let (mut points_r, mut points_l) = halves(&g, m);
            scalars_l.push(s_j);
            scalars_l.push(c_l);
            points_l.push(*base);
            points_l.push(*f);
            // R = <a_R, G_L> + t_j * B + c_R * F
            scalars_r.push(t_j);
            scalars_r.push(c_r);
            points_r.push(*base);
            points_r.push(*f);
            proof {
                assert(scalars_l@ =~= a@.subrange(0, m as int).push(s_j).push(c_l));
                assert(scalars_r@ =~= a@.subrange(m as int, cur as int).push(t_j).push(c_r));
                assert(points_l@ =~= g@.subrange(m as int, cur as int).push(*base).push(*f));
                assert(points_r@ =~= g@.subrange(0, m as int).push(*base).push(*f));
            }
            let l_point = C::vartime_msm(scalars_l.as_slice(), points_l.as_slice());
            let r_point = C::vartime_msm(scalars_r.as_slice(), points_r.as_slice());
            let l = C::point_compress(&l_point);
            let rr = C::point_compress(&r_point);
            proof {
                lemma_linear_round_dlogs::<C>(
                    a@,
                    b@,
                    g@,
                    m as nat,
                    s_j,
                    t_j,
                    c_l,
                    c_r,
                    scalars_l@,
                    points_l@,
                    scalars_r@,
                    points_r@,
                    *base,
                    *f,
                    qo,
                );
                assert(bl[2 * round as int] == s_j.value());
                assert(bl[2 * round + 1] == t_j.value());
            }
            let ghost before_l = l_vec@;
            let ghost before_r = r_vec@;
            l_vec.push(l);
            r_vec.push(rr);
            proof {
                lemma_linear_rounds_prefix::<C>(h0, before_l, before_r, l_vec@, r_vec@, round as nat);
                assert forall|k: int| 0 <= k <= round implies #[trigger] linear_challenges::<C>(
                    h0,
                    l_vec@,
                    r_vec@,
                    k as nat,
                ) == linear_challenges::<C>(h0, before_l, before_r, k as nat) by {
                    lemma_linear_challenges_prefix::<C>(h0, before_l, before_r, l_vec@, r_vec@, k as nat);
                }
                lemma_linear_challenges_prefix::<C>(h0, before_l, before_r, l_vec@, r_vec@, round as nat);
                assert(encodes_point_with_dlog::<C>(
                    l_vec@[round as int],
                    C::point_dlog(l_point) as int,
                ));
                assert(encodes_point_with_dlog::<C>(
                    r_vec@[round as int],
                    C::point_dlog(r_point) as int,
                ));
                assert forall|k: int| 0 <= k < round + 1 implies encodes_point_with_dlog::<C>(
                    #[trigger] l_vec@[k],
                    linear_l_dlog(
                        linear_fold_a(a0, linear_challenges::<C>(h0, l_vec@, r_vec@, k as nat), qo),
                        linear_fold_up(b0, linear_challenges::<C>(h0, l_vec@, r_vec@, k as nat), qo),
                        linear_fold_up(gd0, linear_challenges::<C>(h0, l_vec@, r_vec@, k as nat), qo),
                        bl[2 * k],
                        d_base,
                        d_f,
                        qo,
                    ),
                ) by {
                    assert(linear_challenges::<C>(h0, l_vec@, r_vec@, k as nat)
                        == linear_challenges::<C>(h0, before_l, before_r, k as nat));
                    if k < round {
                        assert(l_vec@[k] == before_l[k]);
                    }
                }
                assert forall|k: int| 0 <= k < round + 1 implies encodes_point_with_dlog::<C>(
                    #[trigger] r_vec@[k],
                    linear_r_dlog(
                        linear_fold_a(a0, linear_challenges::<C>(h0, l_vec@, r_vec@, k as nat), qo),
                        linear_fold_up(b0, linear_challenges::<C>(h0, l_vec@, r_vec@, k as nat), qo),
                        linear_fold_up(gd0, linear_challenges::<C>(h0, l_vec@, r_vec@, k as nat), qo),
                        bl[2 * k + 1],
                        d_base,
                        d_f,
                        qo,
                    ),
                ) by {
                    assert(linear_challenges::<C>(h0, l_vec@, r_vec@, k as nat)
                        == linear_challenges::<C>(h0, before_l, before_r, k as nat));
                    if k < round {
                        assert(r_vec@[k] == before_r[k]);
                    }
                }
            }
            append_point::<C>(transcript, "L".as_bytes(), &l);
            append_point::<C>(transcript, "R".as_bytes(), &rr);
            let ghost hb = transcript.history();
            let x_j = challenge_scalar::<C>(transcript, "x_j".as_bytes());
            proof {
                C::lemma_scalar_field(x_j);
                assert(transcript.history() == linear_rounds::<C>(
                    h0,
                    l_vec@,
                    r_vec@,
                    (round + 1) as nat,
                ));
            }
            let x_inv = scalar_invert_or_zero(&x_j);
            proof {
                assert(hb == linear_rounds::<C>(h0, l_vec@, r_vec@, round as nat).push(
                    (false, "L".spec_bytes(), C::compressed_view(l_vec@[round as int])),
                ).push((false, "R".spec_bytes(), C::compressed_view(r_vec@[round as int]))));
                assert(x_j.value() == linear_challenge::<C>(h0, l_vec@, r_vec@, round as nat));
                <C::Scalar as GoldenScalar>::lemma_scalar_model(x_j, x_inv);
                <C::Scalar as GoldenScalar>::lemma_scalar_model(x_inv, x_j);
                lemma_inverse_mod(x_j.value() as int, x_inv.value() as int, qo);
            }
            let mut next_a: Vec<C::Scalar> = Vec::new();
            let mut next_b: Vec<C::Scalar> = Vec::new();
            let mut next_g: Vec<C::Point> = Vec::new();
            let mut i: usize = 0;
            while i < m
                invariant
                    i <= m,
                    a_l@.len() == m,
                    a_r@.len() == m,
                    b_l@.len() == m,
                    b_r@.len() == m,
                    g_l@.len() == m,
                    g_r@.len() == m,
                    a_l@ == a@.subrange(0, m as int),
                    a_r@ == a@.subrange(m as int, 2 * m as int),
                    b_l@ == b@.subrange(0, m as int),
                    b_r@ == b@.subrange(m as int, 2 * m as int),
                    g_l@ == g@.subrange(0, m as int),
                    g_r@ == g@.subrange(m as int, 2 * m as int),
                    cur == 2 * m,
                    a@.len() == cur,
                    b@.len() == cur,
                    g@.len() == cur,
                    forall|t: int| 0 <= t < cur ==> (#[trigger] a@[t]).wf(),
                    forall|t: int| 0 <= t < cur ==> (#[trigger] b@[t]).wf(),
                    forall|t: int| 0 <= t < cur ==> C::point_wf(#[trigger] g@[t]),
                    one.wf(),
                    one.value() == 1,
                    x_j.wf(),
                    x_inv.wf(),
                    next_a@.len() == i,
                    next_b@.len() == i,
                    next_g@.len() == i,
                    forall|t: int| 0 <= t < i ==> (#[trigger] next_a@[t]).wf(),
                    forall|t: int| 0 <= t < i ==> (#[trigger] next_b@[t]).wf(),
                    forall|t: int| 0 <= t < i ==> C::point_wf(#[trigger] next_g@[t]),
                    forall|t: int|
                        0 <= t < i ==> (#[trigger] next_b@[t]).value() == (b@[t].value() as int * 1
                            + x_j.value() as int * b@[t + m].value()) % qo,
                    forall|t: int|
                        0 <= t < i ==> C::point_dlog(#[trigger] next_g@[t]) == (C::point_dlog(g@[t])
                            as int * 1 + x_j.value() as int * C::point_dlog(g@[t + m])) % qo,
                    qo == C::scalar_order(),
                    qo == <C::Scalar as GoldenScalar>::field_order(),
                    qo > 1,
                    forall|t: int|
                        0 <= t < i ==> (#[trigger] next_a@[t]).value() == (a@[t].value() as int * 1
                            + x_inv.value() as int * a@[t + m].value()) % qo,
                decreases m - i,
            {
                proof {
                    assert(a_l@[i as int] == a@[i as int]);
                    assert(a_r@[i as int] == a@[m + i]);
                    assert(b_l@[i as int] == b@[i as int]);
                    assert(b_r@[i as int] == b@[m + i]);
                    assert(g_l@[i as int] == g@[i as int]);
                    assert(g_r@[i as int] == g@[m + i]);
                }
                let xa = x_inv.mul(&a_r[i]);
                proof {
                    vstd::arithmetic::div_mod::lemma_add_mod_noop_right(
                        a_l@[i as int].value() as int,
                        x_inv.value() as int * a_r@[i as int].value(),
                        qo,
                    );
                    assert(a_l@[i as int].value() as int * 1 == a_l@[i as int].value());
                }
                next_a.push(a_l[i].add(&xa));
                let xb = x_j.mul(&b_r[i]);
                proof {
                    vstd::arithmetic::div_mod::lemma_add_mod_noop_right(
                        b_l@[i as int].value() as int,
                        x_j.value() as int * b_r@[i as int].value(),
                        qo,
                    );
                    assert(b_l@[i as int].value() as int * 1 == b_l@[i as int].value());
                }
                next_b.push(b_l[i].add(&xb));
                let pair_scalars = vec![one, x_j];
                let pair_points = vec![g_l[i], g_r[i]];
                let folded = C::vartime_msm(pair_scalars.as_slice(), pair_points.as_slice());
                proof {
                    assert(pair_scalars@ =~= seq![one, x_j]);
                    assert(pair_points@ =~= seq![g_l@[i as int], g_r@[i as int]]);
                    lemma_dot2(
                        values_of(pair_scalars@),
                        pair_points@.map_values(|p: C::Point| C::point_dlog(p) as int),
                    );
                    assert(values_of(pair_scalars@)[0] == 1);
                    assert(values_of(pair_scalars@)[1] == x_j.value());
                    let dgl = C::point_dlog(g_l@[i as int]) as int;
                    assert(dgl * 1 == 1 * dgl) by (nonlinear_arith);
                }
                next_g.push(folded);
                i = i + 1;
            }
            proof {
                C::lemma_scalar_field(blindings@[2 * round as int]);
            }
            let xs_j = x_j.mul(&s_j);
            let r1 = r.add(&xs_j);
            let xt_j = x_inv.mul(&t_j);
            proof {
                vstd::arithmetic::div_mod::lemma_add_mod_noop_right(
                    r.value() as int,
                    x_j.value() as int * s_j.value(),
                    qo,
                );
                vstd::arithmetic::div_mod::lemma_add_mod_noop(
                    r.value() as int + x_j.value() as int * s_j.value(),
                    x_inv.value() as int * t_j.value(),
                    qo,
                );
                vstd::arithmetic::div_mod::lemma_mod_twice(
                    r.value() as int + x_j.value() as int * s_j.value(),
                    qo,
                );
                let xs_old = linear_challenges::<C>(h0, before_l, before_r, round as nat);
                let xs_new = linear_challenges::<C>(h0, l_vec@, r_vec@, (round + 1) as nat);
                lemma_linear_challenges_prefix::<C>(
                    h0,
                    before_l,
                    before_r,
                    l_vec@,
                    r_vec@,
                    round as nat,
                );
                assert(xs_new.drop_last() =~= linear_challenges::<C>(
                    h0,
                    l_vec@,
                    r_vec@,
                    round as nat,
                ));
                assert(xs_new.last() == x_j.value());
                assert(bl[2 * round as int] == s_j.value());
                assert(bl[2 * round + 1] == t_j.value());
                assert(values_of(next_a@) =~= fold_halves(
                    values_of(a@),
                    1,
                    inverse_mod(x_j.value() as int, qo),
                    qo,
                ));
                assert(values_of(next_a@) == linear_fold_a(a0, xs_new, qo));
                assert(values_of(next_b@) =~= fold_halves(values_of(b@), 1, x_j.value() as int, qo));
                assert(values_of(next_b@) == linear_fold_up(b0, xs_new, qo));
                assert(point_dlogs::<C>(next_g@) =~= fold_halves(
                    point_dlogs::<C>(g@),
                    1,
                    x_j.value() as int,
                    qo,
                ));
                assert(point_dlogs::<C>(next_g@) == linear_fold_up(gd0, xs_new, qo));
            }
            r = r1.add(&xt_j);
            a = next_a;
            b = next_b;
            g = next_g;
            cur = m;
            round = round + 1;
        }
        proof {
            assert(cur == 1) by {
                vstd::arithmetic::power2::lemma2_to64();
            }
        }
        let s_star = blindings[2 * lg_n];
        let t_star = blindings[2 * lg_n + 1];
        let sb = s_star.mul(&b[0]);
        let final_scalars = vec![t_star, sb, s_star];
        let final_points = vec![*base, *f, g[0]];
        let s_point = C::vartime_msm(final_scalars.as_slice(), final_points.as_slice());
        let s_comp = C::point_compress(&s_point);
        proof {
            lemma_dot3(
                values_of(final_scalars@),
                final_points@.map_values(|p: C::Point| C::point_dlog(p) as int),
            );
            assert(values_of(b@)[0] == b@[0].value());
            assert(point_dlogs::<C>(g@)[0] == C::point_dlog(g@[0]));
            assert(bl[2 * lg_n as int] == s_star.value());
            assert(bl[2 * lg_n + 1] == t_star.value());
            assert(encodes_point_with_dlog::<C>(s_comp, C::point_dlog(s_point) as int));
        }
        append_point::<C>(transcript, "S".as_bytes(), &s_comp);
        let ghost hs = transcript.history();
        let x_star = challenge_scalar::<C>(transcript, "x_star".as_bytes());
        proof {
            C::lemma_scalar_field(x_star);
        }
        let xa_star = x_star.mul(&a[0]);
        let a_star = s_star.add(&xa_star);
        let xr_star = x_star.mul(&r);
        let r_star = t_star.add(&xr_star);
        proof {
            C::lemma_scalar_field(a_star);
            C::lemma_scalar_field(r_star);
            vstd::arithmetic::div_mod::lemma_add_mod_noop_right(
                s_star.value() as int,
                x_star.value() as int * a@[0].value(),
                qo,
            );
            vstd::arithmetic::div_mod::lemma_add_mod_noop_right(
                t_star.value() as int,
                x_star.value() as int * r.value(),
                qo,
            );
            assert(values_of(a@)[0] == a@[0].value());
            assert(bl[2 * lg_n as int] == s_star.value());
            assert(bl[2 * lg_n + 1] == t_star.value());
            assert(hs == linear_rounds::<C>(h0, l_vec@, r_vec@, lg_n as nat).push(
                (false, "S".spec_bytes(), C::compressed_view(s_comp)),
            ));
        }
        Ok(LinearProof::from_parts(l_vec, r_vec, s_comp, a_star, r_star))
    }
}

} // verus!
