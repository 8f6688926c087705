//! The prover's side of the inner-product argument, over a curve cycle whose
//! commitment group the library models by discrete logarithms.
use vstd::arithmetic::power2::pow2;
use vstd::prelude::*;

use crate::group::{GoldenGroup, GoldenScalar};
use crate::bls_cycle::{BlsG1Element, Bls12_381G1Cycle};
use crate::bls_scalar::BlsScalar;
use crate::cycle::scalar_invert_or_zero;
use crate::ipp_verify::{
    ipp_challenge, ipp_challenges, ipp_round_points, ipp_rounds, ipp_start, lemma_top_bit, top_bit,
};
use crate::proof_transcript::{append_point, challenge_scalar, ProofTranscript, R1csDomain};
use crate::util::inner_product;
use crate::jubjub_cycle::{jubjub_msm_sum, JubjubCycle};
use crate::jubjub_group::{jubjub_order, JubjubElement, JubjubGoldenGroup, JubjubScalar};
use crate::proof_bytes::InnerProductProof;
use crate::proof_cycle::Cycle;
use crate::shamir::values_of;

verus! {

/// A curve cycle whose commitment-group points the proof layer computes
/// with: each point is described by its discrete logarithm and encoding.
pub trait CycleGroup: Cycle {
    /// Commitment-group point.
    type Point: Copy;

    /// The point is a group element (every point a program holds is).
    spec fn point_wf(p: Self::Point) -> bool;

    /// Discrete logarithm of the point with respect to the generator.
    spec fn point_dlog(p: Self::Point) -> nat;

    /// The compressed encoding of the point.
    spec fn point_encoding(p: Self::Point) -> Seq<u8>;

    /// Compress a point.
    fn point_compress(point: &Self::Point) -> (compressed: Self::Compressed)
        requires
            Self::point_wf(*point),
        ensures
            Self::compressed_view(compressed) == Self::point_encoding(*point),
    ;

    /// A point's discrete logarithm lies below the group order.
    proof fn lemma_point(p: Self::Point)
        requires
            Self::point_wf(p),
        ensures
            Self::point_dlog(p) < Self::scalar_order(),
    ;

    /// Whether the point is the identity.
    fn point_is_identity(point: &Self::Point) -> (identity: bool)
        requires
            Self::point_wf(*point),
        ensures
            identity == (Self::point_dlog(*point) == 0),
    ;

    /// `sum(scalars[i] * points[i])`.
    fn vartime_msm(scalars: &[Self::Scalar], points: &[Self::Point]) -> (sum: Self::Point)
        requires
            scalars@.len() == points@.len(),
            forall|i: int| 0 <= i < scalars@.len() ==> (#[trigger] scalars@[i]).wf(),
            forall|i: int| 0 <= i < points@.len() ==> Self::point_wf(#[trigger] points@[i]),
        ensures
            Self::point_wf(sum),
            Self::point_dlog(sum) == dot(
                values_of(scalars@),
                points@.map_values(|p: Self::Point| Self::point_dlog(p) as int),
                points@.len(),
            ) % (Self::scalar_order() as int),
    ;
}

/// `sum_{i < k} xs[i] * ys[i]`.
pub open spec fn dot(xs: Seq<int>, ys: Seq<int>, k: nat) -> int
    decreases k,
{
    if k == 0 {
        0
    } else {
        dot(xs, ys, (k - 1) as nat) + xs[k - 1] * ys[k - 1]
    }
}

proof fn lemma_jubjub_msm_sum(scalars: Seq<JubjubScalar>, points: Seq<JubjubElement>, k: nat)
    requires
        k <= scalars.len(),
        k <= points.len(),
    ensures
        dot(
            values_of(scalars),
            points.map_values(|p: JubjubElement| JubjubGoldenGroup::dlog(p) as int),
            k,
        ) == jubjub_msm_sum(scalars, points, k),
    decreases k,
{
    if k > 0 {
        lemma_jubjub_msm_sum(scalars, points, (k - 1) as nat);
    }
}

impl CycleGroup for JubjubCycle {
    type Point = JubjubElement;

    open spec fn point_wf(p: JubjubElement) -> bool {
        JubjubGoldenGroup::element_wf(p)
    }

    open spec fn point_dlog(p: JubjubElement) -> nat {
        JubjubGoldenGroup::dlog(p)
    }

    open spec fn point_encoding(p: JubjubElement) -> Seq<u8> {
        p@
    }

    fn point_compress(point: &JubjubElement) -> (compressed: [u8; 32]) {
        JubjubCycle::point_compress(point)
    }

    proof fn lemma_point(p: JubjubElement) {
        JubjubGoldenGroup::lemma_group_model(p);
    }

    fn point_is_identity(point: &JubjubElement) -> (identity: bool) {
        JubjubGoldenGroup::is_identity(point)
    }

    fn vartime_msm(scalars: &[JubjubScalar], points: &[JubjubElement]) -> (sum: JubjubElement) {
        let sum = JubjubCycle::vartime_msm(scalars, points);
        proof {
            lemma_jubjub_msm_sum(scalars@, points@, points@.len());
            assert(points@.map_values(|p: JubjubElement| Self::point_dlog(p) as int)
                =~= points@.map_values(|p: JubjubElement| JubjubGoldenGroup::dlog(p) as int));
        }
        sum
    }
}

impl CycleGroup for Bls12_381G1Cycle {
    type Point = BlsG1Element;

    open spec fn point_wf(p: BlsG1Element) -> bool {
        p.wf()
    }

    open spec fn point_dlog(p: BlsG1Element) -> nat {
        p.dlog()
    }

    open spec fn point_encoding(p: BlsG1Element) -> Seq<u8> {
        p@
    }

    fn point_compress(point: &BlsG1Element) -> (compressed: [u8; 48]) {
        Bls12_381G1Cycle::point_compress(point)
    }

    proof fn lemma_point(p: BlsG1Element) {
    }

    fn point_is_identity(point: &BlsG1Element) -> (identity: bool) {
        point.is_identity()
    }

    fn vartime_msm(scalars: &[BlsScalar], points: &[BlsG1Element]) -> (sum: BlsG1Element) {
        let sum = Bls12_381G1Cycle::vartime_msm(scalars, points);
        proof {
            assert(points@.map_values(|p: BlsG1Element| Self::point_dlog(p) as int)
                =~= points@.map_values(|p: BlsG1Element| p.dlog() as int));
        }
        sum
    }
}

/// The rounds of `k` steps depend on the first `k` round points alone.
proof fn lemma_ipp_rounds_prefix<C: Cycle>(
    h: Seq<(bool, Seq<u8>, Seq<u8>)>,
    ls: Seq<C::Compressed>,
    rs: Seq<C::Compressed>,
    ls2: Seq<C::Compressed>,
    rs2: Seq<C::Compressed>,
    k: nat,
)
    requires
        k <= ls.len(),
        k <= rs.len(),
        k <= ls2.len(),
        k <= rs2.len(),
        forall|i: int| 0 <= i < k ==> ls[i] == ls2[i] && rs[i] == rs2[i],
    ensures
        ipp_rounds::<C>(h, ls, rs, k) == ipp_rounds::<C>(h, ls2, rs2, k),
    decreases k,
{
    if k > 0 {
        lemma_ipp_rounds_prefix::<C>(h, ls, rs, ls2, rs2, (k - 1) as nat);
    }
}

/// The halves `v[0 .. m]` and `v[m .. 2m]` of a vector of length `2m`.
fn split_halves<S: GoldenScalar>(v: &Vec<S>, m: usize) -> (halves: (Vec<S>, Vec<S>))
    requires
        v@.len() == 2 * m,
        forall|i: int| 0 <= i < v@.len() ==> (#[trigger] v@[i]).wf(),
    ensures
        halves.0@ == v@.subrange(0, m as int),
        halves.1@ == v@.subrange(m as int, 2 * m as int),
        forall|i: int| 0 <= i < m ==> (#[trigger] halves.0@[i]).wf() && halves.1@[i].wf(),
{
    let total = v.len();
    let mut lo: Vec<S> = Vec::new();
    let mut hi: Vec<S> = Vec::new();
    let mut i: usize = 0;
    while i < m
        invariant
            i <= m,
            v@.len() == 2 * m,
            total == 2 * m,
            forall|t: int| 0 <= t < v@.len() ==> (#[trigger] v@[t]).wf(),
            lo@ == v@.subrange(0, i as int),
            hi@ == v@.subrange(m as int, m + i),
        decreases m - i,
    {
        lo.push(v[i]);
        hi.push(v[m + i]);
        i = i + 1;
        assert(lo@ =~= v@.subrange(0, i as int));
        assert(hi@ =~= v@.subrange(m as int, m + i));
    }
    (lo, hi)
}

/// `v` is an inverse of `u` modulo `q`, below `q`.
pub open spec fn is_inverse_mod(v: int, u: int, q: int) -> bool {
    0 <= v < q && (v * u) % q == 1
}

/// The inverse of `u` modulo `q`, or zero where `u` has none.
pub open spec fn inverse_mod(u: int, q: int) -> int {
    if exists|v: int| #[trigger] is_inverse_mod(v, u, q) {
        choose|v: int| #[trigger] is_inverse_mod(v, u, q)
    } else {
        0
    }
}

/// An inverse modulo `q` is unique, and zero has none.
pub proof fn lemma_inverse_mod(u: int, w: int, q: int)
    requires
        q > 1,
        0 <= u < q,
        0 <= w < q,
        u == 0 ==> w == 0,
        u != 0 ==> (w * u) % q == 1,
    ensures
        inverse_mod(u, q) == w,
{
    if u == 0 {
        assert forall|v: int| !(#[trigger] is_inverse_mod(v, u, q)) by {
            assert(v * u == 0);
        }
    } else {
        assert(is_inverse_mod(w, u, q));
        let c = choose|v: int| #[trigger] is_inverse_mod(v, u, q);
        vstd::arithmetic::div_mod::lemma_mul_mod_noop_right(c, w * u, q);
        vstd::arithmetic::div_mod::lemma_mul_mod_noop_right(w, c * u, q);
        assert(c * (w * u) == w * (c * u)) by (nonlinear_arith);
        vstd::arithmetic::div_mod::lemma_small_mod(c as nat, q as nat);
        vstd::arithmetic::div_mod::lemma_small_mod(w as nat, q as nat);
        assert(c * 1 == c);
        assert(w * 1 == w);
    }
}

/// One folding round: the low half times `x` plus `y` times the high half,
/// modulo `q`.
pub open spec fn fold_halves(v: Seq<int>, x: int, y: int, q: int) -> Seq<int> {
    let m = v.len() / 2;
    Seq::new(m, |i: int| (v[i] * x + y * v[i + m]) % q)
}

/// The vector `a` of an inner-product proof after folding by the challenges
/// `us` in order: round `j` maps `a` to `a_lo * u_j + u_j^-1 * a_hi`.
pub open spec fn ipp_fold_a(v: Seq<int>, us: Seq<int>, q: int) -> Seq<int>
    decreases us.len(),
{
    if us.len() == 0 {
        v
    } else {
        fold_halves(ipp_fold_a(v, us.drop_last(), q), us.last(), inverse_mod(us.last(), q), q)
    }
}

/// The vector `b` of an inner-product proof after folding by the challenges
/// `us` in order: round `j` maps `b` to `b_lo * u_j^-1 + u_j * b_hi`.
pub open spec fn ipp_fold_b(v: Seq<int>, us: Seq<int>, q: int) -> Seq<int>
    decreases us.len(),
{
    if us.len() == 0 {
        v
    } else {
        fold_halves(ipp_fold_b(v, us.drop_last(), q), inverse_mod(us.last(), q), us.last(), q)
    }
}

/// The challenges of the first `k` rounds depend on the first `k` round
/// points alone.
proof fn lemma_ipp_challenges_prefix<C: Cycle>(
    h: Seq<(bool, Seq<u8>, Seq<u8>)>,
    ls: Seq<C::Compressed>,
    rs: Seq<C::Compressed>,
    ls2: Seq<C::Compressed>,
    rs2: Seq<C::Compressed>,
    k: nat,
)
    requires
        k <= ls.len(),
        k <= rs.len(),
        k <= ls2.len(),
        k <= rs2.len(),
        forall|i: int| 0 <= i < k ==> ls[i] == ls2[i] && rs[i] == rs2[i],
    ensures
        ipp_challenges::<C>(h, ls, rs, k) == ipp_challenges::<C>(h, ls2, rs2, k),
{
    assert forall|i: int| 0 <= i < k implies #[trigger] ipp_challenge::<C>(h, ls, rs, i as nat)
        == ipp_challenge::<C>(h, ls2, rs2, i as nat) by {
        lemma_ipp_rounds_prefix::<C>(h, ls, rs, ls2, rs2, i as nat);
    }
    assert(ipp_challenges::<C>(h, ls, rs, k) =~= ipp_challenges::<C>(h, ls2, rs2, k));
}

impl<C: CycleGroup> InnerProductProof<C> {
    /// Create an inner-product proof of `<a, b>` with respect to the bases
    /// `g` and `h' = h_factors * h` and the common base `q`.
    ///
    /// All input vectors share one length `n`, a power of two. The proof has
    /// one `L` and one `R` point per folding round, `log2(n)` rounds; the
    /// transcript takes the inner-product domain separator and, per round,
    /// `L`, `R` and the challenge `u` that folds the vectors.
    pub fn create(
        transcript: &mut ProofTranscript,
        q: &C::Point,
        g_factors: &[C::Scalar],
        h_factors: &[C::Scalar],
        g: &[C::Point],
        h: &[C::Point],
        a_vec: Vec<C::Scalar>,
        b_vec: Vec<C::Scalar>,
    ) -> (proof: Self)
        requires
            exists|lg: nat| g@.len() == pow2(lg),
            h@.len() == g@.len(),
            a_vec@.len() == g@.len(),
            b_vec@.len() == g@.len(),
            g_factors@.len() == g@.len(),
            h_factors@.len() == g@.len(),
            C::point_wf(*q),
            forall|i: int| 0 <= i < g@.len() ==> C::point_wf(#[trigger] g@[i]),
            forall|i: int| 0 <= i < h@.len() ==> C::point_wf(#[trigger] h@[i]),
            forall|i: int| 0 <= i < a_vec@.len() ==> (#[trigger] a_vec@[i]).wf(),
            forall|i: int| 0 <= i < b_vec@.len() ==> (#[trigger] b_vec@[i]).wf(),
            forall|i: int| 0 <= i < g_factors@.len() ==> (#[trigger] g_factors@[i]).wf(),
            forall|i: int| 0 <= i < h_factors@.len() ==> (#[trigger] h_factors@[i]).wf(),
        ensures
            proof.ls().len() == top_bit(g@.len() as nat),
            proof.rs().len() == top_bit(g@.len() as nat),
            final(transcript).history() == ipp_rounds::<C>(
                ipp_start(old(transcript).history(), g@.len() as u64),
                proof.ls(),
                proof.rs(),
                top_bit(g@.len() as nat),
            ),
            ({
                let us = ipp_challenges::<C>(
                    ipp_start(old(transcript).history(), g@.len() as u64),
                    proof.ls(),
                    proof.rs(),
                    top_bit(g@.len() as nat),
                );
                let qo = C::scalar_order() as int;
                &&& proof.a_spec().value() == ipp_fold_a(values_of(a_vec@), us, qo)[0]
                &&& proof.b_spec().value() == ipp_fold_b(values_of(b_vec@), us, qo)[0]
            }),
    {
        let n = g.len();
        let ghost big_lg = choose|lg: nat| n == pow2(lg);
        // The number of rounds: `n == 2^lg_n`.
        let mut lg_n: usize = 0;
        let mut size: usize = 1;
        proof {
            vstd::arithmetic::power2::lemma2_to64();
            vstd::arithmetic::power2::lemma_pow2_pos(big_lg);
        }
        while size < n
            invariant
                size == pow2(lg_n as nat),
                size <= n,
                size >= 1,
                lg_n + 1 <= size,
                n == pow2(big_lg),
                lg_n <= big_lg,
            decreases n - size,
        {
            proof {
                if lg_n == big_lg {
                    assert(false);
                }
                vstd::arithmetic::power2::lemma_pow2_unfold((lg_n + 1) as nat);
                if lg_n + 1 < big_lg {
                    vstd::arithmetic::power2::lemma_pow2_strictly_increases(
                        (lg_n + 1) as nat,
                        big_lg,
                    );
                }
            }
            size = 2 * size;
            lg_n = lg_n + 1;
        }
        proof {
            if lg_n < big_lg {
                vstd::arithmetic::power2::lemma_pow2_strictly_increases(lg_n as nat, big_lg);
            }
            vstd::arithmetic::power2::lemma_pow2_unfold((lg_n + 1) as nat);
            lemma_top_bit(n as nat, lg_n as nat);
            if lg_n >= usize::BITS {
                vstd::arithmetic::power2::lemma2_to64();
                if lg_n > usize::BITS {
                    vstd::arithmetic::power2::lemma_pow2_strictly_increases(
                        usize::BITS as nat,
                        lg_n as nat,
                    );
                }
                assert(false);
            }
            if lg_n >= 64 {
                vstd::arithmetic::power2::lemma2_to64();
                if lg_n > 64 {
                    vstd::arithmetic::power2::lemma_pow2_strictly_increases(64, lg_n as nat);
                }
            }
        }
        transcript.innerproduct_domain_sep(n as u64);
        let ghost h0 = transcript.history();
        proof {
            reveal_strlit("L");
            reveal_strlit("R");
            reveal_strlit("u");
        }
        let ghost a0 = values_of(a_vec@);
        let ghost b0 = values_of(b_vec@);
        let ghost qo = C::scalar_order() as int;
        proof {
            C::lemma_scalar_field(a_vec@[0]);
            <C::Scalar as GoldenScalar>::lemma_scalar_model(a_vec@[0], a_vec@[0]);
        }
        let mut a = a_vec;
        let mut b = b_vec;
        let mut g_coef: Vec<C::Scalar> = Vec::new();
        let mut h_coef: Vec<C::Scalar> = Vec::new();
        let mut j: usize = 0;
        while j < n
            invariant
                j <= n,
                g_factors@.len() == n,
                h_factors@.len() == n,
                g_coef@.len() == j,
                h_coef@.len() == j,
                forall|i: int| 0 <= i < n ==> (#[trigger] g_factors@[i]).wf(),
                forall|i: int| 0 <= i < n ==> (#[trigger] h_factors@[i]).wf(),
                forall|i: int| 0 <= i < j ==> (#[trigger] g_coef@[i]).wf(),
                forall|i: int| 0 <= i < j ==> (#[trigger] h_coef@[i]).wf(),
            decreases n - j,
        {
            g_coef.push(g_factors[j]);
            h_coef.push(h_factors[j]);
            j = j + 1;
        }
        let mut l_vec: Vec<C::Compressed> = Vec::new();
        let mut r_vec: Vec<C::Compressed> = Vec::new();
        let mut cur: usize = n;
        let mut round: usize = 0;
        while round < lg_n
            invariant
                round <= lg_n,
                lg_n < 64,
                lg_n < usize::BITS,
                n == pow2(lg_n as nat),
                cur == pow2((lg_n - round) as nat),
                a@.len() == cur,
                b@.len() == cur,
                g_coef@.len() == n,
                h_coef@.len() == n,
                g@.len() == n,
                h@.len() == n,
                C::point_wf(*q),
                forall|i: int| 0 <= i < n ==> C::point_wf(#[trigger] g@[i]),
                forall|i: int| 0 <= i < n ==> C::point_wf(#[trigger] h@[i]),
                forall|i: int| 0 <= i < cur ==> (#[trigger] a@[i]).wf(),
                forall|i: int| 0 <= i < cur ==> (#[trigger] b@[i]).wf(),
                forall|i: int| 0 <= i < n ==> (#[trigger] g_coef@[i]).wf(),
                forall|i: int| 0 <= i < n ==> (#[trigger] h_coef@[i]).wf(),
                l_vec@.len() == round,
                r_vec@.len() == round,
                transcript.history() == ipp_rounds::<C>(h0, l_vec@, r_vec@, round as nat),
                qo == C::scalar_order(),
                qo == <C::Scalar as GoldenScalar>::field_order(),
                qo > 1,
                values_of(a@) == ipp_fold_a(a0, ipp_challenges::<C>(h0, l_vec@, r_vec@, round as nat), qo),
                values_of(b@) == ipp_fold_b(b0, ipp_challenges::<C>(h0, l_vec@, r_vec@, round as nat), qo),
            decreases lg_n - round,
        {
            proof {
                vstd::arithmetic::power2::lemma_pow2_unfold((lg_n - round) as nat);
                vstd::arithmetic::power2::lemma_pow2_pos((lg_n - round - 1) as nat);
            }
            let m = cur / 2;
            let mask = m - 1;
            let shift = lg_n - round - 1;
            let (a_lo, a_hi) = split_halves(&a, m);
            let (b_lo, b_hi) = split_halves(&b, m);
            let c_l = inner_product(a_lo.as_slice(), b_hi.as_slice());
            let c_r = inner_product(a_hi.as_slice(), b_lo.as_slice());
            let mut scalars_l: Vec<C::Scalar> = Vec::new();
            let mut points_l: Vec<C::Point> = Vec::new();
            let mut scalars_r: Vec<C::Scalar> = Vec::new();
            let mut points_r: Vec<C::Point> = Vec::new();
            let mut j: usize = 0;
            while j < n
                invariant
                    j <= n,
                    m >= 1,
                    mask == m - 1,
                    shift < usize::BITS,
                    a_lo@.len() == m,
                    a_hi@.len() == m,
                    b_lo@.len() == m,
                    b_hi@.len() == m,
                    forall|i: int| 0 <= i < m ==> (#[trigger] a_lo@[i]).wf(),
                forall|i: int| 0 <= i < m ==> (#[trigger] a_hi@[i]).wf(),
                    forall|i: int| 0 <= i < m ==> (#[trigger] b_lo@[i]).wf(),
                forall|i: int| 0 <= i < m ==> (#[trigger] b_hi@[i]).wf(),
                    g_coef@.len() == n,
                    h_coef@.len() == n,
                    g@.len() == n,
                    h@.len() == n,
                    forall|i: int| 0 <= i < n ==> C::point_wf(#[trigger] g@[i]),
                forall|i: int| 0 <= i < n ==> C::point_wf(#[trigger] h@[i]),
                    forall|i: int| 0 <= i < n ==> (#[trigger] g_coef@[i]).wf(),
                forall|i: int| 0 <= i < n ==> (#[trigger] h_coef@[i]).wf(),
                    scalars_l@.len() == j,
                    points_l@.len() == j,
                    scalars_r@.len() == j,
                    points_r@.len() == j,
                    forall|i: int| 0 <= i < j ==> (#[trigger] scalars_l@[i]).wf(),
                forall|i: int| 0 <= i < j ==> (#[trigger] scalars_r@[i]).wf(),
                    forall|i: int| 0 <= i < j ==> C::point_wf(#[trigger] points_l@[i]),
                forall|i: int| 0 <= i < j ==> C::point_wf(#[trigger] points_r@[i]),
                decreases n - j,
            {
                let idx = j & mask;
                assert(j & mask <= mask) by (bit_vector);
                if (j >> shift) & 1 == 1 {
                    scalars_l.push(a_lo[idx].mul(&g_coef[j]));
                    points_l.push(g[j]);
                    scalars_r.push(b_lo[idx].mul(&h_coef[j]));
                    points_r.push(h[j]);
                } else {
                    scalars_r.push(a_hi[idx].mul(&g_coef[j]));
                    points_r.push(g[j]);
                    scalars_l.push(b_hi[idx].mul(&h_coef[j]));
                    points_l.push(h[j]);
                }
                j = j + 1;
            }
            scalars_l.push(c_l);
            points_l.push(*q);
            scalars_r.push(c_r);
            points_r.push(*q);
            let l_point = C::vartime_msm(scalars_l.as_slice(), points_l.as_slice());
            let r_point = C::vartime_msm(scalars_r.as_slice(), points_r.as_slice());
            let l = C::point_compress(&l_point);
            let r = C::point_compress(&r_point);
            let ghost before_l = l_vec@;
            let ghost before_r = r_vec@;
            l_vec.push(l);
            r_vec.push(r);
            proof {
                lemma_ipp_rounds_prefix::<C>(h0, before_l, before_r, l_vec@, r_vec@, round as nat);
            }
            append_point::<C>(transcript, "L".as_bytes(), &l);
            append_point::<C>(transcript, "R".as_bytes(), &r);
            let ghost hb = transcript.history();
            let u = challenge_scalar::<C>(transcript, "u".as_bytes());
            proof {
                C::lemma_scalar_field(u);
                assert(transcript.history() == ipp_rounds::<C>(
                    h0,
                    l_vec@,
                    r_vec@,
                    (round + 1) as nat,
                ));
            }
            let u_inv = scalar_invert_or_zero(&u);
            proof {
                assert(hb == ipp_round_points::<C>(
                    ipp_rounds::<C>(h0, l_vec@, r_vec@, round as nat),
                    l_vec@,
                    r_vec@,
                    round as nat,
                ));
                assert(u.value() == ipp_challenge::<C>(h0, l_vec@, r_vec@, round as nat));
                <C::Scalar as GoldenScalar>::lemma_scalar_model(u, u_inv);
                <C::Scalar as GoldenScalar>::lemma_scalar_model(u_inv, u);
                lemma_inverse_mod(u.value() as int, u_inv.value() as int, qo);
            }
            let mut next_a: Vec<C::Scalar> = Vec::new();
            let mut next_b: Vec<C::Scalar> = Vec::new();
            let mut i: usize = 0;
            while i < m
                invariant
                    i <= m,
                    a_lo@.len() == m,
                    a_hi@.len() == m,
                    b_lo@.len() == m,
                    b_hi@.len() == m,
                    forall|t: int| 0 <= t < m ==> (#[trigger] a_lo@[t]).wf(),
                forall|t: int| 0 <= t < m ==> (#[trigger] a_hi@[t]).wf(),
                    forall|t: int| 0 <= t < m ==> (#[trigger] b_lo@[t]).wf(),
                forall|t: int| 0 <= t < m ==> (#[trigger] b_hi@[t]).wf(),
                    u.wf(),
                    u_inv.wf(),
                    next_a@.len() == i,
                    next_b@.len() == i,
                    forall|t: int| 0 <= t < i ==> (#[trigger] next_a@[t]).wf(),
                forall|t: int| 0 <= t < i ==> (#[trigger] next_b@[t]).wf(),
                    qo == <C::Scalar as GoldenScalar>::field_order(),
                    qo > 1,
                    forall|t: int|
                        0 <= t < i ==> (#[trigger] next_a@[t]).value() == (a_lo@[t].value() as int * u.value()
                            + u_inv.value() as int * a_hi@[t].value()) % qo,
                    forall|t: int|
                        0 <= t < i ==> (#[trigger] next_b@[t]).value() == (b_lo@[t].value() as int * u_inv.value()
                            + u.value() as int * b_hi@[t].value()) % qo,
                decreases m - i,
            {
                let x1 = a_lo[i].mul(&u);
                let x2 = u_inv.mul(&a_hi[i]);
                let y1 = b_lo[i].mul(&u_inv);
                let y2 = u.mul(&b_hi[i]);
                proof {
                    vstd::arithmetic::div_mod::lemma_add_mod_noop(
                        a_lo@[i as int].value() as int * u.value(),
                        u_inv.value() as int * a_hi@[i as int].value(),
                        qo,
                    );
                    vstd::arithmetic::div_mod::lemma_add_mod_noop(
                        b_lo@[i as int].value() as int * u_inv.value(),
                        u.value() as int * b_hi@[i as int].value(),
                        qo,
                    );
                }
                next_a.push(x1.add(&x2));
                next_b.push(y1.add(&y2));
                i = i + 1;
            }
            proof {
                let us_old = ipp_challenges::<C>(h0, before_l, before_r, round as nat);
                let us_new = ipp_challenges::<C>(h0, l_vec@, r_vec@, (round + 1) as nat);
                lemma_ipp_challenges_prefix::<C>(h0, before_l, before_r, l_vec@, r_vec@, round as nat);
                assert(us_new.drop_last() =~= ipp_challenges::<C>(h0, l_vec@, r_vec@, round as nat));
                assert(us_new.last() == u.value());
                assert(values_of(next_a@) =~= fold_halves(
                    values_of(a@),
                    u.value() as int,
                    inverse_mod(u.value() as int, qo),
                    qo,
                ));
                assert(values_of(next_b@) =~= fold_halves(
                    values_of(b@),
                    inverse_mod(u.value() as int, qo),
                    u.value() as int,
                    qo,
                ));
                assert(values_of(next_a@) == ipp_fold_a(a0, us_new, qo));
                assert(values_of(next_b@) == ipp_fold_b(b0, us_new, qo));
            }
            let mut next_g: Vec<C::Scalar> = Vec::new();
            let mut next_h: Vec<C::Scalar> = Vec::new();
            let mut j: usize = 0;
            while j < n
                invariant
                    j <= n,
                    g_coef@.len() == n,
                    h_coef@.len() == n,
                    forall|t: int| 0 <= t < n ==> (#[trigger] g_coef@[t]).wf(),
                forall|t: int| 0 <= t < n ==> (#[trigger] h_coef@[t]).wf(),
                    u.wf(),
                    u_inv.wf(),
                    shift < usize::BITS,
                    next_g@.len() == j,
                    next_h@.len() == j,
                    forall|t: int| 0 <= t < j ==> (#[trigger] next_g@[t]).wf(),
                forall|t: int| 0 <= t < j ==> (#[trigger] next_h@[t]).wf(),
                decreases n - j,
            {
                if (j >> shift) & 1 == 1 {
                    next_g.push(g_coef[j].mul(&u));
                    next_h.push(h_coef[j].mul(&u_inv));
                } else {
                    next_g.push(g_coef[j].mul(&u_inv));
                    next_h.push(h_coef[j].mul(&u));
                }
                j = j + 1;
            }
            a = next_a;
            b = next_b;
            g_coef = next_g;
            h_coef = next_h;
            cur = m;
            round = round + 1;
        }
        proof {
            assert(cur == 1) by {
                vstd::arithmetic::power2::lemma2_to64();
            }
            C::lemma_scalar_field(a@[0]);
            C::lemma_scalar_field(b@[0]);
            assert(values_of(a@)[0] == a@[0].value());
            assert(values_of(b@)[0] == b@[0].value());
        }
        let last_a = a[0];
        let last_b = b[0];
        InnerProductProof::from_parts(l_vec, r_vec, last_a, last_b)
    }
}

} // verus!
