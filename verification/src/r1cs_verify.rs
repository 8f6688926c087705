//! Prepared constraint-system verification equations, checked one at a time
//! or in a weighted batch.
use vstd::prelude::*;

use crate::group::GoldenScalar;
use crate::ipp_prove::{dot, CycleGroup};
use crate::proof_cycle::Cycle;
use crate::proof_errors::R1CSError;
use crate::shamir::values_of;

verus! {

/// The discrete logarithms of points.
pub open spec fn dlogs<C: CycleGroup>(points: Seq<C::Point>) -> Seq<int> {
    points.map_values(|p: C::Point| C::point_dlog(p) as int)
}

/// The discrete logarithms of optional points, zero for a missing one.
pub open spec fn opt_dlogs<C: CycleGroup>(points: Seq<Option<C::Point>>) -> Seq<int> {
    points.map_values(
        |p: Option<C::Point>|
            match p {
                Some(q) => C::point_dlog(q) as int,
                None => 0int,
            },
    )
}

/// A fully prepared verification equation: the weighted sum of its points
/// must be the identity. The Pedersen and generator points are kept apart
/// from the proof-specific points so that equations over the same
/// generators can be checked together.
pub struct VerificationEquation<C: CycleGroup> {
    /// Scalars of the two Pedersen generators.
    pub pedersen_scalars: Vec<C::Scalar>,
    /// The two Pedersen generators.
    pub pedersen_points: Vec<C::Point>,
    /// Scalars of the first `G` generators.
    pub g_scalars: Vec<C::Scalar>,
    /// The `G` generators.
    pub g_points: Vec<C::Point>,
    /// Scalars of the first `H` generators.
    pub h_scalars: Vec<C::Scalar>,
    /// The `H` generators.
    pub h_points: Vec<C::Point>,
    /// Scalars of the proof-specific points.
    pub proof_scalars: Vec<C::Scalar>,
    /// The proof-specific points; a missing one fails the check.
    pub proof_points: Vec<Option<C::Point>>,
}

/// Every scalar is a field element and every point a group element.
pub open spec fn equation_wf<C: CycleGroup>(e: VerificationEquation<C>) -> bool {
    &&& e.pedersen_scalars@.len() == 2
    &&& e.pedersen_points@.len() == 2
    &&& forall|i: int| 0 <= i < 2 ==> (#[trigger] e.pedersen_scalars@[i]).wf()
    &&& forall|i: int| 0 <= i < 2 ==> C::point_wf(#[trigger] e.pedersen_points@[i])
    &&& forall|i: int| 0 <= i < e.g_scalars@.len() ==> (#[trigger] e.g_scalars@[i]).wf()
    &&& forall|i: int| 0 <= i < e.g_points@.len() ==> C::point_wf(#[trigger] e.g_points@[i])
    &&& forall|i: int| 0 <= i < e.h_scalars@.len() ==> (#[trigger] e.h_scalars@[i]).wf()
    &&& forall|i: int| 0 <= i < e.h_points@.len() ==> C::point_wf(#[trigger] e.h_points@[i])
    &&& forall|i: int| 0 <= i < e.proof_scalars@.len() ==> (#[trigger] e.proof_scalars@[i]).wf()
    &&& forall|i: int|
        0 <= i < e.proof_points@.len() ==> (#[trigger] e.proof_points@[i] matches Some(p)
            ==> C::point_wf(p))
}

/// The number of proof terms: the common length of the proof scalars and
/// points.
pub open spec fn proof_terms<C: CycleGroup>(e: VerificationEquation<C>) -> nat {
    if e.proof_scalars@.len() < e.proof_points@.len() {
        e.proof_scalars@.len()
    } else {
        e.proof_points@.len()
    }
}

/// Every proof point of the equation's terms is present.
pub open spec fn proof_points_present<C: CycleGroup>(e: VerificationEquation<C>) -> bool {
    forall|i: int| 0 <= i < proof_terms(e) ==> (#[trigger] e.proof_points@[i]) is Some
}

/// The discrete logarithm of the equation's weighted sum of points, before
/// reduction modulo the group order.
pub open spec fn equation_value<C: CycleGroup>(e: VerificationEquation<C>) -> int {
    dot(values_of(e.pedersen_scalars@), dlogs::<C>(e.pedersen_points@), 2) + dot(
        values_of(e.proof_scalars@),
        opt_dlogs::<C>(e.proof_points@),
        proof_terms(e),
    ) + dot(values_of(e.g_scalars@), dlogs::<C>(e.g_points@), e.g_scalars@.len()) + dot(
        values_of(e.h_scalars@),
        dlogs::<C>(e.h_points@),
        e.h_scalars@.len(),
    )
}

/// The order of the scalar field of the cycle.
pub open spec fn order<C: CycleGroup>() -> int {
    C::scalar_order() as int
}

/// `dot` reads only the first `k` entries.
proof fn lemma_dot_prefix(xs: Seq<int>, ys: Seq<int>, xs2: Seq<int>, ys2: Seq<int>, k: nat)
    requires
        forall|i: int| 0 <= i < k ==> xs[i] == xs2[i] && ys[i] == ys2[i],
    ensures
        dot(xs, ys, k) == dot(xs2, ys2, k),
    decreases k,
{
    if k > 0 {
        lemma_dot_prefix(xs, ys, xs2, ys2, (k - 1) as nat);
    }
}

/// `a + b`.
pub fn point_add<C: CycleGroup>(a: &C::Point, b: &C::Point) -> (sum: C::Point)
    requires
        C::point_wf(*a),
        C::point_wf(*b),
    ensures
        C::point_wf(sum),
        C::point_dlog(sum) == (C::point_dlog(*a) as int + C::point_dlog(*b)) % order::<C>(),
{
    let one = <C::Scalar as GoldenScalar>::one();
    let scalars = vec![one, one];
    let points = vec![*a, *b];
    let sum = C::vartime_msm(scalars.as_slice(), points.as_slice());
    proof {
        let xs = values_of(scalars@);
        let ys = points@.map_values(|p: C::Point| C::point_dlog(p) as int);
        assert(xs[0] == 1 && xs[1] == 1);
        assert(ys[0] == C::point_dlog(*a) && ys[1] == C::point_dlog(*b));
        assert(dot(xs, ys, 0) == 0);
        assert(xs[0] * ys[0] == ys[0]) by (nonlinear_arith)
            requires
                xs[0] == 1,
        ;
        assert(xs[1] * ys[1] == ys[1]) by (nonlinear_arith)
            requires
                xs[1] == 1,
        ;
        assert(dot(xs, ys, 1) == C::point_dlog(*a));
        assert(dot(xs, ys, 2) == C::point_dlog(*a) + C::point_dlog(*b));
    }
    sum
}

/// `w * p`.
fn point_mul<C: CycleGroup>(p: &C::Point, w: &C::Scalar) -> (product: C::Point)
    requires
        C::point_wf(*p),
        w.wf(),
    ensures
        C::point_wf(product),
        C::point_dlog(product) == (w.value() as int * C::point_dlog(*p)) % order::<C>(),
{
    let scalars = vec![*w];
    let points = vec![*p];
    let product = C::vartime_msm(scalars.as_slice(), points.as_slice());
    proof {
        let xs = values_of(scalars@);
        let ys = points@.map_values(|q: C::Point| C::point_dlog(q) as int);
        assert(xs[0] == w.value());
        assert(ys[0] == C::point_dlog(*p));
        assert(dot(xs, ys, 0) == 0);
        assert(dot(xs, ys, 1) == w.value() * C::point_dlog(*p));
    }
    product
}

/// The first `k` entries of `v`.
fn prefix<T: Copy>(v: &Vec<T>, k: usize) -> (out: Vec<T>)
    requires
        k <= v@.len(),
    ensures
        out@ == v@.subrange(0, k as int),
{
    let mut out: Vec<T> = Vec::new();
    let mut i: usize = 0;
    while i < k
        invariant
            i <= k,
            k <= v@.len(),
            out@ == v@.subrange(0, i as int),
        decreases k - i,
    {
        out.push(v[i]);
        i = i + 1;
        assert(out@ =~= v@.subrange(0, i as int));
    }
    out
}

impl<C: CycleGroup> VerificationEquation<C> {
    /// The equation's weighted sum of points, or `None` when a proof point
    /// is missing.
    fn sum_point(&self) -> (sum: Option<C::Point>)
        requires
            equation_wf(*self),
            self.g_scalars@.len() <= self.g_points@.len(),
            self.h_scalars@.len() <= self.h_points@.len(),
        ensures
            sum is Some <==> proof_points_present(*self),
            sum matches Some(p) ==> C::point_wf(p) && C::point_dlog(p) == equation_value(*self)
                % order::<C>(),
    {
        let k = if self.proof_scalars.len() < self.proof_points.len() {
            self.proof_scalars.len()
        } else {
            self.proof_points.len()
        };
        let mut scalars: Vec<C::Scalar> = Vec::new();
        let mut points: Vec<C::Point> = Vec::new();
        let mut i: usize = 0;
        while i < k
            invariant
                i <= k,
                k == proof_terms(*self),
                equation_wf(*self),
                scalars@ == self.proof_scalars@.subrange(0, i as int),
                points@.len() == i,
                forall|t: int|
                    0 <= t < i ==> self.proof_points@[t] == Some(#[trigger] points@[t]),
            decreases k - i,
        {
            match self.proof_points[i] {
                Some(p) => {
                    points.push(p);
                },
                None => {
                    proof {
                        assert(self.proof_points@[i as int] is None);
                        assert(!proof_points_present(*self));
                    }
                    return None;
                },
            }
            scalars.push(self.proof_scalars[i]);
            i = i + 1;
            assert(scalars@ =~= self.proof_scalars@.subrange(0, i as int));
        }
        proof {
            assert forall|t: int| 0 <= t < k implies C::point_wf(#[trigger] points@[t]) by {
                assert(self.proof_points@[t] == Some(points@[t]));
            }
            assert forall|t: int| 0 <= t < proof_terms(*self) implies (
            #[trigger] self.proof_points@[t]) is Some by {
                assert(self.proof_points@[t] == Some(points@[t]));
            }
            lemma_dot_prefix(
                values_of(scalars@),
                dlogs::<C>(points@),
                values_of(self.proof_scalars@),
                opt_dlogs::<C>(self.proof_points@),
                k as nat,
            );
        }
        let pedersen = C::vartime_msm(self.pedersen_scalars.as_slice(), self.pedersen_points.as_slice());
        let proof_part = C::vartime_msm(scalars.as_slice(), points.as_slice());
        let g_pre = prefix(&self.g_points, self.g_scalars.len());
        let h_pre = prefix(&self.h_points, self.h_scalars.len());
        proof {
            lemma_dot_prefix(
                values_of(self.g_scalars@),
                dlogs::<C>(g_pre@),
                values_of(self.g_scalars@),
                dlogs::<C>(self.g_points@),
                self.g_scalars@.len(),
            );
            lemma_dot_prefix(
                values_of(self.h_scalars@),
                dlogs::<C>(h_pre@),
                values_of(self.h_scalars@),
                dlogs::<C>(self.h_points@),
                self.h_scalars@.len(),
            );
        }
        let g_part = C::vartime_msm(self.g_scalars.as_slice(), g_pre.as_slice());
        let h_part = C::vartime_msm(self.h_scalars.as_slice(), h_pre.as_slice());
        let s1 = point_add::<C>(&pedersen, &proof_part);
        let s2 = point_add::<C>(&s1, &g_part);
        let s3 = point_add::<C>(&s2, &h_part);
        proof {
            let q = order::<C>();
            <C::Scalar as GoldenScalar>::lemma_field_order();
            C::lemma_scalar_field(self.pedersen_scalars@[0]);
            let d1 = dot(values_of(self.pedersen_scalars@), dlogs::<C>(self.pedersen_points@), 2);
            let d2 = dot(values_of(self.proof_scalars@), opt_dlogs::<C>(self.proof_points@), k as nat);
            let d3 = dot(values_of(self.g_scalars@), dlogs::<C>(self.g_points@), self.g_scalars@.len());
            let d4 = dot(values_of(self.h_scalars@), dlogs::<C>(self.h_points@), self.h_scalars@.len());
            vstd::arithmetic::div_mod::lemma_add_mod_noop(d1, d2, q);
            vstd::arithmetic::div_mod::lemma_add_mod_noop(d1 + d2, d3, q);
            vstd::arithmetic::div_mod::lemma_add_mod_noop(d1 + d2 + d3, d4, q);
        }
        Some(s3)
    }

    /// Check one prepared verification equation: every proof point is
    /// present and the weighted sum of the points is the identity.
    pub fn verify(self) -> (result: Result<(), R1CSError>)
        requires
            equation_wf(self),
            self.g_scalars@.len() <= self.g_points@.len(),
            self.h_scalars@.len() <= self.h_points@.len(),
        ensures
            result is Ok <==> proof_points_present(self) && equation_value(self) % order::<C>()
                == 0,
            result is Err ==> result == Err::<(), R1CSError>(R1CSError::VerificationError),
    {
        match self.sum_point() {
            Some(p) => {
                if C::point_is_identity(&p) {
                    Ok(())
                } else {
                    Err(R1CSError::VerificationError)
                }
            },
            None => Err(R1CSError::VerificationError),
        }
    }
}

/// `da == db` exactly when `da - db` is a multiple of `q`, for values below
/// `q`.
proof fn lemma_difference_zero(da: int, db: int, q: int)
    requires
        0 <= da < q,
        0 <= db < q,
        q > 1,
    ensures
        ((da + ((q - 1) * db) % q) % q == 0) <==> da == db,
{
    vstd::arithmetic::div_mod::lemma_add_mod_noop(da, (q - 1) * db, q);
    vstd::arithmetic::div_mod::lemma_small_mod(da as nat, q as nat);
    assert(da + (q - 1) * db == q * db + (da - db)) by (nonlinear_arith);
    vstd::arithmetic::div_mod::lemma_mod_multiples_vanish(db, da - db, q);
    if da > db {
        vstd::arithmetic::div_mod::lemma_small_mod((da - db) as nat, q as nat);
    } else if da < db {
        vstd::arithmetic::div_mod::lemma_mod_multiples_vanish(-1, q + (da - db), q);
        assert(q * -1 + (q + (da - db)) == da - db);
        vstd::arithmetic::div_mod::lemma_small_mod((q + (da - db)) as nat, q as nat);
    }
}

/// Whether two points are the same group element.
fn point_eq<C: CycleGroup>(a: &C::Point, b: &C::Point) -> (equal: bool)
    requires
        C::point_wf(*a),
        C::point_wf(*b),
    ensures
        equal == (C::point_dlog(*a) == C::point_dlog(*b)),
{
    let minus_one = <C::Scalar as GoldenScalar>::one().neg();
    let nb = point_mul::<C>(b, &minus_one);
    let d = point_add::<C>(a, &nb);
    proof {
        let q = order::<C>();
        C::lemma_point(*a);
        C::lemma_point(*b);
        C::lemma_scalar_field(minus_one);
        <C::Scalar as GoldenScalar>::lemma_field_order();
        vstd::arithmetic::div_mod::lemma_mod_multiples_vanish(-1, q - 1, q);
        vstd::arithmetic::div_mod::lemma_small_mod((q - 1) as nat, q as nat);
        assert(minus_one.value() == q - 1);
        lemma_difference_zero(C::point_dlog(*a) as int, C::point_dlog(*b) as int, q);
    }
    C::point_is_identity(&d)
}

/// One step of the generator check of a batch: the generators so far
/// `acc`, and an equation with `len` generator scalars over `points`. The
/// equation needs `len` generators, which must agree with `acc` where both
/// reach; the longer list is kept.
pub open spec fn gens_step<C: CycleGroup>(
    acc: Seq<C::Point>,
    len: nat,
    points: Seq<C::Point>,
) -> Option<Seq<C::Point>> {
    let shared = if acc.len() < len {
        acc.len()
    } else {
        len
    };
    if len > points.len() {
        None
    } else if exists|i: int|
        0 <= i < shared && C::point_dlog(#[trigger] acc[i]) != C::point_dlog(points[i]) {
        None
    } else if len > acc.len() {
        Some(points)
    } else {
        Some(acc)
    }
}

/// The `G` generators after the check of the first `k` equations, starting
/// from those of the first equation.
pub open spec fn g_gens<C: CycleGroup>(eqs: Seq<VerificationEquation<C>>, k: nat) -> Option<
    Seq<C::Point>,
>
    decreases k,
{
    if k == 0 {
        Some(eqs[0].g_points@)
    } else {
        match g_gens(eqs, (k - 1) as nat) {
            Some(acc) => gens_step::<C>(
                acc,
                eqs[k - 1].g_scalars@.len(),
                eqs[k - 1].g_points@,
            ),
            None => None,
        }
    }
}

/// The `H` generators after the check of the first `k` equations.
pub open spec fn h_gens<C: CycleGroup>(eqs: Seq<VerificationEquation<C>>, k: nat) -> Option<
    Seq<C::Point>,
>
    decreases k,
{
    if k == 0 {
        Some(eqs[0].h_points@)
    } else {
        match h_gens(eqs, (k - 1) as nat) {
            Some(acc) => gens_step::<C>(
                acc,
                eqs[k - 1].h_scalars@.len(),
                eqs[k - 1].h_points@,
            ),
            None => None,
        }
    }
}

proof fn lemma_g_gens_fail<C: CycleGroup>(eqs: Seq<VerificationEquation<C>>, k: nat, m: nat)
    requires
        k <= m,
        g_gens(eqs, k) is None,
    ensures
        g_gens(eqs, m) is None,
    decreases m,
{
    if k < m {
        lemma_g_gens_fail(eqs, k, (m - 1) as nat);
    }
}

proof fn lemma_h_gens_fail<C: CycleGroup>(eqs: Seq<VerificationEquation<C>>, k: nat, m: nat)
    requires
        k <= m,
        h_gens(eqs, k) is None,
    ensures
        h_gens(eqs, m) is None,
    decreases m,
{
    if k < m {
        lemma_h_gens_fail(eqs, k, (m - 1) as nat);
    }
}

/// `sum_{j < k} weights[j] * value(eqs[j])`.
pub open spec fn weighted_value<C: CycleGroup>(
    eqs: Seq<VerificationEquation<C>>,
    weights: Seq<C::Scalar>,
    k: nat,
) -> int
    decreases k,
{
    if k == 0 {
        0
    } else {
        weighted_value(eqs, weights, (k - 1) as nat) + weights[k - 1].value() * equation_value(
            eqs[k - 1],
        )
    }
}

/// Equation `k` has the Pedersen generators of the first equation, as many
/// proof scalars as proof points, and all of its proof points.
pub open spec fn batch_member_ok<C: CycleGroup>(eqs: Seq<VerificationEquation<C>>, k: int) -> bool {
    &&& forall|i: int|
        0 <= i < 2 ==> C::point_dlog(#[trigger] eqs[k].pedersen_points@[i]) == C::point_dlog(
            eqs[0].pedersen_points@[i],
        )
    &&& eqs[k].proof_scalars@.len() == eqs[k].proof_points@.len()
    &&& proof_points_present(eqs[k])
}

/// The batch check accepts: the batch is not empty, every equation shares
/// the Pedersen generators and agrees on the generators, and the weighted
/// sum of the equations is the identity.
pub open spec fn batch_accepts<C: CycleGroup>(
    eqs: Seq<VerificationEquation<C>>,
    weights: Seq<C::Scalar>,
) -> bool {
    &&& eqs.len() > 0
    &&& forall|k: int| 0 <= k < eqs.len() ==> #[trigger] batch_member_ok(eqs, k)
    &&& g_gens(eqs, eqs.len()) is Some
    &&& h_gens(eqs, eqs.len()) is Some
    &&& weighted_value(eqs, weights, eqs.len()) % order::<C>() == 0
}

/// Run one generator check step: whether `points` agree with `acc` on their
/// shared prefix and cover `len` scalars.
fn gens_step_ok<C: CycleGroup>(acc: &Vec<C::Point>, len: usize, points: &Vec<C::Point>) -> (ok: bool)
    requires
        forall|i: int| 0 <= i < acc@.len() ==> C::point_wf(#[trigger] acc@[i]),
        forall|i: int| 0 <= i < points@.len() ==> C::point_wf(#[trigger] points@[i]),
    ensures
        ok == gens_step::<C>(acc@, len as nat, points@) is Some,
{
    if len > points.len() {
        return false;
    }
    let shared = if acc.len() < len {
        acc.len()
    } else {
        len
    };
    let mut i: usize = 0;
    while i < shared
        invariant
            i <= shared,
            shared <= acc@.len(),
            shared <= points@.len(),
            len <= points@.len(),
            shared == (if acc@.len() < len {
                acc@.len()
            } else {
                len as nat
            }),
            forall|t: int| 0 <= t < acc@.len() ==> C::point_wf(#[trigger] acc@[t]),
            forall|t: int| 0 <= t < points@.len() ==> C::point_wf(#[trigger] points@[t]),
            forall|t: int| 0 <= t < i ==> C::point_dlog(#[trigger] acc@[t]) == C::point_dlog(points@[t]),
        decreases shared - i,
    {
        if !point_eq::<C>(&acc[i], &points[i]) {
            proof {
                assert(C::point_dlog(acc@[i as int]) != C::point_dlog(points@[i as int]));
            }
            return false;
        }
        i = i + 1;
    }
    true
}

impl<C: CycleGroup> VerificationEquation<C> {
    /// Check several prepared equations with one weighted sum.
    ///
    /// `weights` holds the coefficient of each equation, drawn nonzero from
    /// fresh verifier randomness. An empty batch, an equation with other
    /// Pedersen generators than the first or with generators that disagree
    /// with those before it, or a missing proof point is
    /// `VerificationError`; otherwise the batch is accepted exactly when
    /// `sum(weights[k] * equation_k)` is the identity.
    pub fn verify_batch(equations: Vec<Self>, weights: &[C::Scalar]) -> (result: Result<
        (),
        R1CSError,
    >)
        requires
            weights@.len() >= equations@.len(),
            forall|k: int| 0 <= k < weights@.len() ==> (#[trigger] weights@[k]).wf(),
            forall|k: int| 0 <= k < equations@.len() ==> equation_wf(#[trigger] equations@[k]),
        ensures
            result is Ok <==> batch_accepts(equations@, weights@),
            result is Err ==> result == Err::<(), R1CSError>(R1CSError::VerificationError),
    {
        let n = equations.len();
        if n == 0 {
            return Err(R1CSError::VerificationError);
        }
        let ghost eqs = equations@;
        let ghost ws = weights@;
        let no_scalars: Vec<C::Scalar> = Vec::new();
        let no_points: Vec<C::Point> = Vec::new();
        let mut acc = C::vartime_msm(no_scalars.as_slice(), no_points.as_slice());
        proof {
            <C::Scalar as GoldenScalar>::lemma_field_order();
            if n > 0 {
                C::lemma_scalar_field(weights@[0]);
            }
            vstd::arithmetic::div_mod::lemma_small_mod(0, order::<C>() as nat);
        }
        let mut g_acc: usize = 0;
        let mut h_acc: usize = 0;
        let mut k: usize = 0;
        while k < n
            invariant
                k <= n,
                n == eqs.len(),
                eqs == equations@,
                ws == weights@,
                ws.len() >= n,
                order::<C>() > 1,
                order::<C>() == <C::Scalar as GoldenScalar>::field_order(),
                forall|j: int| 0 <= j < ws.len() ==> (#[trigger] ws[j]).wf(),
                forall|j: int| 0 <= j < n ==> equation_wf(#[trigger] eqs[j]),
                forall|j: int| 0 <= j < k ==> #[trigger] batch_member_ok(eqs, j),
                g_acc < n,
                h_acc < n,
                g_gens(eqs, k as nat) == Some(eqs[g_acc as int].g_points@),
                h_gens(eqs, k as nat) == Some(eqs[h_acc as int].h_points@),
                C::point_wf(acc),
                C::point_dlog(acc) == weighted_value(eqs, ws, k as nat) % order::<C>(),
            decreases n - k,
        {
            let e = &equations[k];
            let first = &equations[0];
            proof {
                assert(equation_wf(eqs[k as int]));
                assert(equation_wf(eqs[0]));
            }
            if !point_eq::<C>(&e.pedersen_points[0], &first.pedersen_points[0])
                || !point_eq::<C>(&e.pedersen_points[1], &first.pedersen_points[1]) {
                proof {
                    assert(!batch_member_ok(eqs, k as int));
                }
                return Err(R1CSError::VerificationError);
            }
            if e.proof_scalars.len() != e.proof_points.len() {
                proof {
                    assert(!batch_member_ok(eqs, k as int));
                }
                return Err(R1CSError::VerificationError);
            }
            proof {
                assert(equation_wf(eqs[g_acc as int]));
                assert(equation_wf(eqs[h_acc as int]));
            }
            if !gens_step_ok::<C>(&equations[g_acc].g_points, e.g_scalars.len(), &e.g_points) {
                proof {
                    lemma_g_gens_fail(eqs, (k + 1) as nat, n as nat);
                }
                return Err(R1CSError::VerificationError);
            }
            if !gens_step_ok::<C>(&equations[h_acc].h_points, e.h_scalars.len(), &e.h_points) {
                proof {
                    lemma_h_gens_fail(eqs, (k + 1) as nat, n as nat);
                }
                return Err(R1CSError::VerificationError);
            }
            let sum = match e.sum_point() {
                Some(p) => p,
                None => {
                    proof {
                        assert(!batch_member_ok(eqs, k as int));
                    }
                    return Err(R1CSError::VerificationError);
                },
            };
            if e.g_scalars.len() > equations[g_acc].g_points.len() {
                g_acc = k;
            }
            if e.h_scalars.len() > equations[h_acc].h_points.len() {
                h_acc = k;
            }
            let weighted = point_mul::<C>(&sum, &weights[k]);
            let next = point_add::<C>(&acc, &weighted);
            proof {
                let q = order::<C>();
                let w = ws[k as int].value() as int;
                let v = equation_value(eqs[k as int]);
                let prev = weighted_value(eqs, ws, k as nat);
                vstd::arithmetic::div_mod::lemma_mul_mod_noop_right(w, v, q);
                vstd::arithmetic::div_mod::lemma_add_mod_noop(prev, w * v, q);
                assert(batch_member_ok(eqs, k as int));
            }
            acc = next;
            k = k + 1;
        }
        if C::point_is_identity(&acc) {
            Ok(())
        } else {
            Err(R1CSError::VerificationError)
        }
    }
}

} // verus!
