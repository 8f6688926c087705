//! The verifier's side of the inner-product argument: the challenges the
//! transcript gives for the proof's points, and the scalars of the combined
//! multiscalar multiplication derived from them.
use vstd::arithmetic::power2::pow2;
use vstd::prelude::*;
use vstd::string::StringSliceAdditionalSpecFns;

use crate::bytes::le_value;
use crate::cycle::scalar_batch_invert;
use crate::group::GoldenScalar;
use crate::proof_bytes::InnerProductProof;
use crate::proof_cycle::Cycle;
use crate::proof_errors::ProofError;
use crate::proof_transcript::{
    challenge_scalar, merlin_challenge, u32_le, u64_le, validate_and_append_point,
    with_domain_sep, ProofTranscript, R1csDomain,
};
use crate::shamir::{prefix_product, values_of};

verus! {

/// The history of a transcript after the inner-product domain separator
/// for length `n`.
pub open spec fn ipp_start(history: Seq<(bool, Seq<u8>, Seq<u8>)>, n: u64) -> Seq<
    (bool, Seq<u8>, Seq<u8>),
> {
    with_domain_sep(history, "ipp v1".spec_bytes()).push((false, "n".spec_bytes(), u64_le(n)))
}

/// `history` followed by the points `L` and `R` of round `k`.
pub open spec fn ipp_round_points<C: Cycle>(
    history: Seq<(bool, Seq<u8>, Seq<u8>)>,
    ls: Seq<C::Compressed>,
    rs: Seq<C::Compressed>,
    k: nat,
) -> Seq<(bool, Seq<u8>, Seq<u8>)> {
    history.push((false, "L".spec_bytes(), C::compressed_view(ls[k as int]))).push(
        (false, "R".spec_bytes(), C::compressed_view(rs[k as int])),
    )
}

/// The history after `k` rounds: each appends `L` and `R` and draws the
/// challenge `u`.
pub open spec fn ipp_rounds<C: Cycle>(
    history: Seq<(bool, Seq<u8>, Seq<u8>)>,
    ls: Seq<C::Compressed>,
    rs: Seq<C::Compressed>,
    k: nat,
) -> Seq<(bool, Seq<u8>, Seq<u8>)>
    decreases k,
{
    if k == 0 {
        history
    } else {
        ipp_round_points::<C>(ipp_rounds::<C>(history, ls, rs, (k - 1) as nat), ls, rs, (k - 1) as nat)
            .push((true, "u".spec_bytes(), u32_le(64)))
    }
}

/// The challenge `u` of round `k`: the 64 challenge bytes reduced modulo
/// the scalar field order.
pub open spec fn ipp_challenge<C: Cycle>(
    history: Seq<(bool, Seq<u8>, Seq<u8>)>,
    ls: Seq<C::Compressed>,
    rs: Seq<C::Compressed>,
    k: nat,
) -> int {
    (le_value(
        merlin_challenge(
            ipp_round_points::<C>(ipp_rounds::<C>(history, ls, rs, k), ls, rs, k),
            "u".spec_bytes(),
            64,
        ),
    ) % C::scalar_order()) as int
}

/// The challenges of the first `k` rounds.
pub open spec fn ipp_challenges<C: Cycle>(
    history: Seq<(bool, Seq<u8>, Seq<u8>)>,
    ls: Seq<C::Compressed>,
    rs: Seq<C::Compressed>,
    k: nat,
) -> Seq<int> {
    Seq::new(k, |i: int| ipp_challenge::<C>(history, ls, rs, i as nat))
}

/// Position of the highest set bit of `i` (zero for zero and one).
pub open spec fn top_bit(i: nat) -> nat
    decreases i,
{
    if i <= 1 {
        0
    } else {
        top_bit(i / 2) + 1
    }
}

/// `2^lg <= i < 2^(lg + 1)` places the highest bit of `i` at `lg`.
pub proof fn lemma_top_bit(i: nat, lg: nat)
    requires
        pow2(lg) <= i < pow2(lg + 1),
    ensures
        top_bit(i) == lg,
    decreases lg,
{
    vstd::arithmetic::power2::lemma_pow2_unfold(lg + 1);
    vstd::arithmetic::power2::lemma_pow2_pos(lg);
    if lg == 0 {
        vstd::arithmetic::power2::lemma2_to64();
    } else {
        vstd::arithmetic::power2::lemma_pow2_unfold(lg);
        lemma_top_bit(i / 2, (lg - 1) as nat);
    }
}

/// The highest bit of a positive number is at most the number.
proof fn lemma_top_bit_bound(i: nat)
    requires
        i >= 1,
    ensures
        pow2(top_bit(i)) <= i,
    decreases i,
{
    if i <= 1 {
        vstd::arithmetic::power2::lemma2_to64();
    } else {
        lemma_top_bit_bound(i / 2);
        vstd::arithmetic::power2::lemma_pow2_unfold(top_bit(i / 2) + 1);
    }
}

/// Some round point is the encoding of the identity.
pub open spec fn ipp_has_identity_point<C: Cycle>(ls: Seq<C::Compressed>, rs: Seq<C::Compressed>) -> bool {
    exists|k: int|
        0 <= k < ls.len() && (C::compressed_view(#[trigger] ls[k]) == C::identity_view()
            || C::compressed_view(rs[k]) == C::identity_view())
}

impl<C: Cycle> InnerProductProof<C> {
    /// The verification scalars `[u_i^2]`, `[u_i^{-2}]` and `[s_i]` of the
    /// combined multiscalar multiplication, for a proof of length `n`.
    ///
    /// A proof with 32 or more rounds, an `n` other than two to the number
    /// of rounds, or a round point that is the identity is
    /// `VerificationError`. Otherwise the transcript takes the
    /// inner-product domain separator and, per round, `L`, `R` and the
    /// challenge `u_i`; `s_0` is the inverse of the product of the
    /// challenges and `s_i = s_{i - 2^k} * u_{lg_n - 1 - k}^2` for the
    /// highest bit `k` of `i`.
    pub fn verification_scalars(&self, n: usize, transcript: &mut ProofTranscript) -> (result:
        Result<(Vec<C::Scalar>, Vec<C::Scalar>, Vec<C::Scalar>), ProofError>)
        ensures
            ({
                let ls = self.ls();
                let rs = self.rs();
                let lg_n = ls.len();
                let q = C::scalar_order() as int;
                let h = ipp_start(old(transcript).history(), n as u64);
                let us = ipp_challenges::<C>(h, ls, rs, lg_n);
                let product = prefix_product(us, lg_n as int, q);
                &&& (lg_n >= 32 || n != pow2(lg_n)) ==> result == Err::<
                    (Vec<C::Scalar>, Vec<C::Scalar>, Vec<C::Scalar>),
                    ProofError,
                >(ProofError::VerificationError) && *final(transcript) == *old(transcript)
                &&& lg_n < 32 && n == pow2(lg_n) ==> (result is Err <==> ipp_has_identity_point::<
                    C,
                >(ls, rs))
                &&& result is Err ==> result == Err::<
                    (Vec<C::Scalar>, Vec<C::Scalar>, Vec<C::Scalar>),
                    ProofError,
                >(ProofError::VerificationError)
                &&& result matches Ok((sq, inv_sq, s)) ==> {
                    &&& final(transcript).history() == ipp_rounds::<C>(h, ls, rs, lg_n)
                    &&& sq@.len() == lg_n && inv_sq@.len() == lg_n && s@.len() == n
                    &&& forall|k: int|
                        0 <= k < lg_n ==> C::scalar_wf(#[trigger] sq@[k]) && sq@[k].value() == (
                        us[k] * us[k]) % q
                    &&& product != 0 ==> forall|k: int|
                        0 <= k < lg_n ==> ((#[trigger] inv_sq@[k]).value() as int * sq@[k].value()) % q
                            == 1
                    &&& product == 0 ==> forall|k: int|
                        0 <= k < lg_n ==> (#[trigger] inv_sq@[k]).value() == 0
                    &&& product != 0 ==> (s@[0].value() as int * product) % q == 1
                    &&& product == 0 ==> s@[0].value() == 0
                    &&& forall|i: int|
                        1 <= i < n ==> (#[trigger] s@[i]).value() == (s@[i - pow2(
                            top_bit(i as nat),
                        )].value() as int * sq@[lg_n - 1 - top_bit(i as nat)].value()) % q
                }
            }),
    {
        let (ls, rs) = self.round_points();
        let lg_n = ls.len();
        if lg_n >= 32 {
            return Err(ProofError::VerificationError);
        }
        proof {
            vstd::bits::lemma_u64_pow2_no_overflow(lg_n as nat);
            assert(1u64 * pow2(lg_n as nat) == pow2(lg_n as nat));
            vstd::bits::lemma_u64_shl_is_mul(1u64, lg_n as u64);
        }
        let full: u64 = 1u64 << (lg_n as u64);
        if n as u64 != full {
            return Err(ProofError::VerificationError);
        }
        let ghost q = C::scalar_order() as int;
        let ghost lsv = ls@;
        let ghost rsv = rs@;
        transcript.innerproduct_domain_sep(n as u64);
        let ghost h = transcript.history();
        proof {
            reveal_strlit("L");
            reveal_strlit("R");
            reveal_strlit("u");
        }
        let mut challenges: Vec<C::Scalar> = Vec::new();
        let mut i: usize = 0;
        while i < lg_n
            invariant
                i <= lg_n,
                lg_n < 32,
                n == pow2(lg_n as nat),
                lsv == self.ls(),
                rsv == self.rs(),
                lg_n == lsv.len(),
                lsv.len() == rsv.len(),
                ls@ == lsv,
                rs@ == rsv,
                transcript.history() == ipp_rounds::<C>(h, lsv, rsv, i as nat),
                challenges@.len() == i,
                forall|k: int|
                    0 <= k < i ==> C::scalar_wf(#[trigger] challenges@[k]) && challenges@[k].value()
                        == ipp_challenge::<C>(h, lsv, rsv, k as nat),
                forall|k: int|
                    0 <= k < i ==> C::compressed_view(#[trigger] lsv[k]) != C::identity_view()
                        && C::compressed_view(rsv[k]) != C::identity_view(),
            decreases lg_n - i,
        {
            let l_ok = validate_and_append_point::<C>(transcript, "L".as_bytes(), &ls[i]);
            if l_ok.is_err() {
                proof {
                    assert(C::compressed_view(lsv[i as int]) == C::identity_view());
                    assert(ipp_has_identity_point::<C>(lsv, rsv));
                }
                return Err(ProofError::VerificationError);
            }
            let r_ok = validate_and_append_point::<C>(transcript, "R".as_bytes(), &rs[i]);
            if r_ok.is_err() {
                proof {
                    assert(C::compressed_view(rsv[i as int]) == C::identity_view());
                    assert(ipp_has_identity_point::<C>(lsv, rsv));
                }
                return Err(ProofError::VerificationError);
            }
            let u = challenge_scalar::<C>(transcript, "u".as_bytes());
            proof {
                C::lemma_scalar_field(u);
                assert(transcript.history() == ipp_rounds::<C>(h, lsv, rsv, (i + 1) as nat));
            }
            challenges.push(u);
            i = i + 1;
        }
        proof {
            assert(!ipp_has_identity_point::<C>(lsv, rsv));
        }
        let ghost final_history = transcript.history();
        assert(final_history == ipp_rounds::<C>(h, lsv, rsv, lg_n as nat));
        let mut inverses: Vec<C::Scalar> = Vec::new();
        let mut j: usize = 0;
        while j < lg_n
            invariant
                j <= lg_n,
                challenges@.len() == lg_n,
                inverses@ == challenges@.subrange(0, j as int),
            decreases lg_n - j,
        {
            inverses.push(challenges[j]);
            j = j + 1;
            assert(inverses@ =~= challenges@.subrange(0, j as int));
        }
        assert(inverses@ =~= challenges@);
        proof {
            assert forall|k: int| 0 <= k < lg_n implies (#[trigger] challenges@[k]).wf() by {
                C::lemma_scalar_field(challenges@[k]);
            }
        }
        let ghost us = ipp_challenges::<C>(h, lsv, rsv, lg_n as nat);
        proof {
            <C::Scalar as GoldenScalar>::lemma_field_order();
            if lg_n > 0 {
                C::lemma_scalar_field(challenges@[0]);
            }
            assert(values_of(challenges@) =~= us);
        }
        let allinv = scalar_batch_invert(inverses.as_mut_slice());
        proof {
            C::lemma_scalar_field(allinv);
        }
        let ghost product = prefix_product(us, lg_n as int, q);
        let mut sq: Vec<C::Scalar> = Vec::new();
        let mut inv_sq: Vec<C::Scalar> = Vec::new();
        let mut k: usize = 0;
        while k < lg_n
            invariant
                k <= lg_n,
                challenges@.len() == lg_n,
                inverses@.len() == lg_n,
                q == C::scalar_order(),
                q == <C::Scalar as GoldenScalar>::field_order(),
                q > 1,
                us == ipp_challenges::<C>(h, lsv, rsv, lg_n as nat),
                product == prefix_product(us, lg_n as int, q),
                forall|t: int|
                    0 <= t < lg_n ==> (#[trigger] challenges@[t]).wf() && challenges@[t].value()
                        == us[t],
                forall|t: int| 0 <= t < lg_n ==> (#[trigger] inverses@[t]).wf(),
                product == 0 ==> forall|t: int|
                    0 <= t < lg_n ==> (#[trigger] inverses@[t]).value() == 0,
                product != 0 ==> forall|t: int|
                    0 <= t < lg_n ==> ((#[trigger] inverses@[t]).value() as int * challenges@[t].value())
                        % q == 1,
                sq@.len() == k,
                inv_sq@.len() == k,
                forall|t: int|
                    0 <= t < k ==> (#[trigger] sq@[t]).wf() && sq@[t].value() == (us[t] * us[t])
                        % q,
                forall|t: int| 0 <= t < k ==> (#[trigger] inv_sq@[t]).wf(),
                product != 0 ==> forall|t: int|
                    0 <= t < k ==> ((#[trigger] inv_sq@[t]).value() as int * sq@[t].value()) % q == 1,
                product == 0 ==> forall|t: int| 0 <= t < k ==> (#[trigger] inv_sq@[t]).value() == 0,
            decreases lg_n - k,
        {
            let c = challenges[k];
            let ci = inverses[k];
            let c2 = c.mul(&c);
            let ci2 = ci.mul(&ci);
            proof {
                if product != 0 {
                    lemma_square_inverse(ci.value() as int, c.value() as int, q);
                } else {
                    vstd::arithmetic::div_mod::lemma_small_mod(0, q as nat);
                }
            }
            sq.push(c2);
            inv_sq.push(ci2);
            k = k + 1;
        }
        let mut s: Vec<C::Scalar> = Vec::new();
        s.push(allinv);
        let mut i: usize = 1;
        let mut lg: usize = 0;
        let mut step: usize = 1;
        proof {
            vstd::arithmetic::power2::lemma2_to64();
        }
        while i < n
            invariant
                1 <= i <= n,
                n == pow2(lg_n as nat),
                lg_n < 32,
                n <= 0x8000_0000,
                step == pow2(lg as nat),
                step <= i <= 2 * step,
                lg <= lg_n,
                s@.len() == i,
                sq@.len() == lg_n,
                s@[0] == allinv,
                forall|t: int| 0 <= t < i ==> (#[trigger] s@[t]).wf(),
                forall|t: int| 0 <= t < lg_n ==> (#[trigger] sq@[t]).wf(),
                forall|t: int|
                    1 <= t < i ==> (#[trigger] s@[t]).value() == (s@[t - pow2(
                        top_bit(t as nat),
                    )].value() as int * sq@[lg_n - 1 - top_bit(t as nat)].value()) % q,
                q == <C::Scalar as GoldenScalar>::field_order(),
            decreases n - i,
        {
            if i == 2 * step {
                proof {
                    vstd::arithmetic::power2::lemma_pow2_unfold((lg + 1) as nat);
                }
                lg = lg + 1;
                step = 2 * step;
            }
            proof {
                vstd::arithmetic::power2::lemma_pow2_unfold((lg + 1) as nat);
                lemma_top_bit(i as nat, lg as nat);
                if lg > lg_n {
                    vstd::arithmetic::power2::lemma_pow2_strictly_increases(lg_n as nat, lg as nat);
                }
            }
            let v = s[i - step].mul(&sq[lg_n - 1 - lg]);
            let ghost before = s@;
            s.push(v);
            proof {
                assert(s@[i as int - pow2(top_bit(i as nat))] == before[i - step]);
                assert forall|t: int| 1 <= t < i + 1 implies (#[trigger] s@[t]).value() == (s@[t
                    - pow2(top_bit(t as nat))].value() as int * sq@[lg_n - 1 - top_bit(
                    t as nat,
                )].value()) % q by {
                    if t < i {
                        assert(s@[t] == before[t]);
                        assert(0 <= t - pow2(top_bit(t as nat)) < t) by {
                            vstd::arithmetic::power2::lemma_pow2_pos(top_bit(t as nat));
                            lemma_top_bit_bound(t as nat);
                        }
                        assert(s@[t - pow2(top_bit(t as nat))] == before[t - pow2(
                            top_bit(t as nat),
                        )]);
                    }
                }
            }
            i = i + 1;
        }
        proof {
            assert forall|t: int| 0 <= t < lg_n implies C::scalar_wf(#[trigger] sq@[t]) by {
                C::lemma_scalar_field(sq@[t]);
            }
            assert(transcript.history() == final_history);
            assert(h == ipp_start(old(transcript).history(), n as u64));
            assert(us == ipp_challenges::<C>(h, self.ls(), self.rs(), lg_n as nat));
            assert(s@.len() == n);
            assert(s@[0] == allinv);
        }
        Ok((sq, inv_sq, s))
    }
}

/// Squaring keeps an inverse pair an inverse pair.
proof fn lemma_square_inverse(a: int, b: int, q: int)
    requires
        q > 1,
        (a * b) % q == 1,
    ensures
        (((a * a) % q) * ((b * b) % q)) % q == 1,
{
    vstd::arithmetic::div_mod::lemma_mul_mod_noop_general(a * a, b * b, q);
    assert((a * a) * (b * b) == (a * b) * (a * b)) by (nonlinear_arith);
    vstd::arithmetic::div_mod::lemma_mul_mod_noop_general(a * b, a * b, q);
    vstd::arithmetic::div_mod::lemma_small_mod(1, q as nat);
}

} // verus!
