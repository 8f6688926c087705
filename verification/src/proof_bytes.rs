//! Byte encodings of Bulletproofs inner-product and linear proofs.
use vstd::prelude::*;

use crate::proof_cycle::Cycle;
use crate::proof_errors::ProofError;

verus! {

/// The first `n` pairs `L_i, R_i` of compressed points, one after the
/// other.
pub open spec fn pairs_bytes<C: Cycle>(
    ls: Seq<C::Compressed>,
    rs: Seq<C::Compressed>,
    n: int,
) -> Seq<u8>
    decreases n,
{
    if n <= 0 {
        Seq::empty()
    } else {
        pairs_bytes::<C>(ls, rs, n - 1) + C::compressed_view(ls[n - 1]) + C::compressed_view(
            rs[n - 1],
        )
    }
}

/// The pairs take two point widths each, and pair `i` sits at `2 * i`
/// point widths.
pub proof fn lemma_pairs_bytes<C: Cycle>(ls: Seq<C::Compressed>, rs: Seq<C::Compressed>, n: int)
    requires
        0 <= n,
    ensures
        pairs_bytes::<C>(ls, rs, n).len() == n * (2 * C::compressed_len()),
        forall|i: int|
            0 <= i < n ==> pairs_bytes::<C>(ls, rs, n).subrange(
                2 * i * C::compressed_len(),
                2 * i * C::compressed_len() + C::compressed_len(),
            ) == C::compressed_view(#[trigger] ls[i]) && pairs_bytes::<C>(ls, rs, n).subrange(
                2 * i * C::compressed_len() + C::compressed_len(),
                2 * i * C::compressed_len() + 2 * C::compressed_len(),
            ) == C::compressed_view(rs[i]),
    decreases n,
{
    let cb = C::compressed_len() as int;
    if n > 0 {
        lemma_pairs_bytes::<C>(ls, rs, n - 1);
        C::lemma_compressed(ls[n - 1], ls[n - 1]);
        C::lemma_compressed(rs[n - 1], rs[n - 1]);
        let head = pairs_bytes::<C>(ls, rs, n - 1);
        let l = C::compressed_view(ls[n - 1]);
        let r = C::compressed_view(rs[n - 1]);
        let all = pairs_bytes::<C>(ls, rs, n);
        assert(all == head + l + r);
        assert((n - 1) * (2 * cb) + 2 * cb == n * (2 * cb)) by (nonlinear_arith);
        assert((n - 1) * (2 * cb) == 2 * (n - 1) * cb) by (nonlinear_arith);
        assert forall|i: int| 0 <= i < n implies all.subrange(2 * i * cb, 2 * i * cb + cb)
            == C::compressed_view(#[trigger] ls[i]) && all.subrange(2 * i * cb + cb, 2 * i * cb + 2 * cb)
            == C::compressed_view(rs[i]) by {
            if i < n - 1 {
                assert(2 * i * cb + 2 * cb <= 2 * (n - 1) * cb) by (nonlinear_arith)
                    requires
                        i < n - 1,
                        cb >= 0,
                ;
                assert(all.subrange(2 * i * cb, 2 * i * cb + cb) =~= head.subrange(
                    2 * i * cb,
                    2 * i * cb + cb,
                ));
                assert(all.subrange(2 * i * cb + cb, 2 * i * cb + 2 * cb) =~= head.subrange(
                    2 * i * cb + cb,
                    2 * i * cb + 2 * cb,
                ));
            } else {
                assert(all.subrange(2 * i * cb, 2 * i * cb + cb) =~= l);
                assert(all.subrange(2 * i * cb + cb, 2 * i * cb + 2 * cb) =~= r);
            }
        }
    }
}

/// Read `n` pairs of compressed points from the front of `slice`.
fn read_pairs<C: Cycle>(slice: &[u8], n: usize) -> (pairs: (Vec<C::Compressed>, Vec<C::Compressed>))
    requires
        n * (2 * C::compressed_len()) <= slice@.len(),
    ensures
        pairs.0@.len() == n,
        pairs.1@.len() == n,
        pairs_bytes::<C>(pairs.0@, pairs.1@, n as int) == slice@.subrange(
            0,
            n * (2 * C::compressed_len()),
        ),
{
    let cb = C::compressed_bytes();
    let total = slice.len();
    proof {
        C::lemma_compressed_len();
    }
    let mut ls: Vec<C::Compressed> = Vec::new();
    let mut rs: Vec<C::Compressed> = Vec::new();
    let mut i: usize = 0;
    while i < n
        invariant
            i <= n,
            cb == C::compressed_len(),
            cb > 0,
            n * (2 * cb) <= slice@.len(),
            total == slice@.len(),
            ls@.len() == i,
            rs@.len() == i,
            pairs_bytes::<C>(ls@, rs@, i as int) == slice@.subrange(0, i * (2 * cb)),
        decreases n - i,
    {
        proof {
            assert((i + 1) * (2 * cb) <= n * (2 * cb)) by (nonlinear_arith)
                requires
                    i + 1 <= n,
                    cb >= 0,
            ;
            assert(i * (2 * cb) + 2 * cb == (i + 1) * (2 * cb)) by (nonlinear_arith);
        }
        proof {
            assert(2 * cb <= n * (2 * cb)) by (nonlinear_arith)
                requires
                    1 <= n,
                    cb >= 0,
            ;
            assert(i * (2 * cb) <= (i + 1) * (2 * cb)) by (nonlinear_arith)
                requires
                    cb >= 0,
            ;
        }
        let unit = 2 * cb;
        let pos = i * unit;
        let l = C::compressed_from_bytes(&slice[pos..pos + cb]);
        let r = C::compressed_from_bytes(&slice[pos + cb..pos + unit]);
        let ghost before_l = ls@;
        let ghost before_r = rs@;
        ls.push(l);
        rs.push(r);
        proof {
            assert(ls@.drop_last() == before_l);
            assert forall|k: int| 0 <= k <= i implies #[trigger] pairs_bytes::<C>(ls@, rs@, k)
                == pairs_bytes::<C>(before_l, before_r, k) by {
                lemma_pairs_prefix::<C>(ls@, rs@, before_l, before_r, k);
            }
            assert(slice@.subrange(pos as int, pos + cb).subrange(0, cb as int) =~= slice@.subrange(
                pos as int,
                pos + cb,
            ));
            assert(slice@.subrange(pos + cb, pos + unit).subrange(0, cb as int) =~= slice@.subrange(
                pos + cb,
                pos + unit,
            ));
            assert(ls@[i as int] == l);
            assert(rs@[i as int] == r);
            lemma_pairs_prefix::<C>(ls@, rs@, before_l, before_r, i as int);
            assert(pairs_bytes::<C>(ls@, rs@, i + 1) == pairs_bytes::<C>(ls@, rs@, i as int)
                + C::compressed_view(l) + C::compressed_view(r));
            assert(slice@.subrange(0, (i + 1) * (2 * cb)) =~= slice@.subrange(0, i * (2 * cb))
                + slice@.subrange(pos as int, pos + cb) + slice@.subrange(pos + cb, pos + unit));
        }
        i = i + 1;
    }
    (ls, rs)
}

/// The pairs of two sequences that agree on their first `k` entries agree.
proof fn lemma_pairs_prefix<C: Cycle>(
    ls: Seq<C::Compressed>,
    rs: Seq<C::Compressed>,
    ls2: Seq<C::Compressed>,
    rs2: Seq<C::Compressed>,
    k: int,
)
    requires
        0 <= k <= ls2.len(),
        k <= rs2.len(),
        k <= ls.len(),
        k <= rs.len(),
        forall|t: int| 0 <= t < k ==> ls[t] == ls2[t] && rs[t] == rs2[t],
    ensures
        pairs_bytes::<C>(ls, rs, k) == pairs_bytes::<C>(ls2, rs2, k),
    decreases k,
{
    if k > 0 {
        lemma_pairs_prefix::<C>(ls, rs, ls2, rs2, k - 1);
    }
}

/// Append the first `n` pairs of compressed points to `out`.
fn append_pairs<C: Cycle>(out: &mut Vec<u8>, ls: &Vec<C::Compressed>, rs: &Vec<C::Compressed>)
    requires
        ls@.len() == rs@.len(),
    ensures
        final(out)@ == old(out)@ + pairs_bytes::<C>(ls@, rs@, ls@.len() as int),
{
    let ghost start = out@;
    let mut i: usize = 0;
    while i < ls.len()
        invariant
            i <= ls@.len(),
            ls@.len() == rs@.len(),
            out@ == start + pairs_bytes::<C>(ls@, rs@, i as int),
        decreases ls@.len() - i,
    {
        crate::bytes::append_bytes(out, C::compressed_as_bytes(&ls[i]));
        crate::bytes::append_bytes(out, C::compressed_as_bytes(&rs[i]));
        i = i + 1;
        assert(out@ =~= start + pairs_bytes::<C>(ls@, rs@, i as int));
    }
}

/// The scalar encoded at `bytes[at..at + 32]`, if canonical.
pub open spec fn scalar_at<C: Cycle>(bytes: Seq<u8>, at: int) -> Option<C::Scalar> {
    C::scalar_decode(bytes.subrange(at, at + 32))
}

/// Read the scalar at `slice[at..at + 32]`.
fn read_scalar_at<C: Cycle>(slice: &[u8], at: usize) -> (scalar: Option<C::Scalar>)
    requires
        at + 32 <= slice@.len(),
    ensures
        scalar == scalar_at::<C>(slice@, at as int),
{
    let bytes = crate::util::read32(&slice[at..slice.len()]);
    assert(bytes@ =~= slice@.subrange(at as int, at + 32));
    C::scalar_from_canonical(&bytes)
}

/// An inner-product argument: `lg_n` pairs of compressed points and the
/// two final scalars.
pub struct InnerProductProof<C: Cycle> {
    l_vec: Vec<C::Compressed>,
    r_vec: Vec<C::Compressed>,
    a: C::Scalar,
    b: C::Scalar,
}

/// The encoding of an inner-product argument: the pairs, then `a` and `b`.
pub open spec fn ipp_bytes<C: Cycle>(
    ls: Seq<C::Compressed>,
    rs: Seq<C::Compressed>,
    a: C::Scalar,
    b: C::Scalar,
) -> Seq<u8> {
    pairs_bytes::<C>(ls, rs, ls.len() as int) + C::scalar_view(a) + C::scalar_view(b)
}

/// Bytes that parse as an inner-product argument: 64 bytes of scalars
/// after a whole number of point pairs, both scalars canonical.
pub open spec fn ipp_parses<C: Cycle>(bytes: Seq<u8>) -> bool {
    let unit = 2 * C::compressed_len();
    let pos = bytes.len() - 64;
    &&& bytes.len() >= 64
    &&& (bytes.len() - 64) % (unit as int) == 0
    &&& scalar_at::<C>(bytes, pos) is Some
    &&& scalar_at::<C>(bytes, pos + 32) is Some
}

impl<C: Cycle> InnerProductProof<C> {
    #[verifier::type_invariant]
    spec fn ipp_wf(self) -> bool {
        &&& self.l_vec@.len() == self.r_vec@.len()
        &&& C::scalar_wf(self.a)
        &&& C::scalar_wf(self.b)
        &&& self.l_vec@.len() * (2 * C::compressed_len()) + 64 <= usize::MAX
    }

    /// The `L` points, one per folding round.
    pub closed spec fn ls(&self) -> Seq<C::Compressed> {
        self.l_vec@
    }

    /// The `R` points, one per folding round.
    pub closed spec fn rs(&self) -> Seq<C::Compressed> {
        self.r_vec@
    }

    /// The final `a` scalar.
    pub closed spec fn a_spec(&self) -> C::Scalar {
        self.a
    }

    /// The final `b` scalar.
    pub closed spec fn b_spec(&self) -> C::Scalar {
        self.b
    }

    /// The encoding of this proof.
    pub open spec fn bytes_spec(&self) -> Seq<u8> {
        ipp_bytes::<C>(self.ls(), self.rs(), self.a_spec(), self.b_spec())
    }

    /// The proof with the given round points and final scalars.
    pub(crate) fn from_parts(
        l_vec: Vec<C::Compressed>,
        r_vec: Vec<C::Compressed>,
        a: C::Scalar,
        b: C::Scalar,
    ) -> (proof: Self)
        requires
            l_vec@.len() == r_vec@.len(),
            l_vec@.len() < 64,
            C::scalar_wf(a),
            C::scalar_wf(b),
        ensures
            proof.ls() == l_vec@,
            proof.rs() == r_vec@,
            proof.a_spec() == a,
            proof.b_spec() == b,
    {
        proof {
            C::lemma_compressed_len();
            assert(l_vec@.len() * (2 * C::compressed_len()) <= 64 * 2048) by (nonlinear_arith)
                requires
                    l_vec@.len() < 64,
                    C::compressed_len() <= 1024,
            ;
        }
        InnerProductProof { l_vec, r_vec, a, b }
    }

    /// The `L` and `R` points of the folding rounds.
    pub(crate) fn round_points(&self) -> (points: (&[C::Compressed], &[C::Compressed]))
        ensures
            points.0@ == self.ls(),
            points.1@ == self.rs(),
            self.ls().len() == self.rs().len(),
    {
        proof {
            use_type_invariant(self);
        }
        (self.l_vec.as_slice(), self.r_vec.as_slice())
    }

    /// Byte length of the encoding.
    pub fn serialized_size(&self) -> (n: usize)
        ensures
            n == self.bytes_spec().len(),
    {
        proof {
            use_type_invariant(self);
            lemma_pairs_bytes::<C>(self.ls(), self.rs(), self.ls().len() as int);
            C::lemma_scalar(self.a);
            C::lemma_scalar(self.b);
        }
        let cb = C::compressed_bytes();
        proof {
            C::lemma_compressed_len();
            assert(self.l_vec@.len() * 2 * cb == self.l_vec@.len() * (2 * cb)) by (nonlinear_arith);
            assert(self.l_vec@.len() * 2 <= self.l_vec@.len() * 2 * cb) by (nonlinear_arith)
                requires
                    cb >= 1,
            ;
        }
        (self.l_vec.len() * 2) * cb + 2 * 32
    }

    /// Serialize the proof: the pairs `L_0, R_0, ...`, then `a` and `b`.
    pub fn to_bytes(&self) -> (bytes: Vec<u8>)
        ensures
            bytes@ == self.bytes_spec(),
    {
        proof {
            use_type_invariant(self);
        }
        let mut buf: Vec<u8> = Vec::new();
        append_pairs::<C>(&mut buf, &self.l_vec, &self.r_vec);
        crate::bytes::append_bytes(&mut buf, &C::scalar_to_canonical(&self.a));
        crate::bytes::append_bytes(&mut buf, &C::scalar_to_canonical(&self.b));
        buf
    }

    /// Deserialize a proof; anything but a whole number of point pairs
    /// followed by two canonical scalars is `FormatError`. A parsed proof
    /// encodes back to exactly the input.
    pub fn from_bytes(slice: &[u8]) -> (result: Result<Self, ProofError>)
        ensures
            result is Ok <==> ipp_parses::<C>(slice@),
            result is Err ==> result == Err::<Self, ProofError>(ProofError::FormatError),
            result matches Ok(p) ==> p.bytes_spec() == slice@ && p.ls().len() == (slice@.len() - 64)
                / (2 * C::compressed_len() as int),
    {
        let cb = C::compressed_bytes();
        proof {
            C::lemma_compressed_len();
        }
        let unit = 2 * cb;
        if slice.len() < 64 {
            return Err(ProofError::FormatError);
        }
        let body_len = slice.len() - 64;
        if body_len % unit != 0 {
            return Err(ProofError::FormatError);
        }
        let pairs = body_len / unit;
        proof {
            vstd::arithmetic::div_mod::lemma_fundamental_div_mod(body_len as int, unit as int);
            vstd::arithmetic::mul::lemma_mul_is_commutative(pairs as int, unit as int);
            assert(pairs * unit == body_len);
            assert(pairs * (2 * C::compressed_len()) == body_len);
        }
        let (l_vec, r_vec) = read_pairs::<C>(slice, pairs);
        let pos = body_len;
        let a = match read_scalar_at::<C>(slice, pos) {
            Some(a) => a,
            None => return Err(ProofError::FormatError),
        };
        let b = match read_scalar_at::<C>(slice, pos + 32) {
            Some(b) => b,
            None => return Err(ProofError::FormatError),
        };
        proof {
            C::lemma_scalar_decode(slice@.subrange(pos as int, pos + 32));
            C::lemma_scalar_decode(slice@.subrange(pos + 32, pos + 64));
            assert(slice@ =~= slice@.subrange(0, pos as int) + slice@.subrange(pos as int, pos + 32)
                + slice@.subrange(pos + 32, pos + 64));
        }
        Ok(InnerProductProof { l_vec, r_vec, a, b })
    }
}

/// Encoding an inner-product argument and parsing the bytes gives back
/// the same points and scalars: every encoding parses, and a parsed proof
/// encodes to exactly its input, so the two agree.
pub proof fn lemma_ipp_roundtrip<C: Cycle>(
    ls: Seq<C::Compressed>,
    rs: Seq<C::Compressed>,
    a: C::Scalar,
    b: C::Scalar,
)
    requires
        ls.len() == rs.len(),
        C::scalar_wf(a),
        C::scalar_wf(b),
    ensures
        ipp_parses::<C>(ipp_bytes::<C>(ls, rs, a, b)),
{
    let bytes = ipp_bytes::<C>(ls, rs, a, b);
    let n = ls.len() as int;
    let unit = 2 * C::compressed_len() as int;
    lemma_pairs_bytes::<C>(ls, rs, n);
    C::lemma_compressed_len();
    C::lemma_scalar(a);
    C::lemma_scalar(b);
    let p = pairs_bytes::<C>(ls, rs, n);
    assert(bytes.len() - 64 == n * unit);
    vstd::arithmetic::div_mod::lemma_mod_multiples_basic(n, unit);
    assert(bytes.subrange(p.len() as int, p.len() as int + 32) =~= C::scalar_view(a));
    assert(bytes.subrange(p.len() as int + 32, p.len() as int + 64) =~= C::scalar_view(b));
}

/// Equal encodings of inner-product arguments have equal points and
/// scalars.
pub proof fn lemma_ipp_bytes_injective<C: Cycle>(
    ls: Seq<C::Compressed>,
    rs: Seq<C::Compressed>,
    a: C::Scalar,
    b: C::Scalar,
    ls2: Seq<C::Compressed>,
    rs2: Seq<C::Compressed>,
    a2: C::Scalar,
    b2: C::Scalar,
)
    requires
        ls.len() == rs.len(),
        ls2.len() == rs2.len(),
        C::scalar_wf(a),
        C::scalar_wf(b),
        C::scalar_wf(a2),
        C::scalar_wf(b2),
        ipp_bytes::<C>(ls, rs, a, b) == ipp_bytes::<C>(ls2, rs2, a2, b2),
    ensures
        ls == ls2,
        rs == rs2,
        a == a2,
        b == b2,
{
    let bytes = ipp_bytes::<C>(ls, rs, a, b);
    let cb = C::compressed_len() as int;
    lemma_pairs_bytes::<C>(ls, rs, ls.len() as int);
    lemma_pairs_bytes::<C>(ls2, rs2, ls2.len() as int);
    C::lemma_compressed_len();
    C::lemma_scalar(a);
    C::lemma_scalar(b);
    C::lemma_scalar(a2);
    C::lemma_scalar(b2);
    let p0 = pairs_bytes::<C>(ls, rs, ls.len() as int);
    let q0 = pairs_bytes::<C>(ls2, rs2, ls2.len() as int);
    assert(bytes.len() == p0.len() + 64);
    assert(ipp_bytes::<C>(ls2, rs2, a2, b2).len() == q0.len() + 64);
    assert(ls.len() * (2 * cb) == ls2.len() * (2 * cb));
    assert(ls.len() == ls2.len()) by (nonlinear_arith)
        requires
            ls.len() * (2 * cb) == ls2.len() * (2 * cb),
            cb > 0,
    ;
    let p = pairs_bytes::<C>(ls, rs, ls.len() as int);
    let p2 = pairs_bytes::<C>(ls2, rs2, ls2.len() as int);
    assert(p =~= bytes.subrange(0, p.len() as int));
    assert(p2 =~= bytes.subrange(0, p.len() as int));
    assert(C::scalar_view(a) =~= bytes.subrange(p.len() as int, p.len() as int + 32));
    assert(C::scalar_view(a2) =~= bytes.subrange(p.len() as int, p.len() as int + 32));
    assert(C::scalar_view(b) =~= bytes.subrange(p.len() as int + 32, p.len() as int + 64));
    assert(C::scalar_view(b2) =~= bytes.subrange(p.len() as int + 32, p.len() as int + 64));
    assert forall|i: int| 0 <= i < ls.len() implies ls[i] == ls2[i] && rs[i] == rs2[i] by {
        assert(C::compressed_view(ls[i]) == C::compressed_view(ls2[i]));
        assert(C::compressed_view(rs[i]) == C::compressed_view(rs2[i]));
        C::lemma_compressed(ls[i], ls2[i]);
        C::lemma_compressed(rs[i], rs2[i]);
    }
    assert(ls =~= ls2);
    assert(rs =~= rs2);
}

/// A linear proof: `lg_n` pairs of compressed points, the base-case
/// commitment `S`, and the base-case scalars `a` and `r`.
pub struct LinearProof<C: Cycle> {
    l_vec: Vec<C::Compressed>,
    r_vec: Vec<C::Compressed>,
    s: C::Compressed,
    a: C::Scalar,
    r: C::Scalar,
}

/// The encoding of a linear proof: the pairs, `S`, then `a` and `r`.
pub open spec fn linear_bytes<C: Cycle>(
    ls: Seq<C::Compressed>,
    rs: Seq<C::Compressed>,
    s: C::Compressed,
    a: C::Scalar,
    r: C::Scalar,
) -> Seq<u8> {
    pairs_bytes::<C>(ls, rs, ls.len() as int) + C::compressed_view(s) + C::scalar_view(a)
        + C::scalar_view(r)
}

/// Bytes that parse as a linear proof: fewer than 32 whole point pairs,
/// then one point and two canonical scalars.
pub open spec fn linear_parses<C: Cycle>(bytes: Seq<u8>) -> bool {
    let cb = C::compressed_len() as int;
    let unit = 2 * cb;
    let tail = cb + 64;
    let pos = bytes.len() - tail;
    &&& bytes.len() >= tail
    &&& (bytes.len() - tail) % unit == 0
    &&& (bytes.len() - tail) / unit < 32
    &&& scalar_at::<C>(bytes, pos + cb) is Some
    &&& scalar_at::<C>(bytes, pos + cb + 32) is Some
}

impl<C: Cycle> LinearProof<C> {
    #[verifier::type_invariant]
    spec fn linear_wf(self) -> bool {
        &&& self.l_vec@.len() == self.r_vec@.len()
        &&& C::scalar_wf(self.a)
        &&& C::scalar_wf(self.r)
        &&& self.l_vec@.len() < 32
    }

    /// The proof with the given round points, base-case commitment and
    /// scalars.
    pub(crate) fn from_parts(
        l_vec: Vec<C::Compressed>,
        r_vec: Vec<C::Compressed>,
        s: C::Compressed,
        a: C::Scalar,
        r: C::Scalar,
    ) -> (proof: Self)
        requires
            l_vec@.len() == r_vec@.len(),
            l_vec@.len() < 32,
            C::scalar_wf(a),
            C::scalar_wf(r),
        ensures
            proof.ls() == l_vec@,
            proof.rs() == r_vec@,
            proof.s_spec() == s,
            proof.a_spec() == a,
            proof.r_spec() == r,
    {
        LinearProof { l_vec, r_vec, s, a, r }
    }

    /// The `L` points, one per folding round.
    pub closed spec fn ls(&self) -> Seq<C::Compressed> {
        self.l_vec@
    }

    /// The `R` points, one per folding round.
    pub closed spec fn rs(&self) -> Seq<C::Compressed> {
        self.r_vec@
    }

    /// The base-case commitment.
    pub closed spec fn s_spec(&self) -> C::Compressed {
        self.s
    }

    /// The base-case `a` scalar.
    pub closed spec fn a_spec(&self) -> C::Scalar {
        self.a
    }

    /// The base-case `r` scalar.
    pub closed spec fn r_spec(&self) -> C::Scalar {
        self.r
    }

    /// The encoding of this proof.
    pub open spec fn bytes_spec(&self) -> Seq<u8> {
        linear_bytes::<C>(self.ls(), self.rs(), self.s_spec(), self.a_spec(), self.r_spec())
    }

    /// Byte length of the encoding.
    pub fn serialized_size(&self) -> (n: usize)
        ensures
            n == self.bytes_spec().len(),
    {
        proof {
            use_type_invariant(self);
            lemma_pairs_bytes::<C>(self.ls(), self.rs(), self.ls().len() as int);
            C::lemma_scalar(self.a);
            C::lemma_scalar(self.r);
            C::lemma_compressed(self.s, self.s);
            C::lemma_compressed_len();
        }
        let cb = C::compressed_bytes();
        proof {
            let n = self.l_vec@.len() as int;
            assert((n * 2 + 1) * cb == n * (2 * cb) + cb) by (nonlinear_arith);
            assert((n * 2 + 1) * cb <= 63 * 1024) by (nonlinear_arith)
                requires
                    n < 32,
                    cb <= 1024,
            ;
        }
        (self.l_vec.len() * 2 + 1) * cb + 2 * 32
    }

    /// Serialize the proof: the pairs `L_0, R_0, ...`, then `S`, `a` and
    /// `r`.
    pub fn to_bytes(&self) -> (bytes: Vec<u8>)
        ensures
            bytes@ == self.bytes_spec(),
    {
        proof {
            use_type_invariant(self);
        }
        let mut buf: Vec<u8> = Vec::new();
        append_pairs::<C>(&mut buf, &self.l_vec, &self.r_vec);
        crate::bytes::append_bytes(&mut buf, C::compressed_as_bytes(&self.s));
        crate::bytes::append_bytes(&mut buf, &C::scalar_to_canonical(&self.a));
        crate::bytes::append_bytes(&mut buf, &C::scalar_to_canonical(&self.r));
        buf
    }

    /// Deserialize a proof; anything but fewer than 32 whole point pairs
    /// followed by a point and two canonical scalars is `FormatError`. A
    /// parsed proof encodes back to exactly the input.
    pub fn from_bytes(slice: &[u8]) -> (result: Result<Self, ProofError>)
        ensures
            result is Ok <==> linear_parses::<C>(slice@),
            result is Err ==> result == Err::<Self, ProofError>(ProofError::FormatError),
            result matches Ok(p) ==> p.bytes_spec() == slice@,
    {
        let cb = C::compressed_bytes();
        proof {
            C::lemma_compressed_len();
        }
        let unit = 2 * cb;
        let tail = cb + 2 * 32;
        if slice.len() < tail {
            return Err(ProofError::FormatError);
        }
        let body_len = slice.len() - tail;
        if body_len % unit != 0 {
            return Err(ProofError::FormatError);
        }
        let pairs = body_len / unit;
        if pairs >= 32 {
            return Err(ProofError::FormatError);
        }
        proof {
            vstd::arithmetic::div_mod::lemma_fundamental_div_mod(body_len as int, unit as int);
            vstd::arithmetic::mul::lemma_mul_is_commutative(pairs as int, unit as int);
            assert(pairs * (2 * C::compressed_len()) == body_len);
        }
        let (l_vec, r_vec) = read_pairs::<C>(slice, pairs);
        let pos = body_len;
        let s = C::compressed_from_bytes(&slice[pos..pos + cb]);
        let a = match read_scalar_at::<C>(slice, pos + cb) {
            Some(a) => a,
            None => return Err(ProofError::FormatError),
        };
        let r = match read_scalar_at::<C>(slice, pos + cb + 32) {
            Some(r) => r,
            None => return Err(ProofError::FormatError),
        };
        proof {
            C::lemma_scalar_decode(slice@.subrange(pos + cb, pos + cb + 32));
            C::lemma_scalar_decode(slice@.subrange(pos + cb + 32, pos + cb + 64));
            assert(slice@.subrange(pos as int, pos + cb).subrange(0, cb as int) =~= slice@.subrange(
                pos as int,
                pos + cb,
            ));
            assert(slice@ =~= slice@.subrange(0, pos as int) + slice@.subrange(pos as int, pos + cb)
                + slice@.subrange(pos + cb, pos + cb + 32) + slice@.subrange(
                pos + cb + 32,
                pos + cb + 64,
            ));
        }
        Ok(LinearProof { l_vec, r_vec, s, a, r })
    }
}

/// Every encoding of a linear proof with fewer than 32 rounds parses.
pub proof fn lemma_linear_roundtrip<C: Cycle>(
    ls: Seq<C::Compressed>,
    rs: Seq<C::Compressed>,
    s: C::Compressed,
    a: C::Scalar,
    r: C::Scalar,
)
    requires
        ls.len() == rs.len(),
        ls.len() < 32,
        C::scalar_wf(a),
        C::scalar_wf(r),
    ensures
        linear_parses::<C>(linear_bytes::<C>(ls, rs, s, a, r)),
{
    let bytes = linear_bytes::<C>(ls, rs, s, a, r);
    let n = ls.len() as int;
    let cb = C::compressed_len() as int;
    let unit = 2 * cb;
    lemma_pairs_bytes::<C>(ls, rs, n);
    C::lemma_compressed_len();
    C::lemma_compressed(s, s);
    C::lemma_scalar(a);
    C::lemma_scalar(r);
    let p = pairs_bytes::<C>(ls, rs, n);
    assert(bytes.len() - (cb + 64) == n * unit);
    vstd::arithmetic::div_mod::lemma_mod_multiples_basic(n, unit);
    vstd::arithmetic::div_mod::lemma_div_multiples_vanish(n, unit);
    assert(bytes.subrange(p.len() + cb, p.len() + cb + 32) =~= C::scalar_view(a));
    assert(bytes.subrange(p.len() + cb + 32, p.len() + cb + 64) =~= C::scalar_view(r));
}

/// Compressed points, one after the other.
pub open spec fn points_bytes<C: Cycle>(pts: Seq<C::Compressed>) -> Seq<u8>
    decreases pts.len(),
{
    if pts.len() == 0 {
        Seq::empty()
    } else {
        points_bytes::<C>(pts.drop_last()) + C::compressed_view(pts.last())
    }
}

/// Each point takes one point width, and point `k` sits at `k` widths.
pub proof fn lemma_points_bytes<C: Cycle>(pts: Seq<C::Compressed>)
    ensures
        points_bytes::<C>(pts).len() == pts.len() * C::compressed_len(),
        forall|k: int|
            0 <= k < pts.len() ==> points_bytes::<C>(pts).subrange(
                k * C::compressed_len(),
                k * C::compressed_len() + C::compressed_len(),
            ) == C::compressed_view(#[trigger] pts[k]),
    decreases pts.len(),
{
    let cb = C::compressed_len() as int;
    if pts.len() == 0 {
        assert(0 * cb == 0);
    } else {
        let init = pts.drop_last();
        lemma_points_bytes::<C>(init);
        C::lemma_compressed(pts.last(), pts.last());
        let head = points_bytes::<C>(init);
        let all = points_bytes::<C>(pts);
        let n = pts.len() as int;
        assert(all == head + C::compressed_view(pts.last()));
        assert(head.len() == (n - 1) * cb);
        assert((n - 1) * cb + cb == n * cb) by (nonlinear_arith);
        assert(all.len() == n * cb);
        assert forall|k: int| 0 <= k < n implies all.subrange(k * cb, k * cb + cb)
            == C::compressed_view(#[trigger] pts[k]) by {
            if k < n - 1 {
                assert(k * cb + cb <= (n - 1) * cb) by (nonlinear_arith)
                    requires
                        k < n - 1,
                        cb >= 0,
                ;
                assert(init[k] == pts[k]);
                assert(all.subrange(k * cb, k * cb + cb) =~= head.subrange(k * cb, k * cb + cb));
            } else {
                assert(all.subrange(k * cb, k * cb + cb) =~= C::compressed_view(pts.last()));
            }
        }
    }
}

/// Append compressed points to `out`.
fn append_points<C: Cycle>(out: &mut Vec<u8>, pts: &Vec<C::Compressed>)
    ensures
        final(out)@ == old(out)@ + points_bytes::<C>(pts@),
{
    let ghost start = out@;
    let mut i: usize = 0;
    while i < pts.len()
        invariant
            i <= pts@.len(),
            out@ == start + points_bytes::<C>(pts@.take(i as int)),
        decreases pts@.len() - i,
    {
        crate::bytes::append_bytes(out, C::compressed_as_bytes(&pts[i]));
        proof {
            assert(pts@.take(i + 1).drop_last() =~= pts@.take(i as int));
        }
        i = i + 1;
        assert(out@ =~= start + points_bytes::<C>(pts@.take(i as int)));
    }
    assert(pts@.take(i as int) =~= pts@);
}

/// A proof of a statement specified by a constraint system.
pub struct R1CSProof<C: Cycle> {
    a_i1: C::Compressed,
    a_o1: C::Compressed,
    s1: C::Compressed,
    a_i2: C::Compressed,
    a_o2: C::Compressed,
    s2: C::Compressed,
    t_1: C::Compressed,
    t_3: C::Compressed,
    t_4: C::Compressed,
    t_5: C::Compressed,
    t_6: C::Compressed,
    t_x: C::Scalar,
    t_x_blinding: C::Scalar,
    e_blinding: C::Scalar,
    ipp_proof: InnerProductProof<C>,
}

/// The bytes of chunk `k` of compressed points after the version byte.
pub open spec fn point_chunk<C: Cycle>(bytes: Seq<u8>, k: int) -> Seq<u8> {
    let cb = C::compressed_len() as int;
    bytes.subrange(1 + k * cb, 1 + k * cb + cb)
}

/// Number of compressed points of an encoding with version byte `version`.
pub open spec fn r1cs_point_count(version: u8) -> int {
    if version == 0 {
        8
    } else {
        11
    }
}

/// Offset of the three scalars of an encoding with version byte `version`.
pub open spec fn r1cs_scalars_at<C: Cycle>(version: u8) -> int {
    1 + r1cs_point_count(version) * C::compressed_len()
}

/// Bytes that parse as an R1CS proof: a one- or two-phase version byte,
/// the points of that version, three canonical scalars and an
/// inner-product argument.
pub open spec fn r1cs_parses<C: Cycle>(bytes: Seq<u8>) -> bool {
    let version = bytes[0];
    let at = r1cs_scalars_at::<C>(version);
    &&& bytes.len() >= 1
    &&& version == 0 || version == 1
    &&& bytes.len() >= at + 96
    &&& scalar_at::<C>(bytes, at) is Some
    &&& scalar_at::<C>(bytes, at + 32) is Some
    &&& scalar_at::<C>(bytes, at + 64) is Some
    &&& ipp_parses::<C>(bytes.subrange(at + 96, bytes.len() as int))
}

impl<C: Cycle> R1CSProof<C> {
    #[verifier::type_invariant]
    spec fn r1cs_wf(self) -> bool {
        &&& C::scalar_wf(self.t_x)
        &&& C::scalar_wf(self.t_x_blinding)
        &&& C::scalar_wf(self.e_blinding)
    }

    /// First-phase input-wire commitment.
    pub closed spec fn a_i1_spec(&self) -> C::Compressed {
        self.a_i1
    }

    /// First-phase output-wire commitment.
    pub closed spec fn a_o1_spec(&self) -> C::Compressed {
        self.a_o1
    }

    /// First-phase blinding commitment.
    pub closed spec fn s1_spec(&self) -> C::Compressed {
        self.s1
    }

    /// Second-phase input-wire commitment.
    pub closed spec fn a_i2_spec(&self) -> C::Compressed {
        self.a_i2
    }

    /// Second-phase output-wire commitment.
    pub closed spec fn a_o2_spec(&self) -> C::Compressed {
        self.a_o2
    }

    /// Second-phase blinding commitment.
    pub closed spec fn s2_spec(&self) -> C::Compressed {
        self.s2
    }

    /// Commitment to the `t_1` coefficient of `t(x)`.
    pub closed spec fn t_1_spec(&self) -> C::Compressed {
        self.t_1
    }

    /// Commitment to the `t_3` coefficient of `t(x)`.
    pub closed spec fn t_3_spec(&self) -> C::Compressed {
        self.t_3
    }

    /// Commitment to the `t_4` coefficient of `t(x)`.
    pub closed spec fn t_4_spec(&self) -> C::Compressed {
        self.t_4
    }

    /// Commitment to the `t_5` coefficient of `t(x)`.
    pub closed spec fn t_5_spec(&self) -> C::Compressed {
        self.t_5
    }

    /// Commitment to the `t_6` coefficient of `t(x)`.
    pub closed spec fn t_6_spec(&self) -> C::Compressed {
        self.t_6
    }

    /// Evaluation of `t(x)` at the challenge point.
    pub closed spec fn t_x_spec(&self) -> C::Scalar {
        self.t_x
    }

    /// Blinding factor of the synthetic `t(x)` commitment.
    pub closed spec fn t_x_blinding_spec(&self) -> C::Scalar {
        self.t_x_blinding
    }

    /// Blinding factor of the inner-product arguments.
    pub closed spec fn e_blinding_spec(&self) -> C::Scalar {
        self.e_blinding
    }

    /// The inner-product argument.
    pub closed spec fn ipp_spec(&self) -> InnerProductProof<C> {
        self.ipp_proof
    }

    /// The proof emitted no second-phase commitments: all three are the
    /// identity.
    pub open spec fn missing_phase2_spec(&self) -> bool {
        &&& C::compressed_view(self.a_i2_spec()) == C::identity_view()
        &&& C::compressed_view(self.a_o2_spec()) == C::identity_view()
        &&& C::compressed_view(self.s2_spec()) == C::identity_view()
    }

    /// The points of the encoding, in order: the first-phase points, the
    /// second-phase points unless missing, and the `t(x)` coefficient
    /// points.
    pub open spec fn points_spec(&self) -> Seq<C::Compressed> {
        if self.missing_phase2_spec() {
            seq![
                self.a_i1_spec(),
                self.a_o1_spec(),
                self.s1_spec(),
                self.t_1_spec(),
                self.t_3_spec(),
                self.t_4_spec(),
                self.t_5_spec(),
                self.t_6_spec(),
            ]
        } else {
            seq![
                self.a_i1_spec(),
                self.a_o1_spec(),
                self.s1_spec(),
                self.a_i2_spec(),
                self.a_o2_spec(),
                self.s2_spec(),
                self.t_1_spec(),
                self.t_3_spec(),
                self.t_4_spec(),
                self.t_5_spec(),
                self.t_6_spec(),
            ]
        }
    }

    /// The encoding of this proof: a version byte (zero when the
    /// second-phase points are missing, one otherwise), the points, the
    /// three scalars and the inner-product argument.
    pub open spec fn bytes_spec(&self) -> Seq<u8> {
        seq![
            if self.missing_phase2_spec() {
                0u8
            } else {
                1u8
            },
        ] + points_bytes::<C>(self.points_spec()) + C::scalar_view(self.t_x_spec()) + C::scalar_view(
            self.t_x_blinding_spec(),
        ) + C::scalar_view(self.e_blinding_spec()) + self.ipp_spec().bytes_spec()
    }

    /// The proof holds what `bytes` encode: the points in order after the
    /// version byte (identity second-phase points for a one-phase
    /// encoding), the three scalars and the inner-product argument.
    pub open spec fn read_back(&self, bytes: Seq<u8>) -> bool {
        let version = bytes[0];
        let two = version == 1;
        let off: int = if two {
            6
        } else {
            3
        };
        let at = r1cs_scalars_at::<C>(version);
        &&& C::compressed_view(self.a_i1_spec()) == point_chunk::<C>(bytes, 0)
        &&& C::compressed_view(self.a_o1_spec()) == point_chunk::<C>(bytes, 1)
        &&& C::compressed_view(self.s1_spec()) == point_chunk::<C>(bytes, 2)
        &&& two ==> C::compressed_view(self.a_i2_spec()) == point_chunk::<C>(bytes, 3)
            && C::compressed_view(self.a_o2_spec()) == point_chunk::<C>(bytes, 4)
            && C::compressed_view(self.s2_spec()) == point_chunk::<C>(bytes, 5)
        &&& !two ==> C::compressed_view(self.a_i2_spec()) == C::identity_view()
            && C::compressed_view(self.a_o2_spec()) == C::identity_view()
            && C::compressed_view(self.s2_spec()) == C::identity_view()
        &&& C::compressed_view(self.t_1_spec()) == point_chunk::<C>(bytes, off)
        &&& C::compressed_view(self.t_3_spec()) == point_chunk::<C>(bytes, off + 1)
        &&& C::compressed_view(self.t_4_spec()) == point_chunk::<C>(bytes, off + 2)
        &&& C::compressed_view(self.t_5_spec()) == point_chunk::<C>(bytes, off + 3)
        &&& C::compressed_view(self.t_6_spec()) == point_chunk::<C>(bytes, off + 4)
        &&& C::scalar_view(self.t_x_spec()) == bytes.subrange(at, at + 32)
        &&& C::scalar_view(self.t_x_blinding_spec()) == bytes.subrange(at + 32, at + 64)
        &&& C::scalar_view(self.e_blinding_spec()) == bytes.subrange(at + 64, at + 96)
        &&& self.ipp_spec().bytes_spec() == bytes.subrange(at + 96, bytes.len() as int)
    }
}

/// The compressed point of chunk `k` after the version byte.
fn point_at<C: Cycle>(slice: &[u8], k: usize, count: usize) -> (point: C::Compressed)
    requires
        k < count,
        1 + count * C::compressed_len() <= slice@.len(),
    ensures
        C::compressed_view(point) == point_chunk::<C>(slice@, k as int),
{
    let cb = C::compressed_bytes();
    let total = slice.len();
    proof {
        C::lemma_compressed_len();
        assert(k * cb <= (k + 1) * cb) by (nonlinear_arith)
            requires
                cb >= 0,
        ;
        assert((k + 1) * cb <= count * cb) by (nonlinear_arith)
            requires
                k + 1 <= count,
                cb >= 0,
        ;
        assert((k + 1) * cb == k * cb + cb) by (nonlinear_arith);
    }
    let start = 1 + k * cb;
    let point = C::compressed_from_bytes(&slice[start..slice.len()]);
    proof {
        assert(slice@.subrange(start as int, slice@.len() as int).subrange(0, cb as int) =~= slice@.subrange(
            start as int,
            start + cb,
        ));
    }
    point
}

impl<C: Cycle> R1CSProof<C> {
    /// The wire length of a one-phase proof whose inner-product argument
    /// folds `lg_n` rounds: the version byte, eight points, three scalars
    /// and the inner-product argument.
    pub fn single_phase_wire_len(lg_n: usize) -> (n: usize)
        requires
            lg_n * (2 * C::compressed_len()) + 8 * C::compressed_len() + 161 <= usize::MAX,
        ensures
            n == 1 + 8 * C::compressed_len() + 96 + lg_n * (2 * C::compressed_len()) + 64,
    {
        let cb = C::compressed_bytes();
        proof {
            C::lemma_compressed_len();
            assert(lg_n * 2 * cb == lg_n * (2 * cb)) by (nonlinear_arith);
            assert(lg_n * 2 <= lg_n * 2 * cb) by (nonlinear_arith)
                requires
                    cb >= 1,
            ;
        }
        1 + 8 * cb + 3 * 32 + ((lg_n * 2) * cb + 2 * 32)
    }

    /// Whether all three second-phase commitments are the identity.
    fn missing_phase2_commitments(&self) -> (missing: bool)
        ensures
            missing == self.missing_phase2_spec(),
    {
        C::compressed_is_identity(&self.a_i2) && C::compressed_is_identity(&self.a_o2)
            && C::compressed_is_identity(&self.s2)
    }

    /// Serialize the proof: a one-phase encoding when the second-phase
    /// commitments are all the identity, a two-phase encoding otherwise.
    pub fn to_bytes(&self) -> (bytes: Vec<u8>)
        ensures
            bytes@ == self.bytes_spec(),
    {
        proof {
            use_type_invariant(self);
        }
        let missing = self.missing_phase2_commitments();
        let mut pts: Vec<C::Compressed> = Vec::new();
        pts.push(self.a_i1);
        pts.push(self.a_o1);
        pts.push(self.s1);
        if !missing {
            pts.push(self.a_i2);
            pts.push(self.a_o2);
            pts.push(self.s2);
        }
        pts.push(self.t_1);
        pts.push(self.t_3);
        pts.push(self.t_4);
        pts.push(self.t_5);
        pts.push(self.t_6);
        assert(pts@ =~= self.points_spec());
        let mut buf: Vec<u8> = Vec::new();
        buf.push(if missing {
            0u8
        } else {
            1u8
        });
        append_points::<C>(&mut buf, &pts);
        crate::bytes::append_bytes(&mut buf, &C::scalar_to_canonical(&self.t_x));
        crate::bytes::append_bytes(&mut buf, &C::scalar_to_canonical(&self.t_x_blinding));
        crate::bytes::append_bytes(&mut buf, &C::scalar_to_canonical(&self.e_blinding));
        let ipp = self.ipp_proof.to_bytes();
        crate::bytes::append_bytes(&mut buf, ipp.as_slice());
        assert(buf@ =~= self.bytes_spec());
        buf
    }

    /// Deserialize a proof; an empty input, an unknown version byte, a
    /// body too short for the points and scalars of its version, a
    /// non-canonical scalar or a malformed inner-product argument is
    /// `FormatError`.
    pub fn from_bytes(slice: &[u8]) -> (result: Result<Self, crate::proof_errors::R1CSError>)
        ensures
            result is Ok <==> r1cs_parses::<C>(slice@),
            result is Err ==> result == Err::<Self, crate::proof_errors::R1CSError>(
                crate::proof_errors::R1CSError::FormatError,
            ),
            result matches Ok(p) ==> p.read_back(slice@) && p.parts_valid(),
    {
        if slice.len() == 0 {
            return Err(crate::proof_errors::R1CSError::FormatError);
        }
        let cb = C::compressed_bytes();
        proof {
            C::lemma_compressed_len();
        }
        let version = slice[0];
        let has_phase2 = if version == 0 {
            false
        } else if version == 1 {
            true
        } else {
            return Err(crate::proof_errors::R1CSError::FormatError);
        };
        let points: usize = if has_phase2 {
            11
        } else {
            8
        };
        let at = 1 + points * cb;
        if slice.len() - 1 < points * cb + 96 {
            return Err(crate::proof_errors::R1CSError::FormatError);
        }
        proof {
            assert(at == r1cs_scalars_at::<C>(version));
        }
        let a_i1 = point_at::<C>(slice, 0, points);
        let a_o1 = point_at::<C>(slice, 1, points);
        let s1 = point_at::<C>(slice, 2, points);
        let (a_i2, a_o2, s2, off) = if has_phase2 {
            (point_at::<C>(slice, 3, points), point_at::<C>(slice, 4, points), point_at::<C>(slice, 5, points), 6usize)
        } else {
            (C::compressed_identity(), C::compressed_identity(), C::compressed_identity(), 3usize)
        };
        let t_1 = point_at::<C>(slice, off, points);
        let t_3 = point_at::<C>(slice, off + 1, points);
        let t_4 = point_at::<C>(slice, off + 2, points);
        let t_5 = point_at::<C>(slice, off + 3, points);
        let t_6 = point_at::<C>(slice, off + 4, points);
        let t_x = match read_scalar_at::<C>(slice, at) {
            Some(v) => v,
            None => return Err(crate::proof_errors::R1CSError::FormatError),
        };
        let t_x_blinding = match read_scalar_at::<C>(slice, at + 32) {
            Some(v) => v,
            None => return Err(crate::proof_errors::R1CSError::FormatError),
        };
        let e_blinding = match read_scalar_at::<C>(slice, at + 64) {
            Some(v) => v,
            None => return Err(crate::proof_errors::R1CSError::FormatError),
        };
        proof {
            C::lemma_scalar_decode(slice@.subrange(at as int, at + 32));
            C::lemma_scalar_decode(slice@.subrange(at + 32, at + 64));
            C::lemma_scalar_decode(slice@.subrange(at + 64, at + 96));
        }
        let ipp_proof = match InnerProductProof::<C>::from_bytes(&slice[at + 96..slice.len()]) {
            Ok(p) => p,
            Err(_) => return Err(crate::proof_errors::R1CSError::FormatError),
        };
        let proof = R1CSProof {
            a_i1,
            a_o1,
            s1,
            a_i2,
            a_o2,
            s2,
            t_1,
            t_3,
            t_4,
            t_5,
            t_6,
            t_x,
            t_x_blinding,
            e_blinding,
            ipp_proof,
        };
        proof {
            use_type_invariant(&proof);
            use_type_invariant(&proof.ipp_proof);
        }
        Ok(proof)
    }
}

impl<C: Cycle> InnerProductProof<C> {
    /// The parts satisfy what every proof value satisfies: as many `L` as
    /// `R` points, and field-element scalars.
    pub open spec fn parts_valid(&self) -> bool {
        &&& self.ls().len() == self.rs().len()
        &&& C::scalar_wf(self.a_spec())
        &&& C::scalar_wf(self.b_spec())
    }
}

impl<C: Cycle> R1CSProof<C> {
    /// The parts satisfy what every proof value satisfies: field-element
    /// scalars and a valid inner-product argument.
    pub open spec fn parts_valid(&self) -> bool {
        &&& C::scalar_wf(self.t_x_spec())
        &&& C::scalar_wf(self.t_x_blinding_spec())
        &&& C::scalar_wf(self.e_blinding_spec())
        &&& self.ipp_spec().parts_valid()
    }
}

/// Where the parts of a proof's encoding sit: the version byte, point `k`
/// at chunk `k`, the scalars after the points, and the inner-product
/// argument at the end.
pub proof fn lemma_r1cs_layout<C: Cycle>(p: R1CSProof<C>)
    requires
        p.parts_valid(),
    ensures
        ({
            let bytes = p.bytes_spec();
            let version = bytes[0];
            let at = r1cs_scalars_at::<C>(version);
            let ipp = p.ipp_spec();
            &&& bytes.len() >= 1
            &&& version == (if p.missing_phase2_spec() {
                0u8
            } else {
                1u8
            })
            &&& p.points_spec().len() == r1cs_point_count(version)
            &&& forall|k: int|
                0 <= k < p.points_spec().len() ==> point_chunk::<C>(bytes, k) == C::compressed_view(
                    #[trigger] p.points_spec()[k],
                )
            &&& bytes.subrange(at, at + 32) == C::scalar_view(p.t_x_spec())
            &&& bytes.subrange(at + 32, at + 64) == C::scalar_view(p.t_x_blinding_spec())
            &&& bytes.subrange(at + 64, at + 96) == C::scalar_view(p.e_blinding_spec())
            &&& bytes.subrange(at + 96, bytes.len() as int) == ipp.bytes_spec()
            &&& bytes.len() == at + 96 + ipp.bytes_spec().len()
        }),
{
    let bytes = p.bytes_spec();
    let cb = C::compressed_len() as int;
    let pts = p.points_spec();
    lemma_points_bytes::<C>(pts);
    C::lemma_scalar(p.t_x_spec());
    C::lemma_scalar(p.t_x_blinding_spec());
    C::lemma_scalar(p.e_blinding_spec());
    let vb = seq![
        if p.missing_phase2_spec() {
            0u8
        } else {
            1u8
        },
    ];
    let pb = points_bytes::<C>(pts);
    let at = 1 + pts.len() * cb;
    assert(bytes[0] == vb[0]);
    assert forall|k: int| 0 <= k < pts.len() implies point_chunk::<C>(bytes, k) == C::compressed_view(
        #[trigger] pts[k],
    ) by {
        assert(k * cb + cb <= pts.len() * cb) by (nonlinear_arith)
            requires
                k < pts.len(),
                cb >= 0,
        ;
        assert(bytes.subrange(1 + k * cb, 1 + k * cb + cb) =~= pb.subrange(k * cb, k * cb + cb));
    }
    assert(bytes.subrange(at, at + 32) =~= C::scalar_view(p.t_x_spec()));
    assert(bytes.subrange(at + 32, at + 64) =~= C::scalar_view(p.t_x_blinding_spec()));
    assert(bytes.subrange(at + 64, at + 96) =~= C::scalar_view(p.e_blinding_spec()));
    assert(bytes.subrange(at + 96, bytes.len() as int) =~= p.ipp_spec().bytes_spec());
}

/// The encoding of a one-phase proof has the length
/// [`R1CSProof::single_phase_wire_len`] gives for its folding rounds.
pub proof fn lemma_single_phase_wire_len<C: Cycle>(p: R1CSProof<C>)
    requires
        p.parts_valid(),
        p.missing_phase2_spec(),
    ensures
        p.bytes_spec().len() == 1 + 8 * C::compressed_len() + 96 + p.ipp_spec().ls().len() * (2
            * C::compressed_len()) + 64,
{
    let ipp = p.ipp_spec();
    lemma_r1cs_layout(p);
    lemma_pairs_bytes::<C>(ipp.ls(), ipp.rs(), ipp.ls().len() as int);
    C::lemma_scalar(ipp.a_spec());
    C::lemma_scalar(ipp.b_spec());
}

/// Serializing a proof and parsing the bytes gives back the same proof:
/// the encoding parses, and every proof read back from it has the same
/// points, scalars and inner-product argument.
pub proof fn lemma_r1cs_roundtrip<C: Cycle>(p: R1CSProof<C>, q: R1CSProof<C>)
    requires
        p.parts_valid(),
        q.parts_valid(),
        q.read_back(p.bytes_spec()),
    ensures
        r1cs_parses::<C>(p.bytes_spec()),
        q.points_spec() == p.points_spec(),
        q.missing_phase2_spec() == p.missing_phase2_spec(),
        q.a_i2_spec() == p.a_i2_spec(),
        q.a_o2_spec() == p.a_o2_spec(),
        q.s2_spec() == p.s2_spec(),
        q.t_x_spec() == p.t_x_spec(),
        q.t_x_blinding_spec() == p.t_x_blinding_spec(),
        q.e_blinding_spec() == p.e_blinding_spec(),
        q.ipp_spec().ls() == p.ipp_spec().ls(),
        q.ipp_spec().rs() == p.ipp_spec().rs(),
        q.ipp_spec().a_spec() == p.ipp_spec().a_spec(),
        q.ipp_spec().b_spec() == p.ipp_spec().b_spec(),
{
    let bytes = p.bytes_spec();
    let ipp = p.ipp_spec();
    let qi = q.ipp_spec();
    lemma_r1cs_layout(p);
    C::lemma_compressed_len();
    lemma_ipp_roundtrip::<C>(ipp.ls(), ipp.rs(), ipp.a_spec(), ipp.b_spec());
    lemma_ipp_bytes_injective::<C>(
        qi.ls(),
        qi.rs(),
        qi.a_spec(),
        qi.b_spec(),
        ipp.ls(),
        ipp.rs(),
        ipp.a_spec(),
        ipp.b_spec(),
    );
    C::lemma_scalar(p.t_x_spec());
    C::lemma_scalar(p.t_x_blinding_spec());
    C::lemma_scalar(p.e_blinding_spec());
    C::lemma_scalar(q.t_x_spec());
    C::lemma_scalar(q.t_x_blinding_spec());
    C::lemma_scalar(q.e_blinding_spec());
    lemma_r1cs_points_equal(p, q);
}

/// A proof read back from the encoding of another has the same points.
proof fn lemma_r1cs_points_equal<C: Cycle>(p: R1CSProof<C>, q: R1CSProof<C>)
    requires
        p.parts_valid(),
        q.read_back(p.bytes_spec()),
    ensures
        q.points_spec() == p.points_spec(),
        q.missing_phase2_spec() == p.missing_phase2_spec(),
        q.a_i2_spec() == p.a_i2_spec(),
        q.a_o2_spec() == p.a_o2_spec(),
        q.s2_spec() == p.s2_spec(),
{
    lemma_r1cs_layout(p);
    let pp = p.points_spec();
    let two = !p.missing_phase2_spec();
    assert(point_chunk::<C>(p.bytes_spec(), 0) == C::compressed_view(pp[0]));
    assert(point_chunk::<C>(p.bytes_spec(), 1) == C::compressed_view(pp[1]));
    assert(point_chunk::<C>(p.bytes_spec(), 2) == C::compressed_view(pp[2]));
    assert(point_chunk::<C>(p.bytes_spec(), 3) == C::compressed_view(pp[3]));
    assert(point_chunk::<C>(p.bytes_spec(), 4) == C::compressed_view(pp[4]));
    assert(point_chunk::<C>(p.bytes_spec(), 5) == C::compressed_view(pp[5]));
    assert(point_chunk::<C>(p.bytes_spec(), 6) == C::compressed_view(pp[6]));
    assert(point_chunk::<C>(p.bytes_spec(), 7) == C::compressed_view(pp[7]));
    if two {
        assert(point_chunk::<C>(p.bytes_spec(), 8) == C::compressed_view(pp[8]));
        assert(point_chunk::<C>(p.bytes_spec(), 9) == C::compressed_view(pp[9]));
        assert(point_chunk::<C>(p.bytes_spec(), 10) == C::compressed_view(pp[10]));
    }
    C::lemma_compressed(q.a_i1_spec(), p.a_i1_spec());
    C::lemma_compressed(q.a_o1_spec(), p.a_o1_spec());
    C::lemma_compressed(q.s1_spec(), p.s1_spec());
    C::lemma_compressed(q.a_i2_spec(), p.a_i2_spec());
    C::lemma_compressed(q.a_o2_spec(), p.a_o2_spec());
    C::lemma_compressed(q.s2_spec(), p.s2_spec());
    C::lemma_compressed(q.t_1_spec(), p.t_1_spec());
    C::lemma_compressed(q.t_3_spec(), p.t_3_spec());
    C::lemma_compressed(q.t_4_spec(), p.t_4_spec());
    C::lemma_compressed(q.t_5_spec(), p.t_5_spec());
    C::lemma_compressed(q.t_6_spec(), p.t_6_spec());
    assert(q.points_spec() =~= p.points_spec());
}

} // verus!
