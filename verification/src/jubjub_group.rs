//! Golden group adapter for the prime-order subgroup of Jubjub.
//!
//! Scalars are elements of the Jubjub scalar field `Fr`, held as their
//! canonical little-endian bytes; group elements are points of the
//! prime-order subgroup, held as their canonical 32-byte encoding. Field and
//! group arithmetic is performed by the `jubjub` crate.
use vstd::prelude::*;
use vstd::string::StringSliceAdditionalSpecFns;

use crate::error::Error;
use crate::group::{FieldByteOrder, GoldenGroup, GoldenHashToGroup, GoldenScalar};
use crate::bytes::{append_bytes, le_value, u32_be, u32_to_be_bytes, u64_be};
use crate::main_golden::append_framed;
use crate::transcript::{sha256, sha256_spec};
use crate::wire::bytes_equal;
use crate::wire_values::{array32, lemma_array32_holds, lemma_array32_of_view};

verus! {

/// Order of the Jubjub prime-order subgroup and of its scalar field `Fr`.
pub open spec fn jubjub_order() -> nat {
    0x0e7db4ea6533afa906673b0101343b00a6682093ccc81082d0970e5ed6f72cb7nat
}

/// Little-endian integers of equal width are equal only when their bytes are.
pub proof fn lemma_le_value_injective(x: Seq<u8>, y: Seq<u8>)
    requires
        x.len() == y.len(),
        le_value(x) == le_value(y),
    ensures
        x == y,
    decreases x.len(),
{
    if x.len() > 0 {
        let xs = x.subrange(1, x.len() as int);
        let ys = y.subrange(1, y.len() as int);
        assert(x[0] as nat + 256 * le_value(xs) == y[0] as nat + 256 * le_value(ys));
        assert(x[0] == y[0]);
        lemma_le_value_injective(xs, ys);
        assert(x =~= y) by {
            assert forall|i: int| 0 <= i < x.len() implies x[i] == y[i] by {
                if i > 0 {
                    assert(x[i] == xs[i - 1]);
                    assert(y[i] == ys[i - 1]);
                }
            }
        }
    }
}

/// Calls `jubjub::Fr::from(u64)`: the field element `value mod r`, in its
/// canonical little-endian encoding.
#[verifier::external_body]
fn fr_from_u64(value: u64) -> (out: [u8; 32])
    ensures
        le_value(out@) == value as nat % jubjub_order(),
{
    jubjub::Fr::from(value).to_bytes()
}

/// Calls `jubjub::Fr::from_bytes(..).is_some()`: whether the bytes are the
/// canonical little-endian encoding of a field element (below `r`).
#[verifier::external_body]
fn fr_is_canonical(bytes: &[u8; 32]) -> (canonical: bool)
    ensures
        canonical == (le_value(bytes@) < jubjub_order()),
{
    bool::from(jubjub::Fr::from_bytes(bytes).is_some())
}

/// Calls `jubjub::Fr` addition on two canonical encodings.
#[verifier::external_body]
fn fr_add(a: &[u8; 32], b: &[u8; 32]) -> (out: [u8; 32])
    requires
        le_value(a@) < jubjub_order(),
        le_value(b@) < jubjub_order(),
    ensures
        le_value(out@) == (le_value(a@) + le_value(b@)) % jubjub_order(),
{
    (jubjub::Fr::from_bytes(a).unwrap() + jubjub::Fr::from_bytes(b).unwrap()).to_bytes()
}

/// Calls `jubjub::Fr` subtraction on two canonical encodings.
#[verifier::external_body]
fn fr_sub(a: &[u8; 32], b: &[u8; 32]) -> (out: [u8; 32])
    requires
        le_value(a@) < jubjub_order(),
        le_value(b@) < jubjub_order(),
    ensures
        le_value(out@) == (le_value(a@) - le_value(b@)) % (jubjub_order() as int),
{
    (jubjub::Fr::from_bytes(a).unwrap() - jubjub::Fr::from_bytes(b).unwrap()).to_bytes()
}

/// Calls `jubjub::Fr` multiplication on two canonical encodings.
#[verifier::external_body]
fn fr_mul(a: &[u8; 32], b: &[u8; 32]) -> (out: [u8; 32])
    requires
        le_value(a@) < jubjub_order(),
        le_value(b@) < jubjub_order(),
    ensures
        le_value(out@) == (le_value(a@) * le_value(b@)) % jubjub_order(),
{
    (jubjub::Fr::from_bytes(a).unwrap() * jubjub::Fr::from_bytes(b).unwrap()).to_bytes()
}

/// Calls `jubjub::Fr::invert`, which fails exactly for zero; otherwise the
/// result times the input is one.
#[verifier::external_body]
fn fr_invert(a: &[u8; 32]) -> (out: Option<[u8; 32]>)
    requires
        le_value(a@) < jubjub_order(),
    ensures
        out is None <==> le_value(a@) == 0,
        out matches Some(i) ==> le_value(i@) < jubjub_order() && (le_value(i@) * le_value(a@))
            % jubjub_order() == 1,
{
    Option::<jubjub::Fr>::from(jubjub::Fr::from_bytes(a).unwrap().invert()).map(|i| i.to_bytes())
}

/// Calls `ff::Field::is_zero` on `jubjub::Fr`.
#[verifier::external_body]
fn fr_is_zero(a: &[u8; 32]) -> (zero: bool)
    requires
        le_value(a@) < jubjub_order(),
    ensures
        zero == (le_value(a@) == 0),
{
    bool::from(<jubjub::Fr as ff::Field>::is_zero(&jubjub::Fr::from_bytes(a).unwrap()))
}

/// Element of the Jubjub scalar field `Fr`, held as its canonical
/// little-endian bytes.
#[derive(Clone, Copy, Debug, PartialEq, Eq)]
pub struct JubjubScalar {
    repr: [u8; 32],
}

impl View for JubjubScalar {
    type V = Seq<u8>;

    /// The canonical little-endian bytes of the scalar.
    closed spec fn view(&self) -> Seq<u8> {
        self.repr@
    }
}

impl JubjubScalar {
    /// The canonical little-endian bytes of this scalar.
    pub fn to_bytes(&self) -> (bytes: [u8; 32])
        ensures
            bytes@ == self@,
    {
        self.repr
    }

    /// The scalar with the given canonical little-endian bytes, if they are
    /// canonical.
    pub fn from_bytes(bytes: [u8; 32]) -> (result: Option<Self>)
        ensures
            result is Some <==> le_value(bytes@) < jubjub_order(),
            result matches Some(s) ==> s@ == bytes@ && s.wf(),
    {
        if fr_is_canonical(&bytes) {
            Some(JubjubScalar { repr: bytes })
        } else {
            None
        }
    }
}

impl GoldenScalar for JubjubScalar {
    open spec fn field_order() -> nat {
        jubjub_order()
    }

    open spec fn value(&self) -> nat {
        le_value(self@)
    }

    open spec fn repr_len() -> nat {
        32
    }

    open spec fn repr_of(&self) -> Seq<u8> {
        self@
    }

    closed spec fn decode_repr(bytes: Seq<u8>) -> Option<Self> {
        if bytes.len() == 32 && le_value(bytes) < jubjub_order() {
            Some(JubjubScalar { repr: array32(bytes) })
        } else {
            None
        }
    }

    open spec fn byte_order() -> FieldByteOrder {
        FieldByteOrder::LittleEndian
    }

    open spec fn wf(&self) -> bool {
        le_value(self@) < jubjub_order()
    }

    open spec fn from_u64_succeeds(value: u64) -> bool {
        true
    }

    proof fn lemma_field_order() {
    }

    proof fn lemma_scalar_model(a: Self, b: Self) {
        lemma_array32_of_view(a.repr);
        if le_value(a.repr@) == le_value(b.repr@) {
            lemma_le_value_injective(a.repr@, b.repr@);
            vstd::array::axiom_array_ext_equal(a.repr, b.repr);
        }
    }

    proof fn lemma_decode_canonical(bytes: Seq<u8>) {
        if bytes.len() == 32 && le_value(bytes) < jubjub_order() {
            lemma_array32_holds(bytes);
        }
    }

    fn repr_bytes() -> (n: usize) {
        32
    }

    fn zero() -> (z: Self) {
        JubjubScalar { repr: fr_from_u64(0) }
    }

    fn one() -> (o: Self) {
        let repr = fr_from_u64(1);
        JubjubScalar { repr }
    }

    fn from_u64(value: u64) -> (result: Result<Self, Error>) {
        Ok(JubjubScalar { repr: fr_from_u64(value) })
    }

    fn add(&self, rhs: &Self) -> (sum: Self) {
        JubjubScalar { repr: fr_add(&self.repr, &rhs.repr) }
    }

    fn sub(&self, rhs: &Self) -> (difference: Self) {
        JubjubScalar { repr: fr_sub(&self.repr, &rhs.repr) }
    }

    fn mul(&self, rhs: &Self) -> (product: Self) {
        JubjubScalar { repr: fr_mul(&self.repr, &rhs.repr) }
    }

    fn invert(&self) -> (inverse: Option<Self>) {
        match fr_invert(&self.repr) {
            Some(repr) => Some(JubjubScalar { repr }),
            None => None,
        }
    }

    fn is_zero(&self) -> (zero: bool) {
        fr_is_zero(&self.repr)
    }

    fn scalar_eq(&self, other: &Self) -> (equal: bool) {
        let equal = bytes_equal(&self.repr, &other.repr);
        proof {
            if self.repr@ == other.repr@ {
                vstd::array::axiom_array_ext_equal(self.repr, other.repr);
            }
        }
        equal
    }

    fn to_repr(&self) -> (repr: Vec<u8>) {
        let mut out: Vec<u8> = Vec::new();
        crate::bytes::append_bytes(&mut out, &self.repr);
        assert(out@ =~= self.repr@);
        out
    }

    fn from_repr(repr: &[u8]) -> (result: Result<Self, Error>) {
        if repr.len() != 32 {
            return Err(Error::InvalidEncoding);
        }
        let mut bytes = [0u8; 32];
        let mut i: usize = 0;
        while i < 32
            invariant
                i <= 32,
                repr@.len() == 32,
                forall|k: int| 0 <= k < i ==> bytes@[k] == repr@[k],
            decreases 32 - i,
        {
            bytes[i] = repr[i];
            i = i + 1;
        }
        assert(bytes@ =~= repr@);
        proof {
            lemma_array32_of_view(bytes);
        }
        match JubjubScalar::from_bytes(bytes) {
            Some(scalar) => {
                proof {
                    assert(scalar.repr =~= bytes);
                }
                Ok(scalar)
            },
            None => Err(Error::InvalidEncoding),
        }
    }

    fn repr_byte_order() -> (order: FieldByteOrder) {
        FieldByteOrder::LittleEndian
    }
}

/// Whether `jubjub::SubgroupPoint::from_bytes` accepts the 32 bytes: they
/// are the canonical encoding of a point of the prime-order subgroup.
pub uninterp spec fn jubjub_subgroup_decodes(bytes: Seq<u8>) -> bool;

/// Discrete logarithm, below the subgroup order, of the prime-order subgroup
/// point with encoding `bytes`, with respect to
/// `jubjub::SubgroupPoint::generator()`.
pub uninterp spec fn jubjub_subgroup_dlog(bytes: Seq<u8>) -> nat;

/// The encoding of a point of the prime-order subgroup.
pub open spec fn jubjub_point(bytes: Seq<u8>) -> bool {
    jubjub_subgroup_decodes(bytes) && jubjub_subgroup_dlog(bytes) < jubjub_order()
}

/// What `jubjub::AffinePoint::from_bytes` followed by `clear_cofactor` and
/// `to_bytes` gives for a candidate encoding: the encoding of the
/// cofactor-cleared point, or nothing when the candidate is not a curve
/// point.
pub uninterp spec fn jubjub_cleared_candidate(candidate: Seq<u8>) -> Option<Seq<u8>>;

/// Calls `jubjub::SubgroupPoint::from_bytes(..).is_some()`. A point it
/// accepts lies in the prime-order subgroup.
#[verifier::external_body]
fn jj_decodes(bytes: &[u8; 32]) -> (ok: bool)
    ensures
        ok == jubjub_subgroup_decodes(bytes@),
        ok ==> jubjub_subgroup_dlog(bytes@) < jubjub_order(),
{
    bool::from(<jubjub::SubgroupPoint as group::GroupEncoding>::from_bytes(bytes).is_some())
}

/// Calls `jubjub::SubgroupPoint::generator()` and encodes it.
#[verifier::external_body]
fn jj_generator() -> (out: [u8; 32])
    ensures
        jubjub_point(out@),
        jubjub_subgroup_dlog(out@) == 1,
{
    group::GroupEncoding::to_bytes(&<jubjub::SubgroupPoint as group::Group>::generator())
}

/// The encoding of the identity `(u, v) = (0, 1)`: the little-endian `v`
/// coordinate with a clear sign bit.
pub open spec fn jubjub_identity_bytes() -> Seq<u8> {
    seq![1u8] + Seq::new(31, |i: int| 0u8)
}

/// Calls `jubjub::SubgroupPoint::identity()` and encodes it: the affine
/// point `(0, 1)`, whose encoding is the `v` coordinate one with a clear
/// sign bit.
#[verifier::external_body]
pub(crate) fn jj_identity() -> (out: [u8; 32])
    ensures
        out@ == jubjub_identity_bytes(),
        jubjub_point(out@),
        jubjub_subgroup_dlog(out@) == 0,
{
    group::GroupEncoding::to_bytes(&<jubjub::SubgroupPoint as group::Group>::identity())
}

/// Calls addition of two `jubjub::SubgroupPoint`s: logarithms add modulo
/// the subgroup order.
#[verifier::external_body]
fn jj_add(a: &[u8; 32], b: &[u8; 32]) -> (out: [u8; 32])
    requires
        jubjub_subgroup_decodes(a@),
        jubjub_subgroup_decodes(b@),
    ensures
        jubjub_point(out@),
        jubjub_subgroup_dlog(out@) == (jubjub_subgroup_dlog(a@) + jubjub_subgroup_dlog(b@))
            % jubjub_order(),
{
    let a = <jubjub::SubgroupPoint as group::GroupEncoding>::from_bytes(a).unwrap();
    let b = <jubjub::SubgroupPoint as group::GroupEncoding>::from_bytes(b).unwrap();
    group::GroupEncoding::to_bytes(&(a + b))
}

/// Calls subtraction of two `jubjub::SubgroupPoint`s: logarithms subtract
/// modulo the subgroup order.
#[verifier::external_body]
fn jj_sub(a: &[u8; 32], b: &[u8; 32]) -> (out: [u8; 32])
    requires
        jubjub_subgroup_decodes(a@),
        jubjub_subgroup_decodes(b@),
    ensures
        jubjub_point(out@),
        jubjub_subgroup_dlog(out@) == (jubjub_subgroup_dlog(a@) - jubjub_subgroup_dlog(b@))
            % (jubjub_order() as int),
{
    let a = <jubjub::SubgroupPoint as group::GroupEncoding>::from_bytes(a).unwrap();
    let b = <jubjub::SubgroupPoint as group::GroupEncoding>::from_bytes(b).unwrap();
    group::GroupEncoding::to_bytes(&(a - b))
}

/// Calls multiplication of a `jubjub::SubgroupPoint` by a `jubjub::Fr`:
/// the logarithm is multiplied by the scalar modulo the subgroup order.
#[verifier::external_body]
fn jj_mul(point: &[u8; 32], scalar: &[u8; 32]) -> (out: [u8; 32])
    requires
        jubjub_subgroup_decodes(point@),
        le_value(scalar@) < jubjub_order(),
    ensures
        jubjub_point(out@),
        jubjub_subgroup_dlog(out@) == (jubjub_subgroup_dlog(point@) * le_value(scalar@))
            % jubjub_order(),
{
    let p = <jubjub::SubgroupPoint as group::GroupEncoding>::from_bytes(point).unwrap();
    let s = jubjub::Fr::from_bytes(scalar).unwrap();
    group::GroupEncoding::to_bytes(&(p * s))
}

/// Calls `jubjub::SubgroupPoint::is_identity`.
#[verifier::external_body]
fn jj_is_identity(point: &[u8; 32]) -> (identity: bool)
    requires
        jubjub_subgroup_decodes(point@),
    ensures
        identity == (jubjub_subgroup_dlog(point@) == 0),
{
    let p = <jubjub::SubgroupPoint as group::GroupEncoding>::from_bytes(point).unwrap();
    bool::from(group::Group::is_identity(&p))
}

/// Calls `==` on two `jubjub::SubgroupPoint`s: the same point exactly when
/// the logarithms agree.
#[verifier::external_body]
fn jj_eq(a: &[u8; 32], b: &[u8; 32]) -> (equal: bool)
    requires
        jubjub_subgroup_decodes(a@),
        jubjub_subgroup_decodes(b@),
    ensures
        equal == (jubjub_subgroup_dlog(a@) == jubjub_subgroup_dlog(b@)),
{
    let a = <jubjub::SubgroupPoint as group::GroupEncoding>::from_bytes(a).unwrap();
    let b = <jubjub::SubgroupPoint as group::GroupEncoding>::from_bytes(b).unwrap();
    a == b
}

/// Calls `jubjub::AffinePoint::from_bytes` on a candidate encoding and, for
/// a curve point, `clear_cofactor` and `to_bytes`. A cleared point lies in
/// the prime-order subgroup.
#[verifier::external_body]
pub(crate) fn jj_cleared_candidate(candidate: &[u8; 32]) -> (out: Option<[u8; 32]>)
    ensures
        out matches Some(p) ==> jubjub_cleared_candidate(candidate@) == Some(p@) && jubjub_point(
            p@,
        ),
        out is None ==> jubjub_cleared_candidate(candidate@) is None,
{
    match Option::<jubjub::AffinePoint>::from(jubjub::AffinePoint::from_bytes(*candidate)) {
        Some(a) => Some(
            group::GroupEncoding::to_bytes(
                &group::cofactor::CofactorGroup::clear_cofactor(&jubjub::ExtendedPoint::from(a)),
            ),
        ),
        None => None,
    }
}

/// Point of the prime-order subgroup of Jubjub, held as its canonical
/// 32-byte encoding.
#[derive(Clone, Copy, Debug, PartialEq, Eq)]
pub struct JubjubElement {
    bytes: [u8; 32],
}

impl View for JubjubElement {
    type V = Seq<u8>;

    /// The canonical 32-byte encoding of the point.
    closed spec fn view(&self) -> Seq<u8> {
        self.bytes@
    }
}

impl JubjubElement {
    /// The canonical 32-byte encoding of this point.
    pub fn to_bytes(&self) -> (bytes: [u8; 32])
        ensures
            bytes@ == self@,
    {
        self.bytes
    }

    /// The subgroup point with the given encoding, if it is the canonical
    /// encoding of a point of the prime-order subgroup.
    pub fn from_bytes(bytes: [u8; 32]) -> (result: Option<Self>)
        ensures
            result is Some <==> jubjub_subgroup_decodes(bytes@),
            result matches Some(e) ==> e@ == bytes@ && JubjubGoldenGroup::element_wf(e),
    {
        if jj_decodes(&bytes) {
            Some(JubjubElement { bytes })
        } else {
            None
        }
    }

    /// The point with an encoding known to be that of a subgroup point.
    pub(crate) fn from_point_bytes(bytes: [u8; 32]) -> (e: Self)
        requires
            jubjub_point(bytes@),
        ensures
            e@ == bytes@,
            JubjubGoldenGroup::element_wf(e),
    {
        JubjubElement { bytes }
    }

    /// Whether this point is the identity.
    pub fn is_identity(&self) -> (identity: bool)
        requires
            JubjubGoldenGroup::element_wf(*self),
        ensures
            identity == (JubjubGoldenGroup::dlog(*self) == 0),
    {
        jj_is_identity(&self.bytes)
    }
}

/// Golden group marker for Jubjub.
#[derive(Clone, Copy, Debug, Eq, PartialEq)]
pub struct JubjubGoldenGroup;

/// The 33-byte element encoding: a zero tag byte, then the point encoding.
pub open spec fn jubjub_element_encoding(point: Seq<u8>) -> Seq<u8> {
    seq![0u8] + point
}

impl GoldenGroup for JubjubGoldenGroup {
    type Scalar = JubjubScalar;

    type Element = JubjubElement;

    open spec fn dlog(e: JubjubElement) -> nat {
        jubjub_subgroup_dlog(e@)
    }

    open spec fn element_repr_len() -> nat {
        33
    }

    open spec fn encode_spec(e: JubjubElement) -> Seq<u8> {
        jubjub_element_encoding(e@)
    }

    closed spec fn decode_spec(bytes: Seq<u8>) -> Option<JubjubElement> {
        if bytes.len() == 33 && bytes[0] == 0 && jubjub_point(bytes.subrange(1, 33)) {
            Some(JubjubElement { bytes: array32(bytes.subrange(1, 33)) })
        } else {
            None
        }
    }

    open spec fn backend_id_spec() -> Seq<u8> {
        "jubjub-v1".spec_bytes()
    }

    open spec fn curve_id_spec() -> Seq<u8> {
        "jubjub-v1".spec_bytes()
    }

    open spec fn element_wf(e: JubjubElement) -> bool {
        jubjub_point(e@)
    }

    closed spec fn identity_spec() -> JubjubElement {
        JubjubElement { bytes: array32(jubjub_identity_bytes()) }
    }

    proof fn lemma_group_model(a: JubjubElement) {
        let enc = jubjub_element_encoding(a.bytes@);
        assert(a@ == a.bytes@);
        assert(enc.len() == 33);
        assert(enc.subrange(1, 33) =~= a.bytes@);
        lemma_array32_of_view(a.bytes);
        assert(Self::encode_spec(a) == enc);
        assert(Self::decode_spec(enc) == Some(a));
        assert(Self::element_repr_len() == 33);
        assert(Self::encode_spec(a).len() == Self::element_repr_len());
    }

    proof fn lemma_decode_canonical(bytes: Seq<u8>) {
        if bytes.len() == 33 && bytes[0] == 0 && jubjub_point(bytes.subrange(1, 33)) {
            let inner = bytes.subrange(1, 33);
            lemma_array32_holds(inner);
            let e = JubjubElement { bytes: array32(inner) };
            assert(e@ == inner);
            assert(jubjub_element_encoding(inner) =~= bytes);
        }
    }

    fn element_repr_bytes() -> (n: usize) {
        33
    }

    fn backend_id() -> (id: &'static [u8]) {
        "jubjub-v1".as_bytes()
    }

    fn curve_id() -> (id: &'static [u8]) {
        "jubjub-v1".as_bytes()
    }

    fn generator() -> (g: JubjubElement) {
        JubjubElement { bytes: jj_generator() }
    }

    fn identity() -> (e: JubjubElement) {
        let bytes = jj_identity();
        proof {
            lemma_array32_of_view(bytes);
        }
        JubjubElement { bytes }
    }

    fn add(a: &JubjubElement, b: &JubjubElement) -> (sum: JubjubElement) {
        JubjubElement { bytes: jj_add(&a.bytes, &b.bytes) }
    }

    fn sub(a: &JubjubElement, b: &JubjubElement) -> (difference: JubjubElement) {
        JubjubElement { bytes: jj_sub(&a.bytes, &b.bytes) }
    }

    fn mul(point: &JubjubElement, scalar: &JubjubScalar) -> (product: JubjubElement) {
        JubjubElement { bytes: jj_mul(&point.bytes, &scalar.repr) }
    }

    fn is_identity(point: &JubjubElement) -> (identity: bool) {
        jj_is_identity(&point.bytes)
    }

    fn element_eq(a: &JubjubElement, b: &JubjubElement) -> (equal: bool) {
        jj_eq(&a.bytes, &b.bytes)
    }

    fn encode_element(point: &JubjubElement) -> (repr: Vec<u8>) {
        let mut out: Vec<u8> = Vec::new();
        out.push(0u8);
        crate::bytes::append_bytes(&mut out, &point.bytes);
        assert(out@ =~= jubjub_element_encoding(point.bytes@));
        out
    }

    fn decode_element(repr: &[u8]) -> (result: Result<JubjubElement, Error>) {
        if repr.len() != 33 || repr[0] != 0 {
            return Err(Error::InvalidEncoding);
        }
        let mut inner = [0u8; 32];
        let mut i: usize = 0;
        while i < 32
            invariant
                i <= 32,
                repr@.len() == 33,
                forall|k: int| 0 <= k < i ==> inner@[k] == repr@[k + 1],
            decreases 32 - i,
        {
            inner[i] = repr[i + 1];
            i = i + 1;
        }
        assert(inner@ =~= repr@.subrange(1, 33));
        proof {
            lemma_array32_of_view(inner);
        }
        if jj_decodes(&inner) {
            Ok(JubjubElement { bytes: inner })
        } else {
            Err(Error::InvalidEncoding)
        }
    }
}

/// The bytes hashed for try-and-increment candidate `counter` of
/// `hash_to_group(domain, message)`.
pub open spec fn h2c_preimage(domain: Seq<u8>, message: Seq<u8>, counter: u32) -> Seq<u8> {
    "golden-jubjub-h2c-v1".spec_bytes() + u64_be(domain.len() as u64) + domain + u64_be(
        message.len() as u64,
    ) + message + u32_be(counter)
}

/// The non-identity subgroup point that a candidate encoding yields, if any.
pub open spec fn jubjub_candidate_point(candidate: Seq<u8>) -> Option<Seq<u8>> {
    match jubjub_cleared_candidate(candidate) {
        Some(p) => if jubjub_subgroup_dlog(p) == 0 {
            None
        } else {
            Some(p)
        },
        None => None,
    }
}

/// The first successful try-and-increment candidate of
/// `hash_to_group(domain, message)` among counters `from .. u32::MAX`.
pub open spec fn h2g_search(domain: Seq<u8>, message: Seq<u8>, from: nat) -> Option<Seq<u8>>
    decreases u32::MAX - from,
{
    if from >= u32::MAX {
        None
    } else {
        match jubjub_candidate_point(sha256_spec(h2c_preimage(domain, message, from as u32))) {
            Some(p) => Some(p),
            None => h2g_search(domain, message, from + 1),
        }
    }
}

fn h2c_candidate(domain: &[u8], message: &[u8], counter: u32) -> (candidate: [u8; 32])
    ensures
        candidate@ == sha256_spec(h2c_preimage(domain@, message@, counter)),
{
    let mut input: Vec<u8> = Vec::new();
    append_bytes(&mut input, "golden-jubjub-h2c-v1".as_bytes());
    append_framed(&mut input, domain);
    append_framed(&mut input, message);
    append_bytes(&mut input, &u32_to_be_bytes(counter));
    assert(input@ =~= h2c_preimage(domain@, message@, counter));
    sha256(input.as_slice())
}

impl GoldenHashToGroup for JubjubGoldenGroup {
    closed spec fn hash_to_group_spec(domain: Seq<u8>, message: Seq<u8>) -> Result<
        JubjubElement,
        Error,
    > {
        match h2g_search(domain, message, 0) {
            Some(p) => Ok(JubjubElement { bytes: array32(p) }),
            None => Err(Error::InvalidEncoding),
        }
    }

    /// Hash a domain-separated message to a non-identity Jubjub point by
    /// try-and-increment over SHA-256 candidates.
    fn hash_to_group(domain: &[u8], message: &[u8]) -> (result: Result<JubjubElement, Error>) {
        let mut counter: u32 = 0;
        while counter < u32::MAX
            invariant
                h2g_search(domain@, message@, 0) == h2g_search(domain@, message@, counter as nat),
            decreases u32::MAX - counter,
        {
            let candidate = h2c_candidate(domain, message, counter);
            if let Some(point) = jj_cleared_candidate(&candidate) {
                if !jj_is_identity(&point) {
                    proof {
                        lemma_array32_of_view(point);
                    }
                    return Ok(JubjubElement { bytes: point });
                }
            }
            counter = counter + 1;
        }
        Err(Error::InvalidEncoding)
    }
}

/// The candidate point tried at counter `c` by `hash_to_group(domain,
/// message)`, if that counter succeeds.
pub open spec fn h2g_candidate_at(domain: Seq<u8>, message: Seq<u8>, c: u32) -> Option<Seq<u8>> {
    jubjub_candidate_point(sha256_spec(h2c_preimage(domain, message, c)))
}

/// The search from `from` finds the first counter whose candidate succeeds.
proof fn lemma_h2g_search_first(domain: Seq<u8>, message: Seq<u8>, from: nat)
    requires
        from <= u32::MAX,
    ensures
        h2g_search(domain, message, from) matches Some(p) ==> exists|c: u32|
            from <= c < u32::MAX && #[trigger] h2g_candidate_at(domain, message, c) == Some(p)
                && forall|k: u32| from <= k < c ==> (#[trigger] h2g_candidate_at(domain, message, k)) is None,
        h2g_search(domain, message, from) is None ==> forall|k: u32|
            from <= k < u32::MAX ==> (#[trigger] h2g_candidate_at(domain, message, k)) is None,
    decreases u32::MAX - from,
{
    if from < u32::MAX {
        lemma_h2g_search_first(domain, message, from + 1);
        let c0 = from as u32;
        if h2g_candidate_at(domain, message, c0) is Some {
            assert(forall|k: u32| from <= k < c0 ==> (#[trigger] h2g_candidate_at(domain, message, k)) is None);
        } else {
            assert(h2g_search(domain, message, from) == h2g_search(domain, message, from + 1));
            if let Some(p) = h2g_search(domain, message, from) {
                let c = choose|c: u32|
                    from + 1 <= c < u32::MAX && #[trigger] h2g_candidate_at(domain, message, c) == Some(p)
                        && forall|k: u32|
                        from + 1 <= k < c ==> (#[trigger] h2g_candidate_at(domain, message, k)) is None;
                assert forall|k: u32| from <= k < c implies (#[trigger] h2g_candidate_at(domain, message, k)) is None by {
                    if k == c0 {
                    } else {
                        assert(from + 1 <= k);
                    }
                }
            } else {
                assert forall|k: u32| from <= k < u32::MAX implies (#[trigger] h2g_candidate_at(domain, message, k)) is None by {
                    if k == c0 {
                    } else {
                        assert(from + 1 <= k);
                    }
                }
            }
        }
    }
}

/// Hashing `message` to Jubjub under `domain` gives the point of the first
/// counter `c` whose candidate succeeds, where the candidate of `c` is the
/// SHA-256 digest of `"golden-jubjub-h2c-v1"`, the length-framed domain, the
/// length-framed message and `c`, cleared of its cofactor and not the
/// identity; it fails only when no counter below `u32::MAX` succeeds.
pub proof fn lemma_hash_to_group_first_candidate(domain: Seq<u8>, message: Seq<u8>)
    ensures
        JubjubGoldenGroup::hash_to_group_spec(domain, message) matches Ok(e) ==> exists|c: u32, p: Seq<u8>|
            c < u32::MAX && #[trigger] jubjub_candidate_point(
                sha256_spec(
                    "golden-jubjub-h2c-v1".spec_bytes() + u64_be(domain.len() as u64) + domain
                        + u64_be(message.len() as u64) + message + u32_be(c),
                ),
            ) == Some(p) && e@ == (#[trigger] array32(p))@ && forall|k: u32|
                k < c ==> (#[trigger] h2g_candidate_at(domain, message, k)) is None,
        JubjubGoldenGroup::hash_to_group_spec(domain, message) is Err ==> forall|k: u32|
            k < u32::MAX ==> (#[trigger] jubjub_candidate_point(
                sha256_spec(
                    "golden-jubjub-h2c-v1".spec_bytes() + u64_be(domain.len() as u64) + domain
                        + u64_be(message.len() as u64) + message + u32_be(k),
                ),
            )) is None,
{
    lemma_h2g_search_first(domain, message, 0);
    if let Some(p) = h2g_search(domain, message, 0) {
        let c = choose|c: u32|
            0 <= c < u32::MAX && #[trigger] h2g_candidate_at(domain, message, c) == Some(p)
                && forall|k: u32| 0 <= k < c ==> (#[trigger] h2g_candidate_at(domain, message, k)) is None;
        assert(h2c_preimage(domain, message, c) == "golden-jubjub-h2c-v1".spec_bytes() + u64_be(
            domain.len() as u64,
        ) + domain + u64_be(message.len() as u64) + message + u32_be(c));
        assert(h2g_candidate_at(domain, message, c) == Some(p));
    } else {
        assert forall|k: u32| k < u32::MAX implies (#[trigger] jubjub_candidate_point(
            sha256_spec(
                "golden-jubjub-h2c-v1".spec_bytes() + u64_be(domain.len() as u64) + domain
                    + u64_be(message.len() as u64) + message + u32_be(k),
            ),
        )) is None by {
            assert(h2g_candidate_at(domain, message, k) is None);
        }
    }
}

/// Candidate preimages are domain separated: two of them are equal only
/// for the same domain, the same message and the same counter.
pub proof fn lemma_h2c_preimage_injective(
    d1: Seq<u8>,
    m1: Seq<u8>,
    c1: u32,
    d2: Seq<u8>,
    m2: Seq<u8>,
    c2: u32,
)
    requires
        d1.len() <= u64::MAX,
        m1.len() <= u64::MAX,
        d2.len() <= u64::MAX,
        m2.len() <= u64::MAX,
        h2c_preimage(d1, m1, c1) == h2c_preimage(d2, m2, c2),
    ensures
        d1 == d2,
        m1 == m2,
        c1 == c2,
{
    let pre = "golden-jubjub-h2c-v1".spec_bytes();
    let p = pre.len() as int;
    let x = h2c_preimage(d1, m1, c1);
    let y = h2c_preimage(d2, m2, c2);
    crate::bytes::lemma_u64_be_roundtrip(d1.len() as u64);
    crate::bytes::lemma_u64_be_roundtrip(d2.len() as u64);
    crate::bytes::lemma_u64_be_roundtrip(m1.len() as u64);
    crate::bytes::lemma_u64_be_roundtrip(m2.len() as u64);
    crate::bytes::lemma_u32_be_roundtrip(c1);
    crate::bytes::lemma_u32_be_roundtrip(c2);
    assert(x.subrange(p, p + 8) =~= u64_be(d1.len() as u64));
    assert(y.subrange(p, p + 8) =~= u64_be(d2.len() as u64));
    assert(d1.len() == d2.len());
    let l = d1.len() as int;
    assert(x.subrange(p + 8, p + 8 + l) =~= d1);
    assert(y.subrange(p + 8, p + 8 + l) =~= d2);
    assert(x.subrange(p + 8 + l, p + 16 + l) =~= u64_be(m1.len() as u64));
    assert(y.subrange(p + 8 + l, p + 16 + l) =~= u64_be(m2.len() as u64));
    assert(m1.len() == m2.len());
    let n = m1.len() as int;
    assert(x.subrange(p + 16 + l, p + 16 + l + n) =~= m1);
    assert(y.subrange(p + 16 + l, p + 16 + l + n) =~= m2);
    assert(x.subrange(p + 16 + l + n, p + 20 + l + n) =~= u32_be(c1));
    assert(y.subrange(p + 16 + l + n, p + 20 + l + n) =~= u32_be(c2));
}

} // verus!
