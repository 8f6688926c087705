//! The Ristretto255 cycle: 32-byte compressed points and canonical
//! little-endian scalars below the group order.
use vstd::prelude::*;

use crate::bytes::le_value;
use crate::error::Error;
use crate::group::{FieldByteOrder, GoldenScalar};
use crate::wire::bytes_equal;
use crate::wire_values::{array32, lemma_array32_holds, lemma_array32_of_view};
use crate::proof_cycle::Cycle;

verus! {

/// The order `l = 2^252 + 27742317777372353535851937790883648493` of the
/// Ristretto group and of its scalar field.
pub open spec fn ristretto_order() -> nat {
    7237005577332262213973186563042994240857116359379907606001950938285454250989nat
}

/// Calls `curve25519_dalek::scalar::Scalar::from_canonical_bytes` and
/// reports whether it accepted the bytes; its documentation accepts
/// exactly the canonical encodings, the little-endian integers below the
/// group order.
#[verifier::external_body]
fn dalek_scalar_is_canonical(bytes: &[u8; 32]) -> (canonical: bool)
    ensures
        canonical == (le_value(bytes@) < ristretto_order()),
{
    bool::from(curve25519_dalek::scalar::Scalar::from_canonical_bytes(*bytes).is_some())
}

/// Calls `curve25519_dalek::scalar::Scalar::from_bytes_mod_order_wide`,
/// which its documentation describes as reducing the 512-bit little-endian
/// integer of the bytes modulo the group order, and returns the canonical
/// bytes of the result.
#[verifier::external_body]
fn dalek_scalar_from_wide(bytes: &[u8; 64]) -> (out: [u8; 32])
    ensures
        le_value(out@) == le_value(bytes@) % ristretto_order(),
{
    curve25519_dalek::scalar::Scalar::from_bytes_mod_order_wide(bytes).to_bytes()
}

/// Calls `curve25519_dalek::scalar::Scalar::from(u64)`, which places the
/// little-endian bytes of the integer in a scalar; every `u64` is below the
/// group order.
#[verifier::external_body]
fn dalek_scalar_from_u64(value: u64) -> (out: [u8; 32])
    ensures
        le_value(out@) == value as nat,
{
    curve25519_dalek::scalar::Scalar::from(value).to_bytes()
}

/// Calls `curve25519_dalek::scalar::Scalar` addition, modulo the group
/// order, on two canonical encodings.
#[verifier::external_body]
fn dalek_scalar_add(a: &[u8; 32], b: &[u8; 32]) -> (out: [u8; 32])
    requires
        le_value(a@) < ristretto_order(),
        le_value(b@) < ristretto_order(),
    ensures
        le_value(out@) == (le_value(a@) + le_value(b@)) % ristretto_order(),
{
    let a = curve25519_dalek::scalar::Scalar::from_canonical_bytes(*a).unwrap();
    let b = curve25519_dalek::scalar::Scalar::from_canonical_bytes(*b).unwrap();
    (a + b).to_bytes()
}

/// Calls `curve25519_dalek::scalar::Scalar` subtraction, modulo the group
/// order, on two canonical encodings.
#[verifier::external_body]
fn dalek_scalar_sub(a: &[u8; 32], b: &[u8; 32]) -> (out: [u8; 32])
    requires
        le_value(a@) < ristretto_order(),
        le_value(b@) < ristretto_order(),
    ensures
        le_value(out@) == (le_value(a@) - le_value(b@)) % (ristretto_order() as int),
{
    let a = curve25519_dalek::scalar::Scalar::from_canonical_bytes(*a).unwrap();
    let b = curve25519_dalek::scalar::Scalar::from_canonical_bytes(*b).unwrap();
    (a - b).to_bytes()
}

/// Calls `curve25519_dalek::scalar::Scalar` multiplication, modulo the
/// group order, on two canonical encodings.
#[verifier::external_body]
fn dalek_scalar_mul(a: &[u8; 32], b: &[u8; 32]) -> (out: [u8; 32])
    requires
        le_value(a@) < ristretto_order(),
        le_value(b@) < ristretto_order(),
    ensures
        le_value(out@) == (le_value(a@) * le_value(b@)) % ristretto_order(),
{
    let a = curve25519_dalek::scalar::Scalar::from_canonical_bytes(*a).unwrap();
    let b = curve25519_dalek::scalar::Scalar::from_canonical_bytes(*b).unwrap();
    (a * b).to_bytes()
}

/// Calls `curve25519_dalek::scalar::Scalar::invert` on a nonzero canonical
/// encoding: the result times the input is one.
#[verifier::external_body]
fn dalek_scalar_invert(a: &[u8; 32]) -> (out: [u8; 32])
    requires
        0 < le_value(a@) < ristretto_order(),
    ensures
        le_value(out@) < ristretto_order(),
        (le_value(out@) * le_value(a@)) % ristretto_order() == 1,
{
    curve25519_dalek::scalar::Scalar::from_canonical_bytes(*a).unwrap().invert().to_bytes()
}

/// Calls `curve25519_dalek::scalar::Scalar` equality with
/// `Scalar::ZERO` on a canonical encoding.
#[verifier::external_body]
fn dalek_scalar_is_zero(a: &[u8; 32]) -> (zero: bool)
    requires
        le_value(a@) < ristretto_order(),
    ensures
        zero == (le_value(a@) == 0),
{
    curve25519_dalek::scalar::Scalar::from_canonical_bytes(*a).unwrap()
        == curve25519_dalek::scalar::Scalar::ZERO
}

/// The compressed identity: 32 zero bytes.
pub open spec fn ristretto_identity_bytes() -> Seq<u8> {
    Seq::new(32, |i: int| 0u8)
}

/// Calls `curve25519_dalek::ristretto::CompressedRistretto::identity()`
/// and returns its bytes, which the source shows to be 32 zero bytes.
#[verifier::external_body]
fn dalek_compressed_identity() -> (bytes: [u8; 32])
    ensures
        bytes@ == ristretto_identity_bytes(),
{
    <curve25519_dalek::ristretto::CompressedRistretto as curve25519_dalek::traits::Identity>::identity().to_bytes()
}

/// A Ristretto scalar held by its canonical little-endian bytes.
#[derive(Clone, Copy, Debug, Eq, PartialEq)]
pub struct RistrettoScalar {
    bytes: [u8; 32],
}

impl View for RistrettoScalar {
    type V = Seq<u8>;

    /// The canonical little-endian bytes of the scalar.
    closed spec fn view(&self) -> Seq<u8> {
        self.bytes@
    }
}

impl RistrettoScalar {
    /// The scalar is below the group order.
    pub open spec fn wf(&self) -> bool {
        le_value(self@) < ristretto_order()
    }

    /// The canonical little-endian bytes of the scalar.
    pub fn to_bytes(&self) -> (bytes: [u8; 32])
        ensures
            bytes@ == self@,
    {
        self.bytes
    }

    /// The scalar with canonical bytes `bytes`, if they are canonical.
    pub fn from_bytes(bytes: [u8; 32]) -> (scalar: Option<RistrettoScalar>)
        ensures
            scalar is Some <==> le_value(bytes@) < ristretto_order(),
            scalar matches Some(s) ==> s@ == bytes@,
    {
        if dalek_scalar_is_canonical(&bytes) {
            Some(RistrettoScalar { bytes })
        } else {
            None
        }
    }
}

impl GoldenScalar for RistrettoScalar {
    open spec fn field_order() -> nat {
        ristretto_order()
    }

    open spec fn value(&self) -> nat {
        le_value(self@)
    }

    open spec fn repr_len() -> nat {
        32
    }

    open spec fn repr_of(&self) -> Seq<u8> {
        self@
    }

    closed spec fn decode_repr(bytes: Seq<u8>) -> Option<Self> {
        if bytes.len() == 32 && le_value(bytes) < ristretto_order() {
            Some(RistrettoScalar { bytes: array32(bytes) })
        } else {
            None
        }
    }

    open spec fn byte_order() -> FieldByteOrder {
        FieldByteOrder::LittleEndian
    }

    open spec fn wf(&self) -> bool {
        le_value(self@) < ristretto_order()
    }

    open spec fn from_u64_succeeds(value: u64) -> bool {
        true
    }

    proof fn lemma_field_order() {
    }

    proof fn lemma_scalar_model(a: Self, b: Self) {
        lemma_array32_of_view(a.bytes);
        if le_value(a.bytes@) == le_value(b.bytes@) {
            crate::jubjub_group::lemma_le_value_injective(a.bytes@, b.bytes@);
            vstd::array::axiom_array_ext_equal(a.bytes, b.bytes);
        }
    }

    proof fn lemma_decode_canonical(bytes: Seq<u8>) {
        if bytes.len() == 32 && le_value(bytes) < ristretto_order() {
            lemma_array32_holds(bytes);
        }
    }

    fn repr_bytes() -> (n: usize) {
        32
    }

    fn zero() -> (z: Self) {
        RistrettoScalar { bytes: dalek_scalar_from_u64(0) }
    }

    fn one() -> (o: Self) {
        RistrettoScalar { bytes: dalek_scalar_from_u64(1) }
    }

    fn from_u64(value: u64) -> (result: Result<Self, Error>) {
        let bytes = dalek_scalar_from_u64(value);
        proof {
            vstd::arithmetic::div_mod::lemma_small_mod(value as nat, ristretto_order());
        }
        Ok(RistrettoScalar { bytes })
    }

    fn add(&self, rhs: &Self) -> (sum: Self) {
        RistrettoScalar { bytes: dalek_scalar_add(&self.bytes, &rhs.bytes) }
    }

    fn sub(&self, rhs: &Self) -> (difference: Self) {
        RistrettoScalar { bytes: dalek_scalar_sub(&self.bytes, &rhs.bytes) }
    }

    fn mul(&self, rhs: &Self) -> (product: Self) {
        RistrettoScalar { bytes: dalek_scalar_mul(&self.bytes, &rhs.bytes) }
    }

    fn invert(&self) -> (inverse: Option<Self>) {
        if dalek_scalar_is_zero(&self.bytes) {
            None
        } else {
            Some(RistrettoScalar { bytes: dalek_scalar_invert(&self.bytes) })
        }
    }

    fn is_zero(&self) -> (zero: bool) {
        dalek_scalar_is_zero(&self.bytes)
    }

    fn scalar_eq(&self, other: &Self) -> (equal: bool) {
        let equal = bytes_equal(&self.bytes, &other.bytes);
        proof {
            if self.bytes@ == other.bytes@ {
                vstd::array::axiom_array_ext_equal(self.bytes, other.bytes);
            }
        }
        equal
    }

    fn to_repr(&self) -> (repr: Vec<u8>) {
        let mut out: Vec<u8> = Vec::new();
        crate::bytes::append_bytes(&mut out, &self.bytes);
        assert(out@ =~= self.bytes@);
        out
    }

    fn from_repr(repr: &[u8]) -> (result: Result<Self, Error>) {
        if repr.len() != 32 {
            return Err(Error::InvalidEncoding);
        }
        let mut bytes = [0u8; 32];
        let mut i: usize = 0;
        while i < 32
            invariant
                i <= 32,
                repr@.len() == 32,
                forall|k: int| 0 <= k < i ==> bytes@[k] == repr@[k],
            decreases 32 - i,
        {
            bytes[i] = repr[i];
            i = i + 1;
        }
        assert(bytes@ =~= repr@);
        proof {
            lemma_array32_of_view(bytes);
        }
        match RistrettoScalar::from_bytes(bytes) {
            Some(scalar) => {
                proof {
                    assert(scalar.bytes =~= bytes);
                }
                Ok(scalar)
            },
            None => Err(Error::InvalidEncoding),
        }
    }

    fn repr_byte_order() -> (order: FieldByteOrder) {
        FieldByteOrder::LittleEndian
    }
}

/// Concrete cycle over Ristretto255, whose compressed points are 32 bytes.
#[derive(Clone, Copy, Debug, Eq, PartialEq)]
pub struct RistrettoCycle;

impl Cycle for RistrettoCycle {
    type Scalar = RistrettoScalar;

    type Compressed = [u8; 32];

    open spec fn compressed_len() -> nat {
        32
    }

    open spec fn compressed_view(c: [u8; 32]) -> Seq<u8> {
        c@
    }

    open spec fn identity_view() -> Seq<u8> {
        ristretto_identity_bytes()
    }

    open spec fn scalar_view(s: RistrettoScalar) -> Seq<u8> {
        s@
    }

    closed spec fn scalar_decode(bytes: Seq<u8>) -> Option<RistrettoScalar> {
        if bytes.len() == 32 && le_value(bytes) < ristretto_order() {
            Some(RistrettoScalar { bytes: crate::wire_values::array32(bytes) })
        } else {
            None
        }
    }

    open spec fn scalar_wf(s: RistrettoScalar) -> bool {
        s.wf()
    }

    open spec fn scalar_order() -> nat {
        ristretto_order()
    }

    proof fn lemma_compressed(a: [u8; 32], b: [u8; 32]) {
        if a@ == b@ {
            vstd::array::axiom_array_ext_equal(a, b);
        }
    }

    proof fn lemma_scalar_field(s: RistrettoScalar) {
    }

    proof fn lemma_compressed_len() {
    }

    proof fn lemma_scalar(s: RistrettoScalar) {
        crate::wire_values::lemma_array32_of_view(s.bytes);
    }

    proof fn lemma_scalar_decode(bytes: Seq<u8>) {
        if bytes.len() == 32 && le_value(bytes) < ristretto_order() {
            crate::wire_values::lemma_array32_holds(bytes);
        }
    }

    fn compressed_bytes() -> (n: usize) {
        32
    }

    fn scalar_from_canonical(bytes: &[u8; 32]) -> (scalar: Option<RistrettoScalar>) {
        let result = RistrettoScalar::from_bytes(*bytes);
        proof {
            crate::wire_values::lemma_array32_of_view(*bytes);
            if let Some(s) = result {
                crate::wire_values::lemma_array32_of_view(s.bytes);
                vstd::array::axiom_array_ext_equal(s.bytes, *bytes);
            }
        }
        result
    }

    fn scalar_from_wide(bytes: &[u8; 64]) -> (scalar: RistrettoScalar) {
        let reduced = dalek_scalar_from_wide(bytes);
        proof {
            vstd::arithmetic::div_mod::lemma_mod_bound(
                le_value(bytes@) as int,
                ristretto_order() as int,
            );
        }
        RistrettoScalar { bytes: reduced }
    }

    fn scalar_to_canonical(scalar: &RistrettoScalar) -> (bytes: [u8; 32]) {
        scalar.to_bytes()
    }

    fn compressed_from_bytes(bytes: &[u8]) -> (compressed: [u8; 32]) {
        crate::util::read32(bytes)
    }

    fn compressed_as_bytes(compressed: &[u8; 32]) -> (bytes: &[u8]) {
        compressed.as_slice()
    }

    fn compressed_identity() -> (compressed: [u8; 32]) {
        dalek_compressed_identity()
    }

    fn compressed_is_identity(compressed: &[u8; 32]) -> (identity: bool) {
        let id = dalek_compressed_identity();
        crate::wire::bytes_equal(compressed, &id)
    }
}

} // verus!
