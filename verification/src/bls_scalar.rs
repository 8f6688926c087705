//! The BLS12-381 scalar field, the coefficient field of the proof layer
//! over BLS12-381 G1.
//!
//! Scalars are held as their canonical little-endian bytes; field
//! arithmetic is performed by the `bls12_381` crate.
use vstd::prelude::*;

use crate::bls_cycle::{bls_g1_identity_bytes, bls_order, Bls12_381G1Cycle, BLS_G1_COMPRESSED_BYTES};
use crate::bytes::le_value;
use crate::cycle::{scalar_batch_invert, scalar_invert_or_zero};
use crate::error::Error;
use crate::group::{FieldByteOrder, GoldenScalar};
use crate::jubjub_group::lemma_le_value_injective;
use crate::proof_cycle::Cycle;
use crate::shamir::{prefix_product, values_of};
use crate::wire::bytes_equal;
use crate::wire_values::{array32, lemma_array32_holds, lemma_array32_of_view};

verus! {

/// Calls `bls12_381::Scalar::from(u64)`: the field element `value mod r`, in its
/// canonical little-endian encoding.
#[verifier::external_body]
fn bs_from_u64(value: u64) -> (out: [u8; 32])
    ensures
        le_value(out@) == value as nat % bls_order(),
{
    bls12_381::Scalar::from(value).to_bytes()
}

/// Calls `bls12_381::Scalar::from_bytes(..).is_some()`: whether the bytes are the
/// canonical little-endian encoding of a field element (below `r`).
#[verifier::external_body]
fn bs_is_canonical(bytes: &[u8; 32]) -> (canonical: bool)
    ensures
        canonical == (le_value(bytes@) < bls_order()),
{
    bool::from(bls12_381::Scalar::from_bytes(bytes).is_some())
}

/// Calls `bls12_381::Scalar` addition on two canonical encodings.
#[verifier::external_body]
fn bs_add(a: &[u8; 32], b: &[u8; 32]) -> (out: [u8; 32])
    requires
        le_value(a@) < bls_order(),
        le_value(b@) < bls_order(),
    ensures
        le_value(out@) == (le_value(a@) + le_value(b@)) % bls_order(),
{
    (bls12_381::Scalar::from_bytes(a).unwrap() + bls12_381::Scalar::from_bytes(b).unwrap()).to_bytes()
}

/// Calls `bls12_381::Scalar` subtraction on two canonical encodings.
#[verifier::external_body]
fn bs_sub(a: &[u8; 32], b: &[u8; 32]) -> (out: [u8; 32])
    requires
        le_value(a@) < bls_order(),
        le_value(b@) < bls_order(),
    ensures
        le_value(out@) == (le_value(a@) - le_value(b@)) % (bls_order() as int),
{
    (bls12_381::Scalar::from_bytes(a).unwrap() - bls12_381::Scalar::from_bytes(b).unwrap()).to_bytes()
}

/// Calls `bls12_381::Scalar` multiplication on two canonical encodings.
#[verifier::external_body]
fn bs_mul(a: &[u8; 32], b: &[u8; 32]) -> (out: [u8; 32])
    requires
        le_value(a@) < bls_order(),
        le_value(b@) < bls_order(),
    ensures
        le_value(out@) == (le_value(a@) * le_value(b@)) % bls_order(),
{
    (bls12_381::Scalar::from_bytes(a).unwrap() * bls12_381::Scalar::from_bytes(b).unwrap()).to_bytes()
}

/// Calls `bls12_381::Scalar::invert`, which fails exactly for zero; otherwise the
/// result times the input is one.
#[verifier::external_body]
fn bs_invert(a: &[u8; 32]) -> (out: Option<[u8; 32]>)
    requires
        le_value(a@) < bls_order(),
    ensures
        out is None <==> le_value(a@) == 0,
        out matches Some(i) ==> le_value(i@) < bls_order() && (le_value(i@) * le_value(a@))
            % bls_order() == 1,
{
    Option::<bls12_381::Scalar>::from(bls12_381::Scalar::from_bytes(a).unwrap().invert()).map(|i| i.to_bytes())
}

/// Calls `ff::Field::is_zero` on `bls12_381::Scalar`.
#[verifier::external_body]
fn bs_is_zero(a: &[u8; 32]) -> (zero: bool)
    requires
        le_value(a@) < bls_order(),
    ensures
        zero == (le_value(a@) == 0),
{
    bool::from(<bls12_381::Scalar as ff::Field>::is_zero(&bls12_381::Scalar::from_bytes(a).unwrap()))
}

/// Element of the BLS12-381 scalar field, held as its canonical
/// little-endian bytes.
#[derive(Clone, Copy, Debug, PartialEq, Eq)]
pub struct BlsScalar {
    repr: [u8; 32],
}

impl View for BlsScalar {
    type V = Seq<u8>;

    /// The canonical little-endian bytes of the scalar.
    closed spec fn view(&self) -> Seq<u8> {
        self.repr@
    }
}

impl BlsScalar {
    /// The canonical little-endian bytes of this scalar.
    pub fn to_bytes(&self) -> (bytes: [u8; 32])
        ensures
            bytes@ == self@,
    {
        self.repr
    }

    /// The scalar with the given canonical little-endian bytes, if they are
    /// canonical.
    pub fn from_bytes(bytes: [u8; 32]) -> (result: Option<Self>)
        ensures
            result is Some <==> le_value(bytes@) < bls_order(),
            result matches Some(s) ==> s@ == bytes@ && s.wf(),
    {
        if bs_is_canonical(&bytes) {
            Some(BlsScalar { repr: bytes })
        } else {
            None
        }
    }
}

impl GoldenScalar for BlsScalar {
    open spec fn field_order() -> nat {
        bls_order()
    }

    open spec fn value(&self) -> nat {
        le_value(self@)
    }

    open spec fn repr_len() -> nat {
        32
    }

    open spec fn repr_of(&self) -> Seq<u8> {
        self@
    }

    closed spec fn decode_repr(bytes: Seq<u8>) -> Option<Self> {
        if bytes.len() == 32 && le_value(bytes) < bls_order() {
            Some(BlsScalar { repr: array32(bytes) })
        } else {
            None
        }
    }

    open spec fn byte_order() -> FieldByteOrder {
        FieldByteOrder::LittleEndian
    }

    open spec fn wf(&self) -> bool {
        le_value(self@) < bls_order()
    }

    open spec fn from_u64_succeeds(value: u64) -> bool {
        true
    }

    proof fn lemma_field_order() {
    }

    proof fn lemma_scalar_model(a: Self, b: Self) {
        lemma_array32_of_view(a.repr);
        if le_value(a.repr@) == le_value(b.repr@) {
            lemma_le_value_injective(a.repr@, b.repr@);
            vstd::array::axiom_array_ext_equal(a.repr, b.repr);
        }
    }

    proof fn lemma_decode_canonical(bytes: Seq<u8>) {
        if bytes.len() == 32 && le_value(bytes) < bls_order() {
            lemma_array32_holds(bytes);
        }
    }

    fn repr_bytes() -> (n: usize) {
        32
    }

    fn zero() -> (z: Self) {
        BlsScalar { repr: bs_from_u64(0) }
    }

    fn one() -> (o: Self) {
        let repr = bs_from_u64(1);
        BlsScalar { repr }
    }

    fn from_u64(value: u64) -> (result: Result<Self, Error>) {
        Ok(BlsScalar { repr: bs_from_u64(value) })
    }

    fn add(&self, rhs: &Self) -> (sum: Self) {
        BlsScalar { repr: bs_add(&self.repr, &rhs.repr) }
    }

    fn sub(&self, rhs: &Self) -> (difference: Self) {
        BlsScalar { repr: bs_sub(&self.repr, &rhs.repr) }
    }

    fn mul(&self, rhs: &Self) -> (product: Self) {
        BlsScalar { repr: bs_mul(&self.repr, &rhs.repr) }
    }

    fn invert(&self) -> (inverse: Option<Self>) {
        match bs_invert(&self.repr) {
            Some(repr) => Some(BlsScalar { repr }),
            None => None,
        }
    }

    fn is_zero(&self) -> (zero: bool) {
        bs_is_zero(&self.repr)
    }

    fn scalar_eq(&self, other: &Self) -> (equal: bool) {
        let equal = bytes_equal(&self.repr, &other.repr);
        proof {
            if self.repr@ == other.repr@ {
                vstd::array::axiom_array_ext_equal(self.repr, other.repr);
            }
        }
        equal
    }

    fn to_repr(&self) -> (repr: Vec<u8>) {
        let mut out: Vec<u8> = Vec::new();
        crate::bytes::append_bytes(&mut out, &self.repr);
        assert(out@ =~= self.repr@);
        out
    }

    fn from_repr(repr: &[u8]) -> (result: Result<Self, Error>) {
        if repr.len() != 32 {
            return Err(Error::InvalidEncoding);
        }
        let mut bytes = [0u8; 32];
        let mut i: usize = 0;
        while i < 32
            invariant
                i <= 32,
                repr@.len() == 32,
                forall|k: int| 0 <= k < i ==> bytes@[k] == repr@[k],
            decreases 32 - i,
        {
            bytes[i] = repr[i];
            i = i + 1;
        }
        assert(bytes@ =~= repr@);
        proof {
            lemma_array32_of_view(bytes);
        }
        match BlsScalar::from_bytes(bytes) {
            Some(scalar) => {
                proof {
                    assert(scalar.repr =~= bytes);
                }
                Ok(scalar)
            },
            None => Err(Error::InvalidEncoding),
        }
    }

    fn repr_byte_order() -> (order: FieldByteOrder) {
        FieldByteOrder::LittleEndian
    }
}


/// Calls `bls12_381::Scalar::from_bytes_wide`: the 512-bit little-endian
/// integer reduced modulo the field order, in its canonical encoding.
#[verifier::external_body]
fn bs_from_bytes_wide(bytes: &[u8; 64]) -> (out: [u8; 32])
    ensures
        le_value(out@) == le_value(bytes@) % bls_order(),
{
    bls12_381::Scalar::from_bytes_wide(bytes).to_bytes()
}

impl Bls12_381G1Cycle {
    /// The scalar `x mod order` for the 512-bit little-endian integer `x`.
    pub fn scalar_from_wide(bytes: &[u8; 64]) -> (scalar: BlsScalar)
        ensures
            scalar.wf(),
            scalar.value() == le_value(bytes@) % bls_order(),
    {
        let repr = bs_from_bytes_wide(bytes);
        proof {
            vstd::arithmetic::div_mod::lemma_mod_bound(le_value(bytes@) as int, bls_order() as int);
        }
        match BlsScalar::from_bytes(repr) {
            Some(scalar) => scalar,
            None => BlsScalar::zero(),
        }
    }

    /// Decode a scalar from its canonical little-endian encoding.
    pub fn scalar_from_canonical(bytes: &[u8; 32]) -> (scalar: Option<BlsScalar>)
        ensures
            scalar is Some <==> le_value(bytes@) < bls_order(),
            scalar matches Some(s) ==> s@ == bytes@ && s.wf(),
    {
        BlsScalar::from_bytes(*bytes)
    }

    /// Canonical little-endian encoding of a scalar.
    pub fn scalar_to_canonical(scalar: &BlsScalar) -> (bytes: [u8; 32])
        ensures
            bytes@ == scalar@,
    {
        scalar.to_bytes()
    }

    /// Multiplicative inverse of a scalar, or zero for zero.
    pub fn scalar_invert(scalar: &BlsScalar) -> (inverse: BlsScalar)
        requires
            scalar.wf(),
        ensures
            inverse.wf(),
            scalar.value() == 0 ==> inverse.value() == 0,
            scalar.value() != 0 ==> (inverse.value() * scalar.value()) % bls_order() == 1,
    {
        scalar_invert_or_zero(scalar)
    }

    /// Batch-invert `items` in place and return the inverse of their
    /// product; a zero item turns every item, and the result, into zero.
    pub fn scalar_batch_invert(items: &mut [BlsScalar]) -> (product_inverse: BlsScalar)
        requires
            forall|i: int| 0 <= i < old(items)@.len() ==> (#[trigger] old(items)@[i]).wf(),
        ensures
            product_inverse.wf(),
            final(items)@.len() == old(items)@.len(),
            forall|i: int| 0 <= i < final(items)@.len() ==> (#[trigger] final(items)@[i]).wf(),
            ({
                let product = prefix_product(
                    values_of(old(items)@),
                    old(items)@.len() as int,
                    bls_order() as int,
                );
                &&& product == 0 ==> product_inverse.value() == 0 && forall|i: int|
                    0 <= i < final(items)@.len() ==> (#[trigger] final(items)@[i]).value() == 0
                &&& product != 0 ==> (product_inverse.value() * product) % (bls_order() as int)
                    == 1 && forall|i: int|
                    0 <= i < old(items)@.len() ==> ((#[trigger] final(items)@[i]).value() * old(
                        items,
                    )@[i].value()) % bls_order() == 1
            }),
    {
        scalar_batch_invert(items)
    }
}

impl Cycle for Bls12_381G1Cycle {
    type Scalar = BlsScalar;

    type Compressed = [u8; 48];

    open spec fn compressed_len() -> nat {
        48
    }

    open spec fn compressed_view(c: [u8; 48]) -> Seq<u8> {
        c@
    }

    open spec fn identity_view() -> Seq<u8> {
        bls_g1_identity_bytes()
    }

    open spec fn scalar_view(s: BlsScalar) -> Seq<u8> {
        s@
    }

    open spec fn scalar_decode(bytes: Seq<u8>) -> Option<BlsScalar> {
        <BlsScalar as GoldenScalar>::decode_repr(bytes)
    }

    open spec fn scalar_order() -> nat {
        bls_order()
    }

    open spec fn scalar_wf(s: BlsScalar) -> bool {
        s.wf()
    }

    proof fn lemma_compressed(a: [u8; 48], b: [u8; 48]) {
        if a@ == b@ {
            vstd::array::axiom_array_ext_equal(a, b);
        }
    }

    proof fn lemma_scalar_field(s: BlsScalar) {
    }

    proof fn lemma_compressed_len() {
    }

    proof fn lemma_scalar(s: BlsScalar) {
        <BlsScalar as GoldenScalar>::lemma_scalar_model(s, s);
    }

    proof fn lemma_scalar_decode(bytes: Seq<u8>) {
        <BlsScalar as GoldenScalar>::lemma_decode_canonical(bytes);
    }

    fn compressed_bytes() -> (n: usize) {
        BLS_G1_COMPRESSED_BYTES
    }

    fn scalar_from_canonical(bytes: &[u8; 32]) -> (scalar: Option<BlsScalar>) {
        let result = Bls12_381G1Cycle::scalar_from_canonical(bytes);
        proof {
            <BlsScalar as GoldenScalar>::lemma_decode_canonical(bytes@);
            if let Some(s) = result {
                <BlsScalar as GoldenScalar>::lemma_scalar_model(s, s);
            } else {
                if let Some(t) = <BlsScalar as GoldenScalar>::decode_repr(bytes@) {
                    assert(t.wf());
                }
            }
        }
        result
    }

    fn scalar_from_wide(bytes: &[u8; 64]) -> (scalar: BlsScalar) {
        Bls12_381G1Cycle::scalar_from_wide(bytes)
    }

    fn scalar_to_canonical(scalar: &BlsScalar) -> (bytes: [u8; 32]) {
        Bls12_381G1Cycle::scalar_to_canonical(scalar)
    }

    fn compressed_from_bytes(bytes: &[u8]) -> (compressed: [u8; 48]) {
        Bls12_381G1Cycle::compressed_from_bytes(bytes)
    }

    fn compressed_as_bytes(compressed: &[u8; 48]) -> (bytes: &[u8]) {
        compressed.as_slice()
    }

    fn compressed_identity() -> (compressed: [u8; 48]) {
        Bls12_381G1Cycle::compressed_identity()
    }

    fn compressed_is_identity(compressed: &[u8; 48]) -> (identity: bool) {
        Bls12_381G1Cycle::compressed_is_identity(compressed)
    }
}

} // verus!
