//! The curve-cycle interface the Bulletproofs proof encodings use: fixed
//! width compressed points and canonical 32-byte scalars.
use vstd::prelude::*;

use crate::bytes::le_value;
use crate::group::GoldenScalar;
use crate::jubjub_cycle::{JubjubCycle, JUBJUB_COMPRESSED_BYTES};
use crate::jubjub_group::{jubjub_identity_bytes, JubjubScalar};

verus! {

/// Bulletproofs commitment group plus its scalar field, as far as proof
/// bytes are concerned.
pub trait Cycle {
    /// Scalar field element.
    type Scalar: GoldenScalar;

    /// Fixed-width compressed encoding of a group element.
    type Compressed: Copy;

    /// Number of bytes in a compressed point encoding.
    spec fn compressed_len() -> nat;

    /// The bytes of a compressed encoding.
    spec fn compressed_view(c: Self::Compressed) -> Seq<u8>;

    /// The bytes of the identity encoding.
    spec fn identity_view() -> Seq<u8>;

    /// The canonical 32-byte encoding of a scalar.
    spec fn scalar_view(s: Self::Scalar) -> Seq<u8>;

    /// The scalar whose canonical encoding is `bytes`, if any.
    spec fn scalar_decode(bytes: Seq<u8>) -> Option<Self::Scalar>;

    /// The scalar is a field element (every scalar a program holds is).
    spec fn scalar_wf(s: Self::Scalar) -> bool;

    /// Order of the scalar field.
    spec fn scalar_order() -> nat;

    /// Compressed encodings have the fixed width and are their bytes.
    proof fn lemma_compressed(a: Self::Compressed, b: Self::Compressed)
        ensures
            Self::compressed_view(a).len() == Self::compressed_len(),
            Self::compressed_view(a) == Self::compressed_view(b) ==> a == b,
    ;

    /// The proof encodings see a scalar as its field element: the canonical
    /// encoding is the little-endian value, below the field order.
    proof fn lemma_scalar_field(s: Self::Scalar)
        ensures
            Self::scalar_order() == <Self::Scalar as GoldenScalar>::field_order(),
            Self::scalar_wf(s) == s.wf(),
            le_value(Self::scalar_view(s)) == s.value(),
    ;

    /// Compressed encodings are not empty, and short.
    proof fn lemma_compressed_len()
        ensures
            0 < Self::compressed_len() <= 1024,
    ;

    /// A scalar's canonical encoding has 32 bytes and decodes back to it.
    proof fn lemma_scalar(s: Self::Scalar)
        requires
            Self::scalar_wf(s),
        ensures
            Self::scalar_view(s).len() == 32,
            Self::scalar_decode(Self::scalar_view(s)) == Some(s),
    ;

    /// Only canonical encodings decode, to field elements.
    proof fn lemma_scalar_decode(bytes: Seq<u8>)
        ensures
            Self::scalar_decode(bytes) matches Some(t) ==> Self::scalar_view(t) == bytes
                && Self::scalar_wf(t),
    ;

    /// Number of bytes in a compressed point encoding.
    fn compressed_bytes() -> (n: usize)
        ensures
            n == Self::compressed_len(),
    ;

    /// Decode a scalar from its canonical 32-byte encoding.
    fn scalar_from_canonical(bytes: &[u8; 32]) -> (scalar: Option<Self::Scalar>)
        ensures
            scalar == Self::scalar_decode(bytes@),
    ;

    /// The scalar `x mod order` for the 512-bit little-endian integer `x`
    /// of `bytes`.
    fn scalar_from_wide(bytes: &[u8; 64]) -> (scalar: Self::Scalar)
        ensures
            Self::scalar_wf(scalar),
            le_value(Self::scalar_view(scalar)) == le_value(bytes@) % Self::scalar_order(),
    ;

    /// Canonical 32-byte encoding of a scalar.
    fn scalar_to_canonical(scalar: &Self::Scalar) -> (bytes: [u8; 32])
        requires
            Self::scalar_wf(*scalar),
        ensures
            bytes@ == Self::scalar_view(*scalar),
    ;

    /// The compressed encoding made of the first bytes of `bytes`.
    fn compressed_from_bytes(bytes: &[u8]) -> (compressed: Self::Compressed)
        requires
            bytes@.len() >= Self::compressed_len(),
        ensures
            Self::compressed_view(compressed) == bytes@.subrange(0, Self::compressed_len() as int),
    ;

    /// The bytes of a compressed encoding.
    fn compressed_as_bytes(compressed: &Self::Compressed) -> (bytes: &[u8])
        ensures
            bytes@ == Self::compressed_view(*compressed),
    ;

    /// Encoding of the group identity.
    fn compressed_identity() -> (compressed: Self::Compressed)
        ensures
            Self::compressed_view(compressed) == Self::identity_view(),
    ;

    /// Whether a compressed encoding is that of the identity.
    fn compressed_is_identity(compressed: &Self::Compressed) -> (identity: bool)
        ensures
            identity == (Self::compressed_view(*compressed) == Self::identity_view()),
    ;
}

impl Cycle for JubjubCycle {
    type Scalar = JubjubScalar;

    type Compressed = [u8; 32];

    open spec fn compressed_len() -> nat {
        32
    }

    open spec fn compressed_view(c: [u8; 32]) -> Seq<u8> {
        c@
    }

    open spec fn identity_view() -> Seq<u8> {
        jubjub_identity_bytes()
    }

    open spec fn scalar_view(s: JubjubScalar) -> Seq<u8> {
        s@
    }

    open spec fn scalar_decode(bytes: Seq<u8>) -> Option<JubjubScalar> {
        <JubjubScalar as GoldenScalar>::decode_repr(bytes)
    }

    open spec fn scalar_order() -> nat {
        crate::jubjub_group::jubjub_order()
    }

    open spec fn scalar_wf(s: JubjubScalar) -> bool {
        s.wf()
    }

    proof fn lemma_compressed(a: [u8; 32], b: [u8; 32]) {
        if a@ == b@ {
            vstd::array::axiom_array_ext_equal(a, b);
        }
    }

    proof fn lemma_scalar_field(s: JubjubScalar) {
    }

    proof fn lemma_compressed_len() {
    }

    proof fn lemma_scalar(s: JubjubScalar) {
        <JubjubScalar as GoldenScalar>::lemma_scalar_model(s, s);
    }

    proof fn lemma_scalar_decode(bytes: Seq<u8>) {
        <JubjubScalar as GoldenScalar>::lemma_decode_canonical(bytes);
    }

    fn compressed_bytes() -> (n: usize) {
        JUBJUB_COMPRESSED_BYTES
    }

    fn scalar_from_canonical(bytes: &[u8; 32]) -> (scalar: Option<JubjubScalar>) {
        let result = JubjubCycle::scalar_from_canonical(bytes);
        proof {
            <JubjubScalar as GoldenScalar>::lemma_decode_canonical(bytes@);
            if let Some(s) = result {
                <JubjubScalar as GoldenScalar>::lemma_scalar_model(s, s);
            } else {
                if let Some(t) = <JubjubScalar as GoldenScalar>::decode_repr(bytes@) {
                    assert(t.wf());
                }
            }
        }
        result
    }

    fn scalar_from_wide(bytes: &[u8; 64]) -> (scalar: JubjubScalar) {
        JubjubCycle::scalar_from_wide(bytes)
    }

    fn scalar_to_canonical(scalar: &JubjubScalar) -> (bytes: [u8; 32]) {
        JubjubCycle::scalar_to_canonical(scalar)
    }

    fn compressed_from_bytes(bytes: &[u8]) -> (compressed: [u8; 32]) {
        JubjubCycle::compressed_from_bytes(bytes)
    }

    fn compressed_as_bytes(compressed: &[u8; 32]) -> (bytes: &[u8]) {
        compressed.as_slice()
    }

    fn compressed_identity() -> (compressed: [u8; 32]) {
        JubjubCycle::compressed_identity()
    }

    fn compressed_is_identity(compressed: &[u8; 32]) -> (identity: bool) {
        JubjubCycle::compressed_is_identity(compressed)
    }
}

} // verus!
