//! Scalar-field and prime-order group interfaces used by the Golden algebra.
//!
//! A scalar is modelled by its canonical integer `value()` below the field
//! order. A group element is modelled by its discrete logarithm with
//! respect to the group generator; the group has the field order as its
//! order, so every group operation is stated as arithmetic on logarithms.
use vstd::prelude::*;

use vstd::string::StringSliceAdditionalSpecFns;

use crate::bytes::{append_bytes, u32_be, u32_to_be_bytes, u64_be, u64_to_be_bytes};
use crate::error::Error;
use crate::transcript::{sha256, sha256_spec};

verus! {

/// Byte order used by a public field-element representation.
#[derive(Clone, Copy, Debug, Eq, PartialEq, Structural)]
pub enum FieldByteOrder {
    /// Most-significant byte first.
    BigEndian,
    /// Least-significant byte first.
    LittleEndian,
}

/// Scalar field operations needed by Shamir sharing and interpolation.
pub trait GoldenScalar: Sized + Copy {
    /// Order of the scalar field.
    spec fn field_order() -> nat;

    /// Canonical integer value of the scalar, below the field order.
    spec fn value(&self) -> nat;

    /// Length in bytes of the canonical representation.
    spec fn repr_len() -> nat;

    /// Canonical byte representation of the scalar.
    spec fn repr_of(&self) -> Seq<u8>;

    /// The scalar whose canonical representation is `bytes`, if any.
    spec fn decode_repr(bytes: Seq<u8>) -> Option<Self>;

    /// Byte order of the canonical representation.
    spec fn byte_order() -> FieldByteOrder;

    /// The scalar is a field element (every scalar a program holds is).
    spec fn wf(&self) -> bool;

    /// Whether the backend converts the public integer `value` into a
    /// scalar.
    spec fn from_u64_succeeds(value: u64) -> bool;

    /// The field has at least two elements.
    proof fn lemma_field_order()
        ensures
            Self::field_order() > 1,
    ;

    /// Scalars are integers below the field order, equal exactly when their
    /// values are equal, and their representation decodes back to them.
    proof fn lemma_scalar_model(a: Self, b: Self)
        requires
            a.wf(),
            b.wf(),
        ensures
            Self::field_order() > 1,
            a.value() < Self::field_order(),
            a.repr_of().len() == Self::repr_len(),
            Self::decode_repr(a.repr_of()) == Some(a),
            a.value() == b.value() ==> a == b,
    ;

    /// Only canonical representations decode.
    proof fn lemma_decode_canonical(bytes: Seq<u8>)
        ensures
            Self::decode_repr(bytes) matches Some(s) ==> s.repr_of() == bytes && s.wf(),
    ;

    /// Length in bytes of the canonical representation.
    fn repr_bytes() -> (n: usize)
        ensures
            n == Self::repr_len(),
    ;

    /// Return the additive identity.
    fn zero() -> (z: Self)
        ensures
            z.wf(),
            z.value() == 0,
    ;

    /// Return the multiplicative identity.
    fn one() -> (o: Self)
        ensures
            o.wf(),
            o.value() == 1,
    ;

    /// Convert a public `u64` into a scalar, reducing by the field order.
    fn from_u64(value: u64) -> (result: Result<Self, Error>)
        ensures
            result matches Ok(s) ==> s.wf() && s.value() == value as nat % Self::field_order(),
            result is Ok <==> Self::from_u64_succeeds(value),
            result is Err ==> result == Err::<Self, Error>(Error::InvalidEncoding),
    ;

    /// Add two scalars.
    fn add(&self, rhs: &Self) -> (sum: Self)
        requires
            self.wf(),
            rhs.wf(),
        ensures
            sum.wf(),
            sum.value() == (self.value() + rhs.value()) % Self::field_order(),
    ;

    /// Subtract two scalars.
    fn sub(&self, rhs: &Self) -> (difference: Self)
        requires
            self.wf(),
            rhs.wf(),
        ensures
            difference.wf(),
            difference.value() == (self.value() - rhs.value()) % (Self::field_order() as int),
    ;

    /// Multiply two scalars.
    fn mul(&self, rhs: &Self) -> (product: Self)
        requires
            self.wf(),
            rhs.wf(),
        ensures
            product.wf(),
            product.value() == (self.value() * rhs.value()) % Self::field_order(),
    ;

    /// Return the additive inverse.
    fn neg(&self) -> (negation: Self)
        requires
            self.wf(),
        ensures
            negation.wf(),
            negation.value() == (0 - self.value()) % (Self::field_order() as int),
    {
        Self::zero().sub(self)
    }

    /// Invert a scalar; zero has no inverse.
    fn invert(&self) -> (inverse: Option<Self>)
        requires
            self.wf(),
        ensures
            inverse matches Some(i) ==> i.wf(),
            self.value() == 0 <==> inverse is None,
            inverse matches Some(i) ==> (i.value() * self.value()) % Self::field_order() == 1,
    ;

    /// Return whether the scalar is zero.
    fn is_zero(&self) -> (zero: bool)
        requires
            self.wf(),
        ensures
            zero == (self.value() == 0),
    ;

    /// Return whether two scalars are equal.
    fn scalar_eq(&self, other: &Self) -> (equal: bool)
        requires
            self.wf(),
            other.wf(),
        ensures
            equal == (*self == *other),
    ;

    /// Encode a scalar in canonical form.
    fn to_repr(&self) -> (repr: Vec<u8>)
        requires
            self.wf(),
        ensures
            repr@ == self.repr_of(),
    ;

    /// Decode a scalar from canonical form.
    fn from_repr(repr: &[u8]) -> (result: Result<Self, Error>)
        ensures
            Self::decode_repr(repr@) matches Some(s) ==> result == Ok::<Self, Error>(s),
            Self::decode_repr(repr@) is None ==> result == Err::<Self, Error>(
                Error::InvalidEncoding,
            ),
    ;

    /// Return the byte order used by the canonical representation.
    fn repr_byte_order() -> (order: FieldByteOrder)
        ensures
            order == Self::byte_order(),
    ;

}

/// The bytes hashed for block `block` of scalar candidate `counter`.
pub open spec fn scalar_hash_preimage(
    domain: Seq<u8>,
    message: Seq<u8>,
    counter: u32,
    block: u32,
) -> Seq<u8> {
    "golden-scalar-v1".spec_bytes() + u64_be(domain.len() as u64) + domain + u64_be(
        message.len() as u64,
    ) + message + u32_be(counter) + u32_be(block)
}

/// The digests of the first `k` blocks of scalar candidate `counter`.
pub open spec fn scalar_hash_blocks(domain: Seq<u8>, message: Seq<u8>, counter: u32, k: nat) -> Seq<
    u8,
>
    decreases k,
{
    if k == 0 {
        Seq::empty()
    } else {
        scalar_hash_blocks(domain, message, counter, (k - 1) as nat) + sha256_spec(
            scalar_hash_preimage(domain, message, counter, (k - 1) as u32),
        )
    }
}

/// Number of 32-byte blocks that cover `len` bytes.
pub open spec fn scalar_hash_block_count(len: nat) -> nat {
    ((len + 31) / 32) as nat
}

/// Scalar candidate `counter`: the first `len` bytes of its blocks.
pub open spec fn scalar_hash_candidate(domain: Seq<u8>, message: Seq<u8>, counter: u32, len: nat) -> Seq<
    u8,
> {
    scalar_hash_blocks(domain, message, counter, scalar_hash_block_count(len)).subrange(
        0,
        len as int,
    )
}

/// The outcome of hashing to a scalar from candidate `counter` on: the
/// first candidate below `u32::MAX` that decodes to a nonzero scalar.
pub open spec fn hash_to_scalar_search<S: GoldenScalar>(
    domain: Seq<u8>,
    message: Seq<u8>,
    counter: nat,
) -> Result<S, Error>
    decreases u32::MAX - counter,
{
    if counter >= u32::MAX {
        Err(Error::InvalidEncoding)
    } else {
        match S::decode_repr(scalar_hash_candidate(domain, message, counter as u32, S::repr_len())) {
            Some(s) if s.value() != 0 => Ok(s),
            _ => hash_to_scalar_search::<S>(domain, message, counter + 1),
        }
    }
}

/// Hash a domain-separated message to a nonzero scalar by
/// try-and-increment: candidate `counter` is the first `repr_bytes`
/// bytes of SHA-256 blocks over the framed domain, message, counter and
/// block number; the first candidate that decodes to a nonzero scalar
/// is returned, for counters below `u32::MAX`.
pub fn hash_to_scalar<S: GoldenScalar>(domain: &[u8], message: &[u8]) -> (result: Result<
    S,
    Error,
>)
    requires
        S::repr_len() + 32 <= usize::MAX,
        S::repr_len() <= 32 * (u32::MAX as nat),
    ensures
        result == hash_to_scalar_search::<S>(domain@, message@, 0),
        result matches Ok(s) ==> s.wf() && s.value() != 0,
{
    let repr_len = S::repr_bytes();
    let mut counter: u32 = 0;
    while counter < u32::MAX
        invariant
            repr_len == S::repr_len(),
            S::repr_len() + 32 <= usize::MAX,
            S::repr_len() <= 32 * (u32::MAX as nat),
            hash_to_scalar_search::<S>(domain@, message@, 0) == hash_to_scalar_search::<
                S,
            >(domain@, message@, counter as nat),
        decreases u32::MAX - counter,
    {
        let mut bytes: Vec<u8> = Vec::new();
        let mut block: u32 = 0;
        while bytes.len() < repr_len
            invariant
                repr_len == S::repr_len(),
                S::repr_len() + 32 <= usize::MAX,
                S::repr_len() <= 32 * (u32::MAX as nat),
                bytes@ == scalar_hash_blocks(domain@, message@, counter, block as nat),
                bytes@.len() == 32 * block,
                32 * (block - 1) < repr_len || block == 0,
            decreases repr_len + 32 - bytes@.len(),
        {
            let mut input: Vec<u8> = Vec::new();
            append_bytes(&mut input, "golden-scalar-v1".as_bytes());
            append_bytes(&mut input, &u64_to_be_bytes(domain.len() as u64));
            append_bytes(&mut input, domain);
            append_bytes(&mut input, &u64_to_be_bytes(message.len() as u64));
            append_bytes(&mut input, message);
            append_bytes(&mut input, &u32_to_be_bytes(counter));
            append_bytes(&mut input, &u32_to_be_bytes(block));
            assert(input@ =~= scalar_hash_preimage(domain@, message@, counter, block));
            let digest = sha256(input.as_slice());
            append_bytes(&mut bytes, &digest);
            block = block + 1;
        }
        proof {
            assert(block as nat == scalar_hash_block_count(repr_len as nat));
        }
        bytes.truncate(repr_len);
        if let Ok(scalar) = S::from_repr(bytes.as_slice()) {
            proof {
                S::lemma_decode_canonical(bytes@);
            }
            if !scalar.is_zero() {
                return Ok(scalar);
            }
        }
        counter = counter + 1;
    }
    Err(Error::InvalidEncoding)
}

/// Prime-order group operations needed by Feldman commitments.
pub trait GoldenGroup {
    /// Scalar field for this group.
    type Scalar: GoldenScalar;

    /// Group element type.
    type Element: Copy;

    /// Discrete logarithm of an element with respect to the generator.
    spec fn dlog(e: Self::Element) -> nat;

    /// Length in bytes of the canonical element representation.
    spec fn element_repr_len() -> nat;

    /// Canonical byte representation of an element.
    spec fn encode_spec(e: Self::Element) -> Seq<u8>;

    /// The element whose canonical representation is `bytes`, if any.
    spec fn decode_spec(bytes: Seq<u8>) -> Option<Self::Element>;

    /// Stable backend identifier bytes for transcript and codec binding.
    spec fn backend_id_spec() -> Seq<u8>;

    /// Stable curve identifier bytes for transcript and message binding.
    spec fn curve_id_spec() -> Seq<u8>;

    /// The element is a group element (every element a program holds is).
    spec fn element_wf(e: Self::Element) -> bool;

    /// The element that `identity` returns.
    spec fn identity_spec() -> Self::Element;

    /// Logarithms lie below the group order, and the representation of an
    /// element decodes back to it.
    proof fn lemma_group_model(a: Self::Element)
        requires
            Self::element_wf(a),
        ensures
            Self::dlog(a) < <Self::Scalar as GoldenScalar>::field_order(),
            Self::encode_spec(a).len() == Self::element_repr_len(),
            Self::decode_spec(Self::encode_spec(a)) == Some(a),
    ;

    /// Only canonical representations decode.
    proof fn lemma_decode_canonical(bytes: Seq<u8>)
        ensures
            Self::decode_spec(bytes) matches Some(e) ==> Self::encode_spec(e) == bytes
                && Self::element_wf(e),
    ;

    /// Length in bytes of the canonical element representation.
    fn element_repr_bytes() -> (n: usize)
        ensures
            n == Self::element_repr_len(),
    ;

    /// Stable backend identifier for transcript binding.
    fn backend_id() -> (id: &'static [u8])
        ensures
            id@ == Self::backend_id_spec(),
    ;

    /// Stable curve identifier for transcript and message binding.
    fn curve_id() -> (id: &'static [u8])
        ensures
            id@ == Self::curve_id_spec(),
    ;

    /// Return the group generator.
    fn generator() -> (g: Self::Element)
        ensures
            Self::element_wf(g),
            Self::dlog(g) == 1,
    ;

    /// Return the group identity.
    fn identity() -> (e: Self::Element)
        ensures
            e == Self::identity_spec(),
            Self::element_wf(e),
            Self::dlog(e) == 0,
    ;

    /// Add two group elements.
    fn add(a: &Self::Element, b: &Self::Element) -> (sum: Self::Element)
        requires
            Self::element_wf(*a),
            Self::element_wf(*b),
        ensures
            Self::element_wf(sum),
            Self::dlog(sum) == (Self::dlog(*a) + Self::dlog(*b))
                % <Self::Scalar as GoldenScalar>::field_order(),
    ;

    /// Subtract two group elements.
    fn sub(a: &Self::Element, b: &Self::Element) -> (difference: Self::Element)
        requires
            Self::element_wf(*a),
            Self::element_wf(*b),
        ensures
            Self::element_wf(difference),
            Self::dlog(difference) == (Self::dlog(*a) - Self::dlog(*b)) % (<Self::Scalar as GoldenScalar>::field_order() as int),
    ;

    /// Multiply a group element by a scalar.
    fn mul(point: &Self::Element, scalar: &Self::Scalar) -> (product: Self::Element)
        requires
            Self::element_wf(*point),
            scalar.wf(),
        ensures
            Self::element_wf(product),
            Self::dlog(product) == (Self::dlog(*point) * scalar.value())
                % <Self::Scalar as GoldenScalar>::field_order(),
    ;

    /// Multiply the group generator by a scalar.
    fn mul_generator(scalar: &Self::Scalar) -> (product: Self::Element)
        requires
            scalar.wf(),
        ensures
            Self::element_wf(product),
            Self::dlog(product) == scalar.value(),
    {
        let g = Self::generator();
        let product = Self::mul(&g, scalar);
        proof {
            <Self::Scalar as GoldenScalar>::lemma_scalar_model(*scalar, *scalar);
            Self::lemma_group_model(g);
            vstd::arithmetic::div_mod::lemma_small_mod(
                scalar.value(),
                <Self::Scalar as GoldenScalar>::field_order(),
            );
        }
        product
    }

    /// Return whether the point is the identity.
    fn is_identity(point: &Self::Element) -> (identity: bool)
        requires
            Self::element_wf(*point),
        ensures
            identity == (Self::dlog(*point) == 0),
    ;

    /// Return whether two elements are the same group element.
    fn element_eq(a: &Self::Element, b: &Self::Element) -> (equal: bool)
        requires
            Self::element_wf(*a),
            Self::element_wf(*b),
        ensures
            equal == (Self::dlog(*a) == Self::dlog(*b)),
    ;

    /// Encode a group element in canonical form.
    fn encode_element(point: &Self::Element) -> (repr: Vec<u8>)
        requires
            Self::element_wf(*point),
        ensures
            repr@ == Self::encode_spec(*point),
    ;

    /// Decode a group element from canonical form.
    fn decode_element(repr: &[u8]) -> (result: Result<Self::Element, Error>)
        ensures
            Self::decode_spec(repr@) matches Some(e) ==> result == Ok::<Self::Element, Error>(e),
            Self::decode_spec(repr@) is None ==> result == Err::<Self::Element, Error>(
                Error::InvalidEncoding,
            ),
    ;
}

/// Hash-to-group operation for groups that need independent public points.
pub trait GoldenHashToGroup: GoldenGroup {
    /// The outcome of hashing `message` under the application prefix
    /// `domain`: a non-identity element, or the error the adapter reports.
    spec fn hash_to_group_spec(domain: Seq<u8>, message: Seq<u8>) -> Result<Self::Element, Error>;

    /// Hash a domain-separated message to a non-identity group element.
    ///
    /// `domain` is the application-specific prefix; adapters add their own
    /// fixed domain separation before hashing.
    fn hash_to_group(domain: &[u8], message: &[u8]) -> (result: Result<Self::Element, Error>)
        ensures
            result == Self::hash_to_group_spec(domain@, message@),
            result matches Ok(e) ==> Self::element_wf(e) && Self::dlog(e) != 0,
    ;
}

} // verus!
