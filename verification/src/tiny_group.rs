//! A tiny scalar field modulo 97 and the additive group over it: a small,
//! fully specified backend for exercising the generic algebra.
use vstd::prelude::*;
use vstd::string::StringSliceAdditionalSpecFns;

use crate::error::Error;
use crate::group::{FieldByteOrder, GoldenGroup, GoldenScalar};

verus! {

/// The modulus of the tiny field.
pub const TINY_MODULUS: u8 = 97;

/// Tiny scalar field modulo 97.
#[derive(Clone, Copy, Debug, Eq, PartialEq)]
pub struct TinyScalar(pub u8);

/// `x * y` modulo 97.
pub open spec fn tiny_mul_mod(x: u32, y: u32) -> u32 {
    ((x * y) % 97) as u32
}

/// `a^95` modulo 97, by a fixed chain of squarings and products.
pub open spec fn tiny_pow95(a: u32) -> u32 {
    let a2 = tiny_mul_mod(a, a);
    let a4 = tiny_mul_mod(a2, a2);
    let a8 = tiny_mul_mod(a4, a4);
    let a16 = tiny_mul_mod(a8, a8);
    let a32 = tiny_mul_mod(a16, a16);
    let a64 = tiny_mul_mod(a32, a32);
    tiny_mul_mod(
        tiny_mul_mod(tiny_mul_mod(tiny_mul_mod(tiny_mul_mod(a64, a16), a8), a4), a2),
        a,
    )
}

/// Fermat's little theorem for the prime 97: `a^95` inverts every nonzero
/// `a` below 97.
pub proof fn lemma_tiny_inverse(a: u32)
    by (bit_vector)
    requires
        1 <= a < 97,
    ensures
        tiny_pow95(a) < 97,
        tiny_mul_mod(tiny_pow95(a), a) == 1,
{
}

/// `x * y` modulo 97 for values below 97.
fn tiny_mul_mod_exec(x: u32, y: u32) -> (r: u32)
    requires
        x < 97,
        y < 97,
    ensures
        r == tiny_mul_mod(x, y),
        r < 97,
{
    assert(x * y < 97 * 97) by (nonlinear_arith)
        requires
            x < 97,
            y < 97,
    ;
    (x * y) % 97
}

impl TinyScalar {
    /// Reduce `value` modulo 97.
    pub fn reduce(value: u64) -> (s: Self)
        ensures
            s.0 == value % 97,
    {
        TinyScalar((value % 97) as u8)
    }
}

impl GoldenScalar for TinyScalar {
    open spec fn field_order() -> nat {
        97
    }

    open spec fn value(&self) -> nat {
        self.0 as nat
    }

    open spec fn repr_len() -> nat {
        1
    }

    open spec fn repr_of(&self) -> Seq<u8> {
        seq![self.0]
    }

    open spec fn decode_repr(bytes: Seq<u8>) -> Option<Self> {
        if bytes.len() == 1 && bytes[0] < 97 {
            Some(TinyScalar(bytes[0]))
        } else {
            None
        }
    }

    open spec fn byte_order() -> FieldByteOrder {
        FieldByteOrder::BigEndian
    }

    open spec fn wf(&self) -> bool {
        self.0 < 97
    }

    open spec fn from_u64_succeeds(value: u64) -> bool {
        true
    }

    proof fn lemma_field_order() {
    }

    proof fn lemma_scalar_model(a: Self, b: Self) {
        assert(seq![a.0].len() == 1);
        assert(seq![a.0][0] == a.0);
    }

    proof fn lemma_decode_canonical(bytes: Seq<u8>) {
        if bytes.len() == 1 && bytes[0] < 97 {
            assert(seq![bytes[0]] =~= bytes);
        }
    }

    fn repr_bytes() -> (n: usize) {
        1
    }

    fn zero() -> (z: Self) {
        TinyScalar(0)
    }

    fn one() -> (o: Self) {
        TinyScalar(1)
    }

    fn from_u64(value: u64) -> (result: Result<Self, Error>) {
        Ok(Self::reduce(value))
    }

    fn add(&self, rhs: &Self) -> (sum: Self) {
        Self::reduce(self.0 as u64 + rhs.0 as u64)
    }

    fn sub(&self, rhs: &Self) -> (difference: Self) {
        let d = Self::reduce(97 + self.0 as u64 - rhs.0 as u64);
        proof {
            let a = self.0 as int;
            let b = rhs.0 as int;
            vstd::arithmetic::div_mod::lemma_mod_add_multiples_vanish(a - b, 97);
            assert(97 + a - b == (a - b) + 97);
        }
        d
    }

    fn mul(&self, rhs: &Self) -> (product: Self) {
        assert(self.0 as u64 * rhs.0 as u64 <= 255 * 255) by (nonlinear_arith)
            requires
                self.0 <= 255,
                rhs.0 <= 255,
        ;
        Self::reduce(self.0 as u64 * rhs.0 as u64)
    }

    fn invert(&self) -> (inverse: Option<Self>) {
        if self.0 == 0 {
            return None;
        }
        let a = self.0 as u32;
        let a2 = tiny_mul_mod_exec(a, a);
        let a4 = tiny_mul_mod_exec(a2, a2);
        let a8 = tiny_mul_mod_exec(a4, a4);
        let a16 = tiny_mul_mod_exec(a8, a8);
        let a32 = tiny_mul_mod_exec(a16, a16);
        let a64 = tiny_mul_mod_exec(a32, a32);
        let r1 = tiny_mul_mod_exec(a64, a16);
        let r2 = tiny_mul_mod_exec(r1, a8);
        let r3 = tiny_mul_mod_exec(r2, a4);
        let r4 = tiny_mul_mod_exec(r3, a2);
        let r = tiny_mul_mod_exec(r4, a);
        proof {
            lemma_tiny_inverse(a);
            assert(r == tiny_pow95(a));
        }
        Some(TinyScalar(r as u8))
    }

    fn is_zero(&self) -> (zero: bool) {
        self.0 == 0
    }

    fn scalar_eq(&self, other: &Self) -> (equal: bool) {
        self.0 == other.0
    }

    fn to_repr(&self) -> (repr: Vec<u8>) {
        let mut out: Vec<u8> = Vec::new();
        out.push(self.0);
        assert(out@ =~= seq![self.0]);
        out
    }

    fn from_repr(repr: &[u8]) -> (result: Result<Self, Error>) {
        if repr.len() != 1 || repr[0] >= 97 {
            return Err(Error::InvalidEncoding);
        }
        Ok(TinyScalar(repr[0]))
    }

    fn repr_byte_order() -> (order: FieldByteOrder) {
        FieldByteOrder::BigEndian
    }
}

/// Tiny additive group over the scalar field: an element is its own
/// discrete logarithm, the generator is one.
#[derive(Clone, Copy, Debug)]
pub struct TinyGroup;

impl GoldenGroup for TinyGroup {
    type Scalar = TinyScalar;

    type Element = TinyScalar;

    open spec fn dlog(e: TinyScalar) -> nat {
        e.0 as nat
    }

    open spec fn element_repr_len() -> nat {
        1
    }

    open spec fn encode_spec(e: TinyScalar) -> Seq<u8> {
        seq![e.0]
    }

    open spec fn decode_spec(bytes: Seq<u8>) -> Option<TinyScalar> {
        TinyScalar::decode_repr(bytes)
    }

    open spec fn backend_id_spec() -> Seq<u8> {
        "golden-test-tiny-v1".spec_bytes()
    }

    open spec fn curve_id_spec() -> Seq<u8> {
        "golden-test-tiny-v1".spec_bytes()
    }

    open spec fn element_wf(e: TinyScalar) -> bool {
        e.0 < 97
    }

    open spec fn identity_spec() -> TinyScalar {
        TinyScalar(0)
    }

    proof fn lemma_group_model(a: TinyScalar) {
        let enc = seq![a.0];
        assert(enc.len() == 1);
        assert(enc[0] == a.0);
        assert(Self::encode_spec(a) == enc);
        assert(TinyScalar::decode_repr(enc) == Some(a));
        assert(Self::decode_spec(enc) == Some(a));
        assert(Self::element_repr_len() == 1);
    }

    proof fn lemma_decode_canonical(bytes: Seq<u8>) {
        if bytes.len() == 1 && bytes[0] < 97 {
            assert(seq![bytes[0]] =~= bytes);
        }
    }

    fn element_repr_bytes() -> (n: usize) {
        1
    }

    fn backend_id() -> (id: &'static [u8]) {
        "golden-test-tiny-v1".as_bytes()
    }

    fn curve_id() -> (id: &'static [u8]) {
        "golden-test-tiny-v1".as_bytes()
    }

    fn generator() -> (g: TinyScalar) {
        TinyScalar(1)
    }

    fn identity() -> (e: TinyScalar) {
        TinyScalar(0)
    }

    fn add(a: &TinyScalar, b: &TinyScalar) -> (sum: TinyScalar) {
        a.add(b)
    }

    fn sub(a: &TinyScalar, b: &TinyScalar) -> (difference: TinyScalar) {
        a.sub(b)
    }

    fn mul(point: &TinyScalar, scalar: &TinyScalar) -> (product: TinyScalar) {
        point.mul(scalar)
    }

    fn is_identity(point: &TinyScalar) -> (identity: bool) {
        point.0 == 0
    }

    fn element_eq(a: &TinyScalar, b: &TinyScalar) -> (equal: bool) {
        a.0 == b.0
    }

    fn encode_element(point: &TinyScalar) -> (repr: Vec<u8>) {
        point.to_repr()
    }

    fn decode_element(repr: &[u8]) -> (result: Result<TinyScalar, Error>) {
        TinyScalar::from_repr(repr)
    }
}

} // verus!
