//! Canonical byte encoding for Golden DKG wire values.
//!
//! Standalone wire values start with the magic prefix, a one-byte type tag,
//! and a codec context. Nested fields omit that envelope and are encoded in
//! the order documented by each type's [`WireEncode`] implementation.
use vstd::prelude::*;
use vstd::string::StringSliceAdditionalSpecFns;

use crate::bytes::{
    append_bytes, be_to_u32, be_to_u64, lemma_be_u32_canonical, lemma_be_u64_canonical,
    lemma_u32_be_roundtrip, lemma_u64_be_roundtrip, u32_be, u32_from_be_bytes, u32_to_be_bytes,
    u64_be, u64_from_be_bytes, u64_to_be_bytes,
};
use crate::dkg::{kind_code, DealerMessageNonce, DkgInstanceKind, SessionId};
use crate::error::Error;
use crate::participant::ParticipantIndex;
use crate::transcript::TranscriptRoot;

verus! {

/// Standalone tag for [`SessionId`].
pub const TAG_SESSION_ID: u8 = 0x01;

/// Standalone tag for [`DealerMessageNonce`].
pub const TAG_DEALER_MESSAGE_NONCE: u8 = 0x02;

/// Standalone tag for encrypted shares.
pub const TAG_ENCRYPTED_SHARE: u8 = 0x03;

/// Standalone tag for Feldman commitments.
pub const TAG_FELDMAN_COMMITMENT: u8 = 0x04;

/// Standalone tag for participant registries.
pub const TAG_PARTICIPANT_REGISTRY: u8 = 0x05;

/// Standalone tag for DKG configurations.
pub const TAG_DKG_CONFIG: u8 = 0x06;

/// Protocol broadcast tag for dealer messages.
pub const TAG_DEALER_MESSAGE: u8 = 0x07;

/// Maximum accepted byte length of a dealer's proof.
pub const MAX_DEALER_PROOF_BYTES: usize = 16777216;

/// Magic prefix for every standalone DKG wire value.
pub open spec fn magic_spec() -> Seq<u8> {
    "golden-dkg-wire-v4".spec_bytes()
}

/// Magic prefix for every standalone DKG wire value.
pub fn magic() -> (m: &'static [u8])
    ensures
        m@ == magic_spec(),
{
    "golden-dkg-wire-v4".as_bytes()
}

/// Byte-wise equality of two slices.
pub fn bytes_equal(a: &[u8], b: &[u8]) -> (equal: bool)
    ensures
        equal == (a@ == b@),
{
    if a.len() != b.len() {
        return false;
    }
    let mut i: usize = 0;
    while i < a.len()
        invariant
            a@.len() == b@.len(),
            i <= a@.len(),
            forall|k: int| 0 <= k < i ==> a@[k] == b@[k],
        decreases a@.len() - i,
    {
        if a[i] != b[i] {
            return false;
        }
        i = i + 1;
    }
    assert(a@ =~= b@);
    true
}

/// Reader for canonical wire bytes.
#[derive(Debug)]
pub struct WireReader<'a> {
    bytes: &'a [u8],
    cursor: usize,
}

impl<'a> WireReader<'a> {
    #[verifier::type_invariant]
    spec fn cursor_in_bounds(self) -> bool {
        self.cursor <= self.bytes@.len()
    }

    /// The complete byte string being read.
    pub closed spec fn data(self) -> Seq<u8> {
        self.bytes@
    }

    /// Number of bytes already consumed.
    pub closed spec fn pos(self) -> nat {
        self.cursor as nat
    }

    /// The unread bytes.
    pub open spec fn rest(self) -> Seq<u8> {
        self.data().subrange(self.pos() as int, self.data().len() as int)
    }

    /// The reader has consumed `n` more bytes of the same data than `before`.
    pub open spec fn advanced(self, before: Self, n: nat) -> bool {
        &&& self.data() == before.data()
        &&& self.pos() == before.pos() + n
        &&& self.pos() <= self.data().len()
    }

    /// Build a reader over `bytes`.
    pub fn new(bytes: &'a [u8]) -> (reader: Self)
        ensures
            reader.data() == bytes@,
            reader.pos() == 0,
            reader.rest() == bytes@,
    {
        let reader = Self { bytes, cursor: 0 };
        assert(reader.rest() =~= bytes@);
        reader
    }

    /// Read one byte.
    pub fn read_u8(&mut self) -> (result: Result<u8, Error>)
        ensures
            old(self).rest().len() >= 1 ==> result == Ok::<u8, Error>(old(self).rest()[0])
                && final(self).advanced(*old(self), 1),
            old(self).rest().len() < 1 ==> result == Err::<u8, Error>(Error::InvalidEncoding)
                && *final(self) == *old(self),
    {
        let bytes = self.read_exact(1)?;
        Ok(bytes[0])
    }

    /// Read a big-endian `u32`.
    pub fn read_u32(&mut self) -> (result: Result<u32, Error>)
        ensures
            old(self).rest().len() >= 4 ==> result == Ok::<u32, Error>(
                be_to_u32(old(self).rest().subrange(0, 4)),
            ) && final(self).advanced(*old(self), 4),
            old(self).rest().len() < 4 ==> result == Err::<u32, Error>(Error::InvalidEncoding)
                && *final(self) == *old(self),
    {
        let bytes = self.read_exact(4)?;
        Ok(u32_from_be_bytes(bytes))
    }

    /// Read a big-endian `u64`.
    pub fn read_u64(&mut self) -> (result: Result<u64, Error>)
        ensures
            old(self).rest().len() >= 8 ==> result == Ok::<u64, Error>(
                be_to_u64(old(self).rest().subrange(0, 8)),
            ) && final(self).advanced(*old(self), 8),
            old(self).rest().len() < 8 ==> result == Err::<u64, Error>(Error::InvalidEncoding)
                && *final(self) == *old(self),
    {
        let bytes = self.read_exact(8)?;
        Ok(u64_from_be_bytes(bytes))
    }

    /// Read a length prefix as a `usize`.
    pub fn read_len(&mut self) -> (result: Result<usize, Error>)
        ensures
            old(self).rest().len() >= 8 && be_to_u64(old(self).rest().subrange(0, 8))
                <= usize::MAX ==> result == Ok::<usize, Error>(
                be_to_u64(old(self).rest().subrange(0, 8)) as usize,
            ) && final(self).advanced(*old(self), 8),
            old(self).rest().len() >= 8 && be_to_u64(old(self).rest().subrange(0, 8))
                > usize::MAX ==> result == Err::<usize, Error>(Error::InvalidEncoding)
                && final(self).advanced(*old(self), 8),
            old(self).rest().len() < 8 ==> result == Err::<usize, Error>(Error::InvalidEncoding)
                && *final(self) == *old(self),
    {
        let value = self.read_u64()?;
        if value > usize::MAX as u64 {
            return Err(Error::InvalidEncoding);
        }
        Ok(value as usize)
    }

    /// Return the number of unread bytes.
    pub fn remaining(&self) -> (n: usize)
        ensures
            n == self.rest().len(),
    {
        proof {
            use_type_invariant(self);
        }
        self.bytes.len() - self.cursor
    }

    /// Validate that at least `count * min_item_size` bytes remain.
    pub fn ensure_remaining_items(&self, count: usize, min_item_size: usize) -> (result: Result<
        (),
        Error,
    >)
        ensures
            result is Ok <==> count * min_item_size <= self.rest().len(),
            result is Err ==> result == Err::<(), Error>(Error::InvalidEncoding),
    {
        let remaining = self.remaining();
        let required = match count.checked_mul(min_item_size) {
            Some(required) => required,
            None => return Err(Error::InvalidEncoding),
        };
        if required <= remaining {
            Ok(())
        } else {
            Err(Error::InvalidEncoding)
        }
    }

    /// Read `N` bytes into an array.
    pub fn read_array<const N: usize>(&mut self) -> (result: Result<[u8; N], Error>)
        ensures
            old(self).rest().len() >= N ==> result is Ok && result->Ok_0@ == old(self).rest().subrange(0, N as int) && final(self).advanced(*old(self), N as nat),
            old(self).rest().len() < N ==> result == Err::<[u8; N], Error>(Error::InvalidEncoding)
                && *final(self) == *old(self),
    {
        let bytes = self.read_exact(N)?;
        let mut out = [0u8; N];
        let mut i: usize = 0;
        while i < N
            invariant
                i <= N,
                bytes@.len() == N,
                out@.len() == N,
                forall|k: int| 0 <= k < i ==> out@[k] == bytes@[k],
            decreases N - i,
        {
            out[i] = bytes[i];
            i = i + 1;
        }
        assert(out@ =~= bytes@);
        Ok(out)
    }

    /// Read `len` bytes.
    pub fn read_exact(&mut self, len: usize) -> (result: Result<&'a [u8], Error>)
        ensures
            old(self).rest().len() >= len ==> result is Ok && result->Ok_0@ == old(self).rest().subrange(0, len as int) && final(self).advanced(*old(self), len as nat)
                && final(self).rest() == old(self).rest().subrange(
                len as int,
                old(self).rest().len() as int,
            ),
            old(self).rest().len() < len ==> result == Err::<&'a [u8], Error>(
                Error::InvalidEncoding,
            ) && *final(self) == *old(self),
    {
        proof {
            use_type_invariant(&*self);
        }
        let total = self.bytes.len();
        let end = match self.cursor.checked_add(len) {
            Some(end) => end,
            None => return Err(Error::InvalidEncoding),
        };
        if end > total {
            return Err(Error::InvalidEncoding);
        }
        let slice = &self.bytes[self.cursor..end];
        self.cursor = end;
        assert(slice@ =~= old(self).rest().subrange(0, len as int));
        assert(self.rest() =~= old(self).rest().subrange(len as int, old(self).rest().len() as int));
        Ok(slice)
    }

    /// Read and validate the standalone magic prefix.
    pub fn expect_magic(&mut self) -> (result: Result<(), Error>)
        ensures
            old(self).rest().len() >= magic_spec().len() && old(self).rest().subrange(
                0,
                magic_spec().len() as int,
            ) == magic_spec() ==> result is Ok && final(self).advanced(
                *old(self),
                magic_spec().len(),
            ),
            !(old(self).rest().len() >= magic_spec().len() && old(self).rest().subrange(
                0,
                magic_spec().len() as int,
            ) == magic_spec()) ==> result == Err::<(), Error>(Error::InvalidEncoding),
    {
        let expected = magic();
        let read = self.read_exact(expected.len())?;
        if bytes_equal(read, expected) {
            Ok(())
        } else {
            Err(Error::InvalidEncoding)
        }
    }

    /// Reject unread trailing bytes.
    pub fn finish(&self) -> (result: Result<(), Error>)
        ensures
            result is Ok <==> self.rest().len() == 0,
            result is Err ==> result == Err::<(), Error>(Error::InvalidEncoding),
    {
        proof {
            use_type_invariant(self);
        }
        if self.cursor == self.bytes.len() {
            Ok(())
        } else {
            Err(Error::InvalidEncoding)
        }
    }
}

} // verus!

verus! {

/// One length-delimited codec context field: the length of `id` as a
/// big-endian `u64`, then `id`.
pub open spec fn context_field(id: Seq<u8>) -> Seq<u8> {
    u64_be(id.len() as u64) + id
}

/// `prefix` starts `bytes`.
pub open spec fn starts_with(bytes: Seq<u8>, prefix: Seq<u8>) -> bool {
    bytes.len() >= prefix.len() && bytes.subrange(0, prefix.len() as int) == prefix
}

/// Write a big-endian `u32`.
pub fn write_u32(out: &mut Vec<u8>, value: u32)
    ensures
        final(out)@ == old(out)@ + u32_be(value),
{
    append_bytes(out, &u32_to_be_bytes(value));
}

/// Write a collection length as a big-endian `u64`.
pub fn write_len(out: &mut Vec<u8>, value: usize)
    ensures
        final(out)@ == old(out)@ + u64_be(value as u64),
{
    append_bytes(out, &u64_to_be_bytes(value as u64));
}

/// Write one length-delimited codec context field.
pub fn write_context_field(out: &mut Vec<u8>, bytes: &[u8])
    ensures
        final(out)@ == old(out)@ + context_field(bytes@),
{
    let len = bytes.len();
    write_len(out, len);
    append_bytes(out, bytes);
    assert(out@ =~= old(out)@ + context_field(bytes@));
}

/// Read one length-delimited codec context field and compare it to `expected`.
pub fn expect_context_field(reader: &mut WireReader<'_>, expected: &[u8]) -> (result: Result<
    (),
    Error,
>)
    ensures
        final(reader).data() == old(reader).data(),
        starts_with(old(reader).rest(), context_field(expected@)) ==> result is Ok && final(reader).advanced(*old(reader), context_field(expected@).len()),
        !starts_with(old(reader).rest(), context_field(expected@)) ==> result == Err::<(), Error>(
            Error::InvalidEncoding,
        ),
{
    let ghost rest = reader.rest();
    let ghost field = context_field(expected@);
    let expected_len = expected.len();
    proof {
        lemma_u64_be_roundtrip(expected_len as u64);
        if starts_with(rest, field) {
            assert(rest.subrange(0, 8) =~= field.subrange(0, 8));
            assert(field.subrange(0, 8) =~= u64_be(expected_len as u64));
        }
    }
    proof {
        use_type_invariant(&*reader);
    }
    let len = reader.read_len()?;
    proof {
        use_type_invariant(&*reader);
        lemma_be_u64_canonical(rest.subrange(0, 8));
        assert(reader.rest() =~= rest.subrange(8, rest.len() as int));
        if starts_with(rest, field) {
            assert(len == expected_len);
            assert(field.subrange(8, field.len() as int) =~= expected@);
            assert(reader.rest().subrange(0, len as int) =~= rest.subrange(
                0,
                field.len() as int,
            ).subrange(8, field.len() as int));
            assert(reader.rest().subrange(0, len as int) =~= expected@);
        }
    }
    let read = reader.read_exact(len)?;
    if bytes_equal(read, expected) {
        proof {
            assert(u64_be(len as u64) =~= rest.subrange(0, 8));
            assert(rest.subrange(0, field.len() as int) =~= field);
        }
        Ok(())
    } else {
        Err(Error::InvalidEncoding)
    }
}

/// Encode a value into its nested canonical wire representation.
pub trait WireEncode {
    /// The nested wire bytes of this value.
    spec fn wire_spec(&self) -> Seq<u8>;

    /// Write this value without a top-level magic or tag prefix.
    fn write_wire(&self, out: &mut Vec<u8>)
        ensures
            final(out)@ == old(out)@ + self.wire_spec(),
    ;

    /// Byte length `write_wire` will append, used to pre-size the output
    /// buffer; the default `0` falls back to `Vec`'s own growth.
    fn wire_size_hint(&self) -> (hint: usize)
        default_ensures
            hint == 0,
    {
        0
    }

    /// Return this value's nested wire bytes.
    fn to_nested_wire_bytes(&self) -> (out: Vec<u8>)
        ensures
            out@ == self.wire_spec(),
    {
        let mut out = Vec::with_capacity(self.wire_size_hint());
        self.write_wire(&mut out);
        assert(out@ =~= self.wire_spec());
        out
    }
}

/// Decode a value from its nested canonical wire representation.
pub trait WireDecode: Sized {
    /// The outcome of decoding a value from the front of `bytes`: the value
    /// and the number of bytes it occupies, or the error.
    spec fn wire_parse(bytes: Seq<u8>) -> Result<(Self, nat), Error>;

    /// Read this value without a top-level magic or tag prefix.
    fn read_wire(reader: &mut WireReader<'_>) -> (result: Result<Self, Error>)
        ensures
            final(reader).data() == old(reader).data(),
            Self::wire_parse(old(reader).rest()) matches Ok((v, n)) ==> result == Ok::<
                Self,
                Error,
            >(v) && final(reader).advanced(*old(reader), n),
            Self::wire_parse(old(reader).rest()) matches Err(e) ==> result == Err::<Self, Error>(
                e,
            ),
    ;
}

/// Values whose nested encoding decodes back to the value.
pub trait WireRoundTrip: WireEncode + WireDecode {
    /// The value satisfies the invariants that its constructors establish.
    spec fn wire_valid(&self) -> bool;

    /// Decoding the nested encoding of a valid value, followed by any bytes,
    /// gives back the value and consumes exactly its encoding.
    proof fn lemma_wire_roundtrip(&self, rest: Seq<u8>)
        requires
            self.wire_valid(),
        ensures
            Self::wire_parse(self.wire_spec() + rest) == Ok::<(Self, nat), Error>(
                (*self, self.wire_spec().len()),
            ),
    ;
}

/// A standalone wire value with a stable tag.
pub trait WireMessage: WireEncode + WireDecode {
    /// Standalone type tag.
    spec fn tag_spec() -> u8;

    /// Codec context bytes written after the tag.
    spec fn context_spec() -> Seq<u8>;

    /// Standalone type tag.
    fn tag() -> (tag: u8)
        ensures
            tag == Self::tag_spec(),
    ;

    /// Write codec context after the top-level tag.
    fn write_wire_context(out: &mut Vec<u8>)
        ensures
            final(out)@ == old(out)@ + Self::context_spec(),
    ;

    /// Read and validate codec context after the top-level tag.
    fn read_wire_context(reader: &mut WireReader<'_>) -> (result: Result<(), Error>)
        ensures
            final(reader).data() == old(reader).data(),
            starts_with(old(reader).rest(), Self::context_spec()) ==> result is Ok && final(reader).advanced(*old(reader), Self::context_spec().len()),
            !starts_with(old(reader).rest(), Self::context_spec()) ==> result == Err::<
                (),
                Error,
            >(Error::InvalidEncoding),
    ;
}

/// The standalone wire bytes of `value`: magic, tag, codec context and the
/// nested encoding.
pub open spec fn wire_bytes_spec<T: WireMessage>(value: T) -> Seq<u8> {
    magic_spec() + seq![T::tag_spec()] + T::context_spec() + value.wire_spec()
}

/// The outcome of decoding a standalone wire value from exactly `bytes`.
pub open spec fn from_wire_bytes_spec<T: WireMessage>(bytes: Seq<u8>) -> Result<T, Error> {
    let m = magic_spec().len() as int;
    if !starts_with(bytes, magic_spec()) {
        Err(Error::InvalidEncoding)
    } else if bytes.len() < m + 1 || bytes[m] != T::tag_spec() {
        Err(Error::InvalidEncoding)
    } else {
        let after_tag = bytes.subrange(m + 1, bytes.len() as int);
        let context = T::context_spec();
        if !starts_with(after_tag, context) {
            Err(Error::InvalidEncoding)
        } else {
            let body = after_tag.subrange(context.len() as int, after_tag.len() as int);
            match T::wire_parse(body) {
                Err(e) => Err(e),
                Ok((value, n)) => if n == body.len() {
                    Ok(value)
                } else {
                    Err(Error::InvalidEncoding)
                },
            }
        }
    }
}

/// Return a standalone canonical wire value.
pub fn to_wire_bytes<T: WireMessage>(value: &T) -> (out: Vec<u8>)
    ensures
        out@ == wire_bytes_spec(*value),
{
    let mut out = Vec::with_capacity(value.wire_size_hint());
    append_bytes(&mut out, magic());
    out.push(T::tag());
    T::write_wire_context(&mut out);
    value.write_wire(&mut out);
    assert(out@ =~= wire_bytes_spec(*value));
    out
}

/// Decode a standalone canonical wire value and reject trailing bytes.
pub fn from_wire_bytes<T: WireMessage>(bytes: &[u8]) -> (result: Result<T, Error>)
    ensures
        result == from_wire_bytes_spec::<T>(bytes@),
{
    let mut reader = WireReader::new(bytes);
    let ghost m = magic_spec().len() as int;
    reader.expect_magic()?;
    proof {
        assert(reader.rest() =~= bytes@.subrange(m, bytes@.len() as int));
    }
    let tag = reader.read_u8()?;
    if tag != T::tag() {
        return Err(Error::InvalidEncoding);
    }
    let ghost after_tag = bytes@.subrange(m + 1, bytes@.len() as int);
    proof {
        assert(reader.rest() =~= after_tag);
    }
    T::read_wire_context(&mut reader)?;
    let ghost body = after_tag.subrange(T::context_spec().len() as int, after_tag.len() as int);
    proof {
        assert(reader.rest() =~= body);
    }
    let value = T::read_wire(&mut reader)?;
    proof {
        use_type_invariant(&reader);
    }
    reader.finish()?;
    Ok(value)
}

/// Decoding the standalone encoding of a valid value gives the value back.
pub proof fn lemma_wire_bytes_roundtrip<T: WireMessage + WireRoundTrip>(value: T)
    requires
        value.wire_valid(),
    ensures
        from_wire_bytes_spec::<T>(wire_bytes_spec(value)) == Ok::<T, Error>(value),
{
    lemma_wire_bytes_rejects_trailing(value, Seq::empty());
}

/// The standalone encoding of a valid value followed by extra bytes decodes
/// only when nothing follows; any trailing byte is rejected.
pub proof fn lemma_wire_bytes_rejects_trailing<T: WireMessage + WireRoundTrip>(
    value: T,
    extra: Seq<u8>,
)
    requires
        value.wire_valid(),
    ensures
        extra.len() == 0 ==> from_wire_bytes_spec::<T>(wire_bytes_spec(value) + extra) == Ok::<
            T,
            Error,
        >(value),
        extra.len() > 0 ==> from_wire_bytes_spec::<T>(wire_bytes_spec(value) + extra) == Err::<
            T,
            Error,
        >(Error::InvalidEncoding),
{
    let bytes = wire_bytes_spec(value) + extra;
    let m = magic_spec().len() as int;
    let context = T::context_spec();
    assert(bytes.subrange(0, m) =~= magic_spec());
    assert(bytes[m] == T::tag_spec());
    let after_tag = bytes.subrange(m + 1, bytes.len() as int);
    assert(after_tag =~= context + value.wire_spec() + extra);
    assert(after_tag.subrange(0, context.len() as int) =~= context);
    let body = after_tag.subrange(context.len() as int, after_tag.len() as int);
    assert(body =~= value.wire_spec() + extra);
    value.lemma_wire_roundtrip(extra);
}

} // verus!

verus! {

/// Byte length of the variable-length `usize` encoding that Miden byte
/// writers use: one byte per started 7-bit group, at least one byte, and
/// nine bytes for values of more than 56 bits.
pub open spec fn miden_usize_len(value: nat) -> nat {
    let bits = crate::msm::bit_length(value);
    if bits <= 7 {
        1
    } else if bits > 56 {
        9
    } else {
        (bits + 6) / 7
    }
}

/// Byte length of the variable-length `usize` encoding that Miden byte
/// writers use.
pub fn miden_usize_size(value: usize) -> (size: usize)
    ensures
        size == miden_usize_len(value as nat),
        1 <= size <= 9,
{
    let bits = crate::msm::num_bits(value);
    if bits <= 7 {
        1
    } else if bits > 56 {
        9
    } else {
        (bits + 6) / 7
    }
}

/// Return the serialized size hint for a length-delimited Miden wire value:
/// the length prefix followed by the standalone wire bytes.
pub fn miden_wire_size_hint<T: WireMessage>(value: &T) -> (size: usize)
    requires
        wire_bytes_spec(*value).len() + 9 <= usize::MAX,
    ensures
        size == miden_usize_len(wire_bytes_spec(*value).len()) + wire_bytes_spec(*value).len(),
{
    let len = to_wire_bytes(value).len();
    miden_usize_size(len) + len
}

} // verus!
