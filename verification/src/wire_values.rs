//! Wire encodings of the fixed-width protocol values.
use vstd::prelude::*;
use vstd::string::StringSliceAdditionalSpecFns;

use crate::bytes::{be_to_u32, lemma_u32_be_roundtrip, u32_be};
use crate::dkg::{kind_code, DealerMessageNonce, DkgInstanceKind, SessionId};
use crate::error::Error;
use crate::participant::{
    lemma_participant_from_raw, lemma_participant_view_eq, participant_from_raw, ParticipantIndex,
};
use crate::transcript::TranscriptRoot;
use crate::wire::{
    context_field, expect_context_field, starts_with, write_context_field, write_u32,
    WireDecode, WireEncode, WireMessage, WireReader, WireRoundTrip, TAG_DEALER_MESSAGE_NONCE,
    TAG_SESSION_ID,
};
use crate::bytes::append_bytes;

verus! {

/// A 32-byte array holding `bytes`.
pub open spec fn array32(bytes: Seq<u8>) -> [u8; 32] {
    choose|a: [u8; 32]| a@ == bytes
}

/// The array holding the first `n` bytes of `bytes`, followed by zeros.
spec fn array_filled(bytes: Seq<u8>, n: nat) -> [u8; 32]
    decreases n,
{
    if n == 0 {
        vstd::array::spec_array_fill_for_copy_type::<u8, 32>(0u8)
    } else {
        vstd::array::spec_array_update(array_filled(bytes, (n - 1) as nat), n - 1, bytes[n - 1])
    }
}

proof fn lemma_array_filled(bytes: Seq<u8>, n: nat)
    requires
        n <= 32,
        n <= bytes.len(),
    ensures
        array_filled(bytes, n)@.len() == 32,
        forall|i: int| 0 <= i < n ==> #[trigger] array_filled(bytes, n)@[i] == bytes[i],
    decreases n,
{
    broadcast use vstd::array::group_array_axioms;

    if n > 0 {
        lemma_array_filled(bytes, (n - 1) as nat);
    }
}

/// Every 32-byte sequence is held by some array, so `array32` gives it back.
pub proof fn lemma_array32_holds(bytes: Seq<u8>)
    requires
        bytes.len() == 32,
    ensures
        array32(bytes)@ == bytes,
{
    lemma_array_filled(bytes, 32);
    let w = array_filled(bytes, 32);
    assert(w@ =~= bytes);
}

/// The outcome of decoding a 32-byte array from the front of `bytes`.
pub open spec fn parse_array32(bytes: Seq<u8>) -> Result<([u8; 32], nat), Error> {
    if bytes.len() < 32 {
        Err(Error::InvalidEncoding)
    } else {
        Ok((array32(bytes.subrange(0, 32)), 32))
    }
}

/// An array is the unique array holding its own bytes.
pub proof fn lemma_array32_of_view(a: [u8; 32])
    ensures
        array32(a@) == a,
{
    assert(exists|b: [u8; 32]| #[trigger] b@ == a@) by {
        assert(a@ == a@);
    }
    let b = array32(a@);
    assert(b@ =~= a@);
    vstd::array::axiom_array_ext_equal(a, b);
}

/// Parsing an encoded 32-byte array followed by anything gives it back.
pub proof fn lemma_parse_array32_roundtrip(a: [u8; 32], rest: Seq<u8>)
    ensures
        parse_array32(a@ + rest) == Ok::<([u8; 32], nat), Error>((a, 32)),
{
    assert((a@ + rest).subrange(0, 32) =~= a@);
    lemma_array32_of_view(a);
}

fn read_array32(reader: &mut WireReader<'_>) -> (result: Result<[u8; 32], Error>)
    ensures
        final(reader).data() == old(reader).data(),
        parse_array32(old(reader).rest()) matches Ok((v, n)) ==> result == Ok::<[u8; 32], Error>(
            v,
        ) && final(reader).advanced(*old(reader), n),
        parse_array32(old(reader).rest()) matches Err(e) ==> result == Err::<[u8; 32], Error>(e),
{
    let array: [u8; 32] = reader.read_array::<32>()?;
    proof {
        lemma_array32_of_view(array);
    }
    Ok(array)
}

/// The codec context of a standalone value that names only its codec.
pub open spec fn codec_context(codec_id: &str) -> Seq<u8> {
    context_field(codec_id.spec_bytes())
}

impl WireEncode for SessionId {
    open spec fn wire_spec(&self) -> Seq<u8> {
        self.0@
    }

    fn write_wire(&self, out: &mut Vec<u8>) {
        append_bytes(out, &self.0);
    }
}

impl WireDecode for SessionId {
    open spec fn wire_parse(bytes: Seq<u8>) -> Result<(Self, nat), Error> {
        match parse_array32(bytes) {
            Ok((a, n)) => Ok((SessionId(a), n)),
            Err(e) => Err(e),
        }
    }

    fn read_wire(reader: &mut WireReader<'_>) -> (result: Result<Self, Error>) {
        Ok(SessionId(read_array32(reader)?))
    }
}

impl WireRoundTrip for SessionId {
    open spec fn wire_valid(&self) -> bool {
        true
    }

    proof fn lemma_wire_roundtrip(&self, rest: Seq<u8>) {
        lemma_parse_array32_roundtrip(self.0, rest);
    }
}

impl WireMessage for SessionId {
    open spec fn tag_spec() -> u8 {
        TAG_SESSION_ID
    }

    open spec fn context_spec() -> Seq<u8> {
        codec_context("session-id-v1")
    }

    fn tag() -> (tag: u8) {
        TAG_SESSION_ID
    }

    fn write_wire_context(out: &mut Vec<u8>) {
        write_context_field(out, "session-id-v1".as_bytes());
    }

    fn read_wire_context(reader: &mut WireReader<'_>) -> (result: Result<(), Error>) {
        expect_context_field(reader, "session-id-v1".as_bytes())
    }
}

impl WireEncode for DealerMessageNonce {
    open spec fn wire_spec(&self) -> Seq<u8> {
        self.0@
    }

    fn write_wire(&self, out: &mut Vec<u8>) {
        append_bytes(out, &self.0);
    }
}

impl WireDecode for DealerMessageNonce {
    open spec fn wire_parse(bytes: Seq<u8>) -> Result<(Self, nat), Error> {
        match parse_array32(bytes) {
            Ok((a, n)) => Ok((DealerMessageNonce(a), n)),
            Err(e) => Err(e),
        }
    }

    fn read_wire(reader: &mut WireReader<'_>) -> (result: Result<Self, Error>) {
        Ok(DealerMessageNonce(read_array32(reader)?))
    }
}

impl WireRoundTrip for DealerMessageNonce {
    open spec fn wire_valid(&self) -> bool {
        true
    }

    proof fn lemma_wire_roundtrip(&self, rest: Seq<u8>) {
        lemma_parse_array32_roundtrip(self.0, rest);
    }
}

impl WireMessage for DealerMessageNonce {
    open spec fn tag_spec() -> u8 {
        TAG_DEALER_MESSAGE_NONCE
    }

    open spec fn context_spec() -> Seq<u8> {
        codec_context("dealer-message-nonce-v1")
    }

    fn tag() -> (tag: u8) {
        TAG_DEALER_MESSAGE_NONCE
    }

    fn write_wire_context(out: &mut Vec<u8>) {
        write_context_field(out, "dealer-message-nonce-v1".as_bytes());
    }

    fn read_wire_context(reader: &mut WireReader<'_>) -> (result: Result<(), Error>) {
        expect_context_field(reader, "dealer-message-nonce-v1".as_bytes())
    }
}

impl WireEncode for TranscriptRoot {
    open spec fn wire_spec(&self) -> Seq<u8> {
        self@
    }

    fn write_wire(&self, out: &mut Vec<u8>) {
        append_bytes(out, self);
    }
}

impl WireDecode for TranscriptRoot {
    open spec fn wire_parse(bytes: Seq<u8>) -> Result<(Self, nat), Error> {
        parse_array32(bytes)
    }

    fn read_wire(reader: &mut WireReader<'_>) -> (result: Result<Self, Error>) {
        read_array32(reader)
    }
}

impl WireRoundTrip for TranscriptRoot {
    open spec fn wire_valid(&self) -> bool {
        true
    }

    proof fn lemma_wire_roundtrip(&self, rest: Seq<u8>) {
        lemma_parse_array32_roundtrip(*self, rest);
    }
}

/// The outcome of decoding a participant index from the front of `bytes`.
pub open spec fn parse_participant(bytes: Seq<u8>) -> Result<(ParticipantIndex, nat), Error> {
    if bytes.len() < 4 {
        Err(Error::InvalidEncoding)
    } else if be_to_u32(bytes.subrange(0, 4)) == 0 {
        Err(Error::ZeroParticipantIndex)
    } else {
        Ok((participant_from_raw(be_to_u32(bytes.subrange(0, 4))), 4))
    }
}

impl WireEncode for ParticipantIndex {
    open spec fn wire_spec(&self) -> Seq<u8> {
        u32_be(self@)
    }

    fn write_wire(&self, out: &mut Vec<u8>) {
        write_u32(out, self.get());
    }
}

impl WireDecode for ParticipantIndex {
    open spec fn wire_parse(bytes: Seq<u8>) -> Result<(Self, nat), Error> {
        parse_participant(bytes)
    }

    fn read_wire(reader: &mut WireReader<'_>) -> (result: Result<Self, Error>) {
        let value = reader.read_u32()?;
        ParticipantIndex::new(value)
    }
}

impl WireRoundTrip for ParticipantIndex {
    open spec fn wire_valid(&self) -> bool {
        self@ != 0
    }

    proof fn lemma_wire_roundtrip(&self, rest: Seq<u8>) {
        lemma_u32_be_roundtrip(self@);
        assert((u32_be(self@) + rest).subrange(0, 4) =~= u32_be(self@));
        lemma_participant_from_raw(self@);
        lemma_participant_view_eq(participant_from_raw(self@), *self);
    }
}

/// The outcome of decoding an instance kind from the front of `bytes`.
pub open spec fn parse_kind(bytes: Seq<u8>) -> Result<(DkgInstanceKind, nat), Error> {
    if bytes.len() < 1 {
        Err(Error::InvalidEncoding)
    } else if bytes[0] == 0 {
        Ok((DkgInstanceKind::Random, 1))
    } else if bytes[0] == 1 {
        Ok((DkgInstanceKind::Zero, 1))
    } else {
        Err(Error::InvalidEncoding)
    }
}

impl WireEncode for DkgInstanceKind {
    open spec fn wire_spec(&self) -> Seq<u8> {
        seq![kind_code(*self)]
    }

    fn write_wire(&self, out: &mut Vec<u8>) {
        out.push(self.code());
        assert(out@ =~= old(out)@ + seq![kind_code(*self)]);
    }
}

impl WireDecode for DkgInstanceKind {
    open spec fn wire_parse(bytes: Seq<u8>) -> Result<(Self, nat), Error> {
        parse_kind(bytes)
    }

    fn read_wire(reader: &mut WireReader<'_>) -> (result: Result<Self, Error>) {
        match reader.read_u8()? {
            0 => Ok(DkgInstanceKind::Random),
            1 => Ok(DkgInstanceKind::Zero),
            _ => Err(Error::InvalidEncoding),
        }
    }
}

impl WireRoundTrip for DkgInstanceKind {
    open spec fn wire_valid(&self) -> bool {
        true
    }

    proof fn lemma_wire_roundtrip(&self, rest: Seq<u8>) {
        assert((seq![kind_code(*self)] + rest)[0] == kind_code(*self));
    }
}

} // verus!
