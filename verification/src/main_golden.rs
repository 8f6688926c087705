//! Fixed Main Golden relation helpers shared by native and proof implementations.
use vstd::prelude::*;
use vstd::string::StringSliceAdditionalSpecFns;

use crate::bytes::{append_bytes, u32_be, u64_be, u64_to_be_bytes};
use crate::error::Error;
use crate::group::{GoldenGroup, GoldenHashToGroup};
use crate::dkg::{kind_code, DealerMessageNonce, DkgInstanceKind, EvrfMessage};
use crate::participant::ParticipantIndex;
use crate::transcript::{
    frame, sha256_spec, transcript_start, TranscriptBuilder, TranscriptRoot,
};

verus! {

/// The byte string whose SHA-256 digest is the effective message of one
/// configured dealer instance.
#[verifier::opaque]
pub open spec fn effective_message_preimage(
    configuration_root: Seq<u8>,
    dealer: u32,
    position: usize,
    kind: DkgInstanceKind,
    nonce: Seq<u8>,
) -> Seq<u8> {
    transcript_start("golden-dkg/main-golden/v1".spec_bytes(), "effective-message".spec_bytes())
        + frame("configuration".spec_bytes(), configuration_root) + frame(
        "dealer".spec_bytes(),
        u32_be(dealer),
    ) + frame("position".spec_bytes(), u64_be(position as u64)) + frame(
        "kind".spec_bytes(),
        u32_be(kind_code(kind) as u32),
    ) + frame("nonce".spec_bytes(), nonce)
}

/// Derive the effective message for one configured dealer instance.
pub fn effective_message(
    configuration_root: TranscriptRoot,
    dealer: ParticipantIndex,
    position: usize,
    kind: DkgInstanceKind,
    nonce: DealerMessageNonce,
) -> (message: EvrfMessage)
    ensures
        message.0@ == sha256_spec(
            effective_message_preimage(configuration_root@, dealer@, position, kind, nonce.0@),
        ),
{
    let mut transcript = TranscriptBuilder::with_prefix(
        "golden-dkg/main-golden/v1".as_bytes(),
        "effective-message".as_bytes(),
    );
    transcript.bytes("configuration".as_bytes(), &configuration_root);
    transcript.participant("dealer".as_bytes(), dealer);
    transcript.usize("position".as_bytes(), position);
    transcript.u32("kind".as_bytes(), kind.code() as u32);
    transcript.bytes("nonce".as_bytes(), &nonce.0);
    proof {
        reveal(effective_message_preimage);
        assert(transcript@ =~= effective_message_preimage(
            configuration_root@,
            dealer@,
            position,
            kind,
            nonce.0@,
        ));
    }
    EvrfMessage(transcript.root())
}

/// Append `value` to `output`, preceded by its length as a big-endian `u64`.
pub fn append_framed(output: &mut Vec<u8>, value: &[u8])
    ensures
        final(output)@ == old(output)@ + u64_be(value@.len() as u64) + value@,
{
    let len = value.len();
    append_bytes(output, &u64_to_be_bytes(len as u64));
    append_bytes(output, value);
}

/// The concatenation of the expansion blocks, in order.
pub open spec fn concat_blocks(blocks: Seq<[u8; 32]>) -> Seq<u8>
    decreases blocks.len(),
{
    if blocks.len() == 0 {
        Seq::empty()
    } else {
        concat_blocks(blocks.drop_last()) + blocks.last()@
    }
}

/// `blocks` are the expansion blocks of attempt `attempt` of the beta
/// sampler: block `i` is what the expansion returned for `(attempt, i)`,
/// and there are just enough of them to cover `repr_len` bytes.
pub open spec fn beta_attempt_blocks<E: FnMut(u32, u32) -> Result<[u8; 32], Error>>(
    expand_block: E,
    attempt: u32,
    repr_len: nat,
    blocks: Seq<[u8; 32]>,
) -> bool {
    &&& 32 * blocks.len() >= repr_len
    &&& (blocks.len() == 0 || 32 * (blocks.len() - 1) < repr_len)
    &&& forall|i: int|
        0 <= i < blocks.len() ==> #[trigger] call_ensures(
            expand_block,
            (attempt, i as u32),
            Ok::<[u8; 32], Error>(blocks[i]),
        )
}

/// The candidate of attempt `attempt`, made of the expansion blocks, was
/// rejected by the decoder.
pub open spec fn beta_attempt_rejected<
    T,
    E: FnMut(u32, u32) -> Result<[u8; 32], Error>,
    D: FnMut(&[u8]) -> Option<T>,
>(expand_block: E, decode_big_endian: D, attempt: u32, repr_len: nat) -> bool {
    exists|blocks: Seq<[u8; 32]>, candidate: &[u8]|
        #![trigger beta_attempt_blocks(expand_block, attempt, repr_len, blocks), call_ensures(decode_big_endian, (candidate,), None::<T>)]
        beta_attempt_blocks(expand_block, attempt, repr_len, blocks) && candidate@
            == concat_blocks(blocks).take(repr_len as int) && call_ensures(
            decode_big_endian,
            (candidate,),
            None::<T>,
        )
}

/// `t` is what the sampler accepted: the candidate of some attempt, made of
/// that attempt's expansion blocks, decoded to `t`, after the candidates of
/// all earlier attempts were rejected.
pub open spec fn beta_sampled<
    T,
    E: FnMut(u32, u32) -> Result<[u8; 32], Error>,
    D: FnMut(&[u8]) -> Option<T>,
>(expand_block: E, decode_big_endian: D, repr_len: nat, t: T) -> bool {
    exists|attempt: u32, blocks: Seq<[u8; 32]>, candidate: &[u8]|
        #![trigger beta_attempt_blocks(expand_block, attempt, repr_len, blocks), call_ensures(decode_big_endian, (candidate,), Some(t))]
        beta_attempt_blocks(expand_block, attempt, repr_len, blocks) && candidate@
            == concat_blocks(blocks).take(repr_len as int) && call_ensures(
            decode_big_endian,
            (candidate,),
            Some(t),
        ) && forall|a: u32|
            a < attempt ==> #[trigger] beta_attempt_rejected(
                expand_block,
                decode_big_endian,
                a,
                repr_len,
            )
}

/// The expansion reported the error `e` for some attempt and block.
pub open spec fn beta_expansion_failed<E: FnMut(u32, u32) -> Result<[u8; 32], Error>>(
    expand_block: E,
    e: Error,
) -> bool {
    exists|attempt: u32, block: u32|
        #[trigger] call_ensures(expand_block, (attempt, block), Err::<[u8; 32], Error>(e))
}

/// Sample a field element by rejection: attempt `0, 1, ...` expands
/// `repr_len` bytes from 32-byte blocks `expand_block(attempt, 0)`,
/// `expand_block(attempt, 1)`, ..., truncates them to `repr_len` bytes and
/// asks `decode_big_endian` for a field element; the first accepted
/// candidate is returned.
///
/// An expansion error is returned as is; running out of attempt or block
/// counters gives `Error::InvalidEncoding`.
#[verifier::loop_isolation(false)]
pub fn sample_beta<T, E, D>(repr_len: usize, mut expand_block: E, mut decode_big_endian: D) -> (result:
    Result<T, Error>) where E: FnMut(u32, u32) -> Result<[u8; 32], Error>, D: FnMut(&[u8]) -> Option<T>
    requires
        repr_len <= usize::MAX - 32,
        forall|attempt: u32, block: u32| call_requires(expand_block, (attempt, block)),
        forall|candidate: &[u8]| call_requires(decode_big_endian, (candidate,)),
    ensures
        result matches Ok(t) ==> beta_sampled(expand_block, decode_big_endian, repr_len as nat, t),
        result matches Err(e) ==> e == Error::InvalidEncoding || beta_expansion_failed(
            expand_block,
            e,
        ),
        result == Err::<T, Error>(Error::InvalidEncoding) ==> beta_expansion_failed(
            expand_block,
            Error::InvalidEncoding,
        ) || 32 * (u32::MAX + 1) < repr_len || forall|a: u32|
            #[trigger] beta_attempt_rejected(expand_block, decode_big_endian, a, repr_len as nat),
{
    let ghost expand0 = expand_block;
    let ghost decode0 = decode_big_endian;
    let mut attempt: u32 = 0;
    loop
        invariant
            repr_len <= usize::MAX - 32,
            expand_block == expand0,
            decode_big_endian == decode0,
            forall|a: u32, b: u32| call_requires(expand_block, (a, b)),
            forall|c: &[u8]| call_requires(decode_big_endian, (c,)),
            forall|a: u32|
                a < attempt ==> #[trigger] beta_attempt_rejected(
                    expand_block,
                    decode_big_endian,
                    a,
                    repr_len as nat,
                ),
        decreases u32::MAX - attempt,
    {
        let mut candidate: Vec<u8> = Vec::new();
        let mut block: u32 = 0;
        let ghost mut blocks: Seq<[u8; 32]> = Seq::empty();
        while candidate.len() < repr_len
            invariant
                repr_len <= usize::MAX - 32,
                expand_block == expand0,
                forall|a: u32, b: u32| call_requires(expand_block, (a, b)),
                candidate@ == concat_blocks(blocks),
                candidate@.len() == 32 * blocks.len(),
                candidate@.len() < repr_len + 32,
                blocks.len() == block as nat || (blocks.len() == block + 1 && candidate@.len()
                    >= repr_len),
                blocks.len() == 0 || 32 * (blocks.len() - 1) < repr_len,
                forall|i: int|
                    0 <= i < blocks.len() ==> #[trigger] call_ensures(
                        expand_block,
                        (attempt, i as u32),
                        Ok::<[u8; 32], Error>(blocks[i]),
                    ),
            decreases repr_len + 32 - candidate@.len(),
        {
            let expanded = expand_block(attempt, block);
            let bytes = match expanded {
                Ok(bytes) => bytes,
                Err(e) => {
                    proof {
                        assert(call_ensures(expand0, (attempt, block), Err::<[u8; 32], Error>(e)));
                        assert(beta_expansion_failed(expand0, e));
                    }
                    return Err(e);
                },
            };
            proof {
                let next = blocks.push(bytes);
                assert(next.drop_last() =~= blocks);
                assert(forall|i: int|
                    0 <= i < next.len() ==> #[trigger] call_ensures(
                        expand_block,
                        (attempt, i as u32),
                        Ok::<[u8; 32], Error>(next[i]),
                    )) by {
                    assert forall|i: int| 0 <= i < next.len() implies #[trigger] call_ensures(
                        expand_block,
                        (attempt, i as u32),
                        Ok::<[u8; 32], Error>(next[i]),
                    ) by {
                        if i < blocks.len() {
                            assert(next[i] == blocks[i]);
                        } else {
                            assert(i as u32 == block);
                        }
                    }
                }
                blocks = next;
            }
            append_bytes(&mut candidate, &bytes);
            if candidate.len() < repr_len {
                block = match block.checked_add(1) {
                    Some(next) => next,
                    None => {
                        proof {
                            assert(blocks.len() == u32::MAX + 1);
                        }
                        return Err(Error::InvalidEncoding);
                    },
                };
            }
        }
        candidate.truncate(repr_len);
        let c = candidate.as_slice();
        let decoded = decode_big_endian(c);
        if let Some(coefficient) = decoded {
            proof {
                assert(beta_attempt_blocks(expand0, attempt, repr_len as nat, blocks));
                assert(c@ == concat_blocks(blocks).take(repr_len as int));
                assert(call_ensures(decode0, (c,), Some(coefficient)));
                assert(forall|a: u32|
                    a < attempt ==> #[trigger] beta_attempt_rejected(
                        expand0,
                        decode0,
                        a,
                        repr_len as nat,
                    ));
                assert(beta_sampled(expand0, decode0, repr_len as nat, coefficient));
            }
            return Ok(coefficient);
        }
        proof {
            assert(beta_attempt_blocks(expand_block, attempt, repr_len as nat, blocks));
            assert(c@ == concat_blocks(blocks).take(repr_len as int));
            assert(beta_attempt_rejected(expand_block, decode_big_endian, attempt, repr_len as nat));
        }
        attempt = match attempt.checked_add(1) {
            Some(next) => next,
            None => {
                proof {
                    assert forall|a: u32|
                        #[trigger] beta_attempt_rejected(
                            expand0,
                            decode0,
                            a,
                            repr_len as nat,
                        ) by {
                        if a < attempt {
                        } else {
                            assert(a == attempt);
                        }
                    }
                }
                return Err(Error::InvalidEncoding);
            },
        };
    }
}

/// Lexicographic order on byte strings, a proper prefix first.
pub open spec fn bytes_le(a: Seq<u8>, b: Seq<u8>) -> bool
    decreases a.len(),
{
    if a.len() == 0 {
        true
    } else if b.len() == 0 {
        false
    } else if a[0] != b[0] {
        a[0] < b[0]
    } else {
        bytes_le(a.drop_first(), b.drop_first())
    }
}

/// The lexicographic order is total and antisymmetric.
pub proof fn lemma_bytes_le_total(a: Seq<u8>, b: Seq<u8>)
    ensures
        bytes_le(a, b) || bytes_le(b, a),
        bytes_le(a, b) && bytes_le(b, a) ==> a == b,
    decreases a.len(),
{
    if a.len() > 0 && b.len() > 0 && a[0] == b[0] {
        lemma_bytes_le_total(a.drop_first(), b.drop_first());
        if a.drop_first() == b.drop_first() {
            assert(a =~= seq![a[0]] + a.drop_first());
            assert(b =~= seq![b[0]] + b.drop_first());
        }
    }
    if a.len() == 0 && b.len() == 0 {
        assert(a =~= b);
    }
}

/// Whether `a` comes no later than `b` in lexicographic order.
fn bytes_le_exec(a: &[u8], b: &[u8]) -> (le: bool)
    ensures
        le == bytes_le(a@, b@),
{
    let mut i: usize = 0;
    assert(a@.subrange(0, a@.len() as int) =~= a@);
    assert(b@.subrange(0, b@.len() as int) =~= b@);
    while i < a.len() && i < b.len()
        invariant
            i <= a@.len(),
            i <= b@.len(),
            bytes_le(a@, b@) == bytes_le(
                a@.subrange(i as int, a@.len() as int),
                b@.subrange(i as int, b@.len() as int),
            ),
        decreases a@.len() - i,
    {
        let ghost ra = a@.subrange(i as int, a@.len() as int);
        let ghost rb = b@.subrange(i as int, b@.len() as int);
        if a[i] != b[i] {
            assert(ra[0] == a@[i as int] && rb[0] == b@[i as int]);
            return a[i] < b[i];
        }
        assert(ra.drop_first() =~= a@.subrange(i + 1, a@.len() as int));
        assert(rb.drop_first() =~= b@.subrange(i + 1, b@.len() as int));
        i = i + 1;
    }
    a.len() <= b.len()
}

/// Application domain of the first Main Golden hash-to-group point.
pub open spec fn h1_domain() -> Seq<u8> {
    "golden-dkg/main-golden-h1/v1".spec_bytes()
}

/// Application domain of the second Main Golden hash-to-group point.
pub open spec fn h2_domain() -> Seq<u8> {
    "golden-dkg/main-golden-h2/v1".spec_bytes()
}

/// The hash input for a message and two identity keys: the message, then
/// the two key encodings in lexicographic order, each framed by its length.
pub open spec fn hash_input_spec<G: GoldenGroup>(
    message: EvrfMessage,
    first: G::Element,
    second: G::Element,
) -> Seq<u8> {
    let a = G::encode_spec(first);
    let b = G::encode_spec(second);
    let lower = if bytes_le(a, b) { a } else { b };
    let upper = if bytes_le(a, b) { b } else { a };
    u64_be(32) + message.0@ + u64_be(lower.len() as u64) + lower + u64_be(upper.len() as u64)
        + upper
}

/// The hash input does not depend on which key comes first.
pub proof fn lemma_hash_input_symmetric<G: GoldenGroup>(
    message: EvrfMessage,
    first: G::Element,
    second: G::Element,
)
    ensures
        hash_input_spec::<G>(message, first, second) == hash_input_spec::<G>(message, second, first),
{
    lemma_bytes_le_total(G::encode_spec(first), G::encode_spec(second));
}

/// Build the hash input of the Main Golden points; an identity key is
/// `InvalidEncoding`.
fn hash_input<G: GoldenGroup>(
    message: EvrfMessage,
    first_identity_key: &G::Element,
    second_identity_key: &G::Element,
) -> (result: Result<Vec<u8>, Error>)
    requires
        G::element_wf(*first_identity_key),
        G::element_wf(*second_identity_key),
    ensures
        (G::dlog(*first_identity_key) == 0 || G::dlog(*second_identity_key) == 0) ==> result
            == Err::<Vec<u8>, Error>(Error::InvalidEncoding),
        !(G::dlog(*first_identity_key) == 0 || G::dlog(*second_identity_key) == 0) ==> (
        result matches Ok(v) && v@ == hash_input_spec::<G>(
            message,
            *first_identity_key,
            *second_identity_key,
        )),
{
    if G::is_identity(first_identity_key) || G::is_identity(second_identity_key) {
        return Err(Error::InvalidEncoding);
    }
    let first = G::encode_element(first_identity_key);
    let second = G::encode_element(second_identity_key);
    let first_le = bytes_le_exec(first.as_slice(), second.as_slice());
    let mut input: Vec<u8> = Vec::new();
    append_framed(&mut input, &message.0);
    if first_le {
        append_framed(&mut input, first.as_slice());
        append_framed(&mut input, second.as_slice());
    } else {
        append_framed(&mut input, second.as_slice());
        append_framed(&mut input, first.as_slice());
    }
    proof {
        assert(message.0@.len() == 32);
        assert(input@ =~= hash_input_spec::<G>(message, *first_identity_key, *second_identity_key));
    }
    Ok(input)
}

/// Derive the first Main Golden hash-to-group point for a message and two
/// identity keys; an identity key is `InvalidEncoding`.
pub fn h1<G: GoldenHashToGroup>(
    message: EvrfMessage,
    first_identity_key: &G::Element,
    second_identity_key: &G::Element,
) -> (result: Result<G::Element, Error>)
    requires
        G::element_wf(*first_identity_key),
        G::element_wf(*second_identity_key),
    ensures
        (G::dlog(*first_identity_key) == 0 || G::dlog(*second_identity_key) == 0) ==> result
            == Err::<G::Element, Error>(Error::InvalidEncoding),
        !(G::dlog(*first_identity_key) == 0 || G::dlog(*second_identity_key) == 0) ==> result
            == G::hash_to_group_spec(
            h1_domain(),
            hash_input_spec::<G>(message, *first_identity_key, *second_identity_key),
        ),
{
    let input = match hash_input::<G>(message, first_identity_key, second_identity_key) {
        Ok(v) => v,
        Err(e) => return Err(e),
    };
    G::hash_to_group("golden-dkg/main-golden-h1/v1".as_bytes(), input.as_slice())
}

/// Derive the second Main Golden hash-to-group point for a message and two
/// identity keys; an identity key is `InvalidEncoding`.
pub fn h2<G: GoldenHashToGroup>(
    message: EvrfMessage,
    first_identity_key: &G::Element,
    second_identity_key: &G::Element,
) -> (result: Result<G::Element, Error>)
    requires
        G::element_wf(*first_identity_key),
        G::element_wf(*second_identity_key),
    ensures
        (G::dlog(*first_identity_key) == 0 || G::dlog(*second_identity_key) == 0) ==> result
            == Err::<G::Element, Error>(Error::InvalidEncoding),
        !(G::dlog(*first_identity_key) == 0 || G::dlog(*second_identity_key) == 0) ==> result
            == G::hash_to_group_spec(
            h2_domain(),
            hash_input_spec::<G>(message, *first_identity_key, *second_identity_key),
        ),
{
    let input = match hash_input::<G>(message, first_identity_key, second_identity_key) {
        Ok(v) => v,
        Err(e) => return Err(e),
    };
    G::hash_to_group("golden-dkg/main-golden-h2/v1".as_bytes(), input.as_slice())
}

/// Both parties of a receiver pair derive the same Main Golden points:
/// `h1` and `h2` do not depend on the order of the two identity keys.
pub proof fn lemma_main_golden_points_symmetric<G: GoldenHashToGroup>(
    message: EvrfMessage,
    first: G::Element,
    second: G::Element,
)
    ensures
        G::hash_to_group_spec(h1_domain(), hash_input_spec::<G>(message, first, second))
            == G::hash_to_group_spec(h1_domain(), hash_input_spec::<G>(message, second, first)),
        G::hash_to_group_spec(h2_domain(), hash_input_spec::<G>(message, first, second))
            == G::hash_to_group_spec(h2_domain(), hash_input_spec::<G>(message, second, first)),
{
    lemma_hash_input_symmetric::<G>(message, first, second);
}

} // verus!
