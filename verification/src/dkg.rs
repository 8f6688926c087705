//! Protocol-level value types of the Golden DKG.
use vstd::prelude::*;
use vstd::string::StringSliceAdditionalSpecFns;

use crate::bytes::{u32_be, u64_be};
use crate::error::Error;
use crate::group::GoldenGroup;
use crate::participant::ParticipantIndex;
use crate::transcript::{
    default_prefix, frame, sha256_spec, transcript_start, TranscriptBuilder, TranscriptRoot,
};
use crate::wire::bytes_equal;

verus! {

/// Protocol version used in transcript binding.
pub const PROTOCOL_VERSION: u32 = 4;

/// Byte length of a raw dealer nonce and an effective eVRF message.
pub const DEALER_MESSAGE_NONCE_BYTES: usize = 32;

/// Session identifier for replay protection.
#[derive(Clone, Copy, Debug, Eq, PartialEq)]
pub struct SessionId(pub [u8; 32]);

/// Independently sampled raw nonce carried by one dealing body.
#[derive(Clone, Copy, Debug, Eq, PartialEq)]
pub struct DealerMessageNonce(pub [u8; 32]);

/// Domain-separated effective message used by the Main Golden relation.
#[derive(Clone, Copy, Debug, Eq, PartialEq)]
pub struct EvrfMessage(pub [u8; 32]);

/// Constant-term policy for one sharing in an ordered DKG batch.
#[derive(Clone, Copy, Debug, Eq, PartialEq, Structural)]
pub enum DkgInstanceKind {
    /// Independently sampled random constant term.
    Random,
    /// Identity/zero constant term.
    Zero,
}

/// The integer that transcripts and wire encodings use for an instance kind.
pub open spec fn kind_code(kind: DkgInstanceKind) -> u8 {
    match kind {
        DkgInstanceKind::Random => 0,
        DkgInstanceKind::Zero => 1,
    }
}

impl DkgInstanceKind {
    /// The integer that transcripts and wire encodings use for this kind.
    pub fn code(self) -> (code: u8)
        ensures
            code == kind_code(self),
    {
        match self {
            DkgInstanceKind::Random => 0,
            DkgInstanceKind::Zero => 1,
        }
    }
}

/// Entries are ordered by strictly increasing participant index.
pub open spec fn strictly_increasing<E>(entries: Seq<(ParticipantIndex, E)>) -> bool {
    forall|i: int, j: int| 0 <= i < j < entries.len() ==> entries[i].0@ < entries[j].0@
}

/// The first position in `from .. i` whose key has the same encoding as the
/// key at position `i`.
pub open spec fn first_same_key<G: GoldenGroup>(
    entries: Seq<(ParticipantIndex, G::Element)>,
    i: int,
    from: int,
) -> Option<int>
    decreases i - from,
{
    if from >= i {
        None
    } else if G::encode_spec(entries[from].1) == G::encode_spec(entries[i].1) {
        Some(from)
    } else {
        first_same_key::<G>(entries, i, from + 1)
    }
}

/// Why the entry at position `i` cannot join the entries before it: a
/// repeated index, an identity key, or a key already registered (naming the
/// first participant holding it).
pub open spec fn registry_entry_error<G: GoldenGroup>(
    entries: Seq<(ParticipantIndex, G::Element)>,
    i: int,
) -> Option<Error> {
    let participant = entries[i].0;
    let key = entries[i].1;
    if exists|j: int| 0 <= j < i && #[trigger] entries[j].0@ == participant@ {
        Some(Error::DuplicateParticipantIndex(participant@))
    } else if G::dlog(key) == 0 {
        Some(Error::InvalidEncoding)
    } else {
        match first_same_key::<G>(entries, i, 0) {
            Some(j) => Some(
                Error::DuplicateParticipantPublicKey { first: entries[j].0@, second: participant@ },
            ),
            None => None,
        }
    }
}

/// The first error among the first `n` entries, in input order.
pub open spec fn registry_prefix_error<G: GoldenGroup>(
    entries: Seq<(ParticipantIndex, G::Element)>,
    n: nat,
) -> Option<Error>
    decreases n,
{
    if n == 0 {
        None
    } else {
        match registry_prefix_error::<G>(entries, (n - 1) as nat) {
            Some(e) => Some(e),
            None => registry_entry_error::<G>(entries, n - 1),
        }
    }
}

/// Once an error is found among the first `i` entries, it stays the first.
proof fn lemma_prefix_error_stable<G: GoldenGroup>(
    entries: Seq<(ParticipantIndex, G::Element)>,
    i: nat,
    n: nat,
)
    requires
        i <= n,
        registry_prefix_error::<G>(entries, i) is Some,
    ensures
        registry_prefix_error::<G>(entries, n) == registry_prefix_error::<G>(entries, i),
    decreases n - i,
{
    if i < n {
        lemma_prefix_error_stable::<G>(entries, i, (n - 1) as nat);
    }
}

/// The error that building a registry from `entries` reports, if any.
pub open spec fn registry_error<G: GoldenGroup>(entries: Seq<(ParticipantIndex, G::Element)>) -> Option<
    Error,
> {
    if entries.len() == 0 {
        Some(Error::EmptyParticipantRegistry)
    } else {
        registry_prefix_error::<G>(entries, entries.len())
    }
}

/// The transcript bytes of the first `n` registry entries.
pub open spec fn registry_entries_bytes<G: GoldenGroup>(
    entries: Seq<(ParticipantIndex, G::Element)>,
    n: nat,
) -> Seq<u8>
    decreases n,
{
    if n == 0 {
        Seq::empty()
    } else {
        registry_entries_bytes::<G>(entries, (n - 1) as nat) + frame(
            "participant".spec_bytes(),
            u32_be(entries[n - 1].0@),
        ) + frame("public-key".spec_bytes(), G::encode_spec(entries[n - 1].1))
    }
}

/// The bytes whose SHA-256 digest is the root of a registry with `entries`.
#[verifier::opaque]
pub open spec fn registry_preimage<G: GoldenGroup>(
    entries: Seq<(ParticipantIndex, G::Element)>,
) -> Seq<u8> {
    transcript_start(default_prefix(), "registry".spec_bytes()) + frame(
        "curve".spec_bytes(),
        G::curve_id_spec(),
    ) + frame("len".spec_bytes(), u64_be(entries.len() as u64)) + registry_entries_bytes::<G>(
        entries,
        entries.len(),
    )
}

/// Public participant registry: identity public keys by participant index,
/// in increasing index order.
pub struct ParticipantRegistry<G: GoldenGroup> {
    participants: Vec<(ParticipantIndex, G::Element)>,
    root: TranscriptRoot,
}

impl<G: GoldenGroup> View for ParticipantRegistry<G> {
    type V = Seq<(ParticipantIndex, G::Element)>;

    /// The registered entries in increasing index order.
    closed spec fn view(&self) -> Seq<(ParticipantIndex, G::Element)> {
        self.participants@
    }
}

impl<G: GoldenGroup> ParticipantRegistry<G> {
    #[verifier::type_invariant]
    spec fn well_formed(self) -> bool {
        &&& self.participants@.len() > 0
        &&& strictly_increasing(self.participants@)
        &&& forall|i: int|
            0 <= i < self.participants@.len() ==> G::element_wf(
                #[trigger] self.participants@[i].1,
            )
        &&& self.root@ == sha256_spec(registry_preimage::<G>(self.participants@))
    }

    /// Build a registry from participant identity public keys.
    ///
    /// Entries are checked in input order: a repeated index, an identity
    /// key or a repeated key is rejected.
    pub fn new(entries: Vec<(ParticipantIndex, G::Element)>) -> (result: Result<Self, Error>)
        requires
            forall|i: int| 0 <= i < entries@.len() ==> G::element_wf(#[trigger] entries@[i].1),
        ensures
            result is Err <==> registry_error::<G>(entries@) is Some,
            result matches Err(e) ==> registry_error::<G>(entries@) == Some(e),
            result matches Ok(r) ==> strictly_increasing(r@) && r@.len() == entries@.len() && (
            forall|x: (ParticipantIndex, G::Element)| r@.contains(x) <==> entries@.contains(x)),
    {
        let n = entries.len();
        if n == 0 {
            return Err(Error::EmptyParticipantRegistry);
        }
        let mut sorted: Vec<(ParticipantIndex, G::Element)> = Vec::new();
        let mut keys: Vec<Vec<u8>> = Vec::new();
        let mut i: usize = 0;
        while i < n
            invariant
                n == entries@.len(),
                i <= n,
                forall|k: int| 0 <= k < n ==> G::element_wf(#[trigger] entries@[k].1),
                registry_prefix_error::<G>(entries@, i as nat) is None,
                sorted@.len() == i,
                strictly_increasing(sorted@),
                forall|x: (ParticipantIndex, G::Element)|
                    sorted@.contains(x) <==> exists|j: int| 0 <= j < i && entries@[j] == x,
                forall|k: int| 0 <= k < sorted@.len() ==> G::element_wf(#[trigger] sorted@[k].1),
                keys@.len() == i,
                forall|j: int| 0 <= j < i ==> (#[trigger] keys@[j])@ == G::encode_spec(entries@[j].1),
            decreases n - i,
        {
            let participant = entries[i].0;
            let key = entries[i].1;
            let value = participant.get();
            // Position of the first registered index not below `value`.
            let mut pos: usize = 0;
            while pos < sorted.len() && sorted[pos].0.get() < value
                invariant
                    pos <= sorted@.len(),
                    strictly_increasing(sorted@),
                    value == participant@,
                    forall|k: int| 0 <= k < pos ==> sorted@[k].0@ < value,
                decreases sorted@.len() - pos,
            {
                pos = pos + 1;
            }
            if pos < sorted.len() && sorted[pos].0.get() == value {
                proof {
                    let x = sorted@[pos as int];
                    assert(sorted@.contains(x));
                    let j = choose|j: int| 0 <= j < i && entries@[j] == x;
                    assert(entries@[j].0@ == participant@);
                    assert(registry_entry_error::<G>(entries@, i as int) == Some(
                        Error::DuplicateParticipantIndex(participant@),
                    ));
                    lemma_prefix_error_stable::<G>(entries@, (i + 1) as nat, n as nat);
                }
                return Err(Error::DuplicateParticipantIndex(value));
            }
            proof {
                assert forall|j: int| 0 <= j < i implies entries@[j].0@ != participant@ by {
                    assert(sorted@.contains(entries@[j]));
                    let k = choose|k: int| 0 <= k < sorted@.len() && sorted@[k] == entries@[j];
                    if k < pos {
                    } else if k == pos {
                    } else {
                        assert(sorted@[pos as int].0@ < sorted@[k].0@);
                    }
                }
            }
            if G::is_identity(&key) {
                proof {
                    assert(registry_entry_error::<G>(entries@, i as int) == Some(
                        Error::InvalidEncoding,
                    ));
                    lemma_prefix_error_stable::<G>(entries@, (i + 1) as nat, n as nat);
                }
                return Err(Error::InvalidEncoding);
            }
            let encoded = G::encode_element(&key);
            let mut j: usize = 0;
            while j < i
                invariant
                    j <= i,
                    i < n,
                    n == entries@.len(),
                    keys@.len() == i,
                    forall|k: int| 0 <= k < i ==> (#[trigger] keys@[k])@ == G::encode_spec(entries@[k].1),
                    encoded@ == G::encode_spec(entries@[i as int].1),
                    entries@[i as int] == (participant, key),
                    value == participant@,
                    G::dlog(key) != 0,
                    forall|k: int| 0 <= k < i ==> entries@[k].0@ != participant@,
                    registry_prefix_error::<G>(entries@, i as nat) is None,
                    first_same_key::<G>(entries@, i as int, 0) == first_same_key::<G>(
                        entries@,
                        i as int,
                        j as int,
                    ),
                decreases i - j,
            {
                if bytes_equal(keys[j].as_slice(), encoded.as_slice()) {
                    let first = entries[j].0.get();
                    proof {
                        assert(first_same_key::<G>(entries@, i as int, j as int) == Some(j as int));
                        assert(registry_entry_error::<G>(entries@, i as int) == Some(
                            Error::DuplicateParticipantPublicKey { first, second: value },
                        ));
                        lemma_prefix_error_stable::<G>(entries@, (i + 1) as nat, n as nat);
                    }
                    return Err(Error::DuplicateParticipantPublicKey { first, second: value });
                }
                j = j + 1;
            }
            proof {
                assert(registry_entry_error::<G>(entries@, i as int) is None);
                let old_sorted = sorted@;
                let new_sorted = old_sorted.insert(pos as int, (participant, key));
                assert forall|a: int, b: int|
                    0 <= a < b < new_sorted.len() implies new_sorted[a].0@ < new_sorted[b].0@ by {
                    if b < pos {
                    } else if b == pos {
                    } else if a < pos {
                        assert(new_sorted[b] == old_sorted[b - 1]);
                        if pos < old_sorted.len() {
                            assert(old_sorted[pos as int].0@ >= value);
                            assert(old_sorted[pos as int].0@ != value);
                        }
                    } else if a == pos {
                        assert(new_sorted[b] == old_sorted[b - 1]);
                        if pos < old_sorted.len() {
                            assert(old_sorted[pos as int].0@ > value);
                        }
                    } else {
                        assert(new_sorted[a] == old_sorted[a - 1]);
                        assert(new_sorted[b] == old_sorted[b - 1]);
                    }
                }
                assert(entries@[i as int] == (participant, key));
                assert forall|x: (ParticipantIndex, G::Element)|
                    new_sorted.contains(x) <==> exists|j: int|
                        0 <= j < i + 1 && entries@[j] == x by {
                    if new_sorted.contains(x) {
                        let k = choose|k: int| 0 <= k < new_sorted.len() && new_sorted[k] == x;
                        if k < pos {
                            assert(old_sorted.contains(x));
                        } else if k == pos {
                            assert(entries@[i as int] == x);
                        } else {
                            assert(old_sorted[k - 1] == x);
                            assert(old_sorted.contains(x));
                        }
                    }
                    if exists|j: int| 0 <= j < i + 1 && entries@[j] == x {
                        let j = choose|j: int| 0 <= j < i + 1 && entries@[j] == x;
                        if j == i {
                            assert(new_sorted[pos as int] == x);
                        } else {
                            assert(old_sorted.contains(x));
                            let k = choose|k: int| 0 <= k < old_sorted.len() && old_sorted[k] == x;
                            if k < pos {
                                assert(new_sorted[k] == x);
                            } else {
                                assert(new_sorted[k + 1] == x);
                            }
                        }
                    }
                }
            }
            sorted.insert(pos, (participant, key));
            keys.push(encoded);
            i = i + 1;
        }
        proof {
            assert forall|x: (ParticipantIndex, G::Element)|
                sorted@.contains(x) <==> entries@.contains(x) by {
                if entries@.contains(x) {
                    let j = choose|j: int| 0 <= j < entries@.len() && entries@[j] == x;
                    assert(exists|j: int| 0 <= j < i && entries@[j] == x);
                }
            }
        }
        let root = registry_root::<G>(&sorted);
        Ok(ParticipantRegistry { participants: sorted, root })
    }

    /// Number of registered participants.
    pub fn len(&self) -> (n: usize)
        ensures
            n == self@.len(),
            n > 0,
            strictly_increasing(self@),
            forall|i: int| 0 <= i < self@.len() ==> G::element_wf(#[trigger] self@[i].1),
    {
        proof {
            use_type_invariant(self);
        }
        self.participants.len()
    }

    /// Return whether the registry is empty (it never is).
    pub fn is_empty(&self) -> (empty: bool)
        ensures
            empty == (self@.len() == 0),
            !empty,
    {
        proof {
            use_type_invariant(self);
        }
        self.participants.len() == 0
    }

    /// Return the registry root: the SHA-256 digest of the curve, the
    /// number of entries and every entry in index order.
    pub fn root(&self) -> (root: TranscriptRoot)
        ensures
            root@ == sha256_spec(registry_preimage::<G>(self@)),
    {
        proof {
            use_type_invariant(self);
        }
        self.root
    }

    /// Return a participant public key.
    pub fn public_key(&self, participant: ParticipantIndex) -> (result: Result<G::Element, Error>)
        ensures
            result matches Ok(key) ==> self@.contains((participant, key)),
            result is Err <==> forall|i: int| 0 <= i < self@.len() ==> self@[i].0@ != participant@,
            result is Err ==> result == Err::<G::Element, Error>(
                Error::UnknownParticipant(participant@),
            ),
    {
        match self.lookup(participant) {
            Some(key) => Ok(key),
            None => Err(Error::UnknownParticipant(participant.get())),
        }
    }

    /// The key registered for `participant`, if any.
    fn lookup(&self, participant: ParticipantIndex) -> (result: Option<G::Element>)
        ensures
            result matches Some(key) ==> self@.contains((participant, key)),
            result is None <==> forall|i: int| 0 <= i < self@.len() ==> self@[i].0@ != participant@,
    {
        let value = participant.get();
        let mut i: usize = 0;
        while i < self.participants.len()
            invariant
                i <= self@.len(),
                value == participant@,
                forall|k: int| 0 <= k < i ==> self@[k].0@ != participant@,
            decreases self@.len() - i,
        {
            if self.participants[i].0.get() == value {
                proof {
                    crate::participant::lemma_participant_view_eq(
                        self.participants@[i as int].0,
                        participant,
                    );
                    assert(self@[i as int] == (participant, self@[i as int].1));
                }
                return Some(self.participants[i].1);
            }
            i = i + 1;
        }
        None
    }

    /// Return participant indexes in canonical (increasing) order.
    pub fn indexes(&self) -> (indexes: Vec<ParticipantIndex>)
        ensures
            indexes@.len() == self@.len(),
            forall|i: int| 0 <= i < self@.len() ==> indexes@[i] == #[trigger] self@[i].0,
    {
        let mut out: Vec<ParticipantIndex> = Vec::new();
        let mut i: usize = 0;
        while i < self.participants.len()
            invariant
                i <= self@.len(),
                out@.len() == i,
                forall|k: int| 0 <= k < i ==> out@[k] == #[trigger] self@[k].0,
            decreases self@.len() - i,
        {
            out.push(self.participants[i].0);
            i = i + 1;
        }
        out
    }

    /// Return participant entries in canonical (increasing index) order.
    pub fn entries(&self) -> (entries: Vec<(ParticipantIndex, G::Element)>)
        ensures
            entries@ == self@,
    {
        let mut out: Vec<(ParticipantIndex, G::Element)> = Vec::new();
        let mut i: usize = 0;
        while i < self.participants.len()
            invariant
                i <= self@.len(),
                out@ == self@.subrange(0, i as int),
            decreases self@.len() - i,
        {
            out.push(self.participants[i]);
            i = i + 1;
            assert(out@ =~= self@.subrange(0, i as int));
        }
        assert(out@ =~= self@);
        out
    }
}

/// The registry root of the entries, in the order given.
fn registry_root<G: GoldenGroup>(participants: &Vec<(ParticipantIndex, G::Element)>) -> (root:
    TranscriptRoot)
    requires
        forall|i: int| 0 <= i < participants@.len() ==> G::element_wf(#[trigger] participants@[i].1),
    ensures
        root@ == sha256_spec(registry_preimage::<G>(participants@)),
{
    let mut transcript = TranscriptBuilder::new("registry".as_bytes());
    transcript.bytes("curve".as_bytes(), G::curve_id());
    transcript.usize("len".as_bytes(), participants.len());
    let ghost head = transcript@;
    let mut i: usize = 0;
    while i < participants.len()
        invariant
            i <= participants@.len(),
            forall|k: int| 0 <= k < participants@.len() ==> G::element_wf(#[trigger] participants@[k].1),
            transcript@ == head + registry_entries_bytes::<G>(participants@, i as nat),
        decreases participants@.len() - i,
    {
        transcript.participant("participant".as_bytes(), participants[i].0);
        transcript.element::<G>("public-key".as_bytes(), &participants[i].1);
        i = i + 1;
        assert(transcript@ =~= head + registry_entries_bytes::<G>(participants@, i as nat));
    }
    reveal(registry_preimage);
    assert(transcript@ =~= registry_preimage::<G>(participants@));
    transcript.root()
}

/// The transcript bytes of the instance kinds of a configuration.
pub open spec fn instance_kinds_bytes(instances: Seq<DkgInstanceKind>) -> Seq<u8>
    decreases instances.len(),
{
    if instances.len() == 0 {
        Seq::empty()
    } else {
        instance_kinds_bytes(instances.drop_last()) + frame(
            "instance-kind".spec_bytes(),
            u32_be(kind_code(instances.last()) as u32),
        )
    }
}

/// The bytes whose SHA-256 digest is the root of a configuration.
#[verifier::opaque]
pub open spec fn config_preimage<G: GoldenGroup>(
    threshold: usize,
    session_id: Seq<u8>,
    registry: Seq<(ParticipantIndex, G::Element)>,
    instances: Seq<DkgInstanceKind>,
) -> Seq<u8> {
    transcript_start(default_prefix(), "dkg-config".spec_bytes()) + frame(
        "version".spec_bytes(),
        u32_be(PROTOCOL_VERSION),
    ) + frame("curve".spec_bytes(), G::curve_id_spec()) + frame("session".spec_bytes(), session_id)
        + frame("threshold".spec_bytes(), u64_be(threshold as u64)) + frame(
        "registry".spec_bytes(),
        sha256_spec(registry_preimage::<G>(registry)),
    ) + frame("instances-len".spec_bytes(), u64_be(instances.len() as u64))
        + instance_kinds_bytes(instances)
}

/// The error that building a configuration reports, if any.
pub open spec fn config_error(threshold: usize, participants: nat, instances: nat) -> Option<
    Error,
> {
    if threshold == 0 || threshold > participants {
        Some(Error::InvalidThreshold { threshold, participants: participants as usize })
    } else if instances == 0 {
        Some(Error::EmptyDkgBatch)
    } else {
        None
    }
}

/// Immutable, validated DKG configuration.
pub struct DkgConfig<G: GoldenGroup> {
    threshold: usize,
    session_id: SessionId,
    registry: ParticipantRegistry<G>,
    instances: Vec<DkgInstanceKind>,
    root: TranscriptRoot,
}

impl<G: GoldenGroup> DkgConfig<G> {
    #[verifier::type_invariant]
    spec fn well_formed(self) -> bool {
        &&& 1 <= self.threshold <= self.registry@.len()
        &&& self.instances@.len() > 0
        &&& self.root@ == sha256_spec(
            config_preimage::<G>(
                self.threshold,
                self.session_id.0@,
                self.registry@,
                self.instances@,
            ),
        )
    }

    /// The threshold of the configuration.
    pub closed spec fn threshold_spec(&self) -> usize {
        self.threshold
    }

    /// The session identifier of the configuration.
    pub closed spec fn session_spec(&self) -> SessionId {
        self.session_id
    }

    /// The registered entries of the configuration.
    pub closed spec fn registry_spec(&self) -> Seq<(ParticipantIndex, G::Element)> {
        self.registry@
    }

    /// The instance kinds of the configuration, in protocol order.
    pub closed spec fn instances_spec(&self) -> Seq<DkgInstanceKind> {
        self.instances@
    }

    /// The canonical configuration root.
    pub open spec fn root_spec(&self) -> Seq<u8> {
        sha256_spec(
            config_preimage::<G>(
                self.threshold_spec(),
                self.session_spec().0@,
                self.registry_spec(),
                self.instances_spec(),
            ),
        )
    }

    /// The configuration's invariant: a threshold between one and the
    /// number of participants, and at least one instance.
    pub fn check_invariant(&self)
        ensures
            1 <= self.threshold_spec() <= self.registry_spec().len(),
            self.instances_spec().len() > 0,
            self.registry_spec().len() > 0,
            strictly_increasing(self.registry_spec()),
            forall|i: int|
                0 <= i < self.registry_spec().len() ==> G::element_wf(
                    #[trigger] self.registry_spec()[i].1,
                ),
    {
        proof {
            use_type_invariant(self);
        }
        let _ = self.registry.len();
    }

    /// Construct an arbitrary ordered, nonempty set of sharing instances.
    pub fn new(
        threshold: usize,
        session_id: SessionId,
        registry: ParticipantRegistry<G>,
        instances: Vec<DkgInstanceKind>,
    ) -> (result: Result<Self, Error>)
        ensures
            result is Err <==> config_error(threshold, registry@.len(), instances@.len()) is Some,
            result matches Err(e) ==> config_error(threshold, registry@.len(), instances@.len())
                == Some(e),
            result matches Ok(c) ==> c.threshold_spec() == threshold && c.session_spec()
                == session_id && c.registry_spec() == registry@ && c.instances_spec()
                == instances@,
    {
        let participants = registry.len();
        if threshold == 0 || threshold > participants {
            return Err(Error::InvalidThreshold { threshold, participants });
        }
        if instances.len() == 0 {
            return Err(Error::EmptyDkgBatch);
        }
        let root = config_root::<G>(threshold, session_id, &registry, &instances);
        DkgConfig { threshold, session_id, registry, instances, root }.into_ok()
    }

    fn into_ok(self) -> (result: Result<Self, Error>)
        ensures
            result == Ok::<Self, Error>(self),
    {
        Ok(self)
    }

    /// Construct one random sharing.
    pub fn new_random(threshold: usize, session_id: SessionId, registry: ParticipantRegistry<G>) -> (result:
        Result<Self, Error>)
        ensures
            result is Err <==> config_error(threshold, registry@.len(), 1) is Some,
            result matches Err(e) ==> config_error(threshold, registry@.len(), 1) == Some(e),
            result matches Ok(c) ==> c.threshold_spec() == threshold && c.session_spec()
                == session_id && c.registry_spec() == registry@ && c.instances_spec() == seq![
                DkgInstanceKind::Random,
            ],
    {
        let instances = vec![DkgInstanceKind::Random];
        Self::new(threshold, session_id, registry, instances)
    }

    /// Construct one zero sharing.
    pub fn new_zero(threshold: usize, session_id: SessionId, registry: ParticipantRegistry<G>) -> (result:
        Result<Self, Error>)
        ensures
            result is Err <==> config_error(threshold, registry@.len(), 1) is Some,
            result matches Err(e) ==> config_error(threshold, registry@.len(), 1) == Some(e),
            result matches Ok(c) ==> c.threshold_spec() == threshold && c.session_spec()
                == session_id && c.registry_spec() == registry@ && c.instances_spec() == seq![
                DkgInstanceKind::Zero,
            ],
    {
        let instances = vec![DkgInstanceKind::Zero];
        Self::new(threshold, session_id, registry, instances)
    }

    /// Return the threshold.
    pub fn threshold(&self) -> (threshold: usize)
        ensures
            threshold == self.threshold_spec(),
            1 <= threshold <= self.registry_spec().len(),
    {
        proof {
            use_type_invariant(self);
        }
        self.threshold
    }

    /// Return the session identifier.
    pub fn session_id(&self) -> (session_id: SessionId)
        ensures
            session_id == self.session_spec(),
    {
        self.session_id
    }

    /// Return the participant registry.
    pub fn registry(&self) -> (registry: &ParticipantRegistry<G>)
        ensures
            registry@ == self.registry_spec(),
    {
        &self.registry
    }

    /// Return one registered participant identity public key.
    pub fn identity_public_key(&self, participant: ParticipantIndex) -> (key: Option<G::Element>)
        ensures
            key matches Some(k) ==> self.registry_spec().contains((participant, k)),
            key is None <==> forall|i: int|
                0 <= i < self.registry_spec().len() ==> self.registry_spec()[i].0@ != participant@,
    {
        let key = self.registry.lookup(participant);
        assert(self.registry_spec() == self.registry@);
        key
    }

    /// Return configured instance kinds in protocol order.
    pub fn instances(&self) -> (instances: &[DkgInstanceKind])
        ensures
            instances@ == self.instances_spec(),
            instances@.len() > 0,
    {
        proof {
            use_type_invariant(self);
        }
        self.instances.as_slice()
    }

    /// Return one configured instance kind by protocol position.
    pub fn instance(&self, position: usize) -> (kind: Option<DkgInstanceKind>)
        ensures
            position < self.instances_spec().len() ==> kind == Some(
                self.instances_spec()[position as int],
            ),
            position >= self.instances_spec().len() ==> kind is None,
    {
        if position < self.instances.len() {
            Some(self.instances[position])
        } else {
            None
        }
    }

    /// Return the canonical configuration root.
    pub fn root(&self) -> (root: TranscriptRoot)
        ensures
            root@ == sha256_spec(
                config_preimage::<G>(
                    self.threshold_spec(),
                    self.session_spec().0@,
                    self.registry_spec(),
                    self.instances_spec(),
                ),
            ),
    {
        proof {
            use_type_invariant(self);
        }
        self.root
    }
}

fn config_root<G: GoldenGroup>(
    threshold: usize,
    session_id: SessionId,
    registry: &ParticipantRegistry<G>,
    instances: &Vec<DkgInstanceKind>,
) -> (root: TranscriptRoot)
    ensures
        root@ == sha256_spec(config_preimage::<G>(threshold, session_id.0@, registry@, instances@)),
{
    let mut transcript = TranscriptBuilder::new("dkg-config".as_bytes());
    transcript.u32("version".as_bytes(), PROTOCOL_VERSION);
    transcript.bytes("curve".as_bytes(), G::curve_id());
    transcript.bytes("session".as_bytes(), &session_id.0);
    transcript.usize("threshold".as_bytes(), threshold);
    let registry_root = registry.root();
    transcript.bytes("registry".as_bytes(), &registry_root);
    transcript.usize("instances-len".as_bytes(), instances.len());
    let ghost head = transcript@;
    let mut i: usize = 0;
    while i < instances.len()
        invariant
            i <= instances@.len(),
            transcript@ == head + instance_kinds_bytes(instances@.subrange(0, i as int)),
        decreases instances@.len() - i,
    {
        let code = instances[i].code();
        transcript.u32("instance-kind".as_bytes(), code as u32);
        proof {
            let pre = instances@.subrange(0, i as int + 1);
            assert(pre.drop_last() =~= instances@.subrange(0, i as int));
        }
        i = i + 1;
    }
    assert(instances@.subrange(0, instances@.len() as int) =~= instances@);
    reveal(config_preimage);
    assert(transcript@ =~= config_preimage::<G>(threshold, session_id.0@, registry@, instances@));
    transcript.root()
}

} // verus!
