//! Completed DKG state: per-instance outputs, the batch output, and the
//! common completion root.
use vstd::prelude::*;
use vstd::string::StringSliceAdditionalSpecFns;

use crate::bytes::{u32_be, u64_be};
use crate::dkg::{strictly_increasing, PROTOCOL_VERSION};
use crate::error::Error;
use crate::group::{GoldenGroup, GoldenScalar};
use crate::participant::ParticipantIndex;
use crate::shamir::{
    lagrange_coefficient, lagrange_coefficients_at_zero, lagrange_denominators, prefix_product,
    weighted_sum,
};
use crate::transcript::{frame, sha256_spec, transcript_start, TranscriptBuilder, TranscriptRoot};

verus! {

/// Interpolation points of public key shares, as field values.
pub open spec fn share_points_of<G: GoldenGroup>(shares: Seq<(ParticipantIndex, G::Element)>) -> Seq<
    int,
> {
    Seq::new(
        shares.len(),
        |i: int| (shares[i].0@ as int) % (<G::Scalar as GoldenScalar>::field_order() as int),
    )
}

/// Logarithm of the Lagrange interpolation at zero, in the exponent, of
/// public key shares.
pub open spec fn interpolated_key_dlog<G: GoldenGroup>(
    shares: Seq<(ParticipantIndex, G::Element)>,
) -> int {
    let m = <G::Scalar as GoldenScalar>::field_order() as int;
    let xs = share_points_of::<G>(shares);
    weighted_sum(
        Seq::new(shares.len(), |i: int| G::dlog(shares[i].1) as int),
        Seq::new(shares.len(), |i: int| lagrange_coefficient(xs, i, m)),
        shares.len() as int,
        m,
    )
}

/// A persisted instance output is consistent: it has public key shares,
/// one of them is the generator times the secret share, every participant
/// has an interpolation point, the points are distinct enough to
/// interpolate, and the shares interpolate to the public key.
pub open spec fn persisted_instance_valid<G: GoldenGroup>(
    public_key: G::Element,
    secret_share: G::Scalar,
    shares: Seq<(ParticipantIndex, G::Element)>,
) -> bool {
    let m = <G::Scalar as GoldenScalar>::field_order() as int;
    &&& shares.len() > 0
    &&& exists|i: int| 0 <= i < shares.len() && G::dlog(#[trigger] shares[i].1) == secret_share.value()
    &&& forall|i: int|
        0 <= i < shares.len() ==> <G::Scalar as GoldenScalar>::from_u64_succeeds(
            (#[trigger] shares[i]).0@ as u64,
        )
    &&& prefix_product(lagrange_denominators(share_points_of::<G>(shares), m), shares.len() as int, m)
        != 0
    &&& interpolated_key_dlog::<G>(shares) == G::dlog(public_key)
}

/// Completed participant state for one batch position.
pub struct DkgInstanceOutput<G: GoldenGroup> {
    public_key: G::Element,
    secret_share: G::Scalar,
    public_key_shares: Vec<(ParticipantIndex, G::Element)>,
}

impl<G: GoldenGroup> DkgInstanceOutput<G> {
    #[verifier::type_invariant]
    spec fn output_wf(self) -> bool {
        &&& G::element_wf(self.public_key)
        &&& self.secret_share.wf()
        &&& strictly_increasing(self.public_key_shares@)
        &&& forall|i: int|
            0 <= i < self.public_key_shares@.len() ==> G::element_wf(
                #[trigger] self.public_key_shares@[i].1,
            )
    }

    /// The shared public key.
    pub closed spec fn public_key_spec(&self) -> G::Element {
        self.public_key
    }

    /// This participant's secret share.
    pub closed spec fn secret_share_spec(&self) -> G::Scalar {
        self.secret_share
    }

    /// Public key shares in participant order.
    pub closed spec fn shares_spec(&self) -> Seq<(ParticipantIndex, G::Element)> {
        self.public_key_shares@
    }

    /// Assemble an instance output from validated parts.
    pub fn new(
        public_key: G::Element,
        secret_share: G::Scalar,
        public_key_shares: Vec<(ParticipantIndex, G::Element)>,
    ) -> (output: Self)
        requires
            G::element_wf(public_key),
            secret_share.wf(),
            strictly_increasing(public_key_shares@),
            forall|i: int|
                0 <= i < public_key_shares@.len() ==> G::element_wf(#[trigger] public_key_shares@[i].1),
        ensures
            output.public_key_spec() == public_key,
            output.secret_share_spec() == secret_share,
            output.shares_spec() == public_key_shares@,
    {
        Self { public_key, secret_share, public_key_shares }
    }

    /// Rebuild an instance output from persisted parts, checking that the
    /// parts are consistent.
    pub fn from_persisted_parts(
        public_key: G::Element,
        secret_share: G::Scalar,
        public_key_shares: Vec<(ParticipantIndex, G::Element)>,
    ) -> (result: Result<Self, Error>)
        requires
            G::element_wf(public_key),
            secret_share.wf(),
            strictly_increasing(public_key_shares@),
            forall|i: int|
                0 <= i < public_key_shares@.len() ==> G::element_wf(#[trigger] public_key_shares@[i].1),
        ensures
            result is Ok <==> persisted_instance_valid::<G>(
                public_key,
                secret_share,
                public_key_shares@,
            ),
            result matches Ok(output) ==> output.public_key_spec() == public_key
                && output.secret_share_spec() == secret_share && output.shares_spec()
                == public_key_shares@,
            result is Err ==> result == Err::<Self, Error>(Error::InvalidEncoding),
    {
        let output = Self::new(public_key, secret_share, public_key_shares);
        match output.validate_persisted() {
            Ok(()) => Ok(output),
            Err(e) => Err(e),
        }
    }

    /// Check a persisted instance output: a share for the local secret, and
    /// shares that interpolate to the public key.
    fn validate_persisted(&self) -> (result: Result<(), Error>)
        ensures
            result is Ok <==> persisted_instance_valid::<G>(
                self.public_key_spec(),
                self.secret_share_spec(),
                self.shares_spec(),
            ),
            result is Err ==> result == Err::<(), Error>(Error::InvalidEncoding),
    {
        proof {
            use_type_invariant(self);
        }
        let shares = &self.public_key_shares;
        let n = shares.len();
        let ghost s = shares@;
        let ghost m = <G::Scalar as GoldenScalar>::field_order() as int;
        if n == 0 {
            return Err(Error::InvalidEncoding);
        }
        let local = G::mul_generator(&self.secret_share);
        let mut found = false;
        let mut i: usize = 0;
        while i < n
            invariant
                i <= n,
                n == s.len(),
                s == shares@,
                G::element_wf(local),
                G::dlog(local) == self.secret_share.value(),
                forall|t: int| 0 <= t < s.len() ==> G::element_wf(#[trigger] s[t].1),
                found <==> exists|t: int| 0 <= t < i && G::dlog(#[trigger] s[t].1) == self.secret_share.value(),
            decreases n - i,
        {
            if G::element_eq(&shares[i].1, &local) {
                found = true;
            }
            i = i + 1;
        }
        if !found {
            return Err(Error::InvalidEncoding);
        }
        let mut points: Vec<G::Scalar> = Vec::new();
        let mut j: usize = 0;
        while j < n
            invariant
                j <= n,
                n == s.len(),
                s == shares@,
                s == self.shares_spec(),
                points@.len() == j,
                forall|t: int| 0 <= t < j ==> <G::Scalar as GoldenScalar>::from_u64_succeeds(
                    (#[trigger] s[t]).0@ as u64,
                ),
                forall|t: int|
                    0 <= t < j ==> (#[trigger] points@[t]).wf() && points@[t].value() == (s[t].0@ as nat)
                        % <G::Scalar as GoldenScalar>::field_order(),
            decreases n - j,
        {
            let x = match shares[j].0.to_scalar::<G::Scalar>() {
                Ok(x) => x,
                Err(_) => {
                    proof {
                        assert(!<G::Scalar as GoldenScalar>::from_u64_succeeds(
                            s[j as int].0@ as u64,
                        ));
                    }
                    return Err(Error::InvalidEncoding);
                },
            };
            points.push(x);
            j = j + 1;
        }
        proof {
            assert(crate::shamir::values_of(points@) =~= share_points_of::<G>(s));
        }
        let coefficients = match lagrange_coefficients_at_zero(points.as_slice()) {
            Ok(c) => c,
            Err(_) => return Err(Error::InvalidEncoding),
        };
        let ghost vals = Seq::new(s.len(), |t: int| G::dlog(s[t].1) as int);
        let ghost lcs = Seq::new(s.len(), |t: int| lagrange_coefficient(share_points_of::<G>(s), t, m));
        let mut acc = G::identity();
        let mut k: usize = 0;
        proof {
            <G::Scalar as GoldenScalar>::lemma_field_order();
        }
        while k < n
            invariant
                k <= n,
                n == s.len(),
                s == shares@,
                m == <G::Scalar as GoldenScalar>::field_order() as int,
                m > 1,
                coefficients@.len() == n,
                forall|t: int| 0 <= t < s.len() ==> G::element_wf(#[trigger] s[t].1),
                forall|t: int| 0 <= t < n ==> (#[trigger] coefficients@[t]).wf(),
                forall|t: int| 0 <= t < n ==> (#[trigger] coefficients@[t]).value() == lcs[t],
                vals == Seq::new(s.len(), |t: int| G::dlog(s[t].1) as int),
                G::element_wf(acc),
                G::dlog(acc) == weighted_sum(vals, lcs, k as int, m),
            decreases n - k,
        {
            let term = G::mul(&shares[k].1, &coefficients[k]);
            acc = G::add(&acc, &term);
            k = k + 1;
        }
        if !G::element_eq(&acc, &self.public_key) {
            return Err(Error::InvalidEncoding);
        }
        Ok(())
    }

    /// Return the shared public key.
    pub fn public_key(&self) -> (key: &G::Element)
        ensures
            *key == self.public_key_spec(),
    {
        &self.public_key
    }

    /// Return this participant's secret share.
    pub fn secret_share(&self) -> (share: &G::Scalar)
        ensures
            *share == self.secret_share_spec(),
    {
        &self.secret_share
    }

    /// Return public key shares in canonical participant order.
    pub fn public_key_shares(&self) -> (shares: &[(ParticipantIndex, G::Element)])
        ensures
            shares@ == self.shares_spec(),
            strictly_increasing(shares@),
    {
        proof {
            use_type_invariant(self);
        }
        self.public_key_shares.as_slice()
    }
}

/// The participants of public key shares, in order.
pub open spec fn share_participants<E>(shares: Seq<(ParticipantIndex, E)>) -> Seq<ParticipantIndex> {
    Seq::new(shares.len(), |i: int| shares[i].0)
}

/// The shares hold, for `participant`, the generator times `secret`.
pub open spec fn has_local_share<G: GoldenGroup>(
    shares: Seq<(ParticipantIndex, G::Element)>,
    participant: ParticipantIndex,
    secret: G::Scalar,
) -> bool {
    exists|k: int|
        0 <= k < shares.len() && (#[trigger] shares[k]).0@ == participant@ && G::dlog(shares[k].1)
            == secret.value()
}

/// Persisted batch parts are consistent: at least one instance, each
/// holding the participant's own public share, all over the same
/// participants.
pub open spec fn persisted_output_valid<G: GoldenGroup>(
    participant: ParticipantIndex,
    instances: Seq<DkgInstanceOutput<G>>,
) -> bool {
    &&& instances.len() > 0
    &&& forall|i: int|
        0 <= i < instances.len() ==> has_local_share::<G>(
            (#[trigger] instances[i]).shares_spec(),
            participant,
            instances[i].secret_share_spec(),
        ) && share_participants(instances[i].shares_spec()) == share_participants(
            instances[0].shares_spec(),
        )
}

/// The public key shares of one instance, as hashed into the completion
/// root.
pub open spec fn completion_shares_bytes<G: GoldenGroup>(shares: Seq<(ParticipantIndex, G::Element)>) -> Seq<
    u8,
>
    decreases shares.len(),
{
    if shares.len() == 0 {
        Seq::empty()
    } else {
        completion_shares_bytes::<G>(shares.drop_last()) + frame(
            "participant".spec_bytes(),
            u32_be(shares.last().0@),
        ) + frame("public-key-share".spec_bytes(), G::encode_spec(shares.last().1))
    }
}

/// The instances, as hashed into the completion root.
pub open spec fn completion_instances_bytes<G: GoldenGroup>(instances: Seq<DkgInstanceOutput<G>>) -> Seq<
    u8,
>
    decreases instances.len(),
{
    if instances.len() == 0 {
        Seq::empty()
    } else {
        let last = instances.last();
        completion_instances_bytes::<G>(instances.drop_last()) + frame(
            "instance-position".spec_bytes(),
            u64_be((instances.len() - 1) as u64),
        ) + frame("public-key".spec_bytes(), G::encode_spec(last.public_key_spec())) + frame(
            "public-key-share-count".spec_bytes(),
            u64_be(last.shares_spec().len() as u64),
        ) + completion_shares_bytes::<G>(last.shares_spec())
    }
}

/// The byte string whose SHA-256 digest is the completion root.
#[verifier::opaque]
pub open spec fn completion_preimage<G: GoldenGroup>(
    configuration_root: Seq<u8>,
    instances: Seq<DkgInstanceOutput<G>>,
) -> Seq<u8> {
    transcript_start(
        "golden-dkg/completion-root/v1".spec_bytes(),
        "common-public-output".spec_bytes(),
    ) + frame("protocol-version".spec_bytes(), u32_be(PROTOCOL_VERSION)) + frame(
        "configuration-root".spec_bytes(),
        configuration_root,
    ) + frame("instance-count".spec_bytes(), u64_be(instances.len() as u64))
        + completion_instances_bytes::<G>(instances)
}

/// Append the public key shares of one instance to the transcript.
fn completion_shares<G: GoldenGroup>(
    transcript: &mut TranscriptBuilder,
    shares: &[(ParticipantIndex, G::Element)],
)
    requires
        forall|i: int| 0 <= i < shares@.len() ==> G::element_wf(#[trigger] shares@[i].1),
    ensures
        final(transcript)@ == old(transcript)@ + completion_shares_bytes::<G>(shares@),
{
    let ghost start = transcript@;
    let mut k: usize = 0;
    proof {
        assert(shares@.take(0) =~= Seq::<(ParticipantIndex, G::Element)>::empty());
        assert(start + completion_shares_bytes::<G>(shares@.take(0)) =~= start);
    }
    while k < shares.len()
        invariant
            k <= shares@.len(),
            forall|i: int| 0 <= i < shares@.len() ==> G::element_wf(#[trigger] shares@[i].1),
            transcript@ == start + completion_shares_bytes::<G>(shares@.take(k as int)),
        decreases shares@.len() - k,
    {
        transcript.participant("participant".as_bytes(), shares[k].0);
        transcript.element::<G>("public-key-share".as_bytes(), &shares[k].1);
        proof {
            assert(shares@.take(k + 1).drop_last() =~= shares@.take(k as int));
        }
        k = k + 1;
        proof {
            assert(transcript@ =~= start + completion_shares_bytes::<G>(shares@.take(k as int)));
        }
    }
    proof {
        assert(shares@.take(k as int) =~= shares@);
    }
}

/// The completion root of a batch: the configuration root and, for every
/// instance in order, its position, public key and public key shares.
pub fn completion_root_from_public<G: GoldenGroup>(
    configuration_root: TranscriptRoot,
    instances: &[DkgInstanceOutput<G>],
) -> (root: TranscriptRoot)
    ensures
        root@ == sha256_spec(completion_preimage::<G>(configuration_root@, instances@)),
{
    let mut transcript = TranscriptBuilder::with_prefix(
        "golden-dkg/completion-root/v1".as_bytes(),
        "common-public-output".as_bytes(),
    );
    transcript.u32("protocol-version".as_bytes(), PROTOCOL_VERSION);
    transcript.bytes("configuration-root".as_bytes(), &configuration_root);
    transcript.usize("instance-count".as_bytes(), instances.len());
    let ghost start = transcript@;
    let mut i: usize = 0;
    proof {
        assert(instances@.take(0) =~= Seq::<DkgInstanceOutput<G>>::empty());
        assert(start + completion_instances_bytes::<G>(instances@.take(0)) =~= start);
    }
    while i < instances.len()
        invariant
            i <= instances@.len(),
            transcript@ == start + completion_instances_bytes::<G>(instances@.take(i as int)),
        decreases instances@.len() - i,
    {
        let instance = &instances[i];
        let shares = instance.public_key_shares();
        let key = instance.public_key();
        proof {
            use_type_invariant(instance);
        }
        transcript.usize("instance-position".as_bytes(), i);
        transcript.element::<G>("public-key".as_bytes(), key);
        transcript.usize("public-key-share-count".as_bytes(), shares.len());
        completion_shares::<G>(&mut transcript, shares);
        proof {
            assert(instances@.take(i + 1).drop_last() =~= instances@.take(i as int));
            assert(instances@.take(i + 1).last() == instances@[i as int]);
        }
        i = i + 1;
        proof {
            assert(transcript@ =~= start + completion_instances_bytes::<G>(instances@.take(i as int)));
        }
    }
    proof {
        assert(instances@.take(i as int) =~= instances@);
        reveal(completion_preimage);
    }
    transcript.root()
}

/// Immutable atomic output for the complete ordered DKG batch.
pub struct DkgOutput<G: GoldenGroup> {
    participant: ParticipantIndex,
    configuration_root: TranscriptRoot,
    instances: Vec<DkgInstanceOutput<G>>,
}

impl<G: GoldenGroup> DkgOutput<G> {
    /// The participant whose local secret shares this output holds.
    pub closed spec fn participant_spec(&self) -> ParticipantIndex {
        self.participant
    }

    /// The configuration root accepted during completion.
    pub closed spec fn configuration_root_spec(&self) -> TranscriptRoot {
        self.configuration_root
    }

    /// Completed instances in configuration order.
    pub closed spec fn instances_spec(&self) -> Seq<DkgInstanceOutput<G>> {
        self.instances@
    }

    /// Assemble a batch output.
    pub fn new(
        participant: ParticipantIndex,
        configuration_root: TranscriptRoot,
        instances: Vec<DkgInstanceOutput<G>>,
    ) -> (output: Self)
        ensures
            output.participant_spec() == participant,
            output.configuration_root_spec() == configuration_root,
            output.instances_spec() == instances@,
    {
        Self { participant, configuration_root, instances }
    }

    /// Rebuild a batch output from persisted parts: at least one instance,
    /// each holding the participant's own public share, all over the same
    /// participants.
    pub fn from_persisted_parts(
        participant: ParticipantIndex,
        configuration_root: TranscriptRoot,
        instances: Vec<DkgInstanceOutput<G>>,
    ) -> (result: Result<Self, Error>)
        ensures
            result is Ok <==> persisted_output_valid::<G>(participant, instances@),
            result matches Ok(output) ==> output.participant_spec() == participant
                && output.configuration_root_spec() == configuration_root
                && output.instances_spec() == instances@,
            result is Err ==> result == Err::<Self, Error>(Error::InvalidEncoding),
    {
        if instances.len() == 0 {
            return Err(Error::InvalidEncoding);
        }
        let first = instances[0].public_key_shares();
        let mut i: usize = 0;
        while i < instances.len()
            invariant
                i <= instances@.len(),
                instances@.len() > 0,
                first@ == instances@[0].shares_spec(),
                forall|ii: int|
                    0 <= ii < i ==> has_local_share::<G>(
                        (#[trigger] instances@[ii]).shares_spec(),
                        participant,
                        instances@[ii].secret_share_spec(),
                    ) && share_participants(instances@[ii].shares_spec()) == share_participants(
                        instances@[0].shares_spec(),
                    ),
            decreases instances@.len() - i,
        {
            let instance = &instances[i];
            if !local_share_present::<G>(instance, participant)
                || !same_participants::<G>(instance.public_key_shares(), first) {
                return Err(Error::InvalidEncoding);
            }
            i = i + 1;
        }
        Ok(Self { participant, configuration_root, instances })
    }

    /// Return the participant whose local secret shares this output
    /// contains.
    pub fn participant(&self) -> (participant: ParticipantIndex)
        ensures
            participant == self.participant_spec(),
    {
        self.participant
    }

    /// Return the configuration root accepted during completion.
    pub fn configuration_root(&self) -> (root: TranscriptRoot)
        ensures
            root == self.configuration_root_spec(),
    {
        self.configuration_root
    }

    /// Return completed instances in configuration order.
    pub fn instances(&self) -> (instances: &[DkgInstanceOutput<G>])
        ensures
            instances@ == self.instances_spec(),
    {
        self.instances.as_slice()
    }

    /// Return one completed instance by configuration position.
    pub fn instance(&self, position: usize) -> (instance: Option<&DkgInstanceOutput<G>>)
        ensures
            position < self.instances_spec().len() ==> instance == Some(
                &self.instances_spec()[position as int],
            ),
            position >= self.instances_spec().len() ==> instance is None,
    {
        if position < self.instances.len() {
            Some(&self.instances[position])
        } else {
            None
        }
    }

    /// Derive the identity of the common public DKG result.
    pub fn completion_root(&self) -> (root: TranscriptRoot)
        ensures
            root@ == sha256_spec(
                completion_preimage::<G>(self.configuration_root_spec()@, self.instances_spec()),
            ),
    {
        completion_root_from_public::<G>(self.configuration_root, self.instances.as_slice())
    }
}

/// Whether the instance holds, for `participant`, the generator times its
/// secret share.
fn local_share_present<G: GoldenGroup>(instance: &DkgInstanceOutput<G>, participant: ParticipantIndex) -> (present: bool)
    ensures
        present == has_local_share::<G>(
            instance.shares_spec(),
            participant,
            instance.secret_share_spec(),
        ),
{
    proof {
        use_type_invariant(instance);
    }
    let shares = instance.public_key_shares();
    let local = G::mul_generator(instance.secret_share());
    let mut k: usize = 0;
    while k < shares.len()
        invariant
            k <= shares@.len(),
            shares@ == instance.shares_spec(),
            G::element_wf(local),
            G::dlog(local) == instance.secret_share_spec().value(),
            forall|t: int| 0 <= t < shares@.len() ==> G::element_wf(#[trigger] shares@[t].1),
            forall|t: int|
                0 <= t < k ==> !((#[trigger] shares@[t]).0@ == participant@ && G::dlog(shares@[t].1)
                    == instance.secret_share_spec().value()),
        decreases shares@.len() - k,
    {
        if shares[k].0.get() == participant.get() && G::element_eq(&shares[k].1, &local) {
            return true;
        }
        k = k + 1;
    }
    false
}

/// Whether two share lists name the same participants in the same order.
fn same_participants<G: GoldenGroup>(
    a: &[(ParticipantIndex, G::Element)],
    b: &[(ParticipantIndex, G::Element)],
) -> (same: bool)
    ensures
        same == (share_participants(a@) == share_participants(b@)),
{
    if a.len() != b.len() {
        proof {
            assert(share_participants(a@).len() != share_participants(b@).len());
        }
        return false;
    }
    let mut k: usize = 0;
    while k < a.len()
        invariant
            k <= a@.len(),
            a@.len() == b@.len(),
            forall|t: int| 0 <= t < k ==> (#[trigger] a@[t]).0 == b@[t].0,
        decreases a@.len() - k,
    {
        if a[k].0.get() != b[k].0.get() {
            proof {
                assert(share_participants(a@)[k as int] != share_participants(b@)[k as int]);
            }
            return false;
        }
        proof {
            crate::participant::lemma_participant_view_eq(a@[k as int].0, b@[k as int].0);
        }
        k = k + 1;
    }
    proof {
        assert(share_participants(a@) =~= share_participants(b@));
    }
    true
}

} // verus!
