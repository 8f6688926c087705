//! Participant identifiers and interpolation points.
use vstd::prelude::*;

use crate::error::Error;
use crate::group::GoldenScalar;
use std::collections::BTreeSet;

verus! {

/// Public participant index.
///
/// Index zero is reserved for the polynomial secret `f(0)`.
#[derive(Clone, Copy, Debug, Eq, Ord, PartialEq, PartialOrd)]
pub struct ParticipantIndex(u32);

impl View for ParticipantIndex {
    type V = u32;

    closed spec fn view(&self) -> u32 {
        self.0
    }

}

/// The participant index holding `value`.
pub closed spec fn participant_from_raw(value: u32) -> ParticipantIndex {
    ParticipantIndex(value)
}

/// The index built from `value` holds `value`.
pub broadcast proof fn lemma_participant_from_raw(value: u32)
    ensures
        #[trigger] participant_from_raw(value)@ == value,
{
}

/// Two participant indexes holding the same value are equal.
pub proof fn lemma_participant_view_eq(a: ParticipantIndex, b: ParticipantIndex)
    requires
        a@ == b@,
    ensures
        a == b,
{
}

impl ParticipantIndex {
    #[verifier::type_invariant]
    spec fn nonzero(self) -> bool {
        self.0 != 0
    }

    /// Create a nonzero participant index.
    pub fn new(value: u32) -> (result: Result<Self, Error>)
        ensures
            value == 0 ==> result == Err::<Self, Error>(Error::ZeroParticipantIndex),
            value != 0 ==> result == Ok::<Self, Error>(participant_from_raw(value)),
    {
        if value == 0 {
            return Err(Error::ZeroParticipantIndex);
        }
        Ok(Self(value))
    }

    /// Return the raw integer value.
    pub fn get(self) -> (value: u32)
        ensures
            value == self@,
            value != 0,
    {
        proof {
            use_type_invariant(&self);
        }
        self.0
    }

    /// Convert this public index into a scalar interpolation point.
    pub fn to_scalar<S: GoldenScalar>(self) -> (result: Result<S, Error>)
        ensures
            result matches Ok(s) ==> s.wf() && s.value() == self@ as nat % S::field_order(),
            result is Ok <==> S::from_u64_succeeds(self@ as u64),
            result is Err ==> result == Err::<S, Error>(Error::InvalidEncoding),
    {
        let value = self.get();
        S::from_u64(value as u64)
    }
}

/// The participant at position `j` repeats the value of an earlier one.
pub open spec fn repeats_earlier(participants: Seq<ParticipantIndex>, j: int) -> bool {
    exists|i: int| 0 <= i < j && participants[i]@ == #[trigger] participants[j]@
}

/// No two positions hold the same participant value.
pub open spec fn all_distinct(participants: Seq<ParticipantIndex>) -> bool {
    forall|i: int, j: int|
        0 <= i < j < participants.len() ==> participants[i]@ != participants[j]@
}

/// Reject a participant list in which a value repeats, naming the first
/// repeated value in list order.
pub fn ensure_unique_participants(participants: &[ParticipantIndex]) -> (result: Result<
    (),
    Error,
>)
    ensures
        result is Ok <==> all_distinct(participants@),
        result matches Err(e) ==> exists|j: int|
            0 <= j < participants@.len() && repeats_earlier(participants@, j) && (forall|k: int|
                0 <= k < j ==> !repeats_earlier(participants@, k)) && e
                == Error::DuplicateParticipantIndex(participants@[j]@),
{
    broadcast use vstd::std_specs::btree::group_btree_axioms;
    proof {
        crate::order::lemma_u32_keys_ordered();
    }
    let mut seen: BTreeSet<u32> = BTreeSet::new();
    let mut idx: usize = 0;
    while idx < participants.len()
        invariant
            idx <= participants@.len(),
            forall|v: u32|
                seen@.contains(v) <==> exists|i: int| 0 <= i < idx && participants@[i]@ == v,
            forall|i: int, j: int| 0 <= i < j < idx ==> participants@[i]@ != participants@[j]@,
        decreases participants@.len() - idx,
    {
        let value = participants[idx].get();
        if !seen.insert(value) {
            proof {
                let j = idx as int;
                let i = choose|i: int| 0 <= i < idx && participants@[i]@ == value;
                assert(repeats_earlier(participants@, j));
                assert forall|k: int| 0 <= k < j implies !repeats_earlier(participants@, k) by {
                    if repeats_earlier(participants@, k) {
                        let i2 = choose|i2: int|
                            0 <= i2 < k && participants@[i2]@ == #[trigger] participants@[k]@;
                        assert(participants@[i2]@ != participants@[k]@);
                    }
                }
                assert(!all_distinct(participants@));
            }
            return Err(Error::DuplicateParticipantIndex(value));
        }
        idx = idx + 1;
    }
    Ok(())
}

} // verus!
