//! Ordering facts about the integer keys of ordered std collections.
use vstd::prelude::*;

verus! {

/// `u32` keys follow the total order that ordered std collections rely on.
pub proof fn lemma_u32_keys_ordered()
    ensures
        vstd::laws_cmp::obeys_cmp::<u32>(),
{
    broadcast use vstd::laws_cmp::group_laws_cmp;

}

} // verus!
