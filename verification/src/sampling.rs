//! What the ack rate of a set of slots depends on, and what it does not depend on.
use vstd::prelude::*;

use crate::datum::one;
use crate::laws::{law_losses_lower_rate, law_lower_rate_sends_more, lemma_rate_in_range};
use crate::model::{oldest_counted, sampled_acks, sampled_losses, BrutalState, Slot};

verus! {

/// Rating the slots gives a rate between the floor and one, which is never zero, a NaN
/// or infinite where the floor is a number.
pub proof fn law_rate_in_range(state: BrutalState, skip: int)
    requires
        state.config.valid(),
        state.acks_beside(skip) + state.losses_beside(skip) <= u64::MAX,
    ensures
        ({
            let floor = state.config.min_ack_rate;
            let rate = state.rated_beside(skip).ack_rate;
            &&& rate is Finite
            &&& !rate.negative()
            &&& rate.at_most(one())
            &&& floor is Nan || (floor.at_most(rate) && rate.position() > 0)
        }),
{
    lemma_rate_in_range(
        state.acks_beside(skip),
        state.losses_beside(skip),
        state.config.min_ack_rate,
    );
}

/// Rating the slots changes nothing but the ack rate, and doing it again changes nothing.
pub proof fn law_rating_changes_rate_only(state: BrutalState, skip: int)
    ensures
        state.rated_beside(skip) == (BrutalState {
            ack_rate: state.rated_beside(skip).ack_rate,
            ..state
        }),
        state.rated_beside(skip).rated_beside(skip) == state.rated_beside(skip),
{
}

/// The slots `more` have counted the same acknowledgements as `slots`, and no fewer losses.
pub open spec fn no_fewer_losses(slots: Seq<Slot>, more: Seq<Slot>) -> bool {
    &&& slots.len() == more.len()
    &&& forall|i: int|
        0 <= i < slots.len() ==> {
            &&& #[trigger] slots[i].second == more[i].second
            &&& slots[i].acks == more[i].acks
            &&& slots[i].losses <= more[i].losses
        }
}

proof fn lemma_sample_with_losses(
    slots: Seq<Slot>,
    more: Seq<Slot>,
    skip: int,
    oldest: nat,
    n: nat,
)
    requires
        no_fewer_losses(slots, more),
        n <= slots.len(),
    ensures
        sampled_acks(slots, skip, oldest, n) == sampled_acks(more, skip, oldest, n),
        sampled_losses(slots, skip, oldest, n) <= sampled_losses(more, skip, oldest, n),
    decreases n,
{
    if n > 0 {
        lemma_sample_with_losses(slots, more, skip, oldest, (n - 1) as nat);
        assert(slots[n - 1].second == more[n - 1].second);
    }
}

/// More losses in the slots never raise the ack rate, and so never make the window smaller
/// or the pace slower.
pub proof fn law_losses_in_slots(state: BrutalState, more: Seq<Slot>, skip: int)
    requires
        state.config.valid(),
        no_fewer_losses(state.slots, more),
        ({
            let lossy = BrutalState { slots: more, ..state };
            lossy.acks_beside(skip) + lossy.losses_beside(skip) <= u64::MAX
        }),
    ensures
        ({
            let rated = state.rated_beside(skip);
            let lossy = BrutalState { slots: more, ..state }.rated_beside(skip);
            &&& lossy.ack_rate.at_most(rated.ack_rate)
            &&& rated.window() <= lossy.window()
            &&& rated.pacing_rate() <= lossy.pacing_rate()
        }),
{
    let lossy = BrutalState { slots: more, ..state };
    lemma_sample_with_losses(
        state.slots,
        more,
        skip,
        oldest_counted(state.second),
        state.slots.len(),
    );
    law_losses_lower_rate(
        state.acks_beside(skip),
        state.losses_beside(skip),
        lossy.losses_beside(skip),
        state.config.min_ack_rate,
    );
    law_rate_in_range(state, skip);
    law_rate_in_range(lossy, skip);
    law_lower_rate_sends_more(state.rated_beside(skip), lossy.rated_beside(skip).ack_rate);
}

/// `slots` and `other` differ at most in the slot `skip` and in slots of which both are
/// older than the second `oldest`.
pub open spec fn alike(slots: Seq<Slot>, other: Seq<Slot>, skip: int, oldest: nat) -> bool {
    &&& slots.len() == other.len()
    &&& forall|i: int|
        0 <= i < slots.len() && i != skip ==> #[trigger] slots[i] == other[i] || (slots[i].second
            < oldest && other[i].second < oldest)
}

proof fn lemma_sample_of_alike(slots: Seq<Slot>, other: Seq<Slot>, skip: int, oldest: nat, n: nat)
    requires
        alike(slots, other, skip, oldest),
        n <= slots.len(),
    ensures
        sampled_acks(slots, skip, oldest, n) == sampled_acks(other, skip, oldest, n),
        sampled_losses(slots, skip, oldest, n) == sampled_losses(other, skip, oldest, n),
    decreases n,
{
    if n > 0 {
        lemma_sample_of_alike(slots, other, skip, oldest, (n - 1) as nat);
        assert(n - 1 != skip ==> slots[n - 1] == other[n - 1] || (slots[n - 1].second < oldest
            && other[n - 1].second < oldest));
    }
}

/// Neither the slot that is left out nor a stale one has any influence on the ack rate.
pub proof fn law_idle_slots_do_not_count(state: BrutalState, other: Seq<Slot>, skip: int)
    requires
        alike(state.slots, other, skip, oldest_counted(state.second)),
    ensures
        state.rated_beside(skip).ack_rate == (BrutalState { slots: other, ..state }).rated_beside(
            skip,
        ).ack_rate,
{
    lemma_sample_of_alike(
        state.slots,
        other,
        skip,
        oldest_counted(state.second),
        state.slots.len(),
    );
}

} // verus!
