//! The ancestors of a slot that were never told of a status which their descendant has reached.
use crate::message::SlotStatus;
use crate::slot_messages::SlotView;
use vstd::prelude::*;

verus! {

/// The parent of `slot`, if it is stored and does not have `status` yet.
pub open spec fn missing_parent(
    slots: Map<u64, SlotView>,
    slot: u64,
    status: SlotStatus,
) -> Option<u64> {
    if slots.contains_key(slot) {
        match slots[slot].parent_slot {
            Some(parent) => if slots.contains_key(parent) && !slots[parent].has(status) {
                Some(parent)
            } else {
                None
            },
            None => None,
        }
    } else {
        None
    }
}

/// The stored slots that do not have `status` yet.
pub open spec fn without(slots: Map<u64, SlotView>, status: SlotStatus) -> Set<u64> {
    slots.dom().filter(|slot: u64| !slots[slot].has(status))
}

/// The slots after `status` was noted on one of them.
pub open spec fn with_marked(
    slots: Map<u64, SlotView>,
    slot: u64,
    status: SlotStatus,
) -> Map<u64, SlotView> {
    slots.insert(slot, slots[slot].marked(status))
}

/// The ancestors of `slot` that miss `status`, nearest first, up to the first that has it or is
/// not stored.
pub open spec fn missed_ancestors(
    slots: Map<u64, SlotView>,
    slot: u64,
    status: SlotStatus,
) -> Seq<u64>
    decreases without(slots, status).len(),
    when slots.dom().finite()
{
    match missing_parent(slots, slot, status) {
        Some(parent) => {
            proof {
                lemma_marking_shrinks(slots, parent, status);
            }
            seq![parent] + missed_ancestors(with_marked(slots, parent, status), parent, status)
        },
        None => Seq::empty(),
    }
}

/// Noting the status on a slot that misses it leaves one slot less that misses it.
pub proof fn lemma_marking_shrinks(slots: Map<u64, SlotView>, slot: u64, status: SlotStatus)
    requires
        slots.dom().finite(),
        slots.contains_key(slot),
        !slots[slot].has(status),
    ensures
        with_marked(slots, slot, status).dom() == slots.dom(),
        without(with_marked(slots, slot, status), status) == without(slots, status).remove(slot),
        without(slots, status).finite(),
        without(slots, status).contains(slot),
        without(with_marked(slots, slot, status), status).len() < without(slots, status).len(),
{
    let after = with_marked(slots, slot, status);
    assert(after.dom() =~= slots.dom());
    slots.dom().lemma_len_filter(|s: u64| !slots[s].has(status));
    assert(without(after, status) =~= without(slots, status).remove(slot));
}

/// The missed ancestors are distinct stored slots that miss the status. Each is the parent of
/// the one before it, the first that of `slot`. The walk ends only where there is no such parent
/// that is not listed yet.
pub proof fn lemma_missed_ancestors(slots: Map<u64, SlotView>, slot: u64, status: SlotStatus)
    requires
        slots.dom().finite(),
    ensures
        ({
            let missed = missed_ancestors(slots, slot, status);
            let last = if missed.len() == 0 {
                slot
            } else {
                missed.last()
            };
            &&& missed.no_duplicates()
            &&& missed.len() <= without(slots, status).len() <= slots.dom().len()
            &&& forall|k: int|
                0 <= k < missed.len() ==> slots.contains_key(#[trigger] missed[k])
                    && !slots[missed[k]].has(status)
            &&& missed.len() > 0 ==> slots.contains_key(slot) && slots[slot].parent_slot == Some(
                missed[0],
            )
            &&& forall|k: int|
                0 < k < missed.len() ==> slots[missed[k - 1]].parent_slot == Some(#[trigger] missed[k])
            &&& missing_parent(slots, last, status) matches Some(parent) ==> missed.contains(parent)
        }),
    decreases without(slots, status).len(),
{
    slots.dom().lemma_len_filter(|s: u64| !slots[s].has(status));
    let missed = missed_ancestors(slots, slot, status);
    if let Some(parent) = missing_parent(slots, slot, status) {
        let after = with_marked(slots, parent, status);
        lemma_marking_shrinks(slots, parent, status);
        lemma_missed_ancestors(after, parent, status);
        let rest = missed_ancestors(after, parent, status);
        assert(missed =~= seq![parent] + rest);
        assert forall|k: int| 0 <= k < missed.len() implies slots.contains_key(#[trigger] missed[k])
            && !slots[missed[k]].has(status) by {
            if k > 0 {
                assert(missed[k] == rest[k - 1]);
            }
        }
        assert forall|k: int| 0 < k < missed.len() implies slots[missed[k - 1]].parent_slot == Some(
            #[trigger] missed[k],
        ) by {
            assert(missed[k] == rest[k - 1]);
            if k > 1 {
                assert(missed[k - 1] == rest[k - 2]);
            }
        }
        assert(missed.no_duplicates()) by {
            assert forall|i: int, j: int|
                0 <= i < missed.len() && 0 <= j < missed.len() && i != j implies missed[i]
                != missed[j] by {
                if i > 0 {
                    assert(missed[i] == rest[i - 1]);
                }
                if j > 0 {
                    assert(missed[j] == rest[j - 1]);
                }
            }
        }
        let last = missed.last();
        let rest_last = if rest.len() == 0 {
            parent
        } else {
            rest.last()
        };
        assert(last == rest_last);
        if let Some(next) = missing_parent(slots, last, status) {
            if next == parent {
                assert(missed[0] == parent);
            } else {
                assert(missing_parent(after, last, status) == Some(next));
                let k = choose|k: int| 0 <= k < rest.len() && rest[k] == next;
                assert(missed[k + 1] == next);
            }
        }
    }
}

/// Only of a confirmation and of a finalization are ancestors told.
pub proof fn lemma_other_statuses_are_not_passed_on(
    slots: Map<u64, SlotView>,
    slot: u64,
    status: SlotStatus,
)
    requires
        slots.dom().finite(),
        !(status is Confirmed),
        !(status is Finalized),
    ensures
        missed_ancestors(slots, slot, status) == Seq::<u64>::empty(),
{
    assert(missing_parent(slots, slot, status) is None);
}

} // verus!
