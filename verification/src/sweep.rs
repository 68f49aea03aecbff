//! Dropping the slots that no subscriber can ask for any more.
use crate::invalid::InvalidBlock;
use crate::ordered::{sorted_keys, take};
use crate::slot_messages::{SlotMessages, SlotView};
use std::collections::BTreeMap;
use vstd::prelude::*;

verus! {

/// The stored slots by their state.
pub open spec fn views(messages: Map<u64, SlotMessages>) -> Map<u64, SlotView> {
    messages.map_values(|entry: SlotMessages| entry@)
}

/// The slots from `cutoff` on.
pub open spec fn kept_from(slots: Map<u64, SlotView>, cutoff: u64) -> Map<u64, SlotView> {
    slots.restrict(Set::new(|slot: u64| cutoff <= slot))
}

/// The slots below `cutoff`, in ascending order.
pub open spec fn dropped_before(slots: Map<u64, SlotView>, cutoff: u64) -> Seq<u64> {
    crate::ordered::in_order(slots.dom().filter(|slot: u64| slot < cutoff))
}

/// The earliest stored slot.
pub open spec fn earliest_slot(slots: Map<u64, SlotView>) -> Option<u64> {
    let order = crate::ordered::in_order(slots.dom());
    if order.len() == 0 {
        None
    } else {
        Some(order[0])
    }
}

/// The earliest stored slot is the smallest of them; there is none only where none is stored.
pub proof fn lemma_earliest_slot(slots: Map<u64, SlotView>)
    requires
        slots.dom().finite(),
    ensures
        match earliest_slot(slots) {
            Some(earliest) => {
                &&& slots.contains_key(earliest)
                &&& forall|slot: u64| #[trigger] slots.contains_key(slot) ==> earliest <= slot
            },
            None => forall|slot: u64| !(#[trigger] slots.contains_key(slot)),
        },
{
    crate::ordered::lemma_finite_set_has_an_order(slots.dom());
    if earliest_slot(slots) is None {
        assert(slots.dom() =~= Set::empty());
    }
}

/// What is reported of a slot that is dropped: nothing up to the first slot that was processed
/// here, since those were cut off by the start.
pub open spec fn reported(
    slots: Map<u64, SlotView>,
    slot: u64,
    processed_first: Option<u64>,
) -> Option<InvalidBlock> {
    match processed_first {
        Some(first) => if first < slot {
            slots[slot].failure(slot)
        } else {
            None
        },
        None => None,
    }
}

/// What is reported of the slots of `order`, in that order.
pub open spec fn failures(
    slots: Map<u64, SlotView>,
    order: Seq<u64>,
    processed_first: Option<u64>,
) -> Seq<InvalidBlock>
    decreases order.len(),
{
    if order.len() == 0 {
        Seq::empty()
    } else {
        let before = failures(slots, order.drop_last(), processed_first);
        match reported(slots, order.last(), processed_first) {
            Some(found) => before.push(found),
            None => before,
        }
    }
}

/// Drops every slot below `cutoff`, reports on them, and returns the earliest slot that is left.
pub fn drop_before(
    messages: &mut BTreeMap<u64, SlotMessages>,
    cutoff: u64,
    processed_first: Option<u64>,
    invalid: &mut Vec<InvalidBlock>,
) -> (earliest: Option<u64>)
    ensures
        views(final(messages)@) == kept_from(views(old(messages)@), cutoff),
        final(invalid)@ == old(invalid)@ + failures(
            views(old(messages)@),
            dropped_before(views(old(messages)@), cutoff),
            processed_first,
        ),
        earliest == earliest_slot(views(final(messages)@)),
{
    let ghost before = messages@;
    let ghost slots = views(messages@);
    let keys: Vec<u64> = sorted_keys(messages);
    let mut i: usize = 0;
    while i < keys.len() && keys[i] < cutoff
        invariant
            i <= keys@.len(),
            before == old(messages)@,
            slots == views(before),
            crate::ordered::enumerates(keys@, before.dom()),
            forall|j: int| 0 <= j < i ==> keys@[j] < cutoff,
            messages@ == before.remove_keys(keys@.take(i as int).to_set()),
            invalid@ == old(invalid)@ + failures(slots, keys@.take(i as int), processed_first),
        decreases keys@.len() - i,
    {
        let slot: u64 = keys[i];
        proof {
            assert(keys@.contains(slot));
            assert(!keys@.take(i as int).contains(slot)) by {
                if keys@.take(i as int).contains(slot) {
                    let j = choose|j: int| 0 <= j < i && keys@.take(i as int)[j] == slot;
                    assert(keys@[j] < keys@[i as int]);
                }
            }
            assert(keys@.take(i + 1).drop_last() =~= keys@.take(i as int));
            assert(keys@.take(i + 1) =~= keys@.take(i as int).push(slot));
            keys@.take(i as int).lemma_push_to_set_commute(slot);
        }
        if let Some(entry) = take(messages, slot) {
            assert(slots[slot] == entry@);
            if let Some(first) = processed_first {
                if first < slot {
                    if let Some(found) = entry.find_failure(slot) {
                        invalid.push(found);
                    }
                }
            }
        }
        assert(messages@ =~= before.remove_keys(keys@.take(i + 1).to_set()));
        i = i + 1;
    }
    let earliest: Option<u64> = if i < keys.len() {
        Some(keys[i])
    } else {
        None
    };
    proof {
        let gone = keys@.take(i as int);
        let left = keys@.skip(i as int);
        let dropped = slots.dom().filter(|slot: u64| slot < cutoff);
        assert(slots.dom() =~= before.dom());
        assert forall|k: u64| #[trigger] gone.contains(k) <==> dropped.contains(k) by {
            if gone.contains(k) {
                let j = choose|j: int| 0 <= j < gone.len() && gone[j] == k;
                assert(keys@[j] == k);
                assert(keys@.contains(k));
            }
            if dropped.contains(k) {
                assert(keys@.contains(k));
                let j = choose|j: int| 0 <= j < keys@.len() && keys@[j] == k;
                if i <= j && i < j {
                    assert(keys@[i as int] < keys@[j]);
                }
                assert(gone[j] == k);
            }
        }
        crate::ordered::lemma_in_order(gone, dropped);
        let kept = kept_from(slots, cutoff);
        assert forall|k: u64| #[trigger] left.contains(k) <==> kept.dom().contains(k) by {
            if left.contains(k) {
                let j = choose|j: int| 0 <= j < left.len() && left[j] == k;
                assert(keys@[j + i] == k);
                assert(keys@.contains(k));
                if j > 0 {
                    assert(keys@[i as int] < keys@[j + i]);
                }
            }
            if kept.dom().contains(k) {
                assert(keys@.contains(k));
                let j = choose|j: int| 0 <= j < keys@.len() && keys@[j] == k;
                assert(left[j - i] == k);
            }
        }
        crate::ordered::lemma_in_order(left, kept.dom());
        assert forall|k: u64| #[trigger] messages@.contains_key(k) <==> kept.contains_key(k) by {
            assert(gone.contains(k) <==> dropped.contains(k));
            assert(gone.to_set().contains(k) <==> gone.contains(k));
        }
        assert(views(messages@) =~= kept);
    }
    earliest
}

} // verus!
