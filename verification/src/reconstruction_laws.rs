//! What holds of the reconstruction as a whole.
use crate::dedup::SlotStep;
use crate::message::{CommitmentLevel, Message, MessageBlock, Numbered, SlotStatus};
use crate::reconstruction::{DispatchItem, StateView};
use crate::slot_messages::SlotView;
use vstd::prelude::*;

verus! {

/// A message brings about at most one block and one status message per stored slot.
pub proof fn lemma_minted_is_bounded(state: StateView, id: u64, message: Message)
    requires
        state.wf(),
    ensures
        state.minted(id, message) <= state.slots.dom().len() + 2,
{
    let swept = state.swept(message);
    state.lemma_swept_keeps_wf(message);
    vstd::set_lib::lemma_len_subset(swept.slots.dom(), state.slots.dom());
    let filed = swept.filed(id, message);
    assert(filed.slots.dom() =~= swept.slots.dom().insert(message.slot()));
    if let Message::Slot(msg) = message {
        crate::ancestors::lemma_missed_ancestors(filed.slots, msg.slot, msg.status);
    }
}

/// Every number that a message leads to is the message's own or above all minted before it, and
/// no two items have the same number.
pub proof fn lemma_numbers_are_fresh(
    state: StateView,
    id: u64,
    message: Message,
    items: Seq<DispatchItem>,
    after: StateView,
)
    requires
        state.wf(),
        id <= state.last_id,
        state.last_id + state.minted(id, message) <= u64::MAX,
        state.dispatched(id, message, items, after),
    ensures
        after.last_id == state.last_id + state.minted(id, message),
        forall|i: int|
            0 <= i < items.len() ==> (#[trigger] items[i]).message.0 == id || state.last_id
                < items[i].message.0 <= after.last_id,
        forall|i: int, j: int|
            0 <= i < j < items.len() ==> (#[trigger] items[i]).message.0 != (
            #[trigger] items[j]).message.0,
{
    state.lemma_swept_keeps_wf(message);
    if state.seals(id, message) {
        state.swept(message).lemma_completes(id, message);
    }
    let missed = state.missed(id, message);
    assert forall|i: int| 0 <= i < items.len() implies (#[trigger] items[i]).message.0 == (if i
        < missed.len() {
        state.last_id + missed.len() - i
    } else if i == missed.len() {
        id as int
    } else {
        state.last_id + 1
    }) by {}
}

/// Two threads that mint from one source leave no number out and mint none twice: exactly the
/// numbers that were set aside for an update are those of what it brings about, each of one item.
pub proof fn lemma_reserved_numbers_are_used_up(
    state: StateView,
    id: u64,
    message: Message,
    items: Seq<DispatchItem>,
    after: StateView,
    number: u64,
)
    requires
        state.wf(),
        id <= state.last_id,
        state.last_id + state.minted(id, message) <= u64::MAX,
        state.dispatched(id, message, items, after),
        state.last_id < number <= state.last_id + state.minted(id, message),
    ensures
        after.last_id == state.last_id + state.minted(id, message),
        exists|i: int|
            {
                &&& 0 <= i < items.len()
                &&& (#[trigger] items[i]).message.0 == number
                &&& !items[i].is_raw_message
                &&& forall|j: int|
                    0 <= j < items.len() && (#[trigger] items[j]).message.0 == number ==> j == i
            },
{
    lemma_numbers_are_fresh(state, id, message, items, after);
    state.lemma_swept_keeps_wf(message);
    let missed = state.missed(id, message);
    let i = if state.seals(id, message) {
        state.swept(message).lemma_completes(id, message);
        items.len() - 1
    } else {
        state.last_id + missed.len() - number
    };
    assert(items[i].message.0 == number);
    assert(items[i].carries(after.slots, id));
    assert forall|j: int|
        0 <= j < items.len() && (#[trigger] items[j]).message.0 == number implies j == i by {
        if j < i {
            assert(items[j].message.0 != items[i].message.0);
        } else if i < j {
            assert(items[i].message.0 != items[j].message.0);
        }
    }
}

/// Exactly one item is marked as the message that came in, and it holds that message.
pub proof fn lemma_one_raw_item(
    state: StateView,
    id: u64,
    message: Message,
    items: Seq<DispatchItem>,
    after: StateView,
    i: int,
)
    requires
        state.wf(),
        id <= state.last_id,
        state.last_id + state.minted(id, message) <= u64::MAX,
        state.dispatched(id, message, items, after),
        0 <= i < items.len(),
    ensures
        items[i].is_raw_message <==> i == state.missed(id, message).len(),
        items[i].is_raw_message ==> items[i].message == (id, message),
{
    let at = state.missed(id, message).len() as int;
    lemma_numbers_are_fresh(state, id, message, items, after);
    assert(items[i].carries(after.slots, id));
    assert(items[at].message == (id, message));
    if i < at {
        assert(items[i].message.0 != items[at].message.0);
    } else if at < i {
        assert(items[at].message.0 != items[i].message.0);
    }
}

/// A message that reports no missed status goes out before the block that it completes, so that
/// the numbers rise.
pub proof fn lemma_numbers_rise_without_backfill(
    state: StateView,
    id: u64,
    message: Message,
    items: Seq<DispatchItem>,
    after: StateView,
)
    requires
        state.wf(),
        id <= state.last_id,
        state.last_id + state.minted(id, message) <= u64::MAX,
        state.dispatched(id, message, items, after),
        state.missed(id, message).len() == 0,
    ensures
        forall|i: int, j: int|
            0 <= i < j < items.len() ==> (#[trigger] items[i]).message.0 < (
            #[trigger] items[j]).message.0,
        items[0].message == (id, message),
{
}

/// The status messages that a message brings about go out before it, the oldest ancestor first,
/// so that the numbers fall.
pub proof fn lemma_numbers_fall_with_backfill(
    state: StateView,
    id: u64,
    message: Message,
    items: Seq<DispatchItem>,
    after: StateView,
)
    requires
        state.wf(),
        id <= state.last_id,
        state.last_id + state.minted(id, message) <= u64::MAX,
        state.dispatched(id, message, items, after),
        state.missed(id, message).len() > 0,
    ensures
        forall|i: int, j: int|
            0 <= i < j < items.len() ==> (#[trigger] items[i]).message.0 > (
            #[trigger] items[j]).message.0,
        items.last().message == (id, message),
{
    state.lemma_swept_keeps_wf(message);
    if state.seals(id, message) {
        state.swept(message).lemma_completes(id, message);
    }
    let missed = state.missed(id, message);
    assert forall|i: int| 0 <= i < missed.len() implies (#[trigger] items[i]).message.0
        == state.last_id + missed.len() - i by {}
}

/// A finalized slot drops exactly the slots more than the safety buffer and the replay buffer
/// behind it; no other message drops any.
pub proof fn lemma_retention_boundary(
    state: StateView,
    id: u64,
    message: Message,
    items: Seq<DispatchItem>,
    after: StateView,
    slot: u64,
)
    requires
        state.wf(),
        state.dispatched(id, message, items, after),
    ensures
        after.slots.contains_key(slot) <==> slot == message.slot() || {
            &&& state.slots.contains_key(slot)
            &&& (message is Slot && message->Slot_0.status is Finalized) ==> message.slot()
                <= slot + state.retained()
        },
{
}

/// Once the block of a slot was sent out, no later message makes it complete again.
pub proof fn lemma_sealed_once(state: StateView, id: u64, message: Message)
    requires
        state.wf(),
        state.entry(message.slot()).sealed,
    ensures
        !state.seals(id, message),
{
}

/// A slot stays sealed for as long as it is stored.
pub proof fn lemma_stays_sealed(
    state: StateView,
    id: u64,
    message: Message,
    items: Seq<DispatchItem>,
    after: StateView,
    slot: u64,
)
    requires
        state.wf(),
        state.dispatched(id, message, items, after),
        state.slots.contains_key(slot),
        state.slots[slot].sealed,
        after.slots.contains_key(slot),
    ensures
        after.slots[slot].sealed,
{
}

/// A block goes out with the message that makes its counts match, and with no other.
pub proof fn lemma_block_goes_out_with_last_part(
    state: StateView,
    id: u64,
    message: Message,
    items: Seq<DispatchItem>,
    after: StateView,
)
    requires
        state.wf(),
        state.dispatched(id, message, items, after),
        !(message is Block),
    ensures
        (exists|i: int| 0 <= i < items.len() && (#[trigger] items[i]).message.1 is Block)
            <==> state.swept(message).entry(message.slot()).received(id, message).ready(),
{
    state.lemma_swept_keeps_wf(message);
    let missed = state.missed(id, message);
    if state.seals(id, message) {
        assert(items[items.len() - 1].message.1 is Block);
    } else {
        assert forall|i: int| 0 <= i < items.len() implies !((
        #[trigger] items[i]).message.1 is Block) by {
            if i < missed.len() {
                assert(items[i].message.1 is Slot);
            }
        }
    }
}

/// After a slot has reached a status, it and every ancestor that was told has it, and the walk
/// ended only at a slot whose parent has it too or is not stored.
pub proof fn lemma_status_reaches_ancestors(
    state: StateView,
    id: u64,
    message: Message,
    items: Seq<DispatchItem>,
    after: StateView,
)
    requires
        state.wf(),
        state.dispatched(id, message, items, after),
        message is Slot,
    ensures
        ({
            let status = message->Slot_0.status;
            let missed = state.missed(id, message);
            let last = if missed.len() == 0 {
                message.slot()
            } else {
                missed.last()
            };
            &&& after.slots.contains_key(message.slot())
            &&& after.slots[message.slot()].has(status)
            &&& forall|k: int|
                0 <= k < missed.len() ==> after.slots.contains_key(#[trigger] missed[k])
                    && after.slots[missed[k]].has(status)
            &&& after.slots[last].parent_slot matches Some(parent) ==> (
            !after.slots.contains_key(parent) || after.slots[parent].has(status))
        }),
{
    let msg = message->Slot_0;
    let status = msg.status;
    let missed = state.missed(id, message);
    let filed = state.swept(message).filed(id, message);
    state.lemma_swept_keeps_wf(message);
    assert(filed.slots.dom() =~= state.swept(message).slots.dom().insert(message.slot()));
    crate::ancestors::lemma_missed_ancestors(filed.slots, msg.slot, status);
    assert forall|k: int| 0 <= k < missed.len() implies after.slots.contains_key(
        #[trigger] missed[k],
    ) && after.slots[missed[k]].has(status) by {
        assert(missed.contains(missed[k]));
        assert(filed.slots.contains_key(missed[k]));
    }
    let last = if missed.len() == 0 {
        message.slot()
    } else {
        missed.last()
    };
    if missed.len() > 0 {
        assert(missed.contains(missed[missed.len() - 1]));
        assert(filed.slots.contains_key(missed[missed.len() - 1]));
    }
    assert(filed.slots.contains_key(last));
    assert(after.slots[last].parent_slot == filed.slots[last].parent_slot);
    if let Some(parent) = filed.slots[last].parent_slot {
        if filed.slots.contains_key(parent) && !filed.slots[parent].has(status) {
            assert(crate::ancestors::missing_parent(filed.slots, last, status) == Some(parent));
            assert(missed.contains(parent));
        }
    }
}

/// No ancestor is told of a status twice by one message, and none that had it before.
pub proof fn lemma_told_once(state: StateView, id: u64, message: Message)
    requires
        state.wf(),
        message is Slot,
    ensures
        state.missed(id, message).no_duplicates(),
        !state.missed(id, message).contains(message.slot()),
        forall|k: int|
            0 <= k < state.missed(id, message).len() ==> !state.entry(
                #[trigger] state.missed(id, message)[k],
            ).has(message->Slot_0.status),
{
    let msg = message->Slot_0;
    let missed = state.missed(id, message);
    let filed = state.swept(message).filed(id, message);
    state.lemma_swept_keeps_wf(message);
    assert(filed.slots.dom() =~= state.swept(message).slots.dom().insert(message.slot()));
    crate::ancestors::lemma_missed_ancestors(filed.slots, msg.slot, msg.status);
    assert(filed.slots[message.slot()].has(msg.status));
    if missed.contains(message.slot()) {
        let k = choose|k: int| 0 <= k < missed.len() && missed[k] == message.slot();
        assert(!filed.slots[missed[k]].has(msg.status));
    }
    assert forall|k: int| 0 <= k < missed.len() implies !state.entry(#[trigger] missed[k]).has(
        msg.status,
    ) by {
        assert(missed.contains(missed[k]));
        assert(filed.slots.contains_key(missed[k]) && !filed.slots[missed[k]].has(msg.status));
        assert(missed[k] != message.slot());
    }
}

/// Every message that a slot holds is about that slot.
pub open spec fn holds_own(slot: u64, entry: SlotView) -> bool {
    &&& forall|i: int|
        0 <= i < entry.messages.len() ==> ((#[trigger] entry.messages[i]) matches Some(numbered)
            ==> numbered.1.slot() == slot)
    &&& forall|i: int|
        0 <= i < entry.messages_slots.len() ==> (#[trigger] entry.messages_slots[i]).1.slot()
            == slot
    &&& entry.block_meta matches Some(meta) ==> meta.slot == slot
}

/// Every message is stored under its own slot.
pub open spec fn stored_by_slot(slots: Map<u64, SlotView>) -> bool {
    forall|slot: u64| slots.contains_key(slot) ==> #[trigger] holds_own(slot, slots[slot])
}

/// A message goes to its own slot only, and so does the block that it completes.
pub proof fn lemma_stays_stored_by_slot(
    state: StateView,
    id: u64,
    message: Message,
    items: Seq<DispatchItem>,
    after: StateView,
)
    requires
        state.wf(),
        stored_by_slot(state.slots),
        state.dispatched(id, message, items, after),
    ensures
        stored_by_slot(after.slots),
{
    let slot = message.slot();
    let swept = state.swept(message);
    let filed = swept.filed(id, message);
    state.lemma_swept_keeps_wf(message);
    assert(stored_by_slot(swept.slots)) by {
        assert forall|s: u64| swept.slots.contains_key(s) implies #[trigger] holds_own(
            s,
            swept.slots[s],
        ) by {
            assert(holds_own(s, state.slots[s]));
        }
    }
    let entry = swept.entry(slot);
    if swept.slots.contains_key(slot) {
        assert(holds_own(slot, swept.slots[slot]));
        assert(swept.slots[slot].wf());
    }
    assert(holds_own(slot, entry));
    let received = entry.received(id, message);
    assert(holds_own(slot, received)) by {
        if let Message::Account(msg) = message {
            let key = crate::message::address_key(msg.account.pubkey@);
            if entry.latest.contains_key(key) {
                assert(entry.points_at_image(key));
            }
        }
    }
    assert forall|s: u64| after.slots.contains_key(s) implies #[trigger] holds_own(
        s,
        after.slots[s],
    ) by {
        if s != slot {
            assert(holds_own(s, swept.slots[s]));
        }
        if s == slot && state.seals(id, message) {
            swept.lemma_completes(id, message);
            let block = items.last().message;
            assert(after.slots[s] == received.sealed_as(block));
        }
    }
}

/// A replay holds only messages of the slots that were asked for.
pub proof fn lemma_replay_is_in_range(
    slots: Map<u64, SlotView>,
    order: Seq<u64>,
    commitment: CommitmentLevel,
    replay_slot: u64,
    i: int,
)
    requires
        stored_by_slot(slots),
        forall|k: int| 0 <= k < order.len() ==> slots.contains_key(#[trigger] order[k]),
        0 <= i < crate::reconstruction::replayed(slots, order, commitment, replay_slot).len(),
    ensures
        crate::reconstruction::replayed(slots, order, commitment, replay_slot)[i].1.slot()
            >= replay_slot,
    decreases order.len(),
{
    let rest = order.drop_last();
    let before = crate::reconstruction::replayed(slots, rest, commitment, replay_slot);
    assert forall|k: int| 0 <= k < rest.len() implies slots.contains_key(#[trigger] rest[k]) by {
        assert(rest[k] == order[k]);
    }
    if i < before.len() {
        lemma_replay_is_in_range(slots, rest, commitment, replay_slot, i);
    } else {
        let slot = order.last();
        assert(slot == order[order.len() - 1]);
        let entry = slots[slot];
        assert(holds_own(slot, entry));
        let k = i - before.len();
        if k >= entry.messages_slots.len() {
            let at = crate::dedup::lemma_survivor_is_held(
                entry.messages,
                k - entry.messages_slots.len(),
            );
            assert(entry.messages[at] is Some);
        }
    }
}

/// A replay leaves out nothing of the slots that were asked for: neither a status, nor, where
/// the slot has reached the commitment, anything else that it holds.
pub proof fn lemma_replay_is_complete(
    slots: Map<u64, SlotView>,
    order: Seq<u64>,
    commitment: CommitmentLevel,
    replay_slot: u64,
    at: int,
    k: int,
)
    requires
        0 <= at < order.len(),
        replay_slot <= order[at],
        0 <= k < crate::reconstruction::replayed_slot(slots[order[at]], commitment).len(),
    ensures
        crate::reconstruction::replayed(slots, order, commitment, replay_slot).contains(
            crate::reconstruction::replayed_slot(slots[order[at]], commitment)[k],
        ),
    decreases order.len(),
{
    let rest = order.drop_last();
    let before = crate::reconstruction::replayed(slots, rest, commitment, replay_slot);
    let all = crate::reconstruction::replayed(slots, order, commitment, replay_slot);
    let wanted = crate::reconstruction::replayed_slot(slots[order[at]], commitment)[k];
    if at == order.len() - 1 {
        assert(all[before.len() + k] == wanted);
    } else {
        assert(rest[at] == order[at]);
        lemma_replay_is_complete(slots, rest, commitment, replay_slot, at, k);
        let i = choose|i: int| 0 <= i < before.len() && before[i] == wanted;
        assert(all[i] == wanted);
    }
}

/// What a message does to a slot, step by step.
pub open spec fn steps_taken(
    state: StateView,
    id: u64,
    message: Message,
    block: Option<Numbered>,
    slot: u64,
) -> Seq<SlotStep> {
    match message {
        Message::Slot(msg) => if state.missed(id, message).contains(slot) {
            seq![SlotStep::Marked(msg.status), SlotStep::Recorded(msg.status)]
        } else if slot == msg.slot {
            seq![SlotStep::Received(id, message), SlotStep::Recorded(msg.status)]
        } else {
            Seq::empty()
        },
        _ => if slot == message.slot() {
            match block {
                Some(block) => seq![SlotStep::Received(id, message), SlotStep::Sealed(block)],
                None => seq![SlotStep::Received(id, message)],
            }
        } else {
            Seq::empty()
        },
    }
}

/// The block that a message completed, if it did.
pub open spec fn completed_block(
    state: StateView,
    id: u64,
    message: Message,
    items: Seq<DispatchItem>,
) -> Option<Numbered> {
    if state.seals(id, message) {
        Some(items.last().message)
    } else {
        None
    }
}

/// What one or two steps do to a slot.
proof fn lemma_few_steps(entry: SlotView, first: SlotStep, second: SlotStep)
    ensures
        crate::dedup::apply_all(entry, Seq::empty()) == entry,
        crate::dedup::apply_all(entry, seq![first]) == first.apply(entry),
        crate::dedup::apply_all(entry, seq![first, second]) == second.apply(first.apply(entry)),
{
    let one = seq![first];
    let two = seq![first, second];
    assert(one.drop_last() =~= Seq::empty());
    assert(two.drop_last() =~= one);
    assert(crate::dedup::apply_all(entry, one) == first.apply(entry));
}

/// A status message leads each stored slot through possible steps only.
proof fn lemma_status_takes_steps(
    state: StateView,
    id: u64,
    message: Message,
    items: Seq<DispatchItem>,
    after: StateView,
    slot: u64,
)
    requires
        state.wf(),
        message is Slot,
        state.dispatched(id, message, items, after),
        after.slots.contains_key(slot),
    ensures
        after.slots[slot] == crate::dedup::apply_all(
            state.entry(slot),
            steps_taken(state, id, message, completed_block(state, id, message, items), slot),
        ),
{
    let msg = message->Slot_0;
    let missed = state.missed(id, message);
    let entry = state.entry(slot);
    state.lemma_swept_keeps_wf(message);
    lemma_told_once(state, id, message);
    if missed.contains(slot) {
        let filed = state.swept(message).filed(id, message);
        crate::ancestors::lemma_missed_ancestors(filed.slots, msg.slot, msg.status);
        let k = choose|k: int| 0 <= k < missed.len() && missed[k] == slot;
        assert(filed.slots.contains_key(missed[k]));
        lemma_few_steps(entry, SlotStep::Marked(msg.status), SlotStep::Recorded(msg.status));
    } else {
        lemma_few_steps(
            entry,
            SlotStep::Received(id, message),
            SlotStep::Recorded(msg.status),
        );
    }
}

/// Any other message leads each stored slot through possible steps only.
proof fn lemma_part_takes_steps(
    state: StateView,
    id: u64,
    message: Message,
    items: Seq<DispatchItem>,
    after: StateView,
    slot: u64,
)
    requires
        state.wf(),
        !(message is Slot),
        state.dispatched(id, message, items, after),
        after.slots.contains_key(slot),
    ensures
        after.slots[slot] == crate::dedup::apply_all(
            state.entry(slot),
            steps_taken(state, id, message, completed_block(state, id, message, items), slot),
        ),
{
    lemma_few_steps(
        state.entry(slot),
        SlotStep::Received(id, message),
        SlotStep::Sealed(items.last().message),
    );
}

/// Whatever a message leads to, each stored slot goes through possible steps only, so that what
/// holds of slots after any such steps holds of every stored slot.
pub proof fn lemma_dispatch_takes_steps(
    state: StateView,
    id: u64,
    message: Message,
    items: Seq<DispatchItem>,
    after: StateView,
    slot: u64,
)
    requires
        state.wf(),
        state.dispatched(id, message, items, after),
        after.slots.contains_key(slot),
    ensures
        ({
            let block = completed_block(state, id, message, items);
            let steps = steps_taken(state, id, message, block, slot);
            &&& after.slots[slot] == crate::dedup::apply_all(state.entry(slot), steps)
            &&& forall|i: int| 0 <= i < steps.len() ==> (#[trigger] steps[i]).wf()
        }),
{
    if message is Slot {
        lemma_status_takes_steps(state, id, message, items, after, slot);
    } else {
        lemma_part_takes_steps(state, id, message, items, after, slot);
    }
}

/// Once the ancestors of a slot were told of a status, telling them again reaches nobody.
pub proof fn lemma_second_backfill_tells_nobody(
    slots: Map<u64, SlotView>,
    slot: u64,
    status: SlotStatus,
)
    requires
        slots.dom().finite(),
    ensures
        ({
            let missed = crate::ancestors::missed_ancestors(slots, slot, status);
            let after = crate::reconstruction::marked_all(slots, missed, status);
            crate::ancestors::missed_ancestors(after, slot, status) == Seq::<u64>::empty()
        }),
{
    let missed = crate::ancestors::missed_ancestors(slots, slot, status);
    let after = crate::reconstruction::marked_all(slots, missed, status);
    assert(after.dom() =~= slots.dom());
    if let Some(parent) = crate::ancestors::missing_parent(slots, slot, status) {
        assert(missed[0] == parent);
        assert(missed.contains(parent));
        assert(after[parent].has(status));
    }
    assert(crate::ancestors::missing_parent(after, slot, status) is None);
}

/// A second message with a status that a slot has reached brings about nothing more.
pub proof fn lemma_second_status_brings_about_nothing(
    state: StateView,
    id: u64,
    message: Message,
    items: Seq<DispatchItem>,
    after: StateView,
    next: StateView,
    next_id: u64,
    again: Message,
)
    requires
        state.wf(),
        state.dispatched(id, message, items, after),
        next.wf(),
        next.slots == after.slots,
        message is Slot,
        again is Slot,
        again->Slot_0.slot == message->Slot_0.slot,
        again->Slot_0.status == message->Slot_0.status,
    ensures
        next.missed(next_id, again).len() == 0,
        next.minted(next_id, again) == 0,
{
    let msg = again->Slot_0;
    let slot = msg.slot;
    next.lemma_swept_keeps_wf(again);
    let swept = next.swept(again);
    let filed = swept.filed(next_id, again).slots;
    assert(filed.dom() =~= swept.slots.dom().insert(slot));
    lemma_status_reaches_ancestors(state, id, message, items, after);
    if let Some(parent) = crate::ancestors::missing_parent(filed, slot, msg.status) {
        let missed = state.missed(id, message);
        let then = state.swept(message).filed(id, message);
        state.lemma_swept_keeps_wf(message);
        assert(then.slots.dom() =~= state.swept(message).slots.dom().insert(slot));
        crate::ancestors::lemma_missed_ancestors(then.slots, slot, msg.status);
        assert(parent != slot);
        assert(next.slots.contains_key(parent) && !next.slots[parent].has(msg.status));
        assert(next.slots[slot].parent_slot == Some(parent));
        if missed.len() > 0 {
            assert(missed[0] == parent);
            assert(after.slots[missed[0]].has(msg.status));
        }
    }
    if next.seals(next_id, again) {
        swept.lemma_completes(next_id, again);
    }
}

/// The message reports a status of the slot.
pub open spec fn tells_of(numbered: Numbered, slot: u64) -> bool {
    numbered.1 matches Message::Slot(msg) && msg.slot == slot
}

/// No two messages of a batch report a status of the same slot.
pub open spec fn tells_each_once(batch: Seq<Numbered>) -> bool {
    forall|i: int, j: int, slot: u64|
        0 <= i < j < batch.len() && #[trigger] tells_of(batch[i], slot) ==> !(#[trigger] tells_of(
            batch[j],
            slot,
        ))
}

/// Where a batch reports at most one status of each slot, the number of messages of each stored
/// slot that it reports of is noted under that status, unless its block was built, and nothing
/// else changes.
pub proof fn lemma_recorded_entry(slots: Map<u64, SlotView>, batch: Seq<Numbered>, slot: u64)
    requires
        tells_each_once(batch),
    ensures
        ({
            let after = crate::reconstruction::recorded_by(slots, batch);
            &&& after.dom() == slots.dom()
            &&& (forall|i: int| 0 <= i < batch.len() ==> !tells_of(#[trigger] batch[i], slot))
                ==> after[slot] == slots[slot]
            &&& forall|i: int|
                0 <= i < batch.len() && tells_of(#[trigger] batch[i], slot)
                    && slots.contains_key(slot) ==> after[slot] == slots[slot].recorded(
                    batch[i].1->Slot_0.status,
                )
        }),
    decreases batch.len(),
{
    if batch.len() > 0 {
        let before = batch.drop_last();
        assert(tells_each_once(before)) by {
            assert forall|i: int, j: int, s: u64|
                0 <= i < j < before.len() && #[trigger] tells_of(before[i], s) implies !(
            #[trigger] tells_of(before[j], s)) by {
                assert(before[i] == batch[i] && before[j] == batch[j]);
            }
        }
        lemma_recorded_entry(slots, before, slot);
        let after = crate::reconstruction::recorded_by(slots, batch);
        let rest = crate::reconstruction::recorded_by(slots, before);
        let last = batch.len() - 1;
        assert(batch.last() == batch[last]);
        assert(after.dom() =~= slots.dom());
        assert forall|i: int|
            0 <= i < batch.len() && tells_of(#[trigger] batch[i], slot) && slots.contains_key(
                slot,
            ) implies after[slot] == slots[slot].recorded(batch[i].1->Slot_0.status) by {
            if i < last {
                assert(before[i] == batch[i]);
                assert(!tells_of(batch[last], slot));
            } else {
                assert forall|j: int| 0 <= j < before.len() implies !tells_of(
                    #[trigger] before[j],
                    slot,
                ) by {
                    assert(before[j] == batch[j]);
                    if tells_of(batch[j], slot) {
                        assert(!tells_of(batch[last], slot));
                    }
                }
                assert(rest[slot] == slots[slot]);
            }
        }
        if forall|i: int| 0 <= i < batch.len() ==> !tells_of(#[trigger] batch[i], slot) {
            assert forall|j: int| 0 <= j < before.len() implies !tells_of(
                #[trigger] before[j],
                slot,
            ) by {
                assert(before[j] == batch[j]);
            }
            assert(!tells_of(batch[last], slot));
        }
    }
}

/// In what order the statuses of a batch are noted does not matter where they are of different
/// slots.
pub proof fn lemma_statuses_are_noted_in_any_order(
    slots: Map<u64, SlotView>,
    batch: Seq<Numbered>,
    other: Seq<Numbered>,
)
    requires
        tells_each_once(batch),
        tells_each_once(other),
        forall|numbered: Numbered| batch.contains(numbered) <==> other.contains(numbered),
    ensures
        crate::reconstruction::recorded_by(slots, batch) == crate::reconstruction::recorded_by(
            slots,
            other,
        ),
{
    let one = crate::reconstruction::recorded_by(slots, batch);
    let two = crate::reconstruction::recorded_by(slots, other);
    lemma_recorded_entry(slots, batch, 0);
    lemma_recorded_entry(slots, other, 0);
    assert forall|slot: u64| slots.contains_key(slot) implies #[trigger] one[slot]
        == two[slot] by {
        lemma_recorded_entry(slots, batch, slot);
        lemma_recorded_entry(slots, other, slot);
        if exists|i: int| 0 <= i < batch.len() && tells_of(#[trigger] batch[i], slot) {
            let i = choose|i: int| 0 <= i < batch.len() && tells_of(#[trigger] batch[i], slot);
            assert(batch.contains(batch[i]));
            assert(other.contains(batch[i]));
            let j = choose|j: int| 0 <= j < other.len() && other[j] == batch[i];
            assert(tells_of(other[j], slot));
        } else {
            assert forall|j: int| 0 <= j < other.len() implies !tells_of(
                #[trigger] other[j],
                slot,
            ) by {
                assert(other.contains(other[j]));
                assert(batch.contains(other[j]));
                let i = choose|i: int| 0 <= i < batch.len() && batch[i] == other[j];
                assert(!tells_of(batch[i], slot));
            }
        }
    }
    assert(one =~= two);
}

/// The state after a message is settled when the call returns, whatever becomes of the items:
/// from equal states the same message leads to the same numbers, the same stored slots and the
/// same notes on them, and to equal states where it completes no block. A block that it completes
/// is the same in both but for where its parts are kept in memory.
pub proof fn lemma_state_does_not_depend_on_items(
    state: StateView,
    id: u64,
    message: Message,
    items: Seq<DispatchItem>,
    after: StateView,
    other_items: Seq<DispatchItem>,
    other: StateView,
    slot: u64,
)
    requires
        state.wf(),
        state.dispatched(id, message, items, after),
        state.dispatched(id, message, other_items, other),
    ensures
        !state.seals(id, message) ==> after == other,
        after.last_id == other.last_id,
        after.slots.dom() == other.slots.dom(),
        after.processed_first_slot == other.processed_first_slot,
        after.replay_first_available_slot == other.replay_first_available_slot,
        after.replay_stored_slots == other.replay_stored_slots,
        after.invalid_blocks == other.invalid_blocks,
        ({
            let entry = after.entry(slot);
            let twin = other.entry(slot);
            &&& entry.confirmed_at == twin.confirmed_at
            &&& entry.finalized_at == twin.finalized_at
            &&& entry.sealed == twin.sealed
            &&& entry == SlotView { messages: entry.messages, ..twin }
            &&& entry.messages.len() == twin.messages.len()
            &&& forall|i: int|
                0 <= i < entry.messages.len() && entry.messages[i] != #[trigger] twin.messages[i]
                    ==> {
                    &&& slot == message.slot()
                    &&& state.seals(id, message)
                    &&& i == entry.messages.len() - 1
                    &&& entry.messages[i] matches Some((number, Message::Block(block)))
                    &&& twin.messages[i] matches Some((same_number, Message::Block(same)))
                    &&& number == same_number
                    &&& block.meta == same.meta
                    &&& block.transactions@ == same.transactions@
                    &&& block.accounts@ == same.accounts@
                    &&& block.entries@ == same.entries@
                }
        }),
{
    state.lemma_swept_keeps_wf(message);
    if state.seals(id, message) {
        state.swept(message).lemma_completes(id, message);
    }
    assert(after.slots.dom() =~= other.slots.dom());
}

/// Everything that a slot holds is in its final form, and so are the parts of its block.
pub open spec fn holds_final_forms(entry: SlotView) -> bool {
    &&& forall|i: int|
        0 <= i < entry.messages.len() ==> ((#[trigger] entry.messages[i]) matches Some(numbered)
            ==> numbered.1.in_final_form())
    &&& forall|i: int|
        0 <= i < entry.messages_slots.len() ==> (
        #[trigger] entry.messages_slots[i]).1.in_final_form()
    &&& forall|i: int|
        0 <= i < entry.transactions.len() ==> (#[trigger] entry.transactions[i]).in_final_form()
}

/// Everything that is stored is in its final form.
pub open spec fn stored_in_final_form(slots: Map<u64, SlotView>) -> bool {
    forall|slot: u64| slots.contains_key(slot) ==> #[trigger] holds_final_forms(slots[slot])
}

/// The parts of a block are in their final form.
pub open spec fn built_of_final_forms(block: MessageBlock) -> bool {
    &&& forall|i: int|
        0 <= i < block.transactions@.len() ==> (
        #[trigger] block.transactions@[i]).in_final_form()
    &&& forall|i: int|
        0 <= i < block.accounts@.len() ==> (#[trigger] block.accounts@[i]).in_final_form()
}

/// An account image of a slot whose messages are in their final form is so too.
proof fn lemma_images_in_final_form(messages: Seq<Option<Numbered>>, k: int)
    requires
        forall|i: int|
            0 <= i < messages.len() ==> ((#[trigger] messages[i]) matches Some(numbered)
                ==> numbered.1.in_final_form()),
        0 <= k < crate::slot_messages::account_images(messages).len(),
    ensures
        crate::slot_messages::account_images(messages)[k].in_final_form(),
    decreases messages.len(),
{
    let before = messages.drop_last();
    let rest = crate::slot_messages::account_images(before);
    assert forall|i: int| 0 <= i < before.len() implies ((#[trigger] before[i]) matches Some(
        numbered,
    ) ==> numbered.1.in_final_form()) by {
        assert(before[i] == messages[i]);
    }
    if k < rest.len() {
        lemma_images_in_final_form(before, k);
    } else {
        assert(messages.last() == messages[messages.len() - 1]);
    }
}

/// Where updates are encoded before they are taken in, everything that is stored carries its
/// encoded form, and so does every part of a block that goes out: nothing is encoded twice.
pub proof fn lemma_stored_forms_are_final(
    state: StateView,
    id: u64,
    message: Message,
    items: Seq<DispatchItem>,
    after: StateView,
)
    requires
        state.wf(),
        stored_in_final_form(state.slots),
        message.in_final_form(),
        state.dispatched(id, message, items, after),
    ensures
        stored_in_final_form(after.slots),
        forall|i: int|
            0 <= i < items.len() ==> (#[trigger] items[i]).message.1.in_final_form(),
        state.seals(id, message) ==> (items.last().message.1 matches Message::Block(block)
            && built_of_final_forms(*block)),
{
    let slot = message.slot();
    let swept = state.swept(message);
    state.lemma_swept_keeps_wf(message);
    assert(stored_in_final_form(swept.slots)) by {
        assert forall|s: u64| swept.slots.contains_key(s) implies #[trigger] holds_final_forms(
            swept.slots[s],
        ) by {
            assert(holds_final_forms(state.slots[s]));
        }
    }
    let entry = swept.entry(slot);
    if swept.slots.contains_key(slot) {
        assert(holds_final_forms(swept.slots[slot]));
        assert(swept.slots[slot].wf());
    }
    assert(holds_final_forms(entry));
    let received = entry.received(id, message);
    assert(holds_final_forms(received)) by {
        if let Message::Account(msg) = message {
            let key = crate::message::address_key(msg.account.pubkey@);
            if entry.latest.contains_key(key) {
                assert(entry.points_at_image(key));
            }
        }
    }
    if state.seals(id, message) {
        swept.lemma_completes(id, message);
        let block = *(items.last().message.1->Block_0);
        assert forall|k: int| 0 <= k < block.accounts@.len() implies (
        #[trigger] block.accounts@[k]).in_final_form() by {
            lemma_images_in_final_form(received.messages, k);
        }
    }
    assert forall|s: u64| after.slots.contains_key(s) implies #[trigger] holds_final_forms(
        after.slots[s],
    ) by {
        if s != slot {
            assert(holds_final_forms(swept.slots[s]));
        }
        if s == slot && state.seals(id, message) {
            assert(after.slots[s] == received.sealed_as(items.last().message));
        }
    }
    let missed = state.missed(id, message);
    assert forall|i: int| 0 <= i < items.len() implies (
    #[trigger] items[i]).message.1.in_final_form() by {
        if i < missed.len() {
            assert(items[i].message.1 is Slot);
        } else if i > missed.len() {
            assert(items[i] == items.last());
        }
    }
}

/// Where updates are encoded before they are taken in, the batches to the confirmed and finalized
/// commitments carry their encoded forms, though they are not encoded themselves.
pub proof fn lemma_companions_are_in_final_form(
    state: StateView,
    id: u64,
    message: Message,
    items: Seq<DispatchItem>,
    after: StateView,
    i: int,
)
    requires
        state.wf(),
        after.wf(),
        stored_in_final_form(state.slots),
        message.in_final_form(),
        state.dispatched(id, message, items, after),
        0 <= i < items.len(),
    ensures
        items[i].confirmed_messages matches Some(batch) ==> forall|k: int|
            0 <= k < batch@.len() ==> (#[trigger] batch@[k]).1.in_final_form(),
        items[i].finalized_messages matches Some(batch) ==> forall|k: int|
            0 <= k < batch@.len() ==> (#[trigger] batch@[k]).1.in_final_form(),
{
    lemma_stored_forms_are_final(state, id, message, items, after);
    assert(items[i].carries(after.slots, id));
    let numbered = items[i].message;
    let slot = match numbered.1 {
        Message::Block(block) => block.meta.slot,
        other => other.slot(),
    };
    if after.slots.contains_key(slot) {
        let entry = after.slots[slot];
        assert(entry.wf());
        assert(holds_final_forms(entry));
        assert forall|from: int, k: int|
            0 <= from <= entry.messages.len() && 0 <= k < crate::slot_messages::survivors(
                entry.messages.skip(from),
            ).len() implies (#[trigger] crate::slot_messages::survivors(
            entry.messages.skip(from),
        )[k]).1.in_final_form() by {
            let at = crate::dedup::lemma_survivor_is_held(entry.messages.skip(from), k);
            assert(entry.messages.skip(from)[at] == entry.messages[from + at]);
        }
        assert(entry.messages.skip(0) =~= entry.messages);
    }
}

/// A replay gives messages back in the form in which they went out.
pub proof fn lemma_replay_is_in_final_form(
    slots: Map<u64, SlotView>,
    order: Seq<u64>,
    commitment: CommitmentLevel,
    replay_slot: u64,
    i: int,
)
    requires
        stored_in_final_form(slots),
        forall|k: int| 0 <= k < order.len() ==> slots.contains_key(#[trigger] order[k]),
        0 <= i < crate::reconstruction::replayed(slots, order, commitment, replay_slot).len(),
    ensures
        crate::reconstruction::replayed(
            slots,
            order,
            commitment,
            replay_slot,
        )[i].1.in_final_form(),
    decreases order.len(),
{
    let rest = order.drop_last();
    let before = crate::reconstruction::replayed(slots, rest, commitment, replay_slot);
    assert forall|k: int| 0 <= k < rest.len() implies slots.contains_key(#[trigger] rest[k]) by {
        assert(rest[k] == order[k]);
    }
    if i < before.len() {
        lemma_replay_is_in_final_form(slots, rest, commitment, replay_slot, i);
    } else {
        assert(order.last() == order[order.len() - 1]);
        let entry = slots[order.last()];
        assert(holds_final_forms(entry));
        let k = i - before.len();
        if k >= entry.messages_slots.len() {
            let at = crate::dedup::lemma_survivor_is_held(
                entry.messages,
                k - entry.messages_slots.len(),
            );
            assert(entry.messages[at] is Some);
        }
    }
}

/// Beside its status messages a slot holds none.
pub open spec fn keeps_statuses_apart(slots: Map<u64, SlotView>) -> bool {
    forall|slot: u64, i: int|
        slots.contains_key(slot) && 0 <= i < slots[slot].messages.len() ==> ((
        #[trigger] slots[slot].messages[i]) matches Some(numbered) ==> !(numbered.1 is Slot))
}

/// Status messages stay apart from what else a slot holds.
pub proof fn lemma_statuses_stay_apart(
    state: StateView,
    id: u64,
    message: Message,
    items: Seq<DispatchItem>,
    after: StateView,
)
    requires
        state.wf(),
        keeps_statuses_apart(state.slots),
        state.dispatched(id, message, items, after),
    ensures
        keeps_statuses_apart(after.slots),
{
    let slot = message.slot();
    let swept = state.swept(message);
    state.lemma_swept_keeps_wf(message);
    assert forall|s: u64, i: int|
        after.slots.contains_key(s) && 0 <= i < after.slots[s].messages.len() implies ((
    #[trigger] after.slots[s].messages[i]) matches Some(numbered) ==> !(numbered.1 is Slot)) by {
        let entry = swept.entry(s);
        if swept.slots.contains_key(s) {
            assert(entry == state.slots[s]);
            assert(swept.slots[s].wf());
        }
        if s == slot {
            if let Message::Account(msg) = message {
                let key = crate::message::address_key(msg.account.pubkey@);
                if entry.latest.contains_key(key) {
                    assert(entry.points_at_image(key));
                }
            }
            if state.seals(id, message) {
                swept.lemma_completes(id, message);
            }
        }
        if i < entry.messages.len() && swept.slots.contains_key(s) {
            assert(entry.messages[i] == state.slots[s].messages[i]);
        }
    }
}

/// What a slot holds has no status in it, from whatever place on.
proof fn lemma_held_without_status(messages: Seq<Option<Numbered>>, from: int, k: int)
    requires
        0 <= from <= messages.len(),
        forall|i: int|
            0 <= i < messages.len() ==> ((#[trigger] messages[i]) matches Some(numbered) ==> !(
            numbered.1 is Slot)),
        0 <= k < crate::slot_messages::survivors(messages.skip(from)).len(),
    ensures
        !(crate::slot_messages::survivors(messages.skip(from))[k].1 is Slot),
{
    let at = crate::dedup::lemma_survivor_is_held(messages.skip(from), k);
    assert(messages.skip(from)[at] == messages[from + at]);
}

/// A status comes last in the batches to the confirmed and finalized commitments too.
pub proof fn lemma_status_ends_its_companions(
    state: StateView,
    id: u64,
    message: Message,
    items: Seq<DispatchItem>,
    after: StateView,
    i: int,
)
    requires
        state.wf(),
        after.wf(),
        keeps_statuses_apart(state.slots),
        state.dispatched(id, message, items, after),
        0 <= i < items.len(),
    ensures
        items[i].confirmed_messages matches Some(batch)
            ==> crate::broadcast_laws::status_comes_last(batch@),
        items[i].finalized_messages matches Some(batch)
            ==> crate::broadcast_laws::status_comes_last(batch@),
{
    lemma_statuses_stay_apart(state, id, message, items, after);
    assert(items[i].carries(after.slots, id));
    let numbered = items[i].message;
    let slot = match numbered.1 {
        Message::Block(block) => block.meta.slot,
        other => other.slot(),
    };
    if after.slots.contains_key(slot) {
        let entry = after.slots[slot];
        assert(entry.wf());
        assert forall|from: int, k: int|
            0 <= from <= entry.messages.len() && 0 <= k < crate::slot_messages::survivors(
                entry.messages.skip(from),
            ).len() implies !((#[trigger] crate::slot_messages::survivors(
            entry.messages.skip(from),
        )[k]).1 is Slot) by {
            lemma_held_without_status(entry.messages, from, k);
        }
        assert(entry.messages.skip(0) =~= entry.messages);
    }
}

} // verus!
