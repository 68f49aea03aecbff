//! What one update does to the stored slots, and what else goes out with it.
use crate::dispatch::{GeyserLoop, ReconstructionDispatch};
use crate::invalid::{FailureReason, InvalidBlock, MessageKind};
use crate::message::{Message, SlotStatus};
use crate::message_id::MessageId;
use crate::reconstruction::{BlockReconstructionState, StateView};
use crate::run_laws::Update;
use crate::slot_messages::SlotView;
use vstd::prelude::*;

verus! {

/// The update reports that a slot is finalized.
pub open spec fn finalizes(update: Update) -> bool {
    update.message matches Message::Slot(msg) && msg.status is Finalized
}

/// A stored slot is not too far behind a slot that is finalized: at most ten slots beyond those
/// that are kept for replays.
pub open spec fn is_near(update: Update, slot: u64) -> bool {
    finalizes(update) ==> crate::arrivals::slot_of(update.message) <= slot + 10
        + update.before.replay_stored_slots
}

/// An update stores its own slot, and drops exactly the slots that are too far behind it where
/// it reports that it is finalized. What is configured does not change.
pub proof fn lemma_slots_are_kept(update: Update, slot: u64)
    requires
        update.taken_in(),
    ensures
        update.after.slots.contains_key(slot) <==> slot == crate::arrivals::slot_of(update.message)
            || (update.before.slots.contains_key(slot) && is_near(update, slot)),
        update.after.replay_stored_slots == update.before.replay_stored_slots,
{
}

/// An update changes nothing of a slot that it is not about and does not tell of a status.
pub proof fn lemma_other_slots_are_left_alone(update: Update, slot: u64)
    requires
        update.taken_in(),
        update.after.slots.contains_key(slot),
        slot != crate::arrivals::slot_of(update.message),
        update.message matches Message::Slot(msg) ==> !crate::arrivals::tells(
            update,
            slot,
            msg.status,
        ),
    ensures
        update.before.slots.contains_key(slot),
        update.after.slots[slot] == update.before.slots[slot],
{
    if let Message::Slot(msg) = update.message {
        crate::arrivals::lemma_tells(update, slot, msg.status);
    }
}

/// The slot was reported to have reached the status; of statuses other than confirmed and
/// finalized no note is kept.
pub open spec fn reached(entry: SlotView, status: SlotStatus) -> bool {
    match status {
        SlotStatus::Confirmed => entry.confirmed,
        SlotStatus::Finalized => entry.finalized,
        _ => true,
    }
}

/// The slot that an item is about.
pub open spec fn told_slot(update: Update, k: int) -> u64 {
    crate::arrivals::slot_of(update.items[k].message.1)
}

/// A status goes out last, and before it a status message for each ancestor that was not told
/// yet, from parent to parent, the nearest ancestor last. Each of them is stored, and is told of
/// the same status for the first time, under a number of its own; the numbers fall.
pub proof fn lemma_status_is_passed_on(update: Update, k: int)
    requires
        update.taken_in(),
        update.message is Slot,
        update.before.last_id + update.items.len() <= u64::MAX,
        0 <= k < update.items.len() - 1,
    ensures
        ({
            let status = update.message->Slot_0.status;
            let slot = told_slot(update, k);
            &&& update.items[k].message.1 matches Message::Slot(msg)
            &&& msg.status == status
            &&& msg.dead_error is None
            &&& msg.parent == update.after.slots[slot].parent_slot
            &&& update.items[k].message.0 == update.before.last_id + update.items.len() - 1 - k
            &&& update.before.slots.contains_key(slot)
            &&& update.after.slots.contains_key(slot)
            &&& !reached(update.before.slots[slot], status)
            &&& reached(update.after.slots[slot], status)
            &&& update.after.slots[told_slot(update, k + 1)].parent_slot == Some(slot)
        }),
{
    let state = update.before;
    let message = update.message;
    let msg = message->Slot_0;
    let missed = state.missed(update.id, message);
    let filed = state.swept(message).filed(update.id, message);
    let n = missed.len() as int;
    state.lemma_swept_keeps_wf(message);
    if state.seals(update.id, message) {
        state.swept(message).lemma_completes(update.id, message);
    }
    assert(filed.slots.dom() =~= state.swept(message).slots.dom().insert(message.slot()));
    crate::ancestors::lemma_missed_ancestors(filed.slots, msg.slot, msg.status);
    crate::reconstruction_laws::lemma_told_once(state, update.id, message);
    let j = n - 1 - k;
    let slot = missed[j];
    assert(told_slot(update, k) == slot);
    assert(missed.contains(slot));
    assert(filed.slots.contains_key(missed[j]) && !filed.slots[missed[j]].has(msg.status));
    assert(!state.entry(missed[j]).has(msg.status));
    assert(slot != message.slot());
    if j > 0 {
        assert(filed.slots[missed[j - 1]].parent_slot == Some(missed[j]));
        assert(told_slot(update, k + 1) == missed[j - 1]);
        assert(missed.contains(missed[j - 1]));
        assert(filed.slots.contains_key(missed[j - 1]));
    } else {
        assert(update.items[n].message == (update.id, message));
        assert(told_slot(update, k + 1) == msg.slot);
        assert(filed.slots[msg.slot].parent_slot == Some(missed[0]));
    }
}

/// The status itself goes out under its own number, and its slot has reached it. The ancestors
/// are told as far as they are stored and were not told yet, and none twice; of a status other
/// than confirmed and finalized none is told.
pub proof fn lemma_status_is_passed_on_as_far_as_it_goes(update: Update)
    requires
        update.taken_in(),
        update.message is Slot,
    ensures
        update.items.len() > 0,
        update.items.last().message == (update.id, update.message),
        ({
            let status = update.message->Slot_0.status;
            let oldest = told_slot(update, 0);
            &&& update.after.slots.contains_key(oldest)
            &&& update.after.slots.contains_key(update.message->Slot_0.slot)
            &&& reached(update.after.slots[update.message->Slot_0.slot], status)
            &&& update.after.slots[oldest].parent_slot matches Some(parent) ==> (
            !update.after.slots.contains_key(parent) || reached(
                update.after.slots[parent],
                status,
            ))
            &&& !(status is Confirmed) && !(status is Finalized) ==> update.items.len() == 1
            &&& forall|i: int, j: int|
                0 <= i < j < update.items.len() ==> #[trigger] told_slot(update, i)
                    != #[trigger] told_slot(update, j)
        }),
{
    let state = update.before;
    let message = update.message;
    let msg = message->Slot_0;
    let missed = state.missed(update.id, message);
    let filed = state.swept(message).filed(update.id, message);
    let n = missed.len() as int;
    state.lemma_swept_keeps_wf(message);
    if state.seals(update.id, message) {
        state.swept(message).lemma_completes(update.id, message);
    }
    assert(filed.slots.dom() =~= state.swept(message).slots.dom().insert(message.slot()));
    crate::reconstruction_laws::lemma_told_once(state, update.id, message);
    crate::reconstruction_laws::lemma_status_reaches_ancestors(
        state,
        update.id,
        message,
        update.items,
        update.after,
    );
    if !(msg.status is Confirmed) && !(msg.status is Finalized) {
        crate::ancestors::lemma_other_statuses_are_not_passed_on(
            filed.slots,
            msg.slot,
            msg.status,
        );
    }
    assert(update.items[n].message == (update.id, message));
    assert forall|i: int| 0 <= i < n implies #[trigger] told_slot(update, i) == missed[n - 1
        - i] by {
        assert(update.items[i].message.1->Slot_0.slot == missed[n - 1 - i]);
    }
    assert forall|i: int, j: int| 0 <= i < j < update.items.len() implies #[trigger] told_slot(
        update,
        i,
    ) != #[trigger] told_slot(update, j) by {
        assert(missed.contains(missed[n - 1 - i]));
        if j < n {
            assert(missed[n - 1 - i] != missed[n - 1 - j]);
        }
    }
    if n > 0 {
        assert(told_slot(update, 0) == missed.last());
    }
}

/// Any other update goes out first, alone or before the block that it completes.
pub proof fn lemma_update_goes_out(update: Update)
    requires
        update.taken_in(),
        !(update.message is Slot),
        update.before.last_id < u64::MAX,
    ensures
        update.items.len() == 1 || update.items.len() == 2,
        update.items[0].message == (update.id, update.message),
        update.items.len() == 2 ==> {
            &&& update.items[1].message.1 is Block
            &&& update.items[1].message.0 == update.before.last_id + 1
            &&& update.message is Transaction || update.message is Entry
                || update.message is BlockMeta
        },
{
    update.before.lemma_swept_keeps_wf(update.message);
    if update.before.seals(update.id, update.message) {
        update.before.swept(update.message).lemma_completes(update.id, update.message);
    }
}

/// Numbers are minted one after the other for what an update brings about, and an item is marked
/// as the update that came in exactly where it has its number.
pub proof fn lemma_numbers_are_counted(update: Update, k: int)
    requires
        update.taken_in(),
        update.before.last_id + update.items.len() <= u64::MAX,
        0 <= k < update.items.len(),
    ensures
        update.after.last_id == update.before.last_id + update.items.len() - 1,
        update.items[k].is_raw_message <==> update.items[k].message.0 == update.id,
{
    update.before.lemma_swept_keeps_wf(update.message);
    if update.before.seals(update.id, update.message) {
        update.before.swept(update.message).lemma_completes(update.id, update.message);
    }
    assert(update.items[k].carries(update.after.slots, update.id));
}

/// The first slot that is processed is noted, and the first slot that can be replayed is
/// published anew, where it was published before, with every slot that is finalized: it is the
/// smallest of those that are not too far behind.
pub proof fn lemma_first_slots_are_published(update: Update)
    requires
        update.taken_in(),
    ensures
        ({
            let before = update.before;
            let after = update.after;
            &&& after.processed_first_slot == match (before.processed_first_slot, update.message) {
                (None, Message::Slot(msg)) => if msg.status is Processed {
                    Some(msg.slot)
                } else {
                    None
                },
                (noted, _) => noted,
            }
            &&& before.replay_first_available_slot is None
                ==> after.replay_first_available_slot is None
            &&& !finalizes(update) ==> after.replay_first_available_slot
                == before.replay_first_available_slot
            &&& finalizes(update) && before.replay_first_available_slot is Some && 10
                + before.replay_stored_slots <= crate::arrivals::slot_of(update.message) && (
            exists|slot: u64| #[trigger] before.slots.contains_key(slot) && is_near(update, slot))
                ==> {
                &&& after.replay_first_available_slot matches Some(first)
                &&& before.slots.contains_key(first)
                &&& is_near(update, first)
                &&& forall|slot: u64| #[trigger]
                    before.slots.contains_key(slot) && is_near(update, slot) ==> first <= slot
            }
        }),
{
    let state = update.before;
    state.lemma_swept_keeps_wf(update.message);
    if finalizes(update) && state.retained() <= crate::arrivals::slot_of(update.message) {
        let cutoff = (crate::arrivals::slot_of(update.message) - state.retained()) as u64;
        let kept = crate::sweep::kept_from(state.slots, cutoff);
        assert(kept.dom().subset_of(state.slots.dom()));
        vstd::set_lib::lemma_len_subset(kept.dom(), state.slots.dom());
        crate::sweep::lemma_earliest_slot(kept);
        assert forall|slot: u64| kept.contains_key(slot) <==> #[trigger] state.slots.contains_key(
            slot,
        ) && is_near(update, slot) by {}
        assert(state.swept(update.message).slots == kept);
        if exists|slot: u64| #[trigger] state.slots.contains_key(slot) && is_near(update, slot) {
            let slot = choose|slot: u64| #[trigger]
                state.slots.contains_key(slot) && is_near(update, slot);
            assert(kept.contains_key(slot));
        }
    }
}

/// What a message is about, by name.
pub open spec fn kind_of(message: Message) -> MessageKind {
    match message {
        Message::Slot(_) => MessageKind::Slot,
        Message::Account(_) => MessageKind::Account,
        Message::Transaction(_) => MessageKind::Transaction,
        Message::Entry(_) => MessageKind::Entry,
        Message::BlockMeta(_) => MessageKind::BlockMeta,
        Message::Block(_) => MessageKind::Block,
    }
}

/// A message that comes after the block of its slot is a finding, unless it is an entry and the
/// block counted none; so is a second meta; nothing else is, of a message that is no status.
pub proof fn lemma_late_messages_are_found(update: Update)
    requires
        update.taken_in(),
        !(update.message is Slot),
    ensures
        ({
            let entry = update.before.entry(crate::arrivals::slot_of(update.message));
            let late = entry.sealed && !(update.message is Entry && entry.entries_count == 0);
            let twice = update.message is BlockMeta && entry.block_meta is Some;
            let found = update.before.invalid_blocks;
            update.after.invalid_blocks == if late && twice {
                found.push(InvalidBlock::UnexpectedMessage(kind_of(update.message))).push(
                    InvalidBlock::DuplicateBlockMeta,
                )
            } else if late {
                found.push(InvalidBlock::UnexpectedMessage(kind_of(update.message)))
            } else if twice {
                found.push(InvalidBlock::DuplicateBlockMeta)
            } else {
                found
            }
        }),
{
    let entry = update.before.entry(crate::arrivals::slot_of(update.message));
    let found = update.before.invalid_blocks;
    assert(found + crate::reconstruction::findings(entry, update.message)
        =~= update.after.invalid_blocks);
}

/// The block of a slot that was finalized could not be put together: it was never sealed.
pub open spec fn is_failed(entry: SlotView, slot: u64, finding: InvalidBlock) -> bool {
    &&& !entry.sealed
    &&& entry.finalized_at is Some
    &&& finding matches InvalidBlock::FailedReconstruct { slot: failed, reason }
    &&& failed == slot
    &&& match entry.block_meta {
        None => reason is NoBlockMeta,
        Some(meta) => {
            &&& reason matches FailureReason::InvalidCounts { transactions, entries }
            &&& transactions is None <==> meta.executed_transaction_count
                == entry.transactions.len()
            &&& transactions matches Some(count) ==> {
                &&& count.counted == meta.executed_transaction_count
                &&& entry.transactions.len() <= u64::MAX ==> count.received
                    == entry.transactions.len()
            }
            &&& entries is None <==> meta.entries_count == entry.entries.len()
            &&& entries matches Some(count) ==> {
                &&& count.counted == meta.entries_count
                &&& entry.entries.len() <= u64::MAX ==> count.received == entry.entries.len()
            }
        },
    }
}

/// The slots of `order` that failed are reported, each as it failed, and nothing else is.
proof fn lemma_failures(
    slots: Map<u64, SlotView>,
    order: Seq<u64>,
    first: Option<u64>,
    finding: InvalidBlock,
)
    ensures
        crate::sweep::failures(slots, order, first).contains(finding) ==> exists|i: int|
            {
                &&& 0 <= i < order.len()
                &&& first matches Some(first) && first < #[trigger] order[i]
                &&& is_failed(slots[order[i]], order[i], finding)
            },
        forall|i: int|
            0 <= i < order.len() && (first matches Some(first) && first < #[trigger] order[i])
                && !slots[order[i]].sealed && slots[order[i]].finalized_at is Some
                ==> exists|k: int|
                0 <= k < crate::sweep::failures(slots, order, first).len() && is_failed(
                    slots[order[i]],
                    order[i],
                    #[trigger] crate::sweep::failures(slots, order, first)[k],
                ),
    decreases order.len(),
{
    if order.len() > 0 {
        let rest = order.drop_last();
        let last = order.len() - 1;
        let before = crate::sweep::failures(slots, rest, first);
        let all = crate::sweep::failures(slots, order, first);
        lemma_failures(slots, rest, first, finding);
        if all.contains(finding) {
            let k = choose|k: int| 0 <= k < all.len() && all[k] == finding;
            if k < before.len() {
                assert(before[k] == finding);
                let i = choose|i: int|
                    {
                        &&& 0 <= i < rest.len()
                        &&& first matches Some(first) && first < #[trigger] rest[i]
                        &&& is_failed(slots[rest[i]], rest[i], finding)
                    };
                assert(order[i] == rest[i]);
            } else {
                assert(is_failed(slots[order[last]], order[last], finding));
            }
        }
        assert forall|i: int|
            0 <= i < order.len() && (first matches Some(first) && first < #[trigger] order[i])
                && !slots[order[i]].sealed && slots[order[i]].finalized_at is Some implies exists|
            k: int,
        |
            0 <= k < all.len() && is_failed(slots[order[i]], order[i], #[trigger] all[k]) by {
            if i < last {
                assert(rest[i] == order[i]);
                let k = choose|k: int|
                    0 <= k < before.len() && is_failed(
                        slots[rest[i]],
                        rest[i],
                        #[trigger] before[k],
                    );
                assert(all[k] == before[k]);
            } else {
                assert(is_failed(slots[order[i]], order[i], all[all.len() - 1]));
            }
        }
    }
}

/// A status gives rise to a finding for exactly those slots behind the first that was processed
/// that it drops and whose blocks could not be put together though they were finalized.
pub proof fn lemma_dropped_blocks_are_found(update: Update, finding: InvalidBlock, slot: u64)
    requires
        update.taken_in(),
        update.message is Slot,
    ensures
        update.before.invalid_blocks.is_prefix_of(update.after.invalid_blocks),
        ({
            let more = update.after.invalid_blocks.skip(
                update.before.invalid_blocks.len() as int,
            );
            let lost = |s: u64|
                update.before.slots.contains_key(s) && !is_near(update, s) && (
                update.before.processed_first_slot matches Some(first) && first < s);
            &&& more.contains(finding) ==> exists|s: u64| #[trigger]
                lost(s) && is_failed(update.before.slots[s], s, finding)
            &&& lost(slot) && !update.before.slots[slot].sealed
                && update.before.slots[slot].finalized_at is Some ==> exists|k: int|
                0 <= k < more.len() && is_failed(
                    update.before.slots[slot],
                    slot,
                    #[trigger] more[k],
                )
        }),
{
    let state = update.before;
    let found = state.invalid_blocks;
    let more = update.after.invalid_blocks.skip(found.len() as int);
    let lost = |s: u64|
        state.slots.contains_key(s) && !is_near(update, s) && (
        state.processed_first_slot matches Some(first) && first < s);
    if finalizes(update) && state.retained() <= crate::arrivals::slot_of(update.message) {
        let cutoff = (crate::arrivals::slot_of(update.message) - state.retained()) as u64;
        let gone = state.slots.dom().filter(|s: u64| s < cutoff);
        let order = crate::sweep::dropped_before(state.slots, cutoff);
        state.slots.dom().lemma_len_filter(|s: u64| s < cutoff);
        crate::ordered::lemma_finite_set_has_an_order(gone);
        let failed = crate::sweep::failures(state.slots, order, state.processed_first_slot);
        assert(more =~= failed);
        lemma_failures(state.slots, order, state.processed_first_slot, finding);
        if more.contains(finding) {
            let i = choose|i: int|
                {
                    &&& 0 <= i < order.len()
                    &&& state.processed_first_slot matches Some(first) && first
                        < #[trigger] order[i]
                    &&& is_failed(state.slots[order[i]], order[i], finding)
                };
            assert(order.contains(order[i]));
            assert(gone.contains(order[i]));
            assert(lost(order[i]));
        }
        if lost(slot) {
            assert(gone.contains(slot));
            assert(order.contains(slot));
            let i = choose|i: int| 0 <= i < order.len() && order[i] == slot;
            assert(order[i] == slot);
        }
    } else {
        assert(more =~= Seq::empty());
    }
}

/// Over a whole run: a message about a slot whose block went out before is a finding, unless it
/// is an entry and the block counted none; so is a meta where one came before; nothing else is.
pub proof fn lemma_parts_after_the_block_are_found(run: Seq<Update>, slot: u64)
    requires
        crate::run_laws::is_run(run),
        crate::run_laws::spans(run, slot),
        run.len() > 0,
        crate::arrivals::brings(run.last(), slot),
    ensures
        ({
            let update = run.last();
            let earlier = run.drop_last();
            let late = crate::arrivals::went_out(earlier, slot) && !(update.message is Entry
                && crate::arrivals::entries_counted(earlier, slot) == 0);
            let twice = update.message is BlockMeta && crate::arrivals::meta_of(
                earlier,
                slot,
            ) is Some;
            let found = update.before.invalid_blocks;
            let unexpected = InvalidBlock::UnexpectedMessage(kind_of(update.message));
            &&& late && twice ==> update.after.invalid_blocks == found.push(unexpected).push(
                InvalidBlock::DuplicateBlockMeta,
            )
            &&& late && !twice ==> update.after.invalid_blocks == found.push(unexpected)
            &&& !late && twice ==> update.after.invalid_blocks == found.push(
                InvalidBlock::DuplicateBlockMeta,
            )
            &&& !late && !twice ==> update.after.invalid_blocks == found
        }),
{
    assert(run.last() == run[run.len() - 1]);
    crate::arrivals::lemma_slot_knows_what_came_in(run, slot);
    lemma_late_messages_are_found(run.last());
}

/// The block of a slot is missing something: its meta never came, or other numbers of
/// transactions or entries than the meta counts.
pub open spec fn lacks(run: Seq<Update>, slot: u64, finding: InvalidBlock) -> bool {
    let transactions_came = crate::arrivals::transactions_of(run, slot).len();
    let entries_came = crate::arrivals::entries_of(run, slot).len();
    &&& finding matches InvalidBlock::FailedReconstruct { slot: failed, reason }
    &&& failed == slot
    &&& match crate::arrivals::meta_of(run, slot) {
        None => reason is NoBlockMeta,
        Some(meta) => {
            &&& reason matches FailureReason::InvalidCounts { transactions, entries }
            &&& transactions is None <==> meta.executed_transaction_count == transactions_came
            &&& transactions matches Some(count) ==> {
                &&& count.counted == meta.executed_transaction_count
                &&& transactions_came <= u64::MAX ==> count.received == transactions_came
            }
            &&& entries is None <==> meta.entries_count == entries_came
            &&& entries matches Some(count) ==> {
                &&& count.counted == meta.entries_count
                &&& entries_came <= u64::MAX ==> count.received == entries_came
            }
        },
    }
}

/// Over a whole run: where a slot behind the first that was processed is dropped, it is found
/// what its block lacks, if it was finalized and its block never went out; nothing is found of
/// it otherwise.
pub proof fn lemma_missing_blocks_are_found(run: Seq<Update>, slot: u64, update: Update)
    requires
        crate::run_laws::is_run(run),
        crate::run_laws::spans(run, slot),
        run.len() > 0,
        update.taken_in(),
        update.before.slots == run.last().after.slots,
        update.before.slots.contains_key(slot),
        !is_near(update, slot),
    ensures
        ({
            let more = update.after.invalid_blocks.skip(
                update.before.invalid_blocks.len() as int,
            );
            let owed = {
                &&& update.before.processed_first_slot matches Some(first)
                &&& first < slot
                &&& !crate::arrivals::went_out(run, slot)
                &&& crate::arrivals::told_at(run, slot, SlotStatus::Finalized) is Some
            };
            &&& owed ==> exists|k: int|
                0 <= k < more.len() && lacks(run, slot, #[trigger] more[k])
            &&& !owed ==> forall|k: int|
                0 <= k < more.len() ==> !((
                #[trigger] more[k]) matches InvalidBlock::FailedReconstruct { slot: failed, .. }
                    && failed == slot)
        }),
{
    crate::arrivals::lemma_slot_knows_what_came_in(run, slot);
    let entry = update.before.slots[slot];
    assert(entry == run.last().after.entry(slot));
    let more = update.after.invalid_blocks.skip(update.before.invalid_blocks.len() as int);
    let owed = {
        &&& update.before.processed_first_slot matches Some(first)
        &&& first < slot
        &&& !crate::arrivals::went_out(run, slot)
        &&& crate::arrivals::told_at(run, slot, SlotStatus::Finalized) is Some
    };
    lemma_dropped_blocks_are_found(update, InvalidBlock::DuplicateBlockMeta, slot);
    if owed {
        let k = choose|k: int| 0 <= k < more.len() && is_failed(entry, slot, #[trigger] more[k]);
        assert(lacks(run, slot, more[k]));
    } else {
        assert forall|k: int| 0 <= k < more.len() implies !((
        #[trigger] more[k]) matches InvalidBlock::FailedReconstruct { slot: failed, .. } && failed
            == slot) by {
            lemma_dropped_blocks_are_found(update, more[k], slot);
            assert(more.contains(more[k]));
        }
    }
}

/// A new reconstruction knows nothing; it publishes what it is told to begin with.
pub proof fn lemma_reconstruction_starts_empty(
    first: Option<u64>,
    stored: u64,
    state: BlockReconstructionState,
    slot: u64,
)
    requires
        call_ensures(BlockReconstructionState::new, (first, stored), state),
    ensures
        !state@.slots.contains_key(slot),
        state@.last_id == 0,
        state@.processed_first_slot is None,
        state@.replay_first_available_slot == first,
        state@.replay_stored_slots == stored,
        state@.invalid_blocks.len() == 0,
{
}

/// What is announced as the earliest slot is stored, and no earlier slot is; nothing is
/// announced where no slot is stored.
pub proof fn lemma_earliest_slot_is_stored(
    state: &BlockReconstructionState,
    earliest: Option<u64>,
    slot: u64,
)
    requires
        state@.slots.dom().finite(),
        call_ensures(BlockReconstructionState::earliest_slot, (state,), earliest),
    ensures
        match earliest {
            Some(earliest) => {
                &&& state@.slots.contains_key(earliest)
                &&& state@.slots.contains_key(slot) ==> earliest <= slot
            },
            None => !state@.slots.contains_key(slot),
        },
{
    crate::sweep::lemma_earliest_slot(state@.slots);
}

/// The findings are handed out once, whole and in order; nothing else changes.
pub proof fn lemma_findings_are_handed_out()
    ensures
        forall|state: &mut BlockReconstructionState, findings: Vec<InvalidBlock>| #[trigger]
            call_ensures(BlockReconstructionState::take_invalid_blocks, (state,), findings) ==> {
                &&& findings@ == (*state)@.invalid_blocks
                &&& final(state)@.invalid_blocks.len() == 0
                &&& final(state)@.slots == (*state)@.slots
                &&& final(state)@.last_id == (*state)@.last_id
                &&& final(state)@.processed_first_slot == (*state)@.processed_first_slot
                &&& final(state)@.replay_first_available_slot == (
                *state)@.replay_first_available_slot
                &&& final(state)@.replay_stored_slots == (*state)@.replay_stored_slots
            },
{
}

/// What can be read of a reconstruction is what it holds.
pub proof fn lemma_state_can_be_read()
    ensures
        forall|state: &BlockReconstructionState, id: u64| #[trigger]
            call_ensures(BlockReconstructionState::last_id, (state,), id) ==> id == state@.last_id,
        forall|state: &BlockReconstructionState, count: usize| #[trigger]
            call_ensures(BlockReconstructionState::stored_slots, (state,), count) ==> count
                == state@.slots.dom().len(),
        forall|state: &BlockReconstructionState, slot: Option<u64>| #[trigger]
            call_ensures(BlockReconstructionState::replay_first_available_slot, (state,), slot)
                ==> slot == state@.replay_first_available_slot,
        forall|state: &BlockReconstructionState, slot: u64, at: Option<usize>| #[trigger]
            call_ensures(BlockReconstructionState::confirmed_at, (state, slot), at) ==> at
                == if state@.slots.contains_key(slot) {
                state@.slots[slot].confirmed_at
            } else {
                None
            },
        forall|state: &BlockReconstructionState, slot: u64, at: Option<usize>| #[trigger]
            call_ensures(BlockReconstructionState::finalized_at, (state, slot), at) ==> at
                == if state@.slots.contains_key(slot) {
                state@.slots[slot].finalized_at
            } else {
                None
            },
{
}

/// Sources of numbers change places, and nothing else does.
pub proof fn lemma_sources_change_places()
    ensures
        forall|state: &mut BlockReconstructionState, source: &mut MessageId| #[trigger]
            call_ensures(BlockReconstructionState::swap_msgid_gen, (state, source), ()) ==> {
                &&& final(state)@.last_id == (*source).last()
                &&& final(source).last() == (*state)@.last_id
                &&& only_the_source_differs((*state)@, final(state)@)
            },
        forall|
            state: BlockReconstructionState,
            source: MessageId,
            after: BlockReconstructionState,
        | #[trigger]
            call_ensures(BlockReconstructionState::with_msgid_gen, (state, source), after) ==> {
                &&& after@.last_id == source.last()
                &&& only_the_source_differs(state@, after@)
            },
{
}

/// Two states differ at most in the number that was minted last.
pub open spec fn only_the_source_differs(one: StateView, other: StateView) -> bool {
    &&& one.slots == other.slots
    &&& one.processed_first_slot == other.processed_first_slot
    &&& one.replay_first_available_slot == other.replay_first_available_slot
    &&& one.replay_stored_slots == other.replay_stored_slots
    &&& one.invalid_blocks == other.invalid_blocks
}

/// As many numbers are announced for an update as it then mints, one for each item but its own;
/// where they are set aside, it is as many that are.
pub proof fn lemma_numbers_are_announced(
    update: Update,
    state: &BlockReconstructionState,
    message: &Message,
    count: usize,
    r: &ReconstructionDispatch,
)
    requires
        update.taken_in(),
        state@ == update.before,
        r@.state == update.before,
        *message == update.message,
        call_ensures(
            BlockReconstructionState::numbers_for,
            (state, update.id, message),
            count,
        ),
    ensures
        count == update.items.len() - 1,
        forall|shared: &mut MessageId, reserved: Option<MessageId>| #[trigger]
            call_ensures(
                ReconstructionDispatch::reserve,
                (r, shared, update.id, message),
                reserved,
            ) ==> match reserved {
                Some(source) => {
                    &&& source.last() == (*shared).last()
                    &&& final(shared).last() == (*shared).last() + update.items.len() - 1
                },
                None => {
                    &&& (*shared).last() + update.items.len() - 1 > u64::MAX
                    &&& final(shared).last() == (*shared).last()
                },
            },
{
    update.before.lemma_swept_keeps_wf(update.message);
    if update.before.seals(update.id, update.message) {
        update.before.swept(update.message).lemma_completes(update.id, update.message);
    }
}

/// Where there is room for an update, there are numbers enough for everything it brings about.
pub proof fn lemma_room_is_enough(
    update: Update,
    state: &BlockReconstructionState,
    l: &GeyserLoop,
    room: bool,
    loop_room: bool,
)
    requires
        update.taken_in(),
        state@ == update.before,
        l@.state == update.before,
        call_ensures(BlockReconstructionState::has_room, (state,), room),
        call_ensures(GeyserLoop::has_room, (l,), loop_room),
    ensures
        room ==> update.before.last_id + update.items.len() - 1 <= u64::MAX,
        loop_room == room,
        update.before.last_id + update.before.slots.dom().len() + 3 <= u64::MAX ==> room,
{
    update.before.lemma_swept_keeps_wf(update.message);
    if update.before.seals(update.id, update.message) {
        update.before.swept(update.message).lemma_completes(update.id, update.message);
    }
    if room {
        update.before.lemma_room(update.id, update.message);
    }
}

} // verus!
