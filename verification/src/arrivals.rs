//! What came in for a slot over a run of updates, and what a slot knows of it.
use crate::message::{
    Message, MessageAccountInfo, MessageBlockMeta, MessageEntry, MessageTransactionInfo, Numbered,
    SlotStatus,
};
use crate::run_laws::Update;
use crate::slot_messages::SlotView;
use std::sync::Arc;
use vstd::prelude::*;

verus! {

/// The slot that a message is about.
pub open spec fn slot_of(message: Message) -> u64 {
    match message {
        Message::Slot(msg) => msg.slot,
        Message::Account(msg) => msg.slot,
        Message::Transaction(msg) => msg.slot,
        Message::Entry(msg) => msg.slot,
        Message::BlockMeta(msg) => msg.slot,
        Message::Block(msg) => msg.meta.slot,
    }
}

/// The update brought a message about the slot that is no status.
pub open spec fn brings(update: Update, slot: u64) -> bool {
    slot_of(update.message) == slot && !(update.message is Slot)
}

/// The block that went out with an update, if one did beside the update itself.
pub open spec fn built_by(update: Update) -> Option<Numbered> {
    if update.items.len() > 0 && update.items.last().message.1 is Block && !(
    update.message is Block) {
        Some(update.items.last().message)
    } else {
        None
    }
}

/// What went out with an update reports that the slot has reached the status.
pub open spec fn tells(update: Update, slot: u64, status: SlotStatus) -> bool {
    exists|k: int|
        {
            &&& 0 <= k < update.items.len()
            &&& (#[trigger] update.items[k]).message.1 matches Message::Slot(msg)
            &&& msg.slot == slot
            &&& msg.status == status
        }
}

/// Everything that came in for a slot and is no status, with the blocks that went out for it, in
/// order.
pub open spec fn arrivals(run: Seq<Update>, slot: u64) -> Seq<Numbered>
    decreases run.len(),
{
    if run.len() == 0 {
        Seq::empty()
    } else {
        let before = arrivals(run.drop_last(), slot);
        let update = run.last();
        if brings(update, slot) {
            match built_by(update) {
                Some(block) => before.push((update.id, update.message)).push(block),
                None => before.push((update.id, update.message)),
            }
        } else {
            before
        }
    }
}

/// The image of the account in a numbered message, if it is one.
pub open spec fn image_of(numbered: Numbered) -> Option<Arc<MessageAccountInfo>> {
    match numbered.1 {
        Message::Account(msg) => Some(msg.account),
        _ => None,
    }
}

/// The two messages are images of one account.
pub open spec fn same_account(one: Numbered, other: Numbered) -> bool {
    &&& image_of(one) matches Some(a)
    &&& image_of(other) matches Some(b)
    &&& a.pubkey@ == b.pubkey@
}

/// The message was not replaced: it is no account image, or the one of its account with the
/// highest write version, and the first of them.
pub open spec fn lives(all: Seq<Numbered>, i: int) -> bool {
    forall|j: int|
        0 <= j < all.len() && j != i && same_account(#[trigger] all[j], all[i]) ==> {
            let there = image_of(all[j])->0.write_version;
            let here = image_of(all[i])->0.write_version;
            there < here || (there == here && i < j)
        }
}

/// The messages from place `from` on that were not replaced, in order.
pub open spec fn living(all: Seq<Numbered>, from: int, upto: int) -> Seq<Numbered>
    decreases upto - from,
{
    if upto <= from {
        Seq::empty()
    } else if lives(all, upto - 1) {
        living(all, from, upto - 1).push(all[upto - 1])
    } else {
        living(all, from, upto - 1)
    }
}

/// The transactions that came in for a slot, in order.
pub open spec fn transactions_of(run: Seq<Update>, slot: u64) -> Seq<Arc<MessageTransactionInfo>>
    decreases run.len(),
{
    if run.len() == 0 {
        Seq::empty()
    } else {
        let before = transactions_of(run.drop_last(), slot);
        match run.last().message {
            Message::Transaction(msg) => if msg.slot == slot {
                before.push(msg.transaction)
            } else {
                before
            },
            _ => before,
        }
    }
}

/// The entries that came in for a slot, in order.
pub open spec fn entries_of(run: Seq<Update>, slot: u64) -> Seq<Arc<MessageEntry>>
    decreases run.len(),
{
    if run.len() == 0 {
        Seq::empty()
    } else {
        let before = entries_of(run.drop_last(), slot);
        match run.last().message {
            Message::Entry(msg) => if msg.slot == slot {
                before.push(msg)
            } else {
                before
            },
            _ => before,
        }
    }
}

/// The last meta that came in for a slot.
pub open spec fn meta_of(run: Seq<Update>, slot: u64) -> Option<Arc<MessageBlockMeta>>
    decreases run.len(),
{
    if run.len() == 0 {
        None
    } else {
        match run.last().message {
            Message::BlockMeta(msg) => if msg.slot == slot {
                Some(msg)
            } else {
                meta_of(run.drop_last(), slot)
            },
            _ => meta_of(run.drop_last(), slot),
        }
    }
}

/// The status messages that came in for a slot, in order.
pub open spec fn statuses_of(run: Seq<Update>, slot: u64) -> Seq<Numbered>
    decreases run.len(),
{
    if run.len() == 0 {
        Seq::empty()
    } else {
        let before = statuses_of(run.drop_last(), slot);
        match run.last().message {
            Message::Slot(msg) => if msg.slot == slot {
                before.push((run.last().id, run.last().message))
            } else {
                before
            },
            _ => before,
        }
    }
}

/// The parent that was last reported when a slot was processed.
pub open spec fn parent_of(run: Seq<Update>, slot: u64) -> Option<u64>
    decreases run.len(),
{
    if run.len() == 0 {
        None
    } else {
        match run.last().message {
            Message::Slot(msg) => if msg.slot == slot && msg.status is Processed {
                msg.parent
            } else {
                parent_of(run.drop_last(), slot)
            },
            _ => parent_of(run.drop_last(), slot),
        }
    }
}

/// The block of a slot went out.
pub open spec fn went_out(run: Seq<Update>, slot: u64) -> bool
    decreases run.len(),
{
    run.len() > 0 && (went_out(run.drop_last(), slot) || (brings(run.last(), slot) && built_by(
        run.last(),
    ) is Some))
}

/// How many entries the block counted that went out for a slot; none, where none went out.
pub open spec fn entries_counted(run: Seq<Update>, slot: u64) -> u64
    decreases run.len(),
{
    if run.len() == 0 {
        0
    } else {
        match built_by(run.last()) {
            Some((_, Message::Block(block))) if brings(run.last(), slot) =>
                block.meta.entries_count,
            _ => entries_counted(run.drop_last(), slot),
        }
    }
}

/// What went out reports that the slot has reached the status.
pub open spec fn was_told(run: Seq<Update>, slot: u64, status: SlotStatus) -> bool
    decreases run.len(),
{
    run.len() > 0 && (was_told(run.drop_last(), slot, status) || tells(run.last(), slot, status))
}

/// How many messages had come in for a slot when it was last reported to have reached the
/// status before its block went out.
pub open spec fn told_at(run: Seq<Update>, slot: u64, status: SlotStatus) -> Option<int>
    decreases run.len(),
{
    if run.len() == 0 {
        None
    } else if tells(run.last(), slot, status) && !went_out(run.drop_last(), slot) {
        Some(arrivals(run, slot).len() as int)
    } else {
        told_at(run.drop_last(), slot, status)
    }
}

/// The messages of a slot are those that arrived, without those that were replaced.
pub open spec fn mirrors(entry: SlotView, all: Seq<Numbered>) -> bool {
    &&& entry.messages.len() == all.len()
    &&& forall|i: int|
        0 <= i < all.len() ==> #[trigger] entry.messages[i] == if lives(all, i) {
            Some(all[i])
        } else {
            None
        }
    &&& forall|i: int|
        0 <= i < all.len() ==> (image_of(#[trigger] all[i]) matches Some(account)
            ==> entry.latest.contains_key(crate::message::address_key(account.pubkey@)))
}

/// One more message that is no account image replaces nothing.
proof fn lemma_mirrors_other(entry: SlotView, after: SlotView, all: Seq<Numbered>, next: Numbered)
    requires
        mirrors(entry, all),
        image_of(next) is None,
        after.messages == entry.messages.push(Some(next)),
        after.latest == entry.latest,
    ensures
        mirrors(after, all.push(next)),
{
    let more = all.push(next);
    assert forall|i: int| 0 <= i < more.len() implies #[trigger] after.messages[i] == if lives(
        more,
        i,
    ) {
        Some(more[i])
    } else {
        None
    } by {
        if i < all.len() {
            assert(entry.messages[i] == after.messages[i]);
            assert(lives(more, i) == lives(all, i)) by {
                if lives(all, i) {
                    assert forall|j: int|
                        0 <= j < more.len() && j != i && same_account(
                            #[trigger] more[j],
                            more[i],
                        ) implies {
                        let there = image_of(more[j])->0.write_version;
                        let here = image_of(more[i])->0.write_version;
                        there < here || (there == here && i < j)
                    } by {
                        assert(more[j] == all[j]);
                    }
                }
                if lives(more, i) {
                    assert forall|j: int|
                        0 <= j < all.len() && j != i && same_account(
                            #[trigger] all[j],
                            all[i],
                        ) implies {
                        let there = image_of(all[j])->0.write_version;
                        let here = image_of(all[i])->0.write_version;
                        there < here || (there == here && i < j)
                    } by {
                        assert(more[j] == all[j]);
                    }
                }
            }
        } else {
            assert(lives(more, i));
        }
    }
    assert forall|i: int| 0 <= i < more.len() implies (image_of(#[trigger] more[i]) matches Some(
        account,
    ) ==> after.latest.contains_key(crate::message::address_key(account.pubkey@))) by {
        if i < all.len() {
            assert(more[i] == all[i]);
        }
    }
}

/// Whether a message lives after one more account image came.
proof fn lemma_lives_with_one_more(all: Seq<Numbered>, next: Numbered, i: int)
    requires
        0 <= i < all.len(),
    ensures
        lives(all.push(next), i) <==> lives(all, i) && (same_account(next, all[i]) ==> image_of(
            next,
        )->0.write_version <= image_of(all[i])->0.write_version),
{
    let more = all.push(next);
    let last = all.len() as int;
    assert(more[last] == next);
    if lives(more, i) {
        assert forall|j: int|
            0 <= j < all.len() && j != i && same_account(#[trigger] all[j], all[i]) implies {
            let there = image_of(all[j])->0.write_version;
            let here = image_of(all[i])->0.write_version;
            there < here || (there == here && i < j)
        } by {
            assert(more[j] == all[j]);
        }
        assert(same_account(more[last], more[i]) == same_account(next, all[i]));
    }
    if lives(all, i) && (same_account(next, all[i]) ==> image_of(next)->0.write_version <= image_of(
        all[i],
    )->0.write_version) {
        assert forall|j: int|
            0 <= j < more.len() && j != i && same_account(#[trigger] more[j], more[i]) implies {
            let there = image_of(more[j])->0.write_version;
            let here = image_of(more[i])->0.write_version;
            there < here || (there == here && i < j)
        } by {
            if j < last {
                assert(more[j] == all[j]);
            }
        }
    }
}

/// One more account image replaces the one that lives, or is replaced by it.
proof fn lemma_mirrors_account(entry: SlotView, all: Seq<Numbered>, id: u64, message: Message)
    requires
        entry.wf(),
        mirrors(entry, all),
        message is Account,
        entry.messages.len() < usize::MAX,
    ensures
        mirrors(entry.with_account(id, message), all.push((id, message))),
{
    let next = (id, message);
    let more = all.push(next);
    let after = entry.with_account(id, message);
    let info = message->Account_0.account;
    let key = crate::message::address_key(info.pubkey@);
    let last = all.len() as int;
    assert forall|i: int| 0 <= i < all.len() && same_account(#[trigger] all[i], next) implies {
        &&& entry.latest.contains_key(key)
        &&& lives(all, i) ==> entry.latest[key].1 == i && entry.latest[key].0 == image_of(
            all[i],
        )->0.write_version
    } by {
        assert(image_of(all[i]) is Some);
        if lives(all, i) {
            assert(entry.messages[i] == Some(all[i]));
            assert(entry.is_newest_image(i));
        }
    }
    if entry.latest.contains_key(key) {
        let at = entry.latest[key].1 as int;
        assert(entry.points_at_image(key));
        assert(entry.messages[at] is Some);
        assert(lives(all, at));
        crate::message::lemma_address_key_is_injective(
            image_of(all[at])->0.pubkey@,
            info.pubkey@,
        );
        assert(same_account(all[at], next));
    }
    assert forall|i: int| 0 <= i < more.len() implies #[trigger] after.messages[i] == if lives(
        more,
        i,
    ) {
        Some(more[i])
    } else {
        None
    } by {
        if i < last {
            lemma_lives_with_one_more(all, next, i);
            assert(more[i] == all[i]);
            assert(entry.messages[i] == if lives(all, i) {
                Some(all[i])
            } else {
                None
            });
            if same_account(next, all[i]) {
                assert(same_account(all[i], next));
            }
        } else {
            assert(more[i] == next);
            if entry.latest.contains_key(key) {
                let at = entry.latest[key].1 as int;
                if entry.latest[key].0 < info.write_version {
                    assert forall|j: int|
                        0 <= j < more.len() && j != i && same_account(
                            #[trigger] more[j],
                            more[i],
                        ) implies image_of(more[j])->0.write_version < info.write_version by {
                        assert(more[j] == all[j]);
                        if j != at {
                            assert(same_account(all[j], all[at]));
                        }
                    }
                    assert(lives(more, i));
                } else {
                    assert(more[at] == all[at]);
                    assert(!lives(more, i));
                }
            } else {
                assert forall|j: int| 0 <= j < more.len() && j != i implies !same_account(
                    #[trigger] more[j],
                    more[i],
                ) by {
                    assert(more[j] == all[j]);
                }
                assert(lives(more, i));
            }
        }
    }
    assert forall|i: int| 0 <= i < more.len() implies (image_of(#[trigger] more[i]) matches Some(
        account,
    ) ==> after.latest.contains_key(crate::message::address_key(account.pubkey@))) by {
        if i < last {
            assert(more[i] == all[i]);
        }
    }
}

/// What a slot knows is what came in for it.
pub open spec fn knows(entry: SlotView, run: Seq<Update>, slot: u64) -> bool {
    &&& mirrors(entry, arrivals(run, slot))
    &&& entry.block_meta == meta_of(run, slot)
    &&& entry.sealed == went_out(run, slot)
    &&& entry.entries_count == entries_counted(run, slot)
    &&& !entry.sealed ==> entry.transactions == transactions_of(run, slot)
    &&& !entry.sealed ==> entry.entries == entries_of(run, slot)
    &&& entry.messages_slots == statuses_of(run, slot)
    &&& entry.parent_slot == parent_of(run, slot)
    &&& entry.confirmed == was_told(run, slot, SlotStatus::Confirmed)
    &&& entry.finalized == was_told(run, slot, SlotStatus::Finalized)
    &&& is_place(entry.confirmed_at, told_at(run, slot, SlotStatus::Confirmed))
    &&& is_place(entry.finalized_at, told_at(run, slot, SlotStatus::Finalized))
}

/// The same place.
pub open spec fn is_place(noted: Option<usize>, place: Option<int>) -> bool {
    match (noted, place) {
        (Some(noted), Some(place)) => noted == place,
        (None, None) => true,
        _ => false,
    }
}

/// The slot of a message, as it is filed.
proof fn lemma_slot_of(message: Message)
    ensures
        message.slot() == slot_of(message),
{
}

/// Whom an update tells of a status.
pub proof fn lemma_tells(update: Update, slot: u64, status: SlotStatus)
    requires
        update.taken_in(),
    ensures
        tells(update, slot, status) <==> {
            &&& update.message matches Message::Slot(msg)
            &&& msg.status == status
            &&& msg.slot == slot || update.before.missed(update.id, update.message).contains(slot)
        },
        update.message is Slot ==> built_by(update) is None,
{
    let state = update.before;
    let missed = state.missed(update.id, update.message);
    let items = update.items;
    let n = missed.len() as int;
    state.lemma_swept_keeps_wf(update.message);
    if state.seals(update.id, update.message) {
        state.swept(update.message).lemma_completes(update.id, update.message);
    }
    assert(items[n].message == (update.id, update.message));
    if tells(update, slot, status) {
        let k = choose|k: int|
            {
                &&& 0 <= k < items.len()
                &&& (#[trigger] items[k]).message.1 matches Message::Slot(msg)
                &&& msg.slot == slot
                &&& msg.status == status
            };
        if k < n {
            assert(items[k].message.1->Slot_0.slot == missed[n - 1 - k]);
            assert(missed.contains(missed[n - 1 - k]));
        }
    }
    if let Message::Slot(msg) = update.message {
        if missed.contains(slot) && msg.status == status {
            let j = choose|j: int| 0 <= j < missed.len() && missed[j] == slot;
            let k = n - 1 - j;
            assert(items[k].message.1->Slot_0.slot == missed[n - 1 - k]);
        }
        assert(items.last() == items[n]);
    }
}

/// What an update that is no status does to a slot.
pub proof fn lemma_part_effect(update: Update, slot: u64)
    requires
        update.taken_in(),
        !(update.message is Slot),
        update.before.slots.contains_key(slot) ==> update.after.slots.contains_key(slot),
    ensures
        ({
            let entry = update.before.entry(slot);
            let after = update.after.entry(slot);
            let received = entry.received(update.id, update.message);
            if slot_of(update.message) == slot {
                &&& built_by(update) is Some <==> received.ready()
                &&& match built_by(update) {
                    Some(block) => after == received.sealed_as(block) && (
                    block.1 matches Message::Block(built) && received.is_block(*built)),
                    None => after == received,
                }
                &&& update.after.slots.contains_key(slot)
            } else {
                after == entry
            }
        }),
{
    let state = update.before;
    let message = update.message;
    lemma_slot_of(message);
    state.lemma_swept_keeps_wf(message);
    if state.seals(update.id, message) {
        state.swept(message).lemma_completes(update.id, message);
    } else {
        assert(update.items.last() == update.items[0]);
    }
}

/// What a status does to a slot.
proof fn lemma_status_effect(update: Update, slot: u64)
    requires
        update.taken_in(),
        update.message is Slot,
        update.before.slots.contains_key(slot) ==> update.after.slots.contains_key(slot),
    ensures
        ({
            let entry = update.before.entry(slot);
            let after = update.after.entry(slot);
            let status = update.message->Slot_0.status;
            if slot_of(update.message) == slot {
                after == entry.received(update.id, update.message).recorded(status)
            } else if tells(update, slot, status) {
                after == entry.marked(status).recorded(status)
            } else {
                after == entry
            }
        }),
{
    let state = update.before;
    let message = update.message;
    let status = message->Slot_0.status;
    lemma_slot_of(message);
    lemma_tells(update, slot, status);
    crate::reconstruction_laws::lemma_told_once(state, update.id, message);
    crate::reconstruction_laws::lemma_retention_boundary(
        state,
        update.id,
        message,
        update.items,
        update.after,
        slot,
    );
    state.lemma_swept_keeps_wf(message);
    let filed = state.swept(message).filed(update.id, message);
    let missed = state.missed(update.id, message);
    crate::ancestors::lemma_missed_ancestors(filed.slots, message.slot(), status);
    if missed.contains(slot) {
        let k = choose|k: int| 0 <= k < missed.len() && missed[k] == slot;
        assert(filed.slots.contains_key(missed[k]));
    }
    if update.after.slots.contains_key(slot) {
        assert(update.after.slots[slot] == crate::reconstruction::with_status(
            filed.slots,
            message.slot(),
            missed,
            status,
        )[slot]);
    }
}

/// An update that is no status adds to what a slot knows.
proof fn lemma_part_is_known(run: Seq<Update>, slot: u64)
    requires
        run.len() > 0,
        run.last().taken_in(),
        !(run.last().message is Slot),
        run.last().before.slots.contains_key(slot) ==> run.last().after.slots.contains_key(slot),
        knows(run.last().before.entry(slot), run.drop_last(), slot),
    ensures
        knows(run.last().after.entry(slot), run, slot),
{
    let update = run.last();
    let rest = run.drop_last();
    let entry = update.before.entry(slot);
    let after = update.after.entry(slot);
    lemma_part_effect(update, slot);
    lemma_tells(update, slot, SlotStatus::Confirmed);
    lemma_tells(update, slot, SlotStatus::Finalized);
    if slot_of(update.message) == slot {
        let all = arrivals(rest, slot);
        let next = (update.id, update.message);
        let received = entry.received(update.id, update.message);
        assert(update.after.slots[slot].wf());
        assert(entry.wf()) by {
            if update.before.slots.contains_key(slot) {
                assert(update.before.slots[slot].wf());
            }
        }
        if update.message is Account {
            lemma_mirrors_account(entry, all, update.id, update.message);
        } else {
            lemma_mirrors_other(entry, received, all, next);
        }
        assert(mirrors(received, all.push(next)));
        if let Some(block) = built_by(update) {
            lemma_mirrors_other(received, after, all.push(next), block);
        }
    }
}

/// A status adds to what a slot knows.
proof fn lemma_status_is_known(run: Seq<Update>, slot: u64)
    requires
        run.len() > 0,
        run.last().taken_in(),
        run.last().message is Slot,
        run.last().before.slots.contains_key(slot) ==> run.last().after.slots.contains_key(slot),
        knows(run.last().before.entry(slot), run.drop_last(), slot),
    ensures
        knows(run.last().after.entry(slot), run, slot),
{
    let update = run.last();
    let status = update.message->Slot_0.status;
    lemma_status_effect(update, slot);
    lemma_tells(update, slot, SlotStatus::Confirmed);
    lemma_tells(update, slot, SlotStatus::Finalized);
    lemma_tells(update, slot, status);
    assert(update.before.entry(slot).messages.len() <= usize::MAX) by {
        if update.before.slots.contains_key(slot) {
            assert(update.before.slots[slot].wf());
        }
    }
}

/// Over any run of updates in which a slot is not dropped, the slot knows exactly what came in
/// for it.
pub proof fn lemma_slot_knows_what_came_in(run: Seq<Update>, slot: u64)
    requires
        crate::run_laws::is_run(run),
        crate::run_laws::spans(run, slot),
        run.len() > 0,
    ensures
        knows(run.last().after.entry(slot), run, slot),
        knows(run.last().before.entry(slot), run.drop_last(), slot),
    decreases run.len(),
{
    let rest = run.drop_last();
    let update = run.last();
    assert(update == run[run.len() - 1]);
    if rest.len() > 0 {
        lemma_shorter_run(run, slot);
        lemma_slot_knows_what_came_in(rest, slot);
        assert(rest.last() == run[run.len() - 2]);
        assert(update.before.entry(slot) == rest.last().after.entry(slot));
    } else {
        assert(update.before.entry(slot) == SlotView::empty());
        assert(knows(SlotView::empty(), rest, slot));
    }
    if update.message is Slot {
        lemma_status_is_known(run, slot);
    } else {
        lemma_part_is_known(run, slot);
    }
}

/// A run without its last update is a run.
pub proof fn lemma_shorter_run(run: Seq<Update>, slot: u64)
    requires
        crate::run_laws::is_run(run),
        run.len() > 0,
    ensures
        crate::run_laws::is_run(run.drop_last()),
        crate::run_laws::spans(run, slot) ==> crate::run_laws::spans(run.drop_last(), slot),
{
    let rest = run.drop_last();
    assert forall|i: int| 0 <= i < rest.len() implies (#[trigger] rest[i]).taken_in() by {
        assert(rest[i] == run[i]);
    }
    assert forall|i: int| 0 < i < rest.len() implies (#[trigger] rest[i]).before.slots == rest[i
        - 1].after.slots by {
        assert(rest[i] == run[i] && rest[i - 1] == run[i - 1]);
    }
    if crate::run_laws::spans(run, slot) {
        assert forall|i: int|
            0 <= i < rest.len() && (#[trigger] rest[i]).before.slots.contains_key(
                slot,
            ) implies rest[i].after.slots.contains_key(slot) by {
            assert(rest[i] == run[i]);
        }
    }
}

/// Between a message and the block that it completes, a slot holds what came in up to there.
pub proof fn lemma_received_mirrors(run: Seq<Update>, slot: u64)
    requires
        crate::run_laws::is_run(run),
        crate::run_laws::spans(run, slot),
        run.len() > 0,
        brings(run.last(), slot),
    ensures
        mirrors(
            run.last().before.entry(slot).received(run.last().id, run.last().message),
            arrivals(run.drop_last(), slot).push((run.last().id, run.last().message)),
        ),
{
    let update = run.last();
    assert(update == run[run.len() - 1]);
    lemma_slot_knows_what_came_in(run, slot);
    lemma_part_effect(update, slot);
    let entry = update.before.entry(slot);
    let all = arrivals(run.drop_last(), slot);
    let received = entry.received(update.id, update.message);
    assert(update.after.slots[slot].wf());
    assert(entry.wf()) by {
        if update.before.slots.contains_key(slot) {
            assert(update.before.slots[slot].wf());
        }
    }
    if update.message is Account {
        lemma_mirrors_account(entry, all, update.id, update.message);
    } else {
        lemma_mirrors_other(entry, received, all, (update.id, update.message));
    }
}

/// A slot of which a status goes out is stored.
pub proof fn lemma_told_is_stored(update: Update, slot: u64, status: SlotStatus)
    requires
        update.taken_in(),
        tells(update, slot, status),
    ensures
        update.after.slots.contains_key(slot),
{
    let state = update.before;
    let message = update.message;
    lemma_tells(update, slot, status);
    lemma_slot_of(message);
    state.lemma_swept_keeps_wf(message);
    let filed = state.swept(message).filed(update.id, message);
    let missed = state.missed(update.id, message);
    assert(filed.slots.dom() =~= state.swept(message).slots.dom().insert(message.slot()));
    crate::ancestors::lemma_missed_ancestors(filed.slots, message.slot(), status);
    if missed.contains(slot) {
        let k = choose|k: int| 0 <= k < missed.len() && missed[k] == slot;
        assert(filed.slots.contains_key(missed[k]));
    }
}

/// The meta of a slot is about that slot.
pub proof fn lemma_meta_is_about(run: Seq<Update>, slot: u64)
    ensures
        meta_of(run, slot) matches Some(meta) ==> meta.slot == slot,
    decreases run.len(),
{
    if run.len() > 0 {
        lemma_meta_is_about(run.drop_last(), slot);
    }
}

/// Arrivals only grow in number.
pub proof fn lemma_told_place(run: Seq<Update>, slot: u64, status: SlotStatus)
    ensures
        told_at(run, slot, status) matches Some(at) ==> 0 <= at <= arrivals(run, slot).len() && (
        run.len() > 0 && brings(run.last(), slot) && !tells(run.last(), slot, status) ==> at
            < arrivals(run, slot).len()),
        told_at(run, slot, status) is Some ==> was_told(run, slot, status),
        !went_out(run, slot) && was_told(run, slot, status) ==> told_at(run, slot, status) is Some,
    decreases run.len(),
{
    if run.len() > 0 {
        lemma_told_place(run.drop_last(), slot, status);
    }
}

/// What arrives is no status.
pub proof fn lemma_arrivals_are_parts(run: Seq<Update>, slot: u64, i: int)
    requires
        0 <= i < arrivals(run, slot).len(),
    ensures
        !(arrivals(run, slot)[i].1 is Slot),
    decreases run.len(),
{
    let before = arrivals(run.drop_last(), slot);
    if i < before.len() {
        lemma_arrivals_are_parts(run.drop_last(), slot, i);
    }
}

/// A slot that was told was told with one of the updates.
pub proof fn lemma_who_told(run: Seq<Update>, slot: u64, status: SlotStatus) -> (i: int)
    requires
        was_told(run, slot, status),
    ensures
        0 <= i < run.len(),
        tells(run[i], slot, status),
    decreases run.len(),
{
    if tells(run.last(), slot, status) {
        run.len() - 1
    } else {
        let i = lemma_who_told(run.drop_last(), slot, status);
        assert(run.drop_last()[i] == run[i]);
        i
    }
}

/// Over a run everything stays stored under its own slot.
pub proof fn lemma_run_stores_by_slot(run: Seq<Update>)
    requires
        crate::run_laws::is_run(run),
        run.len() > 0,
        crate::reconstruction_laws::stored_by_slot(run[0].before.slots),
    ensures
        crate::reconstruction_laws::stored_by_slot(run.last().before.slots),
        crate::reconstruction_laws::stored_by_slot(run.last().after.slots),
    decreases run.len(),
{
    let rest = run.drop_last();
    let update = run.last();
    assert(update == run[run.len() - 1]);
    if rest.len() > 0 {
        lemma_shorter_run(run, 0);
        assert(rest[0] == run[0]);
        lemma_run_stores_by_slot(rest);
        assert(rest.last() == run[run.len() - 2]);
    }
    crate::reconstruction_laws::lemma_stays_stored_by_slot(
        update.before,
        update.id,
        update.message,
        update.items,
        update.after,
    );
}

} // verus!
