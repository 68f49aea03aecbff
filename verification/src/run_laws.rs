//! What holds over a whole run of updates.
use crate::message::{Message, Numbered, Pubkey};
use crate::reconstruction::{DispatchItem, StateView};
use crate::slot_messages::SlotView;
use vstd::prelude::*;

verus! {

/// An update that the reconstruction took in, with the states before and after it.
pub struct Update {
    pub before: StateView,
    pub id: u64,
    pub message: Message,
    pub items: Seq<DispatchItem>,
    pub after: StateView,
}

impl Update {
    /// The update was taken in as `on_message_with_id` does.
    pub open spec fn taken_in(self) -> bool {
        &&& self.before.wf()
        &&& self.after.wf()
        &&& self.before.dispatched(self.id, self.message, self.items, self.after)
    }

    /// The update brings an image of an account in a slot.
    pub open spec fn is_image_of(self, slot: u64, pubkey: Pubkey) -> bool {
        self.message matches Message::Account(msg) && msg.slot == slot && msg.account.pubkey@
            == pubkey@
    }

    /// The write version of the image that the update brings.
    pub open spec fn write_version(self) -> u64 {
        self.message->Account_0.account.write_version
    }

    /// The item of the message itself.
    pub open spec fn raw_item(self) -> DispatchItem {
        self.items[self.before.missed(self.id, self.message).len() as int]
    }
}

/// Updates that were taken in one after the other. What else a state holds than its slots, such
/// as the number that was minted last, may change between them.
pub open spec fn is_run(run: Seq<Update>) -> bool {
    &&& forall|i: int| 0 <= i < run.len() ==> (#[trigger] run[i]).taken_in()
    &&& forall|i: int|
        0 < i < run.len() ==> (#[trigger] run[i]).before.slots == run[i - 1].after.slots
}

/// Nothing is known of the slot before the run, and the slot is not dropped in it.
pub open spec fn spans(run: Seq<Update>, slot: u64) -> bool {
    &&& run.len() > 0 ==> !run[0].before.slots.contains_key(slot)
    &&& forall|i: int|
        0 <= i < run.len() && (#[trigger] run[i]).before.slots.contains_key(slot)
            ==> run[i].after.slots.contains_key(slot)
}

/// Which update of a run brought the newest image of an account in a slot: the one with the
/// highest write version, and the earliest of them.
pub open spec fn newest(run: Seq<Update>, slot: u64, pubkey: Pubkey) -> Option<int>
    decreases run.len(),
{
    if run.len() == 0 {
        None
    } else {
        let before = newest(run.drop_last(), slot, pubkey);
        if run.last().is_image_of(slot, pubkey) {
            match before {
                Some(i) => if run[i].write_version() < run.last().write_version() {
                    Some(run.len() - 1)
                } else {
                    Some(i)
                },
                None => Some(run.len() - 1),
            }
        } else {
            before
        }
    }
}

/// The newest image has no older write version than any other, and a newer one than those that
/// came before it; there is none only where no update brought an image.
pub proof fn lemma_newest(run: Seq<Update>, slot: u64, pubkey: Pubkey)
    ensures
        match newest(run, slot, pubkey) {
            Some(i) => {
                &&& 0 <= i < run.len()
                &&& run[i].is_image_of(slot, pubkey)
                &&& forall|j: int|
                    0 <= j < run.len() && (#[trigger] run[j]).is_image_of(slot, pubkey)
                        ==> run[j].write_version() <= run[i].write_version()
                &&& forall|j: int|
                    0 <= j < i && (#[trigger] run[j]).is_image_of(slot, pubkey)
                        ==> run[j].write_version() < run[i].write_version()
            },
            None => forall|j: int|
                0 <= j < run.len() ==> !(#[trigger] run[j]).is_image_of(slot, pubkey),
        },
    decreases run.len(),
{
    if run.len() > 0 {
        let before = run.drop_last();
        lemma_newest(before, slot, pubkey);
        assert(run.last() == run[run.len() - 1]);
        assert forall|j: int| 0 <= j < before.len() implies #[trigger] run[j] == before[j] by {}
    }
}

/// What an update does to the images that a slot holds: an image of an account is compared with
/// the newest one so far, and anything else leaves the images where they are.
proof fn lemma_update_keeps_images(update: Update, slot: u64)
    requires
        update.taken_in(),
        update.before.slots.contains_key(slot) ==> update.after.slots.contains_key(slot),
    ensures
        ({
            let entry = update.before.entry(slot);
            let after = update.after.entry(slot);
            if update.message is Account && update.message.slot() == slot {
                after == entry.with_account(update.id, update.message)
            } else {
                &&& after.latest == entry.latest
                &&& entry.messages.len() <= after.messages.len()
                &&& forall|i: int|
                    0 <= i < entry.messages.len() ==> #[trigger] after.messages[i]
                        == entry.messages[i]
            }
        }),
{
    let state = update.before;
    let message = update.message;
    state.lemma_swept_keeps_wf(message);
    crate::reconstruction_laws::lemma_retention_boundary(
        state,
        update.id,
        message,
        update.items,
        update.after,
        slot,
    );
    if message is Account && state.seals(update.id, message) {
        state.swept(message).lemma_completes(update.id, message);
    }
    if !update.after.slots.contains_key(slot) {
        assert(update.after.entry(slot) == SlotView::empty());
    }
}

/// After a run a slot knows the newest image of every account, and holds it.
proof fn lemma_newest_image_is_held(run: Seq<Update>, slot: u64, pubkey: Pubkey)
    requires
        is_run(run),
        spans(run, slot),
        run.len() > 0,
    ensures
        ({
            let entry = run.last().after.entry(slot);
            let key = crate::message::address_key(pubkey@);
            match newest(run, slot, pubkey) {
                Some(i) => {
                    &&& entry.latest.contains_key(key)
                    &&& entry.latest[key].0 == run[i].write_version()
                    &&& entry.latest[key].1 < entry.messages.len()
                    &&& entry.messages[entry.latest[key].1 as int] == Some(
                        (run[i].id, run[i].message),
                    )
                },
                None => !entry.latest.contains_key(key),
            }
        }),
    decreases run.len(),
{
    let key = crate::message::address_key(pubkey@);
    let rest = run.drop_last();
    let last = run.last();
    assert(last == run[run.len() - 1]);
    let entry = last.before.entry(slot);
    let after = last.after.entry(slot);
    lemma_newest(rest, slot, pubkey);
    assert(is_run(rest)) by {
        assert forall|i: int| 0 <= i < rest.len() implies (#[trigger] rest[i]).taken_in() by {
            assert(rest[i] == run[i]);
        }
        assert forall|i: int| 0 < i < rest.len() implies (#[trigger] rest[i]).before.slots == rest[i
            - 1].after.slots by {
            assert(rest[i] == run[i] && rest[i - 1] == run[i - 1]);
        }
    }
    assert(spans(rest, slot)) by {
        assert forall|i: int|
            0 <= i < rest.len() && (#[trigger] rest[i]).before.slots.contains_key(
                slot,
            ) implies rest[i].after.slots.contains_key(slot) by {
            assert(rest[i] == run[i]);
        }
    }
    if rest.len() > 0 {
        lemma_newest_image_is_held(rest, slot, pubkey);
        assert(rest.last() == run[run.len() - 2]);
        assert(entry == rest.last().after.entry(slot));
    } else {
        assert(entry == SlotView::empty());
    }
    lemma_update_keeps_images(last, slot);
    if last.message is Account && last.message.slot() == slot {
        let other = last.message->Account_0.account.pubkey;
        let other_key = crate::message::address_key(other@);
        assert(entry.wf()) by {
            if last.before.slots.contains_key(slot) {
                assert(last.before.slots[slot].wf());
            }
        }
        assert(after.wf()) by {
            assert(last.after.slots.contains_key(slot));
            assert(last.after.slots[slot].wf());
        }
        if other_key == key {
            crate::message::lemma_address_key_is_injective(other@, pubkey@);
        } else if entry.latest.contains_key(other_key) {
            assert(entry.points_at_image(other_key));
            if entry.latest.contains_key(key) {
                assert(entry.points_at_image(key));
            }
        }
    }
}

/// Two survivors stand at two places.
proof fn lemma_two_survivors(messages: Seq<Option<Numbered>>, j: int, k: int) -> (at: (int, int))
    requires
        0 <= j < k < crate::slot_messages::survivors(messages).len(),
    ensures
        0 <= at.0 < at.1 < messages.len(),
        messages[at.0] == Some(crate::slot_messages::survivors(messages)[j]),
        messages[at.1] == Some(crate::slot_messages::survivors(messages)[k]),
    decreases messages.len(),
{
    let before = messages.drop_last();
    let rest = crate::slot_messages::survivors(before);
    if k < rest.len() {
        let at = lemma_two_survivors(before, j, k);
        assert(before[at.0] == messages[at.0] && before[at.1] == messages[at.1]);
        at
    } else {
        let at = crate::dedup::lemma_survivor_is_held(before, j);
        assert(before[at] == messages[at]);
        (at, messages.len() - 1)
    }
}

/// The message is an image of the account.
pub open spec fn shows(numbered: Numbered, pubkey: Pubkey) -> bool {
    numbered.1 matches Message::Account(msg) && msg.account.pubkey@ == pubkey@
}

/// A batch holds one image of the account, and that is `numbered`.
pub open spec fn holds_only(batch: Seq<Numbered>, pubkey: Pubkey, numbered: Numbered) -> bool {
    exists|k: int|
        {
            &&& 0 <= k < batch.len()
            &&& #[trigger] batch[k] == numbered
            &&& forall|j: int| 0 <= j < batch.len() && shows(#[trigger] batch[j], pubkey) ==> j == k
        }
}

/// A batch holds no image of the account.
pub open spec fn holds_none(batch: Seq<Numbered>, pubkey: Pubkey) -> bool {
    forall|j: int| 0 <= j < batch.len() ==> !shows(#[trigger] batch[j], pubkey)
}

/// The messages of a slot hold the newest image of an account that it knows, and no other.
proof fn lemma_survivors_hold_only(entry: SlotView, pubkey: Pubkey, status: Numbered)
    requires
        entry.wf(),
        !(status.1 is Account),
    ensures
        ({
            let batch = crate::slot_messages::survivors(entry.messages).push(status);
            let key = crate::message::address_key(pubkey@);
            if entry.latest.contains_key(key) {
                holds_only(batch, pubkey, entry.messages[entry.latest[key].1 as int]->0)
            } else {
                holds_none(batch, pubkey)
            }
        }),
{
    let held = crate::slot_messages::survivors(entry.messages);
    let batch = held.push(status);
    let key = crate::message::address_key(pubkey@);
    assert forall|j: int| 0 <= j < batch.len() && shows(#[trigger] batch[j], pubkey) implies {
        &&& j < held.len()
        &&& entry.latest.contains_key(key)
        &&& Some(held[j]) == entry.messages[entry.latest[key].1 as int]
    } by {
        let at = crate::dedup::lemma_survivor_is_held(entry.messages, j);
        assert(entry.is_newest_image(at));
    }
    if entry.latest.contains_key(key) {
        let at = entry.latest[key].1 as int;
        assert(entry.points_at_image(key));
        crate::dedup::lemma_held_survives(entry.messages, at);
        let wanted = entry.messages[at]->0;
        let k = choose|k: int| 0 <= k < held.len() && held[k] == wanted;
        assert(batch[k] == wanted);
        crate::message::lemma_address_key_is_injective(
            wanted.1->Account_0.account.pubkey@,
            pubkey@,
        );
        assert forall|j: int| 0 <= j < batch.len() && shows(#[trigger] batch[j], pubkey) implies j
            == k by {
            assert(held[j] == wanted);
            if j < k {
                let places = lemma_two_survivors(entry.messages, j, k);
                assert(entry.is_newest_image(places.0) && entry.is_newest_image(places.1));
            } else if k < j {
                let places = lemma_two_survivors(entry.messages, k, j);
                assert(entry.is_newest_image(places.0) && entry.is_newest_image(places.1));
            }
        }
    }
}

/// When a slot is confirmed, or finalized, the batch that goes out with it holds for each account
/// that came in for the slot exactly one image: the one with the highest write version, and the
/// earliest of them. It holds no image of any other account.
pub proof fn lemma_batch_holds_the_newest_images(run: Seq<Update>, slot: u64, pubkey: Pubkey)
    requires
        is_run(run),
        spans(run, slot),
        run.len() > 0,
        run.last().message matches Message::Slot(msg) && msg.slot == slot && (
        msg.status is Confirmed || msg.status is Finalized),
    ensures
        ({
            let item = run.last().raw_item();
            let batch = if run.last().message->Slot_0.status is Confirmed {
                crate::reconstruction::batch_view(item.confirmed_messages)
            } else {
                crate::reconstruction::batch_view(item.finalized_messages)
            };
            &&& item.message == (run.last().id, run.last().message)
            &&& batch matches Some(batch) && match newest(run, slot, pubkey) {
                Some(i) => holds_only(batch, pubkey, (run[i].id, run[i].message)),
                None => holds_none(batch, pubkey),
            }
        }),
{
    let last = run.last();
    assert(last == run[run.len() - 1]);
    assert(last.taken_in());
    crate::reconstruction_laws::lemma_retention_boundary(
        last.before,
        last.id,
        last.message,
        last.items,
        last.after,
        slot,
    );
    assert(last.after.slots[slot].wf());
    assert(last.raw_item().carries(last.after.slots, last.id));
    lemma_newest_image_is_held(run, slot, pubkey);
    lemma_survivors_hold_only(last.after.slots[slot], pubkey, (last.id, last.message));
}

} // verus!
