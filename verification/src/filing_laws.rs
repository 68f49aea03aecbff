//! How one slot takes messages in, and when and of what its block is built.
use crate::invalid::InvalidBlock;
use crate::message::{
    Message, MessageAccountInfo, MessageBlock, MessageSlot, Numbered, Pubkey, SlotStatus, Timestamp,
};
use crate::message_id::MessageId;
use crate::slot_messages::{SlotMessages, SlotView};
use std::sync::Arc;
use vstd::prelude::*;

verus! {

/// The places where something was not dropped.
spec fn kept_places(messages: Seq<Option<Numbered>>) -> Seq<int>
    decreases messages.len(),
{
    if messages.len() == 0 {
        Seq::empty()
    } else {
        let before = kept_places(messages.drop_last());
        if messages.last() is Some {
            before.push(messages.len() - 1)
        } else {
            before
        }
    }
}

/// The places of the images of accounts that were not dropped.
spec fn image_places(messages: Seq<Option<Numbered>>) -> Seq<int>
    decreases messages.len(),
{
    if messages.len() == 0 {
        Seq::empty()
    } else {
        let before = image_places(messages.drop_last());
        if messages.last() matches Some((_, Message::Account(_))) {
            before.push(messages.len() - 1)
        } else {
            before
        }
    }
}

/// The places rise.
pub open spec fn rise(places: Seq<int>) -> bool {
    forall|k: int, l: int|
        0 <= k < l < places.len() ==> #[trigger] places[k] < #[trigger] places[l]
}

/// `kept` is what was not dropped, in order: `places` rise, and lead to everything that was not
/// dropped.
pub open spec fn are_kept(
    messages: Seq<Option<Numbered>>,
    kept: Seq<Numbered>,
    places: Seq<int>,
) -> bool {
    &&& places.len() == kept.len()
    &&& rise(places)
    &&& forall|k: int|
        0 <= k < places.len() ==> 0 <= #[trigger] places[k] < messages.len() && messages[places[k]]
            == Some(kept[k])
    &&& forall|i: int|
        0 <= i < messages.len() && #[trigger] messages[i] is Some ==> places.contains(i)
}

/// `images` are the images of accounts that were not dropped, in order: `places` rise, and lead
/// to every such image.
pub open spec fn are_images(
    messages: Seq<Option<Numbered>>,
    images: Seq<Arc<MessageAccountInfo>>,
    places: Seq<int>,
) -> bool {
    &&& places.len() == images.len()
    &&& rise(places)
    &&& forall|k: int|
        0 <= k < places.len() ==> 0 <= #[trigger] places[k] < messages.len() && (
        messages[places[k]] matches Some((_, Message::Account(msg))) && msg.account == images[k])
    &&& forall|i: int|
        0 <= i < messages.len() && (#[trigger] messages[i] matches Some((_, Message::Account(_))))
            ==> places.contains(i)
}

/// What was not dropped.
proof fn lemma_are_kept(messages: Seq<Option<Numbered>>)
    ensures
        are_kept(messages, crate::slot_messages::survivors(messages), kept_places(messages)),
    decreases messages.len(),
{
    if messages.len() > 0 {
        let rest = messages.drop_last();
        let n = messages.len() - 1;
        let before = kept_places(rest);
        let places = kept_places(messages);
        let kept = crate::slot_messages::survivors(messages);
        lemma_are_kept(rest);
        assert forall|k: int| 0 <= k < places.len() implies 0 <= #[trigger] places[k]
            < messages.len() && messages[places[k]] == Some(kept[k]) by {
            if k < before.len() {
                assert(before[k] == places[k]);
                assert(rest[before[k]] == messages[places[k]]);
            }
        }
        assert forall|k: int, l: int| 0 <= k < l < places.len() implies #[trigger] places[k]
            < #[trigger] places[l] by {
            assert(before[k] == places[k]);
            if l < before.len() {
                assert(before[l] == places[l]);
            }
        }
        assert forall|i: int|
            0 <= i < messages.len() && #[trigger] messages[i] is Some implies places.contains(
            i,
        ) by {
            if i < n {
                assert(rest[i] == messages[i]);
                let k = choose|k: int| 0 <= k < before.len() && before[k] == i;
                assert(places[k] == i);
            } else {
                assert(places[places.len() - 1] == i);
            }
        }
    }
}

/// The images of accounts that were not dropped.
proof fn lemma_are_images(messages: Seq<Option<Numbered>>)
    ensures
        are_images(
            messages,
            crate::slot_messages::account_images(messages),
            image_places(messages),
        ),
    decreases messages.len(),
{
    if messages.len() > 0 {
        let rest = messages.drop_last();
        let n = messages.len() - 1;
        let before = image_places(rest);
        let places = image_places(messages);
        let images = crate::slot_messages::account_images(messages);
        lemma_are_images(rest);
        assert forall|k: int| 0 <= k < places.len() implies 0 <= #[trigger] places[k]
            < messages.len() && (messages[places[k]] matches Some((_, Message::Account(msg)))
            && msg.account == images[k]) by {
            if k < before.len() {
                assert(before[k] == places[k]);
                assert(rest[before[k]] == messages[places[k]]);
            }
        }
        assert forall|k: int, l: int| 0 <= k < l < places.len() implies #[trigger] places[k]
            < #[trigger] places[l] by {
            assert(before[k] == places[k]);
            if l < before.len() {
                assert(before[l] == places[l]);
            }
        }
        assert forall|i: int|
            0 <= i < messages.len() && (#[trigger] messages[i] matches Some(
                (_, Message::Account(_)),
            )) implies places.contains(i) by {
            if i < n {
                assert(rest[i] == messages[i]);
                let k = choose|k: int| 0 <= k < before.len() && before[k] == i;
                assert(places[k] == i);
            } else {
                assert(places[places.len() - 1] == i);
            }
        }
    }
}

/// The block has everything that came in: the meta, every transaction, the newest image of every
/// account, and every entry, unless the meta counts none.
pub open spec fn holds_everything(entry: SlotView, block: MessageBlock) -> bool {
    &&& entry.block_meta == Some(block.meta)
    &&& block.transactions@ == entry.transactions
    &&& exists|places: Seq<int>| are_images(entry.messages, block.accounts@, places)
    &&& block.meta.entries_count > 0 ==> block.entries@ == entry.entries
    &&& block.meta.entries_count == 0 ==> block.entries@.len() == 0
}

/// The block is owed: it was not built before, and as many transactions and entries came in as
/// the meta counts; of entries any number will do where the meta counts none.
pub open spec fn is_owed(entry: SlotView) -> bool {
    &&& !entry.sealed
    &&& entry.block_meta matches Some(meta)
    &&& entry.transactions.len() == meta.executed_transaction_count
    &&& meta.entries_count > 0 ==> entry.entries.len() == meta.entries_count
}

/// A block is built exactly where it is owed. It holds everything that came in, has the next
/// number, and is kept with the messages of its slot; and it is not built a second time.
pub proof fn lemma_block_is_built()
    ensures
        forall|slot: &mut SlotMessages, source: &mut MessageId, sealed: Option<Numbered>|
            #[trigger]
            call_ensures(SlotMessages::try_seal, (slot, source), sealed) ==> {
                let before = (*slot)@;
                let after = final(slot)@;
                &&& sealed is Some <==> is_owed(before)
                &&& sealed matches Some(block) ==> {
                    &&& block.0 == (*source).last() + 1
                    &&& final(source).last() == block.0
                    &&& block.1 matches Message::Block(built)
                    &&& holds_everything(before, *built)
                    &&& after.messages == before.messages.push(Some(block))
                    &&& after.sealed
                    &&& !is_owed(after)
                    &&& after.entries_count == built.meta.entries_count
                    &&& after.block_meta == before.block_meta
                    &&& after.messages_slots == before.messages_slots
                    &&& after.parent_slot == before.parent_slot
                    &&& after.confirmed == before.confirmed
                    &&& after.finalized == before.finalized
                    &&& after.confirmed_at == before.confirmed_at
                    &&& after.finalized_at == before.finalized_at
                }
                &&& sealed is None ==> after == before && final(source).last() == (*source).last()
            },
{
    assert forall|slot: &mut SlotMessages, source: &mut MessageId, sealed: Option<Numbered>|
        #[trigger]
        call_ensures(
            SlotMessages::try_seal,
            (slot, source),
            sealed,
        ) && sealed is Some implies holds_everything((*slot)@, *(sealed->0).1->Block_0) by {
        lemma_are_images((*slot)@.messages);
        assert(are_images(
            (*slot)@.messages,
            (sealed->0).1->Block_0.accounts@,
            image_places((*slot)@.messages),
        ));
    }
}

/// The message at a place is an image of the same account with a lower write version.
pub open spec fn is_older_image(held: Option<Numbered>, message: Message) -> bool {
    &&& message matches Message::Account(new)
    &&& held matches Some((_, Message::Account(old)))
    &&& old.account.pubkey.bytes@ == new.account.pubkey.bytes@
    &&& old.account.write_version < new.account.write_version
}

/// The message at a place is an image of the same account that is no older.
pub open spec fn is_no_older_image(held: Option<Numbered>, message: Message) -> bool {
    &&& message matches Message::Account(new)
    &&& held matches Some((_, Message::Account(old)))
    &&& old.account.pubkey.bytes@ == new.account.pubkey.bytes@
    &&& old.account.write_version >= new.account.write_version
}

/// What comes in gets the next place, and everything else keeps its place and stays, but for
/// older images of the account that a message brings, which are dropped. What comes in is dropped
/// itself exactly where an image of the same account is held that is no older.
pub open spec fn takes_place(
    before: Seq<Option<Numbered>>,
    after: Seq<Option<Numbered>>,
    id: u64,
    message: Message,
) -> bool {
    &&& after.len() == before.len() + 1
    &&& forall|i: int|
        0 <= i < before.len() ==> #[trigger] after[i] == if is_older_image(before[i], message) {
            None
        } else {
            before[i]
        }
    &&& after.last() == if exists|i: int|
        0 <= i < before.len() && is_no_older_image(#[trigger] before[i], message) {
        None
    } else {
        Some((id, message))
    }
}

/// A slot takes every message in: a status with the statuses and any other message with the
/// messages, in order, the parts of the block also with what the block is built of. A status
/// that is confirmed or finalized is noted, and one that is processed names the parent.
pub proof fn lemma_message_is_taken_in()
    ensures
        forall|slot: &mut SlotMessages, id: u64, message: &Message| #[trigger]
            call_ensures(SlotMessages::receive, (slot, id, message), ()) && (*slot)@.wf() ==> {
                let before = (*slot)@;
                let after = final(slot)@;
                &&& !(message is Slot) ==> takes_place(
                    before.messages,
                    after.messages,
                    id,
                    *message,
                )
                &&& message is Slot ==> after.messages == before.messages
                &&& after.messages_slots == if message is Slot {
                    before.messages_slots.push((id, *message))
                } else {
                    before.messages_slots
                }
                &&& after.transactions == match message {
                    Message::Transaction(msg) => before.transactions.push(msg.transaction),
                    _ => before.transactions,
                }
                &&& after.entries == match message {
                    Message::Entry(msg) => before.entries.push(*msg),
                    _ => before.entries,
                }
                &&& after.block_meta == match message {
                    Message::BlockMeta(msg) => Some(*msg),
                    _ => before.block_meta,
                }
                &&& after.parent_slot == match message {
                    Message::Slot(msg) => if msg.status is Processed {
                        msg.parent
                    } else {
                        before.parent_slot
                    },
                    _ => before.parent_slot,
                }
                &&& after.confirmed <==> before.confirmed || (message matches Message::Slot(msg)
                    && msg.status is Confirmed)
                &&& after.finalized <==> before.finalized || (message matches Message::Slot(msg)
                    && msg.status is Finalized)
                &&& after.sealed == before.sealed
                &&& after.entries_count == before.entries_count
                &&& after.confirmed_at == before.confirmed_at
                &&& after.finalized_at == before.finalized_at
            },
{
    assert forall|slot: &mut SlotMessages, id: u64, message: &Message| #[trigger]
        call_ensures(SlotMessages::receive, (slot, id, message), ()) && (*slot)@.wf() && !(
        message is Slot) implies takes_place(
        (*slot)@.messages,
        final(slot)@.messages,
        id,
        *message,
    ) by {
        lemma_takes_place((*slot)@, id, *message);
    }
}

/// What comes in gets the next place.
proof fn lemma_takes_place(entry: SlotView, id: u64, message: Message)
    requires
        entry.wf(),
        !(message is Slot),
    ensures
        takes_place(entry.messages, entry.received(id, message).messages, id, message),
{
    let before = entry.messages;
    let after = entry.received(id, message).messages;
    if message is Account {
        let new = message->Account_0.account;
        let key = crate::message::address_key(new.pubkey@);
        assert forall|i: int| 0 <= i < before.len() && (is_older_image(before[i], message)
            || is_no_older_image(before[i], message)) implies entry.latest.contains_key(key)
            && entry.latest[key].1 == i by {
            assert(entry.is_newest_image(i));
        }
        if entry.latest.contains_key(key) {
            let at = entry.latest[key].1 as int;
            assert(entry.points_at_image(key));
            crate::message::lemma_address_key_is_injective(
                (before[at]->0).1->Account_0.account.pubkey@,
                new.pubkey@,
            );
            assert(is_older_image(before[at], message) || is_no_older_image(before[at], message));
        }
        assert forall|i: int| 0 <= i < before.len() implies #[trigger] after[i]
            == if is_older_image(before[i], message) {
            None
        } else {
            before[i]
        } by {}
    }
}

/// It is announced whether a message completes the block: exactly then the block is built once
/// the message was taken in.
pub proof fn lemma_completion_is_announced(
    announcing: &SlotMessages,
    message: &Message,
    complete: bool,
)
    requires
        call_ensures(SlotMessages::completes_with, (announcing, message), complete),
    ensures
        forall|
            slot: &mut SlotMessages,
            id: u64,
            later: &mut SlotMessages,
            source: &mut MessageId,
            sealed: Option<Numbered>,
        |
            #[trigger] call_ensures(SlotMessages::receive, (slot, id, message), ())
                && #[trigger] call_ensures(SlotMessages::try_seal, (later, source), sealed) && (
            *slot)@ == announcing@ && (*later)@ == final(slot)@ ==> (sealed is Some <==> complete),
{
    assert(complete == announcing@.received(0, *message).ready());
    assert forall|
        slot: &mut SlotMessages,
        id: u64,
        later: &mut SlotMessages,
        source: &mut MessageId,
        sealed: Option<Numbered>,
    |
        #[trigger] call_ensures(SlotMessages::receive, (slot, id, message), ())
            && #[trigger] call_ensures(SlotMessages::try_seal, (later, source), sealed) && (
        *slot)@ == announcing@ && (*later)@ == final(slot)@ implies (sealed is Some
        <==> complete) by {
        assert(announcing@.received(id, *message).ready() == announcing@.received(
            0,
            *message,
        ).ready());
    }
}

/// What a slot holds from a place on is appended whole, in order, but for what was dropped; so
/// are its statuses.
pub proof fn lemma_held_messages_are_appended()
    ensures
        forall|slot: &SlotMessages, from: usize, out: &mut Vec<Numbered>| #[trigger]
            call_ensures(SlotMessages::append_survivors, (slot, from, out), ()) && from
                <= slot@.messages.len() ==> {
                let start = (*out)@.len() as int;
                &&& start <= final(out)@.len()
                &&& final(out)@.take(start) == (*out)@
                &&& exists|places: Seq<int>|
                    are_kept(
                        slot@.messages.skip(from as int),
                        final(out)@.skip(start),
                        places,
                    )
            },
        forall|slot: &SlotMessages, out: &mut Vec<Numbered>| #[trigger]
            call_ensures(SlotMessages::append_statuses, (slot, out), ()) ==> {
                &&& final(out)@.take((*out)@.len() as int) == (*out)@
                &&& final(out)@.skip((*out)@.len() as int) == slot@.messages_slots
            },
{
    assert forall|slot: &SlotMessages, from: usize, out: &mut Vec<Numbered>| #[trigger]
        call_ensures(SlotMessages::append_survivors, (slot, from, out), ()) && from
            <= slot@.messages.len() implies ({
        let start = (*out)@.len() as int;
        &&& start <= final(out)@.len()
        &&& final(out)@.take(start) == (*out)@
        &&& exists|places: Seq<int>|
            are_kept(slot@.messages.skip(from as int), final(out)@.skip(start), places)
    }) by {
        let start = (*out)@.len() as int;
        let tail = slot@.messages.skip(from as int);
        lemma_are_kept(tail);
        assert(final(out)@.take(start) =~= (*out)@);
        assert(final(out)@.skip(start) =~= crate::slot_messages::survivors(tail));
        assert(are_kept(tail, final(out)@.skip(start), kept_places(tail)));
    }
    assert forall|slot: &SlotMessages, out: &mut Vec<Numbered>| #[trigger]
        call_ensures(SlotMessages::append_statuses, (slot, out), ()) implies ({
        &&& final(out)@.take((*out)@.len() as int) == (*out)@
        &&& final(out)@.skip((*out)@.len() as int) == slot@.messages_slots
    }) by {
        assert(final(out)@.take((*out)@.len() as int) =~= (*out)@);
        assert(final(out)@.skip((*out)@.len() as int) =~= slot@.messages_slots);
    }
}

/// Nothing changes but the notes on the statuses.
pub open spec fn same_but_for_notes(before: SlotView, after: SlotView) -> bool {
    &&& after.messages == before.messages
    &&& after.messages_slots == before.messages_slots
    &&& after.block_meta == before.block_meta
    &&& after.transactions == before.transactions
    &&& after.entries == before.entries
    &&& after.sealed == before.sealed
    &&& after.entries_count == before.entries_count
    &&& after.parent_slot == before.parent_slot
}

/// A status that a slot was not told of by its validator is noted; and it is noted how many
/// messages the slot had then, as long as its block was not built. Nothing else changes.
pub proof fn lemma_statuses_are_noted()
    ensures
        forall|slot: &mut SlotMessages, status: SlotStatus| #[trigger]
            call_ensures(SlotMessages::mark, (slot, status), ()) ==> {
                let before = (*slot)@;
                let after = final(slot)@;
                &&& same_but_for_notes(before, after)
                &&& after.confirmed <==> before.confirmed || status is Confirmed
                &&& after.finalized <==> before.finalized || status is Finalized
                &&& after.confirmed_at == before.confirmed_at
                &&& after.finalized_at == before.finalized_at
            },
        forall|slot: &mut SlotMessages, status: SlotStatus| #[trigger]
            call_ensures(SlotMessages::record, (slot, status), ()) && (*slot)@.wf() ==> {
                let before = (*slot)@;
                let after = final(slot)@;
                &&& same_but_for_notes(before, after)
                &&& after.confirmed == before.confirmed
                &&& after.finalized == before.finalized
                &&& if status is Confirmed && !before.sealed {
                    after.confirmed_at matches Some(at) && at == before.messages.len()
                } else {
                    after.confirmed_at == before.confirmed_at
                }
                &&& if status is Finalized && !before.sealed {
                    after.finalized_at matches Some(at) && at == before.messages.len()
                } else {
                    after.finalized_at == before.finalized_at
                }
            },
{
}

/// A block is found missing exactly where it was not built though its slot was finalized.
pub proof fn lemma_missing_block_is_found(
    held: &SlotMessages,
    slot: u64,
    found: Option<InvalidBlock>,
)
    requires
        call_ensures(SlotMessages::find_failure, (held, slot), found),
    ensures
        found is Some <==> !held@.sealed && held@.finalized_at is Some,
        found matches Some(finding) ==> crate::state_laws::is_failed(held@, slot, finding),
{
}

/// What can be read of a slot is what it holds; a new one holds nothing.
pub proof fn lemma_slot_can_be_read()
    ensures
        forall|slot: SlotMessages| #[trigger]
            call_ensures(SlotMessages::new, (), slot) ==> {
                &&& slot@.messages.len() == 0
                &&& slot@.messages_slots.len() == 0
                &&& slot@.block_meta is None
                &&& slot@.transactions.len() == 0
                &&& slot@.entries.len() == 0
                &&& !slot@.sealed
                &&& slot@.parent_slot is None
                &&& !slot@.confirmed
                &&& !slot@.finalized
                &&& slot@.confirmed_at is None
                &&& slot@.finalized_at is None
            },
        forall|slot: &SlotMessages, noted: bool| #[trigger]
            call_ensures(SlotMessages::is_confirmed, (slot,), noted) ==> noted == slot@.confirmed,
        forall|slot: &SlotMessages, noted: bool| #[trigger]
            call_ensures(SlotMessages::is_finalized, (slot,), noted) ==> noted == slot@.finalized,
        forall|slot: &SlotMessages, built: bool| #[trigger]
            call_ensures(SlotMessages::is_sealed, (slot,), built) ==> built == slot@.sealed,
        forall|slot: &SlotMessages, known: bool| #[trigger]
            call_ensures(SlotMessages::has_block_meta, (slot,), known) ==> (known
                <==> slot@.block_meta is Some),
        forall|slot: &SlotMessages, count: u64| #[trigger]
            call_ensures(SlotMessages::sealed_entries_count, (slot,), count) ==> count
                == slot@.entries_count,
        forall|slot: &SlotMessages, parent: Option<u64>| #[trigger]
            call_ensures(SlotMessages::parent_slot, (slot,), parent) ==> parent
                == slot@.parent_slot,
        forall|slot: &SlotMessages, at: Option<usize>| #[trigger]
            call_ensures(SlotMessages::confirmed_at, (slot,), at) ==> at == slot@.confirmed_at,
        forall|slot: &SlotMessages, at: Option<usize>| #[trigger]
            call_ensures(SlotMessages::finalized_at, (slot,), at) ==> at == slot@.finalized_at,
{
}

/// Two addresses have the same key exactly where they are the same.
pub proof fn lemma_keys_tell_addresses_apart(
    one: &Pubkey,
    other: &Pubkey,
    one_key: (u128, u128),
    other_key: (u128, u128),
)
    requires
        call_ensures(Pubkey::key, (one,), one_key),
        call_ensures(Pubkey::key, (other,), other_key),
    ensures
        one_key == other_key <==> one.bytes@ == other.bytes@,
{
    if one_key == other_key {
        crate::message::lemma_address_key_is_injective(one@, other@);
    }
}

/// A status that no validator sent says what it is about, and nothing of an error; a copy of a
/// message is the message.
pub proof fn lemma_messages_are_made(
    slot: u64,
    parent: Option<u64>,
    status: SlotStatus,
    created_at: Timestamp,
    message: Message,
    numbered: &Numbered,
    copy: Numbered,
)
    requires
        call_ensures(
            crate::reconstruction::backfilled_status,
            (slot, parent, status, created_at),
            message,
        ),
        call_ensures(crate::message::copy_numbered, (numbered,), copy),
    ensures
        message matches Message::Slot(MessageSlot {
            slot: its_slot,
            parent: its_parent,
            status: its_status,
            dead_error,
            created_at: its_time,
        }) && {
            &&& its_slot == slot
            &&& its_parent == parent
            &&& its_status == status
            &&& dead_error is None
            &&& its_time == created_at
        },
        copy == *numbered,
{
}

} // verus!
