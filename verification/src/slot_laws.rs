//! What a slot's subscribers get, in terms of what came in and what went out.
use crate::message::{
    CommitmentLevel, Message, MessageAccountInfo, Numbered, SlotStatus,
};
use crate::reconstruction::{BlockReconstructionState, DispatchItem, ReplayedResponse, StateView};
use crate::run_laws::Update;
use crate::slot_messages::SlotView;
use std::sync::Arc;
use vstd::prelude::*;

verus! {

/// The status that a slot has once it has reached a commitment.
pub open spec fn status_of(commitment: CommitmentLevel) -> SlotStatus {
    match commitment {
        CommitmentLevel::Processed => SlotStatus::Processed,
        CommitmentLevel::Confirmed => SlotStatus::Confirmed,
        CommitmentLevel::Finalized => SlotStatus::Finalized,
    }
}

/// The batch that goes out with an item to a commitment.
pub open spec fn batch_to(item: DispatchItem, commitment: CommitmentLevel) -> Option<
    Seq<Numbered>,
> {
    match commitment {
        CommitmentLevel::Processed => None,
        CommitmentLevel::Confirmed => match item.confirmed_messages {
            Some(batch) => Some(batch@),
            None => None,
        },
        CommitmentLevel::Finalized => match item.finalized_messages {
            Some(batch) => Some(batch@),
            None => None,
        },
    }
}

/// The account images among messages, in order.
pub open spec fn images(messages: Seq<Numbered>) -> Seq<Arc<MessageAccountInfo>>
    decreases messages.len(),
{
    if messages.len() == 0 {
        Seq::empty()
    } else {
        let before = images(messages.drop_last());
        match messages.last().1 {
            Message::Account(msg) => before.push(msg.account),
            _ => before,
        }
    }
}

/// Everything that lives of what came in for a slot.
pub open spec fn all_living(run: Seq<Update>, slot: u64) -> Seq<Numbered> {
    let all = crate::arrivals::arrivals(run, slot);
    crate::arrivals::living(all, 0, all.len() as int)
}

/// What a slot holds from a place on is what lives from there on.
proof fn lemma_survivors_live(entry: SlotView, all: Seq<Numbered>, from: int, upto: int)
    requires
        crate::arrivals::mirrors(entry, all),
        0 <= from <= upto <= all.len(),
    ensures
        crate::slot_messages::survivors(entry.messages.subrange(from, upto))
            == crate::arrivals::living(all, from, upto),
    decreases upto - from,
{
    let part = entry.messages.subrange(from, upto);
    if from < upto {
        lemma_survivors_live(entry, all, from, upto - 1);
        assert(part.drop_last() =~= entry.messages.subrange(from, upto - 1));
        assert(part.last() == entry.messages[upto - 1]);
    }
}

/// The account images that a slot holds are those that live.
proof fn lemma_images_live(entry: SlotView, all: Seq<Numbered>, upto: int)
    requires
        crate::arrivals::mirrors(entry, all),
        0 <= upto <= all.len(),
    ensures
        crate::slot_messages::account_images(entry.messages.take(upto)) == images(
            crate::arrivals::living(all, 0, upto),
        ),
    decreases upto,
{
    let part = entry.messages.take(upto);
    if 0 < upto {
        lemma_images_live(entry, all, upto - 1);
        assert(part.drop_last() =~= entry.messages.take(upto - 1));
        assert(part.last() == entry.messages[upto - 1]);
        let living = crate::arrivals::living(all, 0, upto);
        if crate::arrivals::lives(all, upto - 1) {
            assert(living.drop_last() =~= crate::arrivals::living(all, 0, upto - 1));
        }
    }
}

/// The block that goes out for a slot is made of exactly what came in for the slot: its last
/// meta, all transactions, each once and in the order of their arrival, as many as the meta
/// counts, the entries likewise where the meta counts any, and of every account the newest image.
/// No block went out for the slot before.
pub proof fn lemma_block_is_made_of_what_came_in(run: Seq<Update>, slot: u64)
    requires
        crate::run_laws::is_run(run),
        crate::run_laws::spans(run, slot),
        run.len() > 0,
        crate::arrivals::brings(run.last(), slot),
        crate::arrivals::built_by(run.last()) is Some,
    ensures
        !crate::arrivals::went_out(run.drop_last(), slot),
        ({
            let block = *((crate::arrivals::built_by(run.last())->0).1->Block_0);
            let update = run.last();
            let before = crate::arrivals::arrivals(run.drop_last(), slot).push(
                (update.id, update.message),
            );
            &&& crate::arrivals::meta_of(run, slot) == Some(block.meta)
            &&& block.transactions@ == crate::arrivals::transactions_of(run, slot)
            &&& block.transactions@.len() == block.meta.executed_transaction_count
            &&& block.meta.entries_count == 0 ==> block.entries@.len() == 0
            &&& block.meta.entries_count != 0 ==> {
                &&& block.entries@ == crate::arrivals::entries_of(run, slot)
                &&& block.entries@.len() == block.meta.entries_count
            }
            &&& block.accounts@ == images(
                crate::arrivals::living(before, 0, before.len() as int),
            )
        }),
{
    let update = run.last();
    assert(update == run[run.len() - 1]);
    crate::arrivals::lemma_slot_knows_what_came_in(run, slot);
    crate::arrivals::lemma_part_effect(update, slot);
    let entry = update.before.entry(slot);
    let received = entry.received(update.id, update.message);
    let next = (update.id, update.message);
    let before = crate::arrivals::arrivals(run.drop_last(), slot).push(next);
    crate::arrivals::lemma_received_mirrors(run, slot);
    lemma_images_live(received, before, before.len() as int);
    assert(received.messages.take(before.len() as int) =~= received.messages);
}

/// The block of a slot goes out with the first message after which its last meta counts exactly
/// the transactions that came in, and the entries that came in or none, and with no other.
pub proof fn lemma_block_goes_out_when_complete(run: Seq<Update>, slot: u64)
    requires
        crate::run_laws::is_run(run),
        crate::run_laws::spans(run, slot),
        run.len() > 0,
        crate::arrivals::brings(run.last(), slot),
        !(run.last().message is Block),
    ensures
        crate::arrivals::built_by(run.last()) is Some <==> {
            &&& !crate::arrivals::went_out(run.drop_last(), slot)
            &&& crate::arrivals::meta_of(run, slot) matches Some(meta)
            &&& meta.executed_transaction_count == crate::arrivals::transactions_of(
                run,
                slot,
            ).len()
            &&& meta.entries_count == 0 || meta.entries_count == crate::arrivals::entries_of(
                run,
                slot,
            ).len()
        },
{
    let update = run.last();
    assert(update == run[run.len() - 1]);
    crate::arrivals::lemma_slot_knows_what_came_in(run, slot);
    crate::arrivals::lemma_part_effect(update, slot);
}

/// With a status of a slot the batch to a commitment holds that status and nothing else, unless
/// it is the status of the commitment: then it holds everything that lives of what came in for
/// the slot, in order, and the status last.
pub proof fn lemma_status_carries(
    run: Seq<Update>,
    slot: u64,
    k: int,
    commitment: CommitmentLevel,
)
    requires
        crate::run_laws::is_run(run),
        crate::run_laws::spans(run, slot),
        run.len() > 0,
        0 <= k < run.last().items.len(),
        run.last().items[k].message.1 matches Message::Slot(msg) && msg.slot == slot,
        !(commitment is Processed),
    ensures
        ({
            let item = run.last().items[k];
            batch_to(item, commitment) == Some(
                if item.message.1->Slot_0.status == status_of(commitment) {
                    all_living(run, slot).push(item.message)
                } else {
                    seq![item.message]
                },
            )
        }),
{
    let update = run.last();
    assert(update == run[run.len() - 1]);
    let item = update.items[k];
    let status = item.message.1->Slot_0.status;
    crate::arrivals::lemma_slot_knows_what_came_in(run, slot);
    assert(crate::arrivals::tells(update, slot, status));
    crate::arrivals::lemma_told_is_stored(update, slot, status);
    assert(item.carries(update.after.slots, update.id));
    let entry = update.after.slots[slot];
    let all = crate::arrivals::arrivals(run, slot);
    lemma_survivors_live(entry, all, 0, all.len() as int);
    assert(entry.messages.subrange(0, all.len() as int) =~= entry.messages);
}

/// With the block of a slot goes out what lives of what came in since the slot was reported to
/// have reached the commitment, if it was, and nothing if it was not.
pub proof fn lemma_block_carries(run: Seq<Update>, slot: u64, commitment: CommitmentLevel)
    requires
        crate::run_laws::is_run(run),
        crate::run_laws::spans(run, slot),
        run.len() > 0,
        crate::arrivals::brings(run.last(), slot),
        crate::arrivals::built_by(run.last()) is Some,
        !(commitment is Processed),
    ensures
        ({
            let all = crate::arrivals::arrivals(run, slot);
            batch_to(run.last().items.last(), commitment) == match crate::arrivals::told_at(
                run,
                slot,
                status_of(commitment),
            ) {
                Some(at) => Some(crate::arrivals::living(all, at, all.len() as int)),
                None => None,
            }
        }),
{
    let update = run.last();
    assert(update == run[run.len() - 1]);
    let item = update.items.last();
    crate::arrivals::lemma_slot_knows_what_came_in(run, slot);
    crate::arrivals::lemma_part_effect(update, slot);
    lemma_block_is_made_of_what_came_in(run, slot);
    crate::arrivals::lemma_meta_is_about(run, slot);
    assert(item == update.items[update.items.len() - 1]);
    assert(item.carries(update.after.slots, update.id));
    let entry = update.after.slots[slot];
    assert(entry.wf());
    let all = crate::arrivals::arrivals(run, slot);
    if let Some(at) = crate::arrivals::told_at(run, slot, status_of(commitment)) {
        lemma_survivors_live(entry, all, at, all.len() as int);
        assert(entry.messages.skip(at) =~= entry.messages.subrange(at, all.len() as int));
        let last = all.len() - 1;
        assert(crate::arrivals::lives(all, last)) by {
            assert(crate::arrivals::image_of(all[last]) is None);
        }
        crate::arrivals::lemma_told_place(run, slot, status_of(commitment));
    }
}

/// With any other message no batch goes out.
pub proof fn lemma_parts_carry_nothing(update: Update, k: int, commitment: CommitmentLevel)
    requires
        update.taken_in(),
        0 <= k < update.items.len(),
        !(update.items[k].message.1 is Slot),
        !(update.items[k].message.1 is Block),
    ensures
        batch_to(update.items[k], commitment) is None,
{
    assert(update.items[k].carries(update.after.slots, update.id));
}

/// The messages of a batch that are no statuses, in order.
pub open spec fn parts_in(batch: Seq<Numbered>) -> Seq<Numbered>
    decreases batch.len(),
{
    if batch.len() == 0 {
        Seq::empty()
    } else if batch.last().1 is Slot {
        parts_in(batch.drop_last())
    } else {
        parts_in(batch.drop_last()).push(batch.last())
    }
}

/// What goes out to a commitment with an item about a slot, without statuses.
pub open spec fn parts_with(item: DispatchItem, slot: u64, commitment: CommitmentLevel) -> Seq<
    Numbered,
> {
    if crate::arrivals::slot_of(item.message.1) == slot {
        match batch_to(item, commitment) {
            Some(batch) => parts_in(batch),
            None => Seq::empty(),
        }
    } else {
        Seq::empty()
    }
}

/// What goes out to a commitment with the first items about a slot, without statuses.
pub open spec fn parts_with_items(
    items: Seq<DispatchItem>,
    upto: int,
    slot: u64,
    commitment: CommitmentLevel,
) -> Seq<Numbered>
    decreases upto,
{
    if upto <= 0 {
        Seq::empty()
    } else {
        parts_with_items(items, upto - 1, slot, commitment) + parts_with(
            items[upto - 1],
            slot,
            commitment,
        )
    }
}

/// What goes out to a commitment of a slot over a run, without statuses.
pub open spec fn parts_sent(run: Seq<Update>, slot: u64, commitment: CommitmentLevel) -> Seq<
    Numbered,
>
    decreases run.len(),
{
    if run.len() == 0 {
        Seq::empty()
    } else {
        parts_sent(run.drop_last(), slot, commitment) + parts_with_items(
            run.last().items,
            run.last().items.len() as int,
            slot,
            commitment,
        )
    }
}

/// What lives is no status.
proof fn lemma_living_parts(run: Seq<Update>, slot: u64, from: int, upto: int)
    requires
        0 <= from,
        upto <= crate::arrivals::arrivals(run, slot).len(),
    ensures
        ({
            let living = crate::arrivals::living(
                crate::arrivals::arrivals(run, slot),
                from,
                upto,
            );
            parts_in(living) == living
        }),
    decreases upto - from,
{
    let all = crate::arrivals::arrivals(run, slot);
    if from < upto {
        lemma_living_parts(run, slot, from, upto - 1);
        crate::arrivals::lemma_arrivals_are_parts(run, slot, upto - 1);
        let living = crate::arrivals::living(all, from, upto);
        if crate::arrivals::lives(all, upto - 1) {
            assert(living.drop_last() =~= crate::arrivals::living(all, from, upto - 1));
        }
    }
}

/// At most one item has something to send.
proof fn lemma_one_sender(
    items: Seq<DispatchItem>,
    upto: int,
    slot: u64,
    commitment: CommitmentLevel,
    k: int,
)
    requires
        0 <= upto <= items.len(),
        forall|j: int|
            0 <= j < upto && j != k ==> parts_with(#[trigger] items[j], slot, commitment)
                == Seq::<Numbered>::empty(),
    ensures
        parts_with_items(items, upto, slot, commitment) == if 0 <= k < upto {
            parts_with(items[k], slot, commitment)
        } else {
            Seq::empty()
        },
    decreases upto,
{
    if 0 < upto {
        lemma_one_sender(items, upto - 1, slot, commitment, k);
        let before = parts_with_items(items, upto - 1, slot, commitment);
        assert(before + parts_with(items[upto - 1], slot, commitment) =~= if 0 <= k < upto {
            parts_with(items[k], slot, commitment)
        } else {
            Seq::empty()
        });
    }
}

/// What goes out of a slot with one update.
proof fn lemma_update_sends(run: Seq<Update>, slot: u64, commitment: CommitmentLevel)
    requires
        crate::run_laws::is_run(run),
        crate::run_laws::spans(run, slot),
        run.len() > 0,
        crate::reconstruction_laws::stored_by_slot(run.last().before.slots),
        !(run.last().message is Block),
        !(commitment is Processed),
    ensures
        ({
            let update = run.last();
            let all = crate::arrivals::arrivals(run, slot);
            let at = crate::arrivals::told_at(run, slot, status_of(commitment));
            parts_with_items(update.items, update.items.len() as int, slot, commitment)
                == if crate::arrivals::tells(update, slot, status_of(commitment)) {
                crate::arrivals::living(all, 0, all.len() as int)
            } else if crate::arrivals::brings(update, slot) && crate::arrivals::built_by(
                update,
            ) is Some && at is Some {
                crate::arrivals::living(all, at->0, all.len() as int)
            } else {
                Seq::empty()
            }
        }),
{
    let update = run.last();
    assert(update == run[run.len() - 1]);
    let items = update.items;
    let n = items.len() as int;
    let all = crate::arrivals::arrivals(run, slot);
    let wanted = status_of(commitment);
    let state = update.before;
    let missed = state.missed(update.id, update.message);
    state.lemma_swept_keeps_wf(update.message);
    if update.message is Slot {
        let msg = update.message->Slot_0;
        crate::reconstruction_laws::lemma_told_once(state, update.id, update.message);
        crate::arrivals::lemma_tells(update, slot, msg.status);
        crate::arrivals::lemma_tells(update, slot, wanted);
        if state.seals(update.id, update.message) {
            state.swept(update.message).lemma_completes(update.id, update.message);
        }
        assert forall|j: int| 0 <= j < n implies {
            &&& (#[trigger] items[j]).message.1 is Slot
            &&& items[j].message.1->Slot_0.status == msg.status
            &&& items[j].message.1->Slot_0.slot == if j < missed.len() {
                missed[missed.len() - 1 - j]
            } else {
                msg.slot
            }
        } by {}
        let k = if crate::arrivals::tells(update, slot, msg.status) {
            choose|k: int|
                {
                    &&& 0 <= k < items.len()
                    &&& (#[trigger] items[k]).message.1 matches Message::Slot(told)
                    &&& told.slot == slot
                    &&& told.status == msg.status
                }
        } else {
            -1
        };
        assert forall|j: int| 0 <= j < n && j != k implies parts_with(
            #[trigger] items[j],
            slot,
            commitment,
        ) == Seq::<Numbered>::empty() by {
            if crate::arrivals::slot_of(items[j].message.1) == slot {
                assert(crate::arrivals::tells(update, slot, msg.status));
                if j < missed.len() {
                    assert(missed.contains(missed[missed.len() - 1 - j]));
                }
                if k < missed.len() {
                    assert(missed.contains(missed[missed.len() - 1 - k]));
                }
                if j < missed.len() && k < missed.len() {
                    assert(missed[missed.len() - 1 - j] != missed[missed.len() - 1 - k]);
                }
            }
        }
        lemma_one_sender(items, n, slot, commitment, k);
        if k >= 0 {
            lemma_status_carries(run, slot, k, commitment);
            let living = crate::arrivals::living(all, 0, all.len() as int);
            lemma_living_parts(run, slot, 0, all.len() as int);
            let batch = batch_to(items[k], commitment)->0;
            if msg.status == wanted {
                assert(batch.drop_last() =~= living);
            } else {
                assert(batch.drop_last() =~= Seq::empty());
                assert(parts_in(batch) =~= Seq::empty()) by {
                    reveal_with_fuel(parts_in, 2);
                }
            }
        }
    } else {
        crate::arrivals::lemma_tells(update, slot, wanted);
        crate::arrivals::lemma_part_effect(update, crate::arrivals::slot_of(update.message));
        lemma_parts_carry_nothing(update, 0, commitment);
        if crate::arrivals::built_by(update) is Some {
            assert(n == 2);
            assert(items.last() == items[1]);
            let own = crate::arrivals::slot_of(update.message);
            if state.slots.contains_key(own) {
                assert(crate::reconstruction_laws::holds_own(own, state.slots[own]));
            }
            assert(crate::arrivals::slot_of(items[1].message.1) == own);
            if crate::arrivals::brings(update, slot) {
                crate::arrivals::lemma_slot_knows_what_came_in(run, slot);
                lemma_block_is_made_of_what_came_in(run, slot);
                crate::arrivals::lemma_meta_is_about(run, slot);
                lemma_block_carries(run, slot, commitment);
                if let Some(at) = crate::arrivals::told_at(run, slot, wanted) {
                    crate::arrivals::lemma_told_place(run, slot, wanted);
                    lemma_living_parts(run, slot, at, all.len() as int);
                }
            }
        }
        lemma_one_sender(items, n, slot, commitment, 1);
    }
}

/// The places are in a range, and rise.
pub open spec fn rises(places: Seq<int>, from: int, upto: int) -> bool {
    &&& forall|i: int| 0 <= i < places.len() ==> from <= #[trigger] places[i] < upto
    &&& forall|i: int, j: int|
        0 <= i < j < places.len() ==> (#[trigger] places[i]) < (#[trigger] places[j])
}

/// The messages are those at the places.
pub open spec fn picks(messages: Seq<Numbered>, all: Seq<Numbered>, places: Seq<int>) -> bool {
    &&& messages.len() == places.len()
    &&& forall|i: int| 0 <= i < places.len() ==> #[trigger] messages[i] == all[places[i]]
}

/// Where what lives stands.
proof fn lemma_living_places(all: Seq<Numbered>, from: int, upto: int) -> (places: Seq<int>)
    requires
        0 <= from,
        upto <= all.len(),
    ensures
        rises(places, from, upto),
        picks(crate::arrivals::living(all, from, upto), all, places),
    decreases upto - from,
{
    if from < upto {
        let before = lemma_living_places(all, from, upto - 1);
        if crate::arrivals::lives(all, upto - 1) {
            before.push(upto - 1)
        } else {
            before
        }
    } else {
        Seq::empty()
    }
}

/// What goes out of a slot to the confirmed, or to the finalized commitment are messages that
/// came in for the slot, each at most once, and in the order of their arrival, as long as the
/// slot is reported to have reached the commitment once: the places at which they came in rise.
pub proof fn lemma_parts_go_out_at_most_once(
    run: Seq<Update>,
    slot: u64,
    commitment: CommitmentLevel,
) -> (places: Seq<int>)
    requires
        crate::run_laws::is_run(run),
        crate::run_laws::spans(run, slot),
        run.len() > 0 ==> crate::reconstruction_laws::stored_by_slot(run[0].before.slots),
        !(commitment is Processed),
        forall|i: int| 0 <= i < run.len() ==> !((#[trigger] run[i]).message is Block),
        forall|i: int, j: int|
            0 <= i < j < run.len() && #[trigger] crate::arrivals::tells(
                run[i],
                slot,
                status_of(commitment),
            ) ==> !(#[trigger] crate::arrivals::tells(run[j], slot, status_of(commitment))),
    ensures
        rises(places, 0, crate::arrivals::arrivals(run, slot).len() as int),
        picks(
            parts_sent(run, slot, commitment),
            crate::arrivals::arrivals(run, slot),
            places,
        ),
        !crate::arrivals::was_told(run, slot, status_of(commitment)) ==> places.len() == 0,
        !crate::arrivals::went_out(run, slot) ==> (crate::arrivals::told_at(
            run,
            slot,
            status_of(commitment),
        ) matches Some(at) ==> rises(places, 0, at)),
    decreases run.len(),
{
    let wanted = status_of(commitment);
    let all = crate::arrivals::arrivals(run, slot);
    if run.len() == 0 {
        Seq::empty()
    } else {
        let rest = run.drop_last();
        let update = run.last();
        assert(update == run[run.len() - 1]);
        crate::arrivals::lemma_shorter_run(run, slot);
        assert forall|i: int| 0 <= i < rest.len() implies !((#[trigger] rest[i]).message is Block) by {
            assert(rest[i] == run[i]);
        }
        assert forall|i: int, j: int|
            0 <= i < j < rest.len() && #[trigger] crate::arrivals::tells(
                rest[i],
                slot,
                wanted,
            ) implies !(#[trigger] crate::arrivals::tells(rest[j], slot, wanted)) by {
            assert(rest[i] == run[i] && rest[j] == run[j]);
        }
        let before = lemma_parts_go_out_at_most_once(rest, slot, commitment);
        let had = crate::arrivals::arrivals(rest, slot);
        crate::arrivals::lemma_run_stores_by_slot(run);
        lemma_update_sends(run, slot, commitment);
        crate::arrivals::lemma_tells(update, slot, wanted);
        crate::arrivals::lemma_told_place(rest, slot, wanted);
        crate::arrivals::lemma_told_place(run, slot, wanted);
        let sent = parts_sent(rest, slot, commitment);
        let more = parts_with_items(update.items, update.items.len() as int, slot, commitment);
        assert(parts_sent(run, slot, commitment) == sent + more);
        if crate::arrivals::tells(update, slot, wanted) {
            assert(!crate::arrivals::was_told(rest, slot, wanted)) by {
                if crate::arrivals::was_told(rest, slot, wanted) {
                    let i = crate::arrivals::lemma_who_told(rest, slot, wanted);
                    assert(rest[i] == run[i]);
                    assert(crate::arrivals::tells(run[i], slot, wanted));
                }
            }
            let places = lemma_living_places(all, 0, all.len() as int);
            assert(sent + more =~= more);
            places
        } else if crate::arrivals::brings(update, slot) && crate::arrivals::built_by(
            update,
        ) is Some {
            lemma_block_is_made_of_what_came_in(run, slot);
            match crate::arrivals::told_at(run, slot, wanted) {
                Some(at) => {
                    let then = lemma_living_places(all, at, all.len() as int);
                    let places = before + then;
                    assert forall|i: int| 0 <= i < places.len() implies #[trigger] (sent + more)[i]
                        == all[places[i]] by {
                        if i < before.len() {
                            assert(places[i] == before[i]);
                            assert(all[before[i]] == had[before[i]]);
                        } else {
                            assert(places[i] == then[i - before.len()]);
                        }
                    }
                    assert forall|i: int, j: int| 0 <= i < j < places.len() implies (
                    #[trigger] places[i]) < (#[trigger] places[j]) by {
                        if i < before.len() {
                            assert(places[i] == before[i]);
                        } else {
                            assert(places[i] == then[i - before.len()]);
                        }
                        if j < before.len() {
                            assert(places[j] == before[j]);
                        } else {
                            assert(places[j] == then[j - before.len()]);
                        }
                    }
                    places
                },
                None => {
                    assert(sent + more =~= sent);
                    before
                },
            }
        } else {
            assert(sent + more =~= sent);
            assert forall|i: int| 0 <= i < before.len() implies #[trigger] sent[i]
                == all[before[i]] by {
                assert(all[before[i]] == had[before[i]]);
            }
            before
        }
    }
}

/// A call of `on_message_with_id` takes an update in, under the number that it is given.
pub proof fn lemma_numbered_calls_take_updates_in()
    ensures
        forall|state: &mut BlockReconstructionState, id: u64, message: Message, items: Vec<
            DispatchItem,
        >| #[trigger]
            call_ensures(
                BlockReconstructionState::on_message_with_id,
                (state, id, message),
                items,
            ) && (*state)@.wf() ==> (Update {
                before: (*state)@,
                id,
                message,
                items: items@,
                after: final(state)@,
            }).taken_in(),
{
}

/// A call of `on_message` takes an update in, under the next number.
pub proof fn lemma_calls_take_updates_in()
    ensures
        forall|state: &mut BlockReconstructionState, message: Message, items: Vec<DispatchItem>|
            #[trigger]
            call_ensures(BlockReconstructionState::on_message, (state, message), items)
                && (*state)@.wf() && (*state)@.last_id < u64::MAX ==> (Update {
                before: StateView { last_id: ((*state)@.last_id + 1) as u64, ..(*state)@ },
                id: ((*state)@.last_id + 1) as u64,
                message,
                items: items@,
                after: final(state)@,
            }).taken_in(),
{
    assert forall|state: &mut BlockReconstructionState, message: Message, items: Vec<DispatchItem>|
        #[trigger]
        call_ensures(BlockReconstructionState::on_message, (state, message), items)
            && (*state)@.wf() && (*state)@.last_id < u64::MAX implies (Update {
        before: StateView { last_id: ((*state)@.last_id + 1) as u64, ..(*state)@ },
        id: ((*state)@.last_id + 1) as u64,
        message,
        items: items@,
        after: final(state)@,
    }).taken_in() by {
        let before = StateView { last_id: ((*state)@.last_id + 1) as u64, ..(*state)@ };
        assert(before == (*state)@.numbered());
        assert forall|slot: u64| before.slots.contains_key(slot) implies #[trigger]
            before.slots[slot].wf() && !before.slots[slot].ready() by {
            assert((*state)@.slots[slot].wf());
        }
    }
}

/// The messages about a slot, in order.
pub open spec fn about(messages: Seq<Numbered>, slot: u64) -> Seq<Numbered>
    decreases messages.len(),
{
    if messages.len() == 0 {
        Seq::empty()
    } else {
        let before = about(messages.drop_last(), slot);
        if crate::arrivals::slot_of(messages.last().1) == slot {
            before.push(messages.last())
        } else {
            before
        }
    }
}

/// What two sequences hold about a slot.
proof fn lemma_about_both(one: Seq<Numbered>, other: Seq<Numbered>, slot: u64)
    ensures
        about(one + other, slot) == about(one, slot) + about(other, slot),
    decreases other.len(),
{
    let both = one + other;
    if other.len() == 0 {
        assert(both =~= one);
        assert(about(one, slot) + about(other, slot) =~= about(one, slot));
    } else {
        assert(both.drop_last() =~= one + other.drop_last());
        lemma_about_both(one, other.drop_last(), slot);
        assert(about(both, slot) =~= about(one, slot) + about(other, slot));
    }
}

/// Messages that are all about one slot, seen from a slot.
proof fn lemma_about_one(messages: Seq<Numbered>, own: u64, slot: u64)
    requires
        forall|i: int|
            0 <= i < messages.len() ==> crate::arrivals::slot_of((#[trigger] messages[i]).1)
                == own,
    ensures
        about(messages, slot) == if own == slot {
            messages
        } else {
            Seq::empty()
        },
    decreases messages.len(),
{
    if messages.len() > 0 {
        let rest = messages.drop_last();
        assert forall|i: int| 0 <= i < rest.len() implies crate::arrivals::slot_of(
            (#[trigger] rest[i]).1,
        ) == own by {
            assert(rest[i] == messages[i]);
        }
        lemma_about_one(rest, own, slot);
        assert(messages.last() == messages[messages.len() - 1]);
        assert(rest.push(messages.last()) =~= messages);
    } else {
        assert(messages =~= Seq::empty());
    }
}

/// What a slot is replayed as is about the slot.
proof fn lemma_replayed_slot_is_own(slot: u64, entry: SlotView, commitment: CommitmentLevel)
    requires
        crate::reconstruction_laws::holds_own(slot, entry),
    ensures
        forall|i: int|
            0 <= i < crate::reconstruction::replayed_slot(entry, commitment).len()
                ==> crate::arrivals::slot_of(
                (#[trigger] crate::reconstruction::replayed_slot(entry, commitment)[i]).1,
            ) == slot,
{
    let given = crate::reconstruction::replayed_slot(entry, commitment);
    assert forall|i: int| 0 <= i < given.len() implies crate::arrivals::slot_of(
        (#[trigger] given[i]).1,
    ) == slot by {
        if i >= entry.messages_slots.len() {
            let at = crate::dedup::lemma_survivor_is_held(
                entry.messages,
                i - entry.messages_slots.len(),
            );
            assert(entry.messages[at] is Some);
        } else {
            assert(entry.messages_slots[i].1.slot() == slot);
        }
    }
}

/// What a replay holds about a slot.
proof fn lemma_replay_about(
    slots: Map<u64, SlotView>,
    order: Seq<u64>,
    commitment: CommitmentLevel,
    replay_slot: u64,
    slot: u64,
)
    requires
        crate::reconstruction_laws::stored_by_slot(slots),
        crate::ordered::ascending(order),
        forall|k: int| 0 <= k < order.len() ==> slots.contains_key(#[trigger] order[k]),
    ensures
        about(
            crate::reconstruction::replayed(slots, order, commitment, replay_slot),
            slot,
        ) == if order.contains(slot) && replay_slot <= slot {
            crate::reconstruction::replayed_slot(slots[slot], commitment)
        } else {
            Seq::empty()
        },
    decreases order.len(),
{
    if order.len() > 0 {
        let rest = order.drop_last();
        let last = order.last();
        let before = crate::reconstruction::replayed(slots, rest, commitment, replay_slot);
        let own = crate::reconstruction::replayed_slot(slots[last], commitment);
        assert(last == order[order.len() - 1]);
        assert forall|k: int| 0 <= k < rest.len() implies slots.contains_key(
            #[trigger] rest[k],
        ) by {
            assert(rest[k] == order[k]);
        }
        lemma_replay_about(slots, rest, commitment, replay_slot, slot);
        assert(crate::reconstruction_laws::holds_own(last, slots[last]));
        lemma_replayed_slot_is_own(last, slots[last], commitment);
        lemma_about_both(before, own, slot);
        lemma_about_one(own, last, slot);
        if rest.contains(slot) {
            let k = choose|k: int| 0 <= k < rest.len() && rest[k] == slot;
            assert(order[k] == slot);
            assert(order[k] < order[order.len() - 1]);
        }
        if order.contains(slot) && slot != last {
            let k = choose|k: int| 0 <= k < order.len() && order[k] == slot;
            assert(rest[k] == slot);
        }
        assert(Seq::<Numbered>::empty() + own =~= own);
        assert(about(before, slot) + Seq::<Numbered>::empty() =~= about(before, slot));
    }
}

/// A replay of a slot gives a subscriber every status that came in for the slot, and then, if the
/// slot was reported to have reached the commitment of the subscriber, everything that lives of
/// what came in for it, each once and in order. To the processed commitment it gives everything.
pub proof fn lemma_replay_gives_what_came_in(
    run: Seq<Update>,
    slot: u64,
    state: &BlockReconstructionState,
    commitment: CommitmentLevel,
    replay_slot: u64,
    response: ReplayedResponse,
)
    requires
        crate::run_laws::is_run(run),
        crate::run_laws::spans(run, slot),
        run.len() > 0,
        crate::reconstruction_laws::stored_by_slot(run[0].before.slots),
        state@.slots == run.last().after.slots,
        state@.slots.contains_key(slot),
        replay_slot <= slot,
        call_ensures(
            BlockReconstructionState::service_replay,
            (state, commitment, replay_slot),
            response,
        ),
    ensures
        response matches ReplayedResponse::Messages(messages) ==> about(messages@, slot)
            == crate::arrivals::statuses_of(run, slot) + if commitment is Processed
            || crate::arrivals::was_told(run, slot, status_of(commitment)) {
            all_living(run, slot)
        } else {
            Seq::empty()
        },
{
    let slots = state@.slots;
    assert(run.last() == run[run.len() - 1]);
    assert(run.last().after.wf());
    crate::arrivals::lemma_run_stores_by_slot(run);
    crate::arrivals::lemma_slot_knows_what_came_in(run, slot);
    crate::ordered::lemma_finite_set_has_an_order(slots.dom());
    let order = crate::ordered::in_order(slots.dom());
    assert(order.contains(slot));
    assert forall|k: int| 0 <= k < order.len() implies slots.contains_key(#[trigger] order[k]) by {
        assert(order.contains(order[k]));
    }
    lemma_replay_about(slots, order, commitment, replay_slot, slot);
    let entry = slots[slot];
    let all = crate::arrivals::arrivals(run, slot);
    lemma_survivors_live(entry, all, 0, all.len() as int);
    assert(entry.messages.subrange(0, all.len() as int) =~= entry.messages);
    assert(entry.messages_slots + Seq::<Numbered>::empty() =~= entry.messages_slots);
}

/// What a replay holds of a slot that has reached the commitment is everything that the slot
/// holds: every message that was not replaced by a newer image, and every status.
pub proof fn lemma_replay_leaves_nothing_out(
    state: &BlockReconstructionState,
    commitment: CommitmentLevel,
    replay_slot: u64,
    response: ReplayedResponse,
    slot: u64,
)
    requires
        state@.slots.dom().finite(),
        state@.slots.contains_key(slot),
        replay_slot <= slot,
        commitment is Confirmed ==> state@.slots[slot].confirmed,
        commitment is Finalized ==> state@.slots[slot].finalized,
        call_ensures(
            BlockReconstructionState::service_replay,
            (state, commitment, replay_slot),
            response,
        ),
        exists|stored: u64| #[trigger] state@.slots.contains_key(stored) && stored <= replay_slot,
    ensures
        response matches ReplayedResponse::Messages(messages) && {
            &&& forall|i: int|
                0 <= i < state@.slots[slot].messages.len() ==> ((
                #[trigger] state@.slots[slot].messages[i]) matches Some(numbered)
                    ==> messages@.contains(numbered))
            &&& forall|i: int|
                0 <= i < state@.slots[slot].messages_slots.len() ==> messages@.contains(
                    #[trigger] state@.slots[slot].messages_slots[i],
                )
        },
{
    let slots = state@.slots;
    let entry = slots[slot];
    crate::ordered::lemma_finite_set_has_an_order(slots.dom());
    crate::sweep::lemma_earliest_slot(slots);
    let order = crate::ordered::in_order(slots.dom());
    assert(order.contains(slot));
    let at = choose|at: int| 0 <= at < order.len() && order[at] == slot;
    let given = crate::reconstruction::replayed(slots, order, commitment, replay_slot);
    let own = crate::reconstruction::replayed_slot(entry, commitment);
    let held = crate::slot_messages::survivors(entry.messages);
    assert forall|i: int| 0 <= i < entry.messages.len() implies ((
    #[trigger] entry.messages[i]) matches Some(numbered) ==> given.contains(numbered)) by {
        if entry.messages[i] is Some {
            crate::dedup::lemma_held_survives(entry.messages, i);
            let k = choose|k: int| 0 <= k < held.len() && held[k] == entry.messages[i]->0;
            assert(own[entry.messages_slots.len() + k] == held[k]);
            crate::reconstruction_laws::lemma_replay_is_complete(
                slots,
                order,
                commitment,
                replay_slot,
                at,
                entry.messages_slots.len() + k,
            );
        }
    }
    assert forall|i: int| 0 <= i < entry.messages_slots.len() implies given.contains(
        #[trigger] entry.messages_slots[i],
    ) by {
        assert(own[i] == entry.messages_slots[i]);
        crate::reconstruction_laws::lemma_replay_is_complete(
            slots,
            order,
            commitment,
            replay_slot,
            at,
            i,
        );
    }
}

/// A replay holds only what stored slots from the one that was asked for on hold: statuses, and
/// of those slots that have reached the commitment what else they hold.
pub proof fn lemma_replay_holds_nothing_else(
    state: &BlockReconstructionState,
    commitment: CommitmentLevel,
    replay_slot: u64,
    response: ReplayedResponse,
    i: int,
)
    requires
        state@.slots.dom().finite(),
        call_ensures(
            BlockReconstructionState::service_replay,
            (state, commitment, replay_slot),
            response,
        ),
        response matches ReplayedResponse::Messages(messages) && 0 <= i < messages@.len(),
    ensures
        response matches ReplayedResponse::Messages(messages) && exists|slot: u64|
            {
                &&& #[trigger] state@.slots.contains_key(slot)
                &&& replay_slot <= slot
                &&& state@.slots[slot].messages_slots.contains(messages@[i]) || {
                    &&& state@.slots[slot].messages.contains(Some(messages@[i]))
                    &&& commitment is Confirmed ==> state@.slots[slot].confirmed
                    &&& commitment is Finalized ==> state@.slots[slot].finalized
                }
            },
{
    let slots = state@.slots;
    crate::ordered::lemma_finite_set_has_an_order(slots.dom());
    let order = crate::ordered::in_order(slots.dom());
    assert forall|k: int| 0 <= k < order.len() implies slots.contains_key(#[trigger] order[k]) by {
        assert(order.contains(order[k]));
    }
    let slot = lemma_replayed_from(slots, order, commitment, replay_slot, i);
    assert(slots.contains_key(slot));
}

/// From which slot a message of a replay comes.
proof fn lemma_replayed_from(
    slots: Map<u64, SlotView>,
    order: Seq<u64>,
    commitment: CommitmentLevel,
    replay_slot: u64,
    i: int,
) -> (slot: u64)
    requires
        forall|k: int| 0 <= k < order.len() ==> slots.contains_key(#[trigger] order[k]),
        0 <= i < crate::reconstruction::replayed(slots, order, commitment, replay_slot).len(),
    ensures
        slots.contains_key(slot),
        replay_slot <= slot,
        ({
            let given = crate::reconstruction::replayed(slots, order, commitment, replay_slot)[i];
            slots[slot].messages_slots.contains(given) || {
                &&& slots[slot].messages.contains(Some(given))
                &&& commitment is Confirmed ==> slots[slot].confirmed
                &&& commitment is Finalized ==> slots[slot].finalized
            }
        }),
    decreases order.len(),
{
    let rest = order.drop_last();
    let before = crate::reconstruction::replayed(slots, rest, commitment, replay_slot);
    assert forall|k: int| 0 <= k < rest.len() implies slots.contains_key(#[trigger] rest[k]) by {
        assert(rest[k] == order[k]);
    }
    if i < before.len() {
        lemma_replayed_from(slots, rest, commitment, replay_slot, i)
    } else {
        let slot = order.last();
        assert(slot == order[order.len() - 1]);
        let entry = slots[slot];
        let k = i - before.len();
        if k < entry.messages_slots.len() {
            assert(entry.messages_slots.contains(entry.messages_slots[k]));
        } else {
            let at = crate::dedup::lemma_survivor_is_held(
                entry.messages,
                k - entry.messages_slots.len(),
            );
            assert(entry.messages.contains(entry.messages[at]));
        }
        slot
    }
}

/// A replay is refused exactly where something is stored and the slot that was asked for lies
/// before all of it; the refusal names the smallest slot that is stored.
pub proof fn lemma_replay_is_refused_before_the_first_slot(
    state: &BlockReconstructionState,
    commitment: CommitmentLevel,
    replay_slot: u64,
    response: ReplayedResponse,
)
    requires
        state@.slots.dom().finite(),
        call_ensures(
            BlockReconstructionState::service_replay,
            (state, commitment, replay_slot),
            response,
        ),
    ensures
        response is Lagged <==> {
            &&& exists|slot: u64| #[trigger] state@.slots.contains_key(slot)
            &&& forall|slot: u64| #[trigger] state@.slots.contains_key(slot) ==> replay_slot < slot
        },
        response matches ReplayedResponse::Lagged(earliest) ==> {
            &&& state@.slots.contains_key(earliest)
            &&& forall|slot: u64| #[trigger] state@.slots.contains_key(slot) ==> earliest <= slot
        },
{
    crate::sweep::lemma_earliest_slot(state@.slots);
}

/// A replay goes from slot to slot in ascending order.
pub proof fn lemma_replay_ascends(
    state: &BlockReconstructionState,
    commitment: CommitmentLevel,
    replay_slot: u64,
    response: ReplayedResponse,
    i: int,
    j: int,
)
    requires
        state@.slots.dom().finite(),
        crate::reconstruction_laws::stored_by_slot(state@.slots),
        call_ensures(
            BlockReconstructionState::service_replay,
            (state, commitment, replay_slot),
            response,
        ),
        response matches ReplayedResponse::Messages(messages) && 0 <= i < j < messages@.len(),
    ensures
        response matches ReplayedResponse::Messages(messages) && crate::arrivals::slot_of(
            messages@[i].1,
        ) <= crate::arrivals::slot_of(messages@[j].1),
{
    let slots = state@.slots;
    crate::ordered::lemma_finite_set_has_an_order(slots.dom());
    let order = crate::ordered::in_order(slots.dom());
    assert forall|k: int| 0 <= k < order.len() implies slots.contains_key(#[trigger] order[k]) by {
        assert(order.contains(order[k]));
    }
    lemma_replayed_ascends(slots, order, commitment, replay_slot, i, j);
}

/// The same of any ascending slots.
proof fn lemma_replayed_ascends(
    slots: Map<u64, SlotView>,
    order: Seq<u64>,
    commitment: CommitmentLevel,
    replay_slot: u64,
    i: int,
    j: int,
)
    requires
        crate::reconstruction_laws::stored_by_slot(slots),
        crate::ordered::ascending(order),
        forall|k: int| 0 <= k < order.len() ==> slots.contains_key(#[trigger] order[k]),
        0 <= i <= j < crate::reconstruction::replayed(
            slots,
            order,
            commitment,
            replay_slot,
        ).len(),
    ensures
        ({
            let given = crate::reconstruction::replayed(slots, order, commitment, replay_slot);
            &&& crate::arrivals::slot_of(given[i].1) <= crate::arrivals::slot_of(given[j].1)
            &&& crate::arrivals::slot_of(given[j].1) <= order.last()
        }),
    decreases order.len(),
{
    let rest = order.drop_last();
    let before = crate::reconstruction::replayed(slots, rest, commitment, replay_slot);
    let last = order.last();
    assert(last == order[order.len() - 1]);
    assert forall|k: int| 0 <= k < rest.len() implies slots.contains_key(#[trigger] rest[k]) by {
        assert(rest[k] == order[k]);
    }
    assert(crate::reconstruction_laws::holds_own(last, slots[last]));
    lemma_replayed_slot_is_own(last, slots[last], commitment);
    let own = crate::reconstruction::replayed_slot(slots[last], commitment);
    if i < before.len() {
        let b = if j < before.len() {
            j
        } else {
            i
        };
        lemma_replayed_ascends(slots, rest, commitment, replay_slot, i, b);
        assert(rest.last() == order[order.len() - 2]);
    }
    if j >= before.len() {
        assert(own[j - before.len()] == crate::reconstruction::replayed(
            slots,
            order,
            commitment,
            replay_slot,
        )[j]);
    }
    if i >= before.len() {
        assert(own[i - before.len()] == crate::reconstruction::replayed(
            slots,
            order,
            commitment,
            replay_slot,
        )[i]);
    }
}

} // verus!
