//! Puts blocks together from a stream of updates, slot by slot.
use crate::clock::timestamp_now;
use crate::invalid::InvalidBlock;
use crate::message::{
    copy_numbered, CommitmentLevel, Message, MessageSlot, Numbered, SlotStatus, Timestamp,
};
use crate::message_id::MessageId;
use crate::ordered::{lookup, put, sorted_keys, take};
use crate::slot_messages::{SlotMessages, SlotView};
use crate::sweep::drop_before;
use std::collections::BTreeMap;
use vstd::prelude::*;

verus! {

/// How many slots stay beyond the replay buffer, so that a status can still reach the ancestors
/// of a slot and a late meta can still complete a block.
pub const FINALIZATION_SAFETY_BUFFER: u64 = 10;

/// A message that is ready to go out, with the batches that go out with it to the subscribers
/// who wait for a slot to be confirmed, or finalized.
#[derive(Debug)]
pub struct DispatchItem {
    pub message: Numbered,
    pub confirmed_messages: Option<Vec<Numbered>>,
    pub finalized_messages: Option<Vec<Numbered>>,
    /// Whether this is the message that came in, and not one that it brought about.
    pub is_raw_message: bool,
}

/// What goes out to the subscribers who wait for confirmed slots: with the confirmation all that
/// the slot holds, with any other status that status alone, and with a block that was completed
/// after the confirmation all that came since.
pub open spec fn confirmed_batch(slots: Map<u64, SlotView>, numbered: Numbered) -> Option<
    Seq<Numbered>,
> {
    match numbered.1 {
        Message::Slot(msg) => if msg.status is Confirmed {
            Some(held(slots, msg.slot).push(numbered))
        } else {
            Some(seq![numbered])
        },
        Message::Block(block) => if slots.contains_key(block.meta.slot) {
            held_since(slots[block.meta.slot], slots[block.meta.slot].confirmed_at)
        } else {
            None
        },
        _ => None,
    }
}

/// What goes out to the subscribers who wait for finalized slots.
pub open spec fn finalized_batch(slots: Map<u64, SlotView>, numbered: Numbered) -> Option<
    Seq<Numbered>,
> {
    match numbered.1 {
        Message::Slot(msg) => if msg.status is Finalized {
            Some(held(slots, msg.slot).push(numbered))
        } else {
            Some(seq![numbered])
        },
        Message::Block(block) => if slots.contains_key(block.meta.slot) {
            held_since(slots[block.meta.slot], slots[block.meta.slot].finalized_at)
        } else {
            None
        },
        _ => None,
    }
}

/// All messages that a slot holds.
pub open spec fn held(slots: Map<u64, SlotView>, slot: u64) -> Seq<Numbered> {
    if slots.contains_key(slot) {
        crate::slot_messages::survivors(slots[slot].messages)
    } else {
        Seq::empty()
    }
}

/// The messages that a slot holds from place `at` on, if there are any.
pub open spec fn held_since(entry: SlotView, at: Option<usize>) -> Option<Seq<Numbered>> {
    match at {
        Some(at) => {
            let since = crate::slot_messages::survivors(entry.messages.skip(at as int));
            if since.len() == 0 {
                None
            } else {
                Some(since)
            }
        },
        None => None,
    }
}

/// The sequence that an optional vector holds.
pub open spec fn batch_view(batch: Option<Vec<Numbered>>) -> Option<Seq<Numbered>> {
    match batch {
        Some(batch) => Some(batch@),
        None => None,
    }
}

impl DispatchItem {
    /// The item carries the batches that belong to its message, and says whether the message is
    /// the one that came in under the number `raw_id`.
    pub open spec fn carries(self, slots: Map<u64, SlotView>, raw_id: u64) -> bool {
        &&& batch_view(self.confirmed_messages) == confirmed_batch(slots, self.message)
        &&& batch_view(self.finalized_messages) == finalized_batch(slots, self.message)
        &&& self.is_raw_message == (self.message.0 == raw_id)
    }
}

/// `numbered` tells of `slot` that it has reached `status`, and is no report of a validator.
pub open spec fn is_backfill(
    numbered: Numbered,
    id: int,
    slot: u64,
    parent: Option<u64>,
    status: SlotStatus,
) -> bool {
    &&& numbered.0 == id
    &&& numbered.1 matches Message::Slot(msg)
    &&& msg.slot == slot
    &&& msg.parent == parent
    &&& msg.status == status
    &&& msg.dead_error is None
    &&& 0 <= msg.created_at.nanos < 1_000_000_000
}

/// The message says of `slot` that it has reached `status`.
pub open spec fn reports(message: Message, slot: u64, status: SlotStatus) -> bool {
    &&& message matches Message::Slot(msg)
    &&& msg.slot == slot
    &&& msg.status == status
}

/// The slots after `status` was noted on some of them.
pub open spec fn marked_all(
    slots: Map<u64, SlotView>,
    which: Seq<u64>,
    status: SlotStatus,
) -> Map<u64, SlotView> {
    slots.map_entries(
        |slot: u64, entry: SlotView|
            if which.contains(slot) {
                entry.marked(status)
            } else {
                entry
            },
    )
}

/// The slots after the number of messages of one of them was noted, if it is stored.
pub open spec fn with_recorded(
    slots: Map<u64, SlotView>,
    slot: u64,
    status: SlotStatus,
) -> Map<u64, SlotView> {
    if slots.contains_key(slot) {
        slots.insert(slot, slots[slot].recorded(status))
    } else {
        slots
    }
}

/// The slots after the status messages of a batch were noted one after the other.
pub open spec fn recorded_by(slots: Map<u64, SlotView>, batch: Seq<Numbered>) -> Map<u64, SlotView>
    decreases batch.len(),
{
    if batch.len() == 0 {
        slots
    } else {
        let before = recorded_by(slots, batch.drop_last());
        match batch.last().1 {
            Message::Slot(msg) => with_recorded(before, msg.slot, msg.status),
            _ => before,
        }
    }
}

/// The findings that a message gives rise to: it comes after the slot's block was built, or
/// brings a second meta. Entries after a block whose meta counts none are no finding.
pub open spec fn findings(entry: SlotView, message: Message) -> Seq<InvalidBlock> {
    let late = if !(message is Slot) && entry.sealed && !(message is Entry && entry.entries_count
        == 0) {
        seq![InvalidBlock::UnexpectedMessage(message.kind())]
    } else {
        Seq::empty()
    };
    let twice = if message is BlockMeta && entry.block_meta is Some {
        seq![InvalidBlock::DuplicateBlockMeta]
    } else {
        Seq::empty()
    };
    late + twice
}

/// The state of the reconstruction.
#[verifier::ext_equal]
pub struct StateView {
    pub slots: Map<u64, SlotView>,
    pub last_id: u64,
    pub processed_first_slot: Option<u64>,
    pub replay_first_available_slot: Option<u64>,
    pub replay_stored_slots: u64,
    pub invalid_blocks: Seq<InvalidBlock>,
}

impl StateView {
    /// What holds between messages: every stored slot is well formed, and no block that could
    /// be built is still open.
    pub open spec fn wf(self) -> bool {
        &&& self.slots.dom().finite()
        &&& self.replay_stored_slots <= u64::MAX - FINALIZATION_SAFETY_BUFFER
        &&& forall|slot: u64|
            self.slots.contains_key(slot) ==> #[trigger] self.slots[slot].wf()
                && !self.slots[slot].ready()
    }

    /// What is known of a slot.
    pub open spec fn entry(self, slot: u64) -> SlotView {
        if self.slots.contains_key(slot) {
            self.slots[slot]
        } else {
            SlotView::empty()
        }
    }

    /// The number of slots that stay behind a finalized slot.
    pub open spec fn retained(self) -> int {
        FINALIZATION_SAFETY_BUFFER + self.replay_stored_slots
    }

    /// The state after the clean-up that a message calls for: the first processed slot is
    /// noted, and a finalized slot drops those too far behind it.
    pub open spec fn swept(self, message: Message) -> StateView {
        match message {
            Message::Slot(msg) => if self.processed_first_slot is None && msg.status is Processed {
                StateView { processed_first_slot: Some(msg.slot), ..self }
            } else if msg.status is Finalized && self.retained() <= msg.slot {
                self.dropped((msg.slot - self.retained()) as u64)
            } else {
                self
            },
            _ => self,
        }
    }

    /// The state without the slots below `cutoff`.
    pub open spec fn dropped(self, cutoff: u64) -> StateView {
        let kept = crate::sweep::kept_from(self.slots, cutoff);
        let gone = crate::sweep::dropped_before(self.slots, cutoff);
        StateView {
            slots: kept,
            replay_first_available_slot: match (
                self.replay_first_available_slot,
                crate::sweep::earliest_slot(kept),
            ) {
                (Some(_), Some(earliest)) => Some(earliest),
                (published, _) => published,
            },
            invalid_blocks: self.invalid_blocks + crate::sweep::failures(
                self.slots,
                gone,
                self.processed_first_slot,
            ),
            ..self
        }
    }

    /// The slot of the message has everything its block needs once the message is filed.
    pub open spec fn completes(self, id: u64, message: Message) -> bool {
        self.entry(message.slot()).received(id, message).ready()
    }

    /// The state after the block of a slot, if there is one, went out.
    pub open spec fn sealed(self, slot: u64, block: Option<Numbered>) -> StateView {
        match block {
            Some(block) => StateView {
                slots: self.slots.insert(slot, self.slots[slot].sealed_as(block)),
                last_id: block.0,
                ..self
            },
            None => self,
        }
    }

    /// The state after a message was filed under its slot.
    pub open spec fn filed(self, id: u64, message: Message) -> StateView {
        let entry = self.entry(message.slot());
        StateView {
            slots: self.slots.insert(message.slot(), entry.received(id, message)),
            invalid_blocks: self.invalid_blocks + findings(entry, message),
            ..self
        }
    }
}

impl StateView {
    /// The message makes its slot's block complete.
    pub open spec fn seals(self, id: u64, message: Message) -> bool {
        self.swept(message).completes(id, message)
    }

    /// The ancestors that learn of the status which the message reports, nearest first.
    pub open spec fn missed(self, id: u64, message: Message) -> Seq<u64> {
        match message {
            Message::Slot(msg) => crate::ancestors::missed_ancestors(
                self.swept(message).filed(id, message).slots,
                msg.slot,
                msg.status,
            ),
            _ => Seq::empty(),
        }
    }

    /// How many messages the message brings about.
    pub open spec fn minted(self, id: u64, message: Message) -> nat {
        self.missed(id, message).len() + if self.seals(id, message) {
            1nat
        } else {
            0nat
        }
    }

    /// The state after a message, and after the block that it completed went out.
    pub open spec fn settled(self, id: u64, message: Message, block: Option<Numbered>) -> StateView {
        let filed = self.swept(message).filed(id, message);
        match message {
            Message::Slot(msg) => StateView {
                slots: with_status(filed.slots, msg.slot, self.missed(id, message), msg.status),
                last_id: (self.last_id + self.missed(id, message).len()) as u64,
                ..filed
            },
            _ => filed.sealed(message.slot(), block),
        }
    }

    /// What a message leads to: first the status messages for the ancestors that missed it, the
    /// oldest ancestor first, then the message itself, then the block that it completed.
    pub open spec fn dispatched(
        self,
        id: u64,
        message: Message,
        items: Seq<DispatchItem>,
        after: StateView,
    ) -> bool {
        let missed = self.missed(id, message);
        let block = if self.seals(id, message) {
            Some(items.last().message)
        } else {
            None
        };
        &&& items.len() == 1 + self.minted(id, message)
        &&& after == self.settled(id, message, block)
        &&& forall|i: int|
            0 <= i < missed.len() ==> is_backfill(
                (#[trigger] items[i]).message,
                self.last_id + missed.len() - i,
                missed[missed.len() - 1 - i],
                after.slots[missed[missed.len() - 1 - i]].parent_slot,
                message->Slot_0.status,
            )
        &&& items[missed.len() as int].message == (id, message)
        &&& block matches Some(block) ==> {
            &&& block.0 == self.last_id + 1
            &&& block.1 matches Message::Block(built)
            &&& self.swept(message).entry(message.slot()).received(id, message).is_block(*built)
        }
        &&& forall|i: int|
            0 <= i < items.len() ==> (#[trigger] items[i]).carries(after.slots, id)
    }
}

impl StateView {
    /// The state after one more number was minted.
    pub open spec fn numbered(self) -> StateView {
        StateView { last_id: (self.last_id + 1) as u64, ..self }
    }
}

/// The answer to a request for everything from a slot on.
#[derive(Debug)]
pub enum ReplayedResponse {
    Messages(Vec<Numbered>),
    /// The slot is not stored any more; the earliest slot that is.
    Lagged(u64),
}

/// What a slot holds for a subscriber with `commitment`.
pub open spec fn replayed_slot(entry: SlotView, commitment: CommitmentLevel) -> Seq<Numbered> {
    let reached = match commitment {
        CommitmentLevel::Processed => true,
        CommitmentLevel::Confirmed => entry.confirmed,
        CommitmentLevel::Finalized => entry.finalized,
    };
    if reached {
        entry.messages_slots + crate::slot_messages::survivors(entry.messages)
    } else {
        entry.messages_slots
    }
}

/// What the slots of `order` hold from `replay_slot` on.
pub open spec fn replayed(
    slots: Map<u64, SlotView>,
    order: Seq<u64>,
    commitment: CommitmentLevel,
    replay_slot: u64,
) -> Seq<Numbered>
    decreases order.len(),
{
    if order.len() == 0 {
        Seq::empty()
    } else {
        let before = replayed(slots, order.drop_last(), commitment, replay_slot);
        if replay_slot <= order.last() {
            before + replayed_slot(slots[order.last()], commitment)
        } else {
            before
        }
    }
}

impl ReplayedResponse {
    /// The response to a request for everything from `replay_slot` on.
    pub open spec fn answers(
        self,
        slots: Map<u64, SlotView>,
        commitment: CommitmentLevel,
        replay_slot: u64,
    ) -> bool {
        match crate::sweep::earliest_slot(slots) {
            Some(earliest) if replay_slot < earliest => self == ReplayedResponse::Lagged(earliest),
            _ => self matches ReplayedResponse::Messages(messages) && messages@ == replayed(
                slots,
                crate::ordered::in_order(slots.dom()),
                commitment,
                replay_slot,
            ),
        }
    }
}

/// The slots after `slot` and the ancestors that missed it have reached `status`.
pub open spec fn with_status(
    slots: Map<u64, SlotView>,
    slot: u64,
    missed: Seq<u64>,
    status: SlotStatus,
) -> Map<u64, SlotView> {
    slots.map_entries(
        |s: u64, entry: SlotView|
            if missed.contains(s) {
                entry.marked(status).recorded(status)
            } else if s == slot {
                entry.recorded(status)
            } else {
                entry
            },
    )
}

impl StateView {
    /// A block can only be completed by its meta, a transaction or an entry.
    pub proof fn lemma_completes(self, id: u64, message: Message)
        requires
            self.wf(),
            self.completes(id, message),
        ensures
            message is BlockMeta || message is Transaction || message is Entry,
    {
        let slot = message.slot();
        if self.slots.contains_key(slot) {
            assert(self.slots[slot].wf());
        }
    }

    /// The clean-up keeps the state well formed.
    pub proof fn lemma_swept_keeps_wf(self, message: Message)
        requires
            self.wf(),
        ensures
            self.swept(message).wf(),
    {
        let after = self.swept(message);
        assert(after.slots.dom().subset_of(self.slots.dom()));
        vstd::set_lib::lemma_len_subset(after.slots.dom(), self.slots.dom());
        assert forall|slot: u64| after.slots.contains_key(slot) implies #[trigger]
            after.slots[slot].wf() && !after.slots[slot].ready() by {
            assert(after.slots[slot] == self.slots[slot]);
            assert(self.slots[slot].wf());
        }
    }
}

impl StateView {
    /// How many messages a message brings about does not depend on the number minted last.
    pub proof fn lemma_minted_whatever_was_minted(self, last_id: u64, id: u64, message: Message)
        ensures
            (StateView { last_id, ..self }).minted(id, message) == self.minted(id, message),
    {
        let other = StateView { last_id, ..self };
        assert(other.swept(message).slots == self.swept(message).slots);
        assert(other.swept(message).filed(id, message).slots == self.swept(message).filed(
            id,
            message,
        ).slots);
    }

    /// How many messages a message brings about does not depend on whether it is encoded.
    pub proof fn lemma_minted_of_encoded(self, id: u64, message: Message, intake: Message)
        requires
            message.encoded_as(intake),
        ensures
            self.minted(id, intake) == self.minted(id, message),
    {
        crate::encoder::lemma_encoding_keeps_content(message, intake);
        if intake != message {
            let entry = self.entry(message.slot());
            assert(self.swept(message) == self && self.swept(intake) == self);
            assert(entry.received(id, intake).ready() == entry.received(id, message).ready());
        }
    }

    /// There are enough numbers left for another message and for everything that it may bring
    /// about.
    pub open spec fn has_room(self) -> bool {
        self.last_id + self.slots.dom().len() + 3 <= u64::MAX
    }

    /// With room for it, a message can be numbered, and so can everything that it brings about.
    pub proof fn lemma_room(self, id: u64, message: Message)
        requires
            self.wf(),
            self.has_room(),
        ensures
            self.last_id + self.minted(id, message) <= u64::MAX,
            self.last_id + 1 + self.numbered().minted(id, message) <= u64::MAX,
    {
        crate::reconstruction_laws::lemma_minted_is_bounded(self, id, message);
        crate::reconstruction_laws::lemma_minted_is_bounded(self.numbered(), id, message);
    }
}

/// A batch without status messages leaves the slots as they are.
proof fn lemma_nothing_recorded(slots: Map<u64, SlotView>, batch: Seq<Numbered>)
    requires
        forall|i: int| 0 <= i < batch.len() ==> !((#[trigger] batch[i]).1 is Slot),
    ensures
        recorded_by(slots, batch) == slots,
    decreases batch.len(),
{
    if batch.len() > 0 {
        lemma_nothing_recorded(slots, batch.drop_last());
        assert(batch.last() == batch[batch.len() - 1]);
    }
}

/// The messages of a slot and of the ancestors that missed its status leave each of them with
/// its number of messages noted.
proof fn lemma_status_recorded(
    slots: Map<u64, SlotView>,
    batch: Seq<Numbered>,
    slot: u64,
    missed: Seq<u64>,
    status: SlotStatus,
)
    requires
        batch.len() == missed.len() + 1,
        slots.contains_key(slot),
        forall|k: int| 0 <= k < missed.len() ==> slots.contains_key(#[trigger] missed[k]),
        reports(batch[0].1, slot, status),
        forall|k: int|
            0 <= k < missed.len() ==> reports(batch[k + 1].1, #[trigger] missed[k], status),
    ensures
        recorded_by(slots, batch) == slots.map_entries(
            |s: u64, entry: SlotView|
                if s == slot || missed.contains(s) {
                    entry.recorded(status)
                } else {
                    entry
                },
        ),
    decreases missed.len(),
{
    let before = batch.drop_last();
    if missed.len() == 0 {
        assert(before =~= Seq::empty());
        assert(recorded_by(slots, before) == slots);
        assert(recorded_by(slots, batch) =~= slots.map_entries(
            |s: u64, entry: SlotView|
                if s == slot || missed.contains(s) {
                    entry.recorded(status)
                } else {
                    entry
                },
        ));
    } else {
        let shorter = missed.drop_last();
        assert forall|k: int| 0 <= k < shorter.len() implies reports(
            before[k + 1].1,
            #[trigger] shorter[k],
            status,
        ) by {
            assert(shorter[k] == missed[k]);
            assert(before[k + 1] == batch[k + 1]);
        }
        assert forall|k: int| 0 <= k < shorter.len() implies slots.contains_key(
            #[trigger] shorter[k],
        ) by {
            assert(shorter[k] == missed[k]);
        }
        lemma_status_recorded(slots, before, slot, shorter, status);
        let last = missed.last();
        assert(missed[missed.len() - 1] == last);
        assert(batch.last() == batch[missed.len() - 1 + 1]);
        assert forall|s: u64| #[trigger] missed.contains(s) <==> shorter.contains(s) || s
            == last by {
            if missed.contains(s) && s != last {
                let k = choose|k: int| 0 <= k < missed.len() && missed[k] == s;
                assert(shorter[k] == s);
            }
            if shorter.contains(s) {
                let k = choose|k: int| 0 <= k < shorter.len() && shorter[k] == s;
                assert(missed[k] == s);
            }
        }
        assert(recorded_by(slots, batch) =~= slots.map_entries(
            |s: u64, entry: SlotView|
                if s == slot || missed.contains(s) {
                    entry.recorded(status)
                } else {
                    entry
                },
        ));
    }
}

/// The same, where the status was noted on the ancestors before.
proof fn lemma_status_slots(
    slots: Map<u64, SlotView>,
    batch: Seq<Numbered>,
    slot: u64,
    missed: Seq<u64>,
    status: SlotStatus,
)
    requires
        batch.len() == missed.len() + 1,
        slots.contains_key(slot),
        forall|k: int| 0 <= k < missed.len() ==> slots.contains_key(#[trigger] missed[k]),
        reports(batch[0].1, slot, status),
        forall|k: int|
            0 <= k < missed.len() ==> reports(batch[k + 1].1, #[trigger] missed[k], status),
    ensures
        recorded_by(marked_all(slots, missed, status), batch) == with_status(
            slots,
            slot,
            missed,
            status,
        ),
{
    lemma_status_recorded(marked_all(slots, missed, status), batch, slot, missed, status);
    assert(recorded_by(marked_all(slots, missed, status), batch) =~= with_status(
        slots,
        slot,
        missed,
        status,
    ));
}

impl StateView {
    /// `batch` is what a status message leads to, itself first and then a status message for
    /// each ancestor that missed it, and `after` is the state once the batch was noted.
    spec fn status_batch(
        self,
        id: u64,
        message: Message,
        batch: Seq<Numbered>,
        after: StateView,
    ) -> bool {
        let missed = self.missed(id, message);
        let filed = self.swept(message).filed(id, message);
        let status = message->Slot_0.status;
        &&& message is Slot
        &&& batch.len() == missed.len() + 1
        &&& batch[0] == (id, message)
        &&& forall|k: int|
            0 <= k < missed.len() ==> is_backfill(
                batch[1 + k],
                self.last_id + 1 + k,
                #[trigger] missed[k],
                filed.slots[missed[k]].parent_slot,
                status,
            )
        &&& after == (StateView {
            slots: recorded_by(marked_all(filed.slots, missed, status), batch),
            last_id: (self.last_id + missed.len()) as u64,
            ..filed
        })
    }

    /// No status message completes a block, and the ancestors that it tells are stored.
    proof fn lemma_status_tells_stored_slots(self, id: u64, message: Message)
        requires
            self.wf(),
            message is Slot,
        ensures
            !self.seals(id, message),
            forall|k: int|
                0 <= k < self.missed(id, message).len() ==> self.swept(message).filed(
                    id,
                    message,
                ).slots.contains_key(#[trigger] self.missed(id, message)[k]),
    {
        let msg = message->Slot_0;
        self.lemma_swept_keeps_wf(message);
        if self.seals(id, message) {
            self.swept(message).lemma_completes(id, message);
        }
        let filed = self.swept(message).filed(id, message);
        assert(filed.slots.dom() =~= self.swept(message).slots.dom().insert(msg.slot));
        crate::ancestors::lemma_missed_ancestors(filed.slots, msg.slot, msg.status);
    }

    /// The state after the batch of a status message was noted.
    proof fn lemma_status_settled(
        self,
        id: u64,
        message: Message,
        batch: Seq<Numbered>,
        after: StateView,
    )
        requires
            self.wf(),
            self.status_batch(id, message, batch, after),
        ensures
            after == self.settled(id, message, None),
    {
        let missed = self.missed(id, message);
        let msg = message->Slot_0;
        self.lemma_status_tells_stored_slots(id, message);
        assert forall|k: int| 0 <= k < missed.len() implies reports(
            batch[k + 1].1,
            #[trigger] missed[k],
            msg.status,
        ) by {
            assert(batch[k + 1] == batch[1 + k]);
        }
        lemma_status_slots(
            self.swept(message).filed(id, message).slots,
            batch,
            msg.slot,
            missed,
            msg.status,
        );
    }

    /// The status messages for the ancestors, the oldest ancestor first.
    proof fn lemma_status_told(
        self,
        id: u64,
        message: Message,
        batch: Seq<Numbered>,
        after: StateView,
        i: int,
    )
        requires
            self.wf(),
            self.status_batch(id, message, batch, after),
            after == self.settled(id, message, None),
            0 <= i < self.missed(id, message).len(),
        ensures
            ({
                let missed = self.missed(id, message);
                is_backfill(
                    batch[missed.len() - i],
                    self.last_id + missed.len() - i,
                    missed[missed.len() - 1 - i],
                    after.slots[missed[missed.len() - 1 - i]].parent_slot,
                    message->Slot_0.status,
                )
            }),
    {
        let missed = self.missed(id, message);
        let k = missed.len() - 1 - i;
        self.lemma_status_tells_stored_slots(id, message);
        assert(missed.contains(missed[k]));
        assert(batch[missed.len() - i] == batch[1 + k]);
    }

    /// The items of a batch that a status message leads to.
    proof fn lemma_status_dispatched(
        self,
        id: u64,
        message: Message,
        batch: Seq<Numbered>,
        items: Seq<DispatchItem>,
        after: StateView,
    )
        requires
            self.wf(),
            self.status_batch(id, message, batch, after),
            items.len() == batch.len(),
            forall|i: int|
                0 <= i < items.len() ==> {
                    &&& (#[trigger] items[i]).message == batch[items.len() - 1 - i]
                    &&& items[i].carries(after.slots, id)
                },
        ensures
            self.dispatched(id, message, items, after),
    {
        let missed = self.missed(id, message);
        self.lemma_status_tells_stored_slots(id, message);
        self.lemma_status_settled(id, message, batch, after);
        assert forall|i: int| 0 <= i < missed.len() implies is_backfill(
            (#[trigger] items[i]).message,
            self.last_id + missed.len() - i,
            missed[missed.len() - 1 - i],
            after.slots[missed[missed.len() - 1 - i]].parent_slot,
            message->Slot_0.status,
        ) by {
            self.lemma_status_told(id, message, batch, after, i);
        }
        assert(items[missed.len() as int].message == batch[0]);
    }

    /// The items of a batch that any other message leads to.
    proof fn lemma_part_dispatched(
        self,
        id: u64,
        message: Message,
        sealed: Option<Numbered>,
        batch: Seq<Numbered>,
        items: Seq<DispatchItem>,
        after: StateView,
    )
        requires
            self.wf(),
            !(message is Slot),
            sealed is Some <==> self.seals(id, message),
            sealed matches Some(block) ==> {
                &&& block.0 == self.last_id + 1
                &&& block.1 matches Message::Block(built)
                &&& self.swept(message).filed(id, message).slots[message.slot()].is_block(*built)
            },
            batch == match sealed {
                Some(block) => seq![block, (id, message)],
                None => seq![(id, message)],
            },
            after == (StateView {
                slots: recorded_by(
                    self.swept(message).filed(id, message).sealed(message.slot(), sealed).slots,
                    batch,
                ),
                ..self.swept(message).filed(id, message).sealed(message.slot(), sealed)
            }),
            items.len() == batch.len(),
            forall|i: int|
                0 <= i < items.len() ==> {
                    &&& (#[trigger] items[i]).message == batch[items.len() - 1 - i]
                    &&& items[i].carries(after.slots, id)
                },
        ensures
            self.dispatched(id, message, items, after),
    {
        let slots = self.swept(message).filed(id, message).sealed(message.slot(), sealed).slots;
        lemma_nothing_recorded(slots, batch);
        assert(items[0].message == (id, message));
        if sealed is Some {
            assert(items[1].message == batch[0]);
        }
    }
}

/// Puts blocks together, keeps what subscribers may ask to be replayed, and completes statuses.
#[derive(Debug)]
pub struct BlockReconstructionState {
    msgid_gen: MessageId,
    messages: BTreeMap<u64, SlotMessages>,
    processed_first_slot: Option<u64>,
    replay_first_available_slot: Option<u64>,
    replay_stored_slots: u64,
    invalid_blocks: Vec<InvalidBlock>,
}

impl View for BlockReconstructionState {
    type V = StateView;

    closed spec fn view(&self) -> StateView {
        StateView {
            slots: crate::sweep::views(self.messages@),
            last_id: self.msgid_gen.last(),
            processed_first_slot: self.processed_first_slot,
            replay_first_available_slot: self.replay_first_available_slot,
            replay_stored_slots: self.replay_stored_slots,
            invalid_blocks: self.invalid_blocks@,
        }
    }
}

impl BlockReconstructionState {
    /// An empty reconstruction. With `replay_first_available_slot` it publishes the earliest
    /// slot that can be replayed.
    pub fn new(replay_first_available_slot: Option<u64>, replay_stored_slots: u64) -> (state: Self)
        requires
            replay_stored_slots <= u64::MAX - FINALIZATION_SAFETY_BUFFER,
        ensures
            state@.wf(),
            state@ == (StateView {
                slots: Map::empty(),
                last_id: 0,
                processed_first_slot: None,
                replay_first_available_slot,
                replay_stored_slots,
                invalid_blocks: Seq::empty(),
            }),
    {
        let state = BlockReconstructionState {
            msgid_gen: MessageId::new(),
            messages: BTreeMap::new(),
            processed_first_slot: None,
            replay_first_available_slot,
            replay_stored_slots,
            invalid_blocks: Vec::new(),
        };
        assert(state@.slots =~= Map::empty());
        state
    }

    /// Notes the first processed slot, and drops what lies too far behind a finalized slot.
    fn gc_finalized_slots(&mut self, message: &Message)
        requires
            old(self)@.wf(),
        ensures
            final(self)@ == old(self)@.swept(*message),
            final(self)@.wf(),
    {
        if let Message::Slot(msg) = message {
            let status: SlotStatus = msg.status;
            if self.processed_first_slot.is_none() && status == SlotStatus::Processed {
                self.processed_first_slot = Some(msg.slot);
            } else if status == SlotStatus::Finalized {
                let retained: u64 = FINALIZATION_SAFETY_BUFFER + self.replay_stored_slots;
                if msg.slot >= retained {
                    let earliest: Option<u64> = drop_before(
                        &mut self.messages,
                        msg.slot - retained,
                        self.processed_first_slot,
                        &mut self.invalid_blocks,
                    );
                    if self.replay_first_available_slot.is_some() && earliest.is_some() {
                        self.replay_first_available_slot = earliest;
                    }
                }
            }
        }
        proof {
            old(self)@.lemma_swept_keeps_wf(*message);
        }
    }

    /// Files a message under its slot, and builds the slot's block if it is complete now.
    fn file_message(&mut self, id: u64, message: &Message) -> (sealed: Option<Numbered>)
        requires
            old(self)@.wf(),
            old(self)@.completes(id, *message) ==> old(self)@.last_id < u64::MAX,
        ensures
            final(self)@.wf(),
            sealed is Some <==> old(self)@.completes(id, *message),
            sealed matches Some(block) ==> {
                &&& block.0 == old(self)@.last_id + 1
                &&& block.1 matches Message::Block(built)
                &&& old(self)@.filed(id, *message).slots[message.slot()].is_block(*built)
            },
            final(self)@ == old(self)@.filed(id, *message).sealed(message.slot(), sealed),
    {
        let slot: u64 = message.get_slot();
        let mut entry: SlotMessages = match take(&mut self.messages, slot) {
            Some(entry) => entry,
            None => SlotMessages::new(),
        };
        assert(entry@ == old(self)@.entry(slot));
        let late: bool = entry.is_sealed();
        match message {
            Message::Slot(_) => {},
            Message::Entry(_) => {
                if late && entry.sealed_entries_count() != 0 {
                    self.invalid_blocks.push(InvalidBlock::UnexpectedMessage(message.get_kind()));
                }
            },
            _ => {
                if late {
                    self.invalid_blocks.push(InvalidBlock::UnexpectedMessage(message.get_kind()));
                }
            },
        }
        let can_seal: bool = match message {
            Message::BlockMeta(_) => {
                if entry.has_block_meta() {
                    self.invalid_blocks.push(InvalidBlock::DuplicateBlockMeta);
                }
                true
            },
            Message::Transaction(_) => true,
            Message::Entry(_) => true,
            _ => false,
        };
        assert(self.invalid_blocks@ =~= old(self).invalid_blocks@ + findings(entry@, *message));
        entry.receive(id, message);
        let sealed: Option<Numbered> = if can_seal {
            entry.try_seal(&mut self.msgid_gen)
        } else {
            None
        };
        put(&mut self.messages, slot, entry);
        proof {
            let before = old(self)@;
            if before.slots.contains_key(slot) {
                assert(before.slots[slot].wf());
            }
            assert(!before.entry(slot).ready());
            assert(self@.slots =~= before.slots.insert(slot, entry@));
            assert(before.filed(id, *message).sealed(slot, sealed).slots =~= self@.slots);
            assert forall|other: u64| self@.slots.contains_key(other) implies #[trigger]
                self@.slots[other].wf() && !self@.slots[other].ready() by {
                if other != slot {
                    assert(self@.slots[other] == before.slots[other]);
                    assert(before.slots[other].wf());
                }
            }
            assert(self@.slots.dom() =~= before.slots.dom().insert(slot));
            assert(self@.wf());
        }
        sealed
    }

    /// The parent of a slot, if it is stored and does not have `status` yet.
    fn missing_parent(&self, slot: u64, status: SlotStatus) -> (parent: Option<u64>)
        ensures
            parent == crate::ancestors::missing_parent(self@.slots, slot, status),
    {
        let parent: u64 = match lookup(&self.messages, slot) {
            Some(entry) => match entry.parent_slot() {
                Some(parent) => parent,
                None => {
                    return None;
                },
            },
            None => {
                return None;
            },
        };
        match lookup(&self.messages, parent) {
            Some(entry) => {
                let has: bool = match status {
                    SlotStatus::Confirmed => entry.is_confirmed(),
                    SlotStatus::Finalized => entry.is_finalized(),
                    _ => true,
                };
                if has {
                    None
                } else {
                    Some(parent)
                }
            },
            None => None,
        }
    }

    /// Notes `status` on a stored slot, and returns the slot's parent.
    fn mark_slot(&mut self, slot: u64, status: SlotStatus) -> (parent: Option<u64>)
        requires
            old(self)@.wf(),
            old(self)@.slots.contains_key(slot),
        ensures
            final(self)@.wf(),
            parent == old(self)@.slots[slot].parent_slot,
            final(self)@ == (StateView {
                slots: crate::ancestors::with_marked(old(self)@.slots, slot, status),
                ..old(self)@
            }),
    {
        let mut parent: Option<u64> = None;
        proof {
            assert(old(self)@.slots[slot].wf());
        }
        if let Some(mut entry) = take(&mut self.messages, slot) {
            assert(entry@ == old(self)@.slots[slot]);
            parent = entry.parent_slot();
            entry.mark(status);
            put(&mut self.messages, slot, entry);
        }
        proof {
            let before = old(self)@;
            assert(self@.slots =~= crate::ancestors::with_marked(before.slots, slot, status));
            assert forall|other: u64| self@.slots.contains_key(other) implies #[trigger]
                self@.slots[other].wf() && !self@.slots[other].ready() by {
                assert(before.slots[other].wf());
            }
        }
        parent
    }

    /// Notes `status` on every ancestor of `slot` that misses it, and appends a status message
    /// for each of them.
    fn backfill_missed_status(
        &mut self,
        slot: u64,
        status: SlotStatus,
        messages_vec: &mut Vec<Numbered>,
    )
        requires
            old(self)@.wf(),
            old(self)@.last_id + crate::ancestors::missed_ancestors(
                old(self)@.slots,
                slot,
                status,
            ).len() <= u64::MAX,
        ensures
            final(self)@.wf(),
            ({
                let before = old(self)@;
                let missed = crate::ancestors::missed_ancestors(before.slots, slot, status);
                let start = old(messages_vec)@.len();
                &&& final(self)@ == (StateView {
                    slots: marked_all(before.slots, missed, status),
                    last_id: (before.last_id + missed.len()) as u64,
                    ..before
                })
                &&& final(messages_vec)@.len() == start + missed.len()
                &&& old(messages_vec)@ == final(messages_vec)@.take(start as int)
                &&& forall|k: int|
                    0 <= k < missed.len() ==> is_backfill(
                        final(messages_vec)@[start + k],
                        before.last_id + 1 + k,
                        #[trigger] missed[k],
                        before.slots[missed[k]].parent_slot,
                        status,
                    )
            }),
    {
        let ghost before = self@;
        let ghost missed = crate::ancestors::missed_ancestors(self@.slots, slot, status);
        let ghost start = messages_vec@.len();
        let ghost mut done: Seq<u64> = Seq::empty();
        let mut current: u64 = slot;
        proof {
            assert(marked_all(before.slots, done, status) =~= before.slots);
            assert(done + missed =~= missed);
        }
        loop
            invariant
                before == old(self)@,
                before.wf(),
                start == old(messages_vec)@.len(),
                missed == crate::ancestors::missed_ancestors(before.slots, slot, status),
                before.last_id + missed.len() <= u64::MAX,
                self@.wf(),
                self@ == (StateView {
                    slots: marked_all(before.slots, done, status),
                    last_id: (before.last_id + done.len()) as u64,
                    ..before
                }),
                missed == done + crate::ancestors::missed_ancestors(self@.slots, current, status),
                messages_vec@.len() == start + done.len(),
                old(messages_vec)@ == messages_vec@.take(start as int),
                forall|k: int|
                    0 <= k < done.len() ==> is_backfill(
                        messages_vec@[start + k],
                        before.last_id + 1 + k,
                        #[trigger] missed[k],
                        before.slots[missed[k]].parent_slot,
                        status,
                    ),
            ensures
                done == missed,
            decreases crate::ancestors::without(self@.slots, status).len(),
        {
            let parent: u64 = match self.missing_parent(current, status) {
                Some(parent) => parent,
                None => {
                    break;
                },
            };
            let ghost slots = self@.slots;
            let ghost rest = crate::ancestors::missed_ancestors(slots, current, status);
            proof {
                crate::ancestors::lemma_marking_shrinks(slots, parent, status);
                assert(rest[0] == parent);
                assert(missed[done.len() as int] == parent);
            }
            let id: u64 = self.msgid_gen.next();
            let grandparent: Option<u64> = self.mark_slot(parent, status);
            messages_vec.push((id, backfilled_status(parent, grandparent, status, timestamp_now())));
            proof {
                let now_done = done.push(parent);
                assert forall|s: u64| #[trigger] now_done.contains(s) <==> done.contains(s) || s
                    == parent by {
                    if done.contains(s) {
                        let k = choose|k: int| 0 <= k < done.len() && done[k] == s;
                        assert(now_done[k] == s);
                    }
                    assert(now_done[done.len() as int] == parent);
                }
                assert(self@.slots =~= marked_all(before.slots, now_done, status));
                assert(missed =~= now_done + crate::ancestors::missed_ancestors(
                    self@.slots,
                    parent,
                    status,
                ));
                done = now_done;
            }
            current = parent;
        }
    }

    /// Notes for every status message of a batch how many messages its slot holds. The batch
    /// alone decides this, not how much of it is taken up later.
    fn record_slot_status_transitions(&mut self, messages_vec: &Vec<Numbered>)
        requires
            old(self)@.wf(),
        ensures
            final(self)@.wf(),
            final(self)@ == (StateView {
                slots: recorded_by(old(self)@.slots, messages_vec@),
                ..old(self)@
            }),
    {
        let count: usize = messages_vec.len();
        for i in 0..count
            invariant
                count == messages_vec@.len(),
                self@.wf(),
                self@ == (StateView {
                    slots: recorded_by(old(self)@.slots, messages_vec@.take(i as int)),
                    ..old(self)@
                }),
        {
            proof {
                let upto = messages_vec@.take(i + 1);
                assert(upto.drop_last() =~= messages_vec@.take(i as int));
                assert(upto.last() == messages_vec@[i as int]);
            }
            if let Message::Slot(msg) = &messages_vec[i].1 {
                self.record_slot(msg.slot, msg.status);
            }
        }
        assert(messages_vec@.take(count as int) =~= messages_vec@);
    }

    /// Notes how many messages a slot holds, if it is stored.
    fn record_slot(&mut self, slot: u64, status: SlotStatus)
        requires
            old(self)@.wf(),
        ensures
            final(self)@.wf(),
            final(self)@ == (StateView {
                slots: with_recorded(old(self)@.slots, slot, status),
                ..old(self)@
            }),
    {
        if let Some(mut entry) = take(&mut self.messages, slot) {
            proof {
                assert(entry@ == old(self)@.slots[slot]);
                assert(old(self)@.slots[slot].wf());
            }
            entry.record(status);
            put(&mut self.messages, slot, entry);
        }
        proof {
            let before = old(self)@;
            assert(self@.slots =~= with_recorded(before.slots, slot, status));
            assert forall|other: u64| self@.slots.contains_key(other) implies #[trigger]
                self@.slots[other].wf() && !self@.slots[other].ready() by {
                assert(before.slots[other].wf());
            }
        }
    }

    /// Copies of the messages that a slot holds, if it is stored.
    fn held_messages(&self, slot: u64) -> (messages: Vec<Numbered>)
        ensures
            messages@ == held(self@.slots, slot),
    {
        let mut messages: Vec<Numbered> = Vec::new();
        if let Some(entry) = lookup(&self.messages, slot) {
            entry.append_survivors(0, &mut messages);
            assert(entry@.messages.skip(0) =~= entry@.messages);
        }
        messages
    }

    /// The message with the batches that belong to it.
    fn dispatch_item_for(&self, message: Numbered, raw_id: u64) -> (item: DispatchItem)
        requires
            self@.wf(),
        ensures
            item.message == message,
            item.carries(self@.slots, raw_id),
    {
        let is_raw_message: bool = message.0 == raw_id;
        let (confirmed_messages, finalized_messages) = match &message.1 {
            Message::Slot(msg) => {
                let mut confirmed: Vec<Numbered> = Vec::new();
                let mut finalized: Vec<Numbered> = Vec::new();
                match msg.status {
                    SlotStatus::Confirmed => {
                        confirmed = self.held_messages(msg.slot);
                    },
                    SlotStatus::Finalized => {
                        finalized = self.held_messages(msg.slot);
                    },
                    _ => {},
                }
                confirmed.push(copy_numbered(&message));
                finalized.push(copy_numbered(&message));
                assert(Seq::empty().push(message) =~= seq![message]);
                (Some(confirmed), Some(finalized))
            },
            Message::Block(block) => {
                match lookup(&self.messages, block.meta.slot) {
                    Some(entry) => {
                        assert(self@.slots[block.meta.slot].wf());
                        (since(entry, entry.confirmed_at()), since(entry, entry.finalized_at()))
                    },
                    None => (None, None),
                }
            },
            _ => (None, None),
        };
        DispatchItem { message, confirmed_messages, finalized_messages, is_raw_message }
    }

    /// Turns a batch into items, last message first, after noting its statuses.
    fn build_dispatch_items(&mut self, messages_vec: Vec<Numbered>, raw_id: u64) -> (items: Vec<
        DispatchItem,
    >)
        requires
            old(self)@.wf(),
        ensures
            final(self)@.wf(),
            final(self)@ == (StateView {
                slots: recorded_by(old(self)@.slots, messages_vec@),
                ..old(self)@
            }),
            items@.len() == messages_vec@.len(),
            forall|i: int|
                0 <= i < items@.len() ==> {
                    &&& (#[trigger] items@[i]).message == messages_vec@[items@.len() - 1 - i]
                    &&& items@[i].carries(final(self)@.slots, raw_id)
                },
    {
        self.record_slot_status_transitions(&messages_vec);
        let ghost all = messages_vec@;
        let mut left = messages_vec;
        let mut items: Vec<DispatchItem> = Vec::new();
        while left.len() > 0
            invariant
                self@.wf(),
                items@.len() + left@.len() == all.len(),
                left@ == all.take(left@.len() as int),
                forall|i: int|
                    0 <= i < items@.len() ==> {
                        &&& (#[trigger] items@[i]).message == all[all.len() - 1 - i]
                        &&& items@[i].carries(self@.slots, raw_id)
                    },
            decreases left@.len(),
        {
            if let Some(message) = left.pop() {
                items.push(self.dispatch_item_for(message, raw_id));
            }
        }
        items
    }

    /// How many messages a message brings about, and so how many numbers it needs beside its own.
    pub fn numbers_for(&self, msgid: u64, message: &Message) -> (count: usize)
        requires
            self@.wf(),
        ensures
            count == self@.minted(msgid, *message),
    {
        proof {
            self@.lemma_swept_keeps_wf(*message);
        }
        if let Message::Slot(msg) = message {
            proof {
                self@.lemma_status_tells_stored_slots(msgid, *message);
            }
            return self.count_missed(Ghost(msgid), message, msg);
        }
        let complete: bool = match lookup(&self.messages, message.get_slot()) {
            Some(entry) => entry.completes_with(message),
            None => SlotMessages::new().completes_with(message),
        };
        assert(complete == self@.entry(message.slot()).received(msgid, *message).ready());
        if complete {
            1
        } else {
            0
        }
    }

    /// The slot below which a message drops what is stored, or zero.
    fn cutoff_of(&self, msg: &MessageSlot) -> (cutoff: u64)
        requires
            self@.wf(),
        ensures
            forall|slot: u64|
                self@.swept(Message::Slot(*msg)).slots.contains_key(slot) <==> (
                #[trigger] self@.slots.contains_key(slot) && cutoff <= slot),
            cutoff < msg.slot || cutoff == 0,
    {
        let retained: u64 = FINALIZATION_SAFETY_BUFFER + self.replay_stored_slots;
        if msg.status == SlotStatus::Finalized && msg.slot >= retained {
            msg.slot - retained
        } else {
            0
        }
    }

    /// How many ancestors learn of the status that a message reports.
    fn count_missed(&self, Ghost(msgid): Ghost<u64>, message: &Message, msg: &MessageSlot) -> (
        count: usize)
        requires
            self@.wf(),
            *message == Message::Slot(*msg),
        ensures
            count == self@.missed(msgid, *message).len(),
    {
        let cutoff: u64 = self.cutoff_of(msg);
        let status: SlotStatus = msg.status;
        let ghost filed = self@.swept(*message).filed(msgid, *message).slots;
        let ghost missed = self@.missed(msgid, *message);
        let mut told: Vec<u64> = Vec::new();
        let mut current: u64 = msg.slot;
        proof {
            self@.lemma_swept_keeps_wf(*message);
            assert(filed.dom() =~= self@.swept(*message).slots.dom().insert(msg.slot));
            assert(marked_all(filed, told@, status) =~= filed);
            assert(told@ + missed =~= missed);
        }
        loop
            invariant
                self@.wf(),
                *message == Message::Slot(*msg),
                status == msg.status,
                filed == self@.swept(*message).filed(msgid, *message).slots,
                filed.dom().finite(),
                filed.contains_key(current),
                missed == self@.missed(msgid, *message),
                missed == told@ + crate::ancestors::missed_ancestors(
                    marked_all(filed, told@, status),
                    current,
                    status,
                ),
                forall|slot: u64|
                    self@.swept(*message).slots.contains_key(slot) <==> (
                    #[trigger] self@.slots.contains_key(slot) && cutoff <= slot),
                cutoff < msg.slot || cutoff == 0,
            ensures
                told@ == missed,
            decreases crate::ancestors::without(marked_all(filed, told@, status), status).len(),
        {
            let ghost slots = marked_all(filed, told@, status);
            assert(slots.dom() =~= filed.dom());
            let parent: u64 = match self.next_missed(
                Ghost(msgid),
                message,
                msg,
                cutoff,
                current,
                &told,
            ) {
                Some(parent) => parent,
                None => {
                    break;
                },
            };
            let ghost before = told@;
            told.push(parent);
            proof {
                crate::ancestors::lemma_marking_shrinks(slots, parent, status);
                assert forall|s: u64| #[trigger] told@.contains(s) <==> before.contains(s) || s
                    == parent by {
                    if before.contains(s) {
                        let k = choose|k: int| 0 <= k < before.len() && before[k] == s;
                        assert(told@[k] == s);
                    }
                    assert(told@[before.len() as int] == parent);
                }
                assert(marked_all(filed, told@, status) =~= crate::ancestors::with_marked(
                    slots,
                    parent,
                    status,
                ));
                assert(missed =~= told@ + crate::ancestors::missed_ancestors(
                    marked_all(filed, told@, status),
                    parent,
                    status,
                ));
            }
            current = parent;
        }
        told.len()
    }

    /// The parent of `current`, if it is stored once the message was filed and misses the status
    /// that the message reports, and was not told of it yet.
    fn next_missed(
        &self,
        Ghost(msgid): Ghost<u64>,
        message: &Message,
        msg: &MessageSlot,
        cutoff: u64,
        current: u64,
        told: &Vec<u64>,
    ) -> (parent: Option<u64>)
        requires
            self@.wf(),
            *message == Message::Slot(*msg),
            self@.swept(*message).filed(msgid, *message).slots.contains_key(current),
            forall|slot: u64|
                self@.swept(*message).slots.contains_key(slot) <==> (
                #[trigger] self@.slots.contains_key(slot) && cutoff <= slot),
            cutoff < msg.slot || cutoff == 0,
        ensures
            parent == crate::ancestors::missing_parent(
                marked_all(
                    self@.swept(*message).filed(msgid, *message).slots,
                    told@,
                    msg.status,
                ),
                current,
                msg.status,
            ),
    {
        let ghost swept = self@.swept(*message).slots;
        let ghost filed = self@.swept(*message).filed(msgid, *message).slots;
        let ghost slots = marked_all(filed, told@, msg.status);
        assert(self@.slots.contains_key(current) == self.messages@.contains_key(current));
        let stored: Option<u64> = match lookup(&self.messages, current) {
            Some(entry) => entry.parent_slot(),
            None => None,
        };
        let found: Option<u64> = if current == msg.slot && msg.status == SlotStatus::Processed {
            msg.parent
        } else {
            stored
        };
        assert(slots[current].parent_slot == found);
        let parent: u64 = match found {
            Some(parent) => parent,
            None => {
                return None;
            },
        };
        assert(self@.slots.contains_key(parent) == self.messages@.contains_key(parent));
        if parent == msg.slot || parent < cutoff || has_slot(told, parent) {
            return None;
        }
        match lookup(&self.messages, parent) {
            Some(entry) => {
                let has: bool = match msg.status {
                    SlotStatus::Confirmed => entry.is_confirmed(),
                    SlotStatus::Finalized => entry.is_finalized(),
                    _ => true,
                };
                if has {
                    None
                } else {
                    Some(parent)
                }
            },
            None => None,
        }
    }

    /// Takes in a message that was numbered before, and returns what is ready to go out, in the
    /// order in which it is to be sent.
    pub fn on_message_with_id(&mut self, msgid: u64, message: Message) -> (items: Vec<DispatchItem>)
        requires
            old(self)@.wf(),
            old(self)@.last_id + old(self)@.minted(msgid, message) <= u64::MAX,
        ensures
            final(self)@.wf(),
            old(self)@.dispatched(msgid, message, items@, final(self)@),
    {
        let ghost before = self@;
        let ghost incoming = message;
        let ghost missed = self@.missed(msgid, message);
        self.gc_finalized_slots(&message);
        let sealed: Option<Numbered> = self.file_message(msgid, &message);
        let slot_status: Option<(u64, SlotStatus)> = match &message {
            Message::Slot(msg) => Some((msg.slot, msg.status)),
            _ => None,
        };
        proof {
            before.lemma_swept_keeps_wf(message);
            if before.seals(msgid, message) {
                before.swept(message).lemma_completes(msgid, message);
            }
        }
        let ghost block = sealed;
        let mut messages_vec: Vec<Numbered> = Vec::new();
        if let Some(block) = sealed {
            messages_vec.push(block);
        }
        messages_vec.push((msgid, message));
        if let Some((slot, status)) = slot_status {
            self.backfill_missed_status(slot, status, &mut messages_vec);
        }
        let ghost batch = messages_vec@;
        let items: Vec<DispatchItem> = self.build_dispatch_items(messages_vec, msgid);
        proof {
            if incoming is Slot {
                before.lemma_status_dispatched(msgid, incoming, batch, items@, self@);
            } else {
                assert(batch =~= match block {
                    Some(block) => seq![block, (msgid, incoming)],
                    None => seq![(msgid, incoming)],
                });
                before.lemma_part_dispatched(msgid, incoming, block, batch, items@, self@);
            }
        }
        items
    }

    /// Numbers a message, takes it in, and returns what is ready to go out, in the order in
    /// which it is to be sent.
    pub fn on_message(&mut self, message: Message) -> (items: Vec<DispatchItem>)
        requires
            old(self)@.wf(),
            old(self)@.last_id + 1 + old(self)@.numbered().minted(
                (old(self)@.last_id + 1) as u64,
                message,
            ) <= u64::MAX,
        ensures
            final(self)@.wf(),
            old(self)@.numbered().dispatched(
                (old(self)@.last_id + 1) as u64,
                message,
                items@,
                final(self)@,
            ),
    {
        let msgid: u64 = self.msgid_gen.next();
        self.on_message_with_id(msgid, message)
    }

    /// Answers a request to replay everything from a slot on: the status messages of each slot,
    /// and what else it holds where the slot has reached the commitment.
    pub fn service_replay(&self, commitment: CommitmentLevel, replay_slot: u64) -> (response:
        ReplayedResponse)
        ensures
            response.answers(self@.slots, commitment, replay_slot),
    {
        let keys: Vec<u64> = sorted_keys(&self.messages);
        let ghost slots = self@.slots;
        assert(slots.dom() =~= self.messages@.dom());
        if keys.len() > 0 && replay_slot < keys[0] {
            return ReplayedResponse::Lagged(keys[0]);
        }
        let mut messages: Vec<Numbered> = Vec::new();
        let count: usize = keys.len();
        for i in 0..count
            invariant
                count == keys@.len(),
                slots == self@.slots,
                crate::ordered::enumerates(keys@, self.messages@.dom()),
                messages@ == replayed(slots, keys@.take(i as int), commitment, replay_slot),
        {
            let slot: u64 = keys[i];
            proof {
                let upto = keys@.take(i + 1);
                assert(upto.drop_last() =~= keys@.take(i as int));
                assert(keys@.contains(slot));
            }
            if slot >= replay_slot {
                if let Some(entry) = lookup(&self.messages, slot) {
                    assert(slots[slot] == entry@);
                    entry.append_statuses(&mut messages);
                    let reached: bool = match commitment {
                        CommitmentLevel::Processed => true,
                        CommitmentLevel::Confirmed => entry.is_confirmed(),
                        CommitmentLevel::Finalized => entry.is_finalized(),
                    };
                    if reached {
                        entry.append_survivors(0, &mut messages);
                        assert(entry@.messages.skip(0) =~= entry@.messages);
                    }
                }
            }
            assert(messages@ =~= replayed(slots, keys@.take(i + 1), commitment, replay_slot));
        }
        assert(keys@.take(count as int) =~= keys@);
        ReplayedResponse::Messages(messages)
    }

    /// The state with another source of numbers.
    pub fn with_msgid_gen(self, msgid_gen: MessageId) -> (state: Self)
        ensures
            state@ == (StateView { last_id: msgid_gen.last(), ..self@ }),
    {
        let mut state = self;
        state.msgid_gen = msgid_gen;
        state
    }

    /// Exchanges the state's source of numbers with another, so that several users can take
    /// turns with one source.
    pub fn swap_msgid_gen(&mut self, msgid_gen: &mut MessageId)
        ensures
            final(self)@ == (StateView { last_id: old(msgid_gen).last(), ..old(self)@ }),
            final(msgid_gen).last() == old(self)@.last_id,
    {
        std::mem::swap(&mut self.msgid_gen, msgid_gen);
    }

    /// Whether there are enough numbers left for another message and for everything that it may
    /// bring about.
    pub fn has_room(&self) -> (room: bool)
        requires
            self@.wf(),
        ensures
            room == self@.has_room(),
            room ==> forall|id: u64, message: Message|
                self@.last_id + #[trigger] self@.minted(id, message) <= u64::MAX,
            room ==> forall|id: u64, message: Message|
                self@.last_id + 1 + #[trigger] self@.numbered().minted(id, message) <= u64::MAX,
    {
        proof {
            assert(self@.slots.dom() =~= self.messages@.dom());
            if self@.has_room() {
                assert forall|id: u64, message: Message|
                    self@.last_id + #[trigger] self@.minted(id, message) <= u64::MAX by {
                    self@.lemma_room(id, message);
                }
                assert forall|id: u64, message: Message|
                    self@.last_id + 1 + #[trigger] self@.numbered().minted(id, message)
                        <= u64::MAX by {
                    self@.lemma_room(id, message);
                }
            }
        }
        let stored: u128 = self.messages.len() as u128;
        self.msgid_gen.last_id() as u128 + stored + 3 <= u64::MAX as u128
    }

    /// The number minted last.
    pub fn last_id(&self) -> (id: u64)
        ensures
            id == self@.last_id,
    {
        self.msgid_gen.last_id()
    }

    /// How many slots are stored.
    pub fn stored_slots(&self) -> (count: usize)
        ensures
            count == self@.slots.dom().len(),
    {
        assert(self@.slots.dom() =~= self.messages@.dom());
        self.messages.len()
    }

    /// Takes the findings about blocks that were not put together as they should.
    pub fn take_invalid_blocks(&mut self) -> (findings: Vec<InvalidBlock>)
        ensures
            findings@ == old(self)@.invalid_blocks,
            final(self)@ == (StateView { invalid_blocks: Seq::empty(), ..old(self)@ }),
    {
        let mut findings: Vec<InvalidBlock> = Vec::new();
        std::mem::swap(&mut findings, &mut self.invalid_blocks);
        findings
    }

    /// The earliest slot that can be replayed, as it was last published.
    pub fn replay_first_available_slot(&self) -> (slot: Option<u64>)
        ensures
            slot == self@.replay_first_available_slot,
    {
        self.replay_first_available_slot
    }

    /// The earliest stored slot.
    pub fn earliest_slot(&self) -> (slot: Option<u64>)
        ensures
            slot == crate::sweep::earliest_slot(self@.slots),
    {
        let keys: Vec<u64> = sorted_keys(&self.messages);
        assert(self@.slots.dom() =~= self.messages@.dom());
        if keys.len() > 0 {
            Some(keys[0])
        } else {
            None
        }
    }

    /// How many messages a slot had when it was confirmed, if its block was open then.
    pub fn confirmed_at(&self, slot: u64) -> (at: Option<usize>)
        ensures
            at == self@.entry(slot).confirmed_at,
    {
        match lookup(&self.messages, slot) {
            Some(entry) => entry.confirmed_at(),
            None => None,
        }
    }

    /// How many messages a slot had when it was finalized, if its block was open then.
    pub fn finalized_at(&self, slot: u64) -> (at: Option<usize>)
        ensures
            at == self@.entry(slot).finalized_at,
    {
        match lookup(&self.messages, slot) {
            Some(entry) => entry.finalized_at(),
            None => None,
        }
    }
}

/// Copies of the messages that a slot holds from a place on, if there are any.
fn since(entry: &SlotMessages, at: Option<usize>) -> (messages: Option<Vec<Numbered>>)
    requires
        at matches Some(at) ==> at <= entry@.messages.len(),
    ensures
        batch_view(messages) == held_since(entry@, at),
{
    match at {
        Some(at) => {
            let mut messages: Vec<Numbered> = Vec::new();
            entry.append_survivors(at, &mut messages);
            if messages.len() == 0 {
                None
            } else {
                Some(messages)
            }
        },
        None => None,
    }
}

/// Whether a slot is listed.
fn has_slot(slots: &Vec<u64>, slot: u64) -> (listed: bool)
    ensures
        listed == slots@.contains(slot),
{
    let count: usize = slots.len();
    for i in 0..count
        invariant
            count == slots@.len(),
            forall|j: int| 0 <= j < i ==> slots@[j] != slot,
    {
        if slots[i] == slot {
            return true;
        }
    }
    false
}

/// A status message that no validator sent.
pub fn backfilled_status(
    slot: u64,
    parent: Option<u64>,
    status: SlotStatus,
    created_at: Timestamp,
) -> (message: Message)
    ensures
        message == Message::Slot(MessageSlot { slot, parent, status, dead_error: None, created_at }),
{
    Message::Slot(MessageSlot { slot, parent, status, dead_error: None, created_at })
}

} // verus!
