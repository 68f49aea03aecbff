//! The two pipelines from the validator's updates to the broadcasts: one loop that does it all,
//! or a thread that passes updates on at once beside a thread that puts blocks together.
use crate::broadcast::{dispatch_items, flush_processed_batch, Broadcast};
use crate::encoder::encode_message;
use crate::message::{CommitmentLevel, Message, Numbered};
use crate::message_id::MessageId;
use crate::reconstruction::{
    BlockReconstructionState, DispatchItem, ReplayedResponse, StateView,
    FINALIZATION_SAFETY_BUFFER,
};
use vstd::prelude::*;

verus! {

/// How long a batch waits at most in the single loop, in milliseconds.
pub const PROCESSED_MESSAGES_SLEEP_MILLIS: u64 = 10;

/// The answers to unary requests rest on statuses and metas.
pub open spec fn feeds_block_meta(message: Message) -> bool {
    message is Slot || message is BlockMeta
}

/// Whether a message is passed on to the storage of block metas.
pub fn is_for_block_meta(message: &Message) -> (wanted: bool)
    ensures
        wanted == feeds_block_meta(*message),
{
    match message {
        Message::Slot(_) => true,
        Message::BlockMeta(_) => true,
        _ => false,
    }
}

/// Whether a broadcast of the single loop starts the waiting time of the next batch anew: those
/// to the subscribers who wait for nothing do.
pub fn restarts_wait(broadcast: &Broadcast) -> (restarts: bool)
    ensures
        restarts == (broadcast.commitment is Processed),
{
    broadcast.commitment == CommitmentLevel::Processed
}

/// The size at which a batch ends: what is configured, but at least one.
pub open spec fn batch_size(configured: usize) -> usize {
    if configured == 0 {
        1
    } else {
        configured
    }
}

/// The size at which a batch ends.
fn at_least_one(configured: usize) -> (size: usize)
    ensures
        size == batch_size(configured),
{
    if configured == 0 {
        1
    } else {
        configured
    }
}

/// The state of a pipeline.
#[verifier::ext_equal]
pub struct PipelineView {
    pub state: StateView,
    pub pending: Seq<Numbered>,
    pub max: usize,
}

impl PipelineView {
    /// What holds between events: a batch that waits is not full, and holds no status.
    pub open spec fn wf(self) -> bool {
        &&& self.state.wf()
        &&& crate::broadcast::may_wait(self.pending, self.max)
    }
}

/// The single loop: it puts blocks together and sends everything itself.
#[derive(Debug)]
pub struct GeyserLoop {
    state: BlockReconstructionState,
    processed_messages: Vec<Numbered>,
    processed_messages_max: usize,
}

impl View for GeyserLoop {
    type V = PipelineView;

    closed spec fn view(&self) -> PipelineView {
        PipelineView {
            state: self.state@,
            pending: self.processed_messages@,
            max: self.processed_messages_max,
        }
    }
}

impl GeyserLoop {
    /// A loop that has seen nothing yet.
    pub fn new(
        replay_first_available_slot: Option<u64>,
        replay_stored_slots: u64,
        processed_messages_max: usize,
    ) -> (geyser_loop: Self)
        requires
            replay_stored_slots <= u64::MAX - FINALIZATION_SAFETY_BUFFER,
        ensures
            geyser_loop@.wf(),
            geyser_loop@.pending == Seq::<Numbered>::empty(),
            geyser_loop@.max == batch_size(processed_messages_max),
            geyser_loop@.state.slots == Map::<u64, crate::slot_messages::SlotView>::empty(),
            geyser_loop@.state.last_id == 0,
            geyser_loop@.state.processed_first_slot is None,
            geyser_loop@.state.replay_first_available_slot == replay_first_available_slot,
            geyser_loop@.state.replay_stored_slots == replay_stored_slots,
            geyser_loop@.state.invalid_blocks.len() == 0,
    {
        GeyserLoop {
            state: BlockReconstructionState::new(replay_first_available_slot, replay_stored_slots),
            processed_messages: Vec::new(),
            processed_messages_max: at_least_one(processed_messages_max),
        }
    }

    /// Takes in an update, and says what is broadcast. A broadcast to the processed commitment
    /// starts the waiting time anew. The update is encoded first, so that what is stored and
    /// replayed, and the parts of a block, share one encoded form with what goes out.
    pub fn on_message(&mut self, message: Message) -> (broadcasts: Vec<Broadcast>)
        requires
            old(self)@.wf(),
            old(self)@.state.last_id + 1 + old(self)@.state.numbered().minted(
                (old(self)@.state.last_id + 1) as u64,
                message,
            ) <= u64::MAX,
        ensures
            final(self)@.wf(),
            old(self)@.looped(message, broadcasts@, final(self)@),
    {
        let ghost before = self@;
        let ghost incoming = message;
        let mut message = message;
        encode_message(&mut message);
        let ghost intake = message;
        proof {
            before.state.numbered().lemma_minted_of_encoded(
                (before.state.last_id + 1) as u64,
                incoming,
                intake,
            );
        }
        let items: Vec<DispatchItem> = self.state.on_message(message);
        let ghost all = items@;
        let broadcasts: Vec<Broadcast> = dispatch_items(
            &mut self.processed_messages,
            self.processed_messages_max,
            items,
            true,
        );
        proof {
            crate::broadcast_laws::lemma_batch_may_wait(before.pending, before.max, all, true);
            assert(before.items_looped(intake, all, broadcasts@, self@));
        }
        broadcasts
    }

    /// Whether there are enough numbers left for another update and for everything that it may
    /// bring about.
    pub fn has_room(&self) -> (room: bool)
        requires
            self@.wf(),
        ensures
            room == self@.state.has_room(),
            room ==> forall|id: u64, message: Message|
                self@.state.last_id + 1 + #[trigger] self@.state.numbered().minted(id, message)
                    <= u64::MAX,
    {
        self.state.has_room()
    }

    /// Ends the batch whose waiting time is over.
    pub fn on_tick(&mut self) -> (broadcast: Option<Broadcast>)
        requires
            old(self)@.wf(),
        ensures
            final(self)@.wf(),
            old(self)@.idled(broadcast, final(self)@),
    {
        flush_processed_batch(&mut self.processed_messages)
    }

    /// Answers a request to replay everything from a slot on.
    pub fn service_replay(&self, commitment: CommitmentLevel, replay_slot: u64) -> (response:
        ReplayedResponse)
        ensures
            response.answers(self@.state.slots, commitment, replay_slot),
    {
        self.state.service_replay(commitment, replay_slot)
    }

    /// The reconstruction that the loop drives.
    pub fn reconstruction(&mut self) -> (state: &mut BlockReconstructionState)
        ensures
            state@ == old(self)@.state,
            final(self)@ == (PipelineView { state: final(state)@, ..old(self)@ }),
    {
        &mut self.state
    }
}

impl PipelineView {
    /// What the single loop makes of an update: it is encoded, and then taken in.
    pub open spec fn looped(
        self,
        message: Message,
        broadcasts: Seq<Broadcast>,
        after: PipelineView,
    ) -> bool {
        exists|intake: Message, items: Seq<DispatchItem>|
            message.encoded_as(intake) && #[trigger] self.items_looped(
                intake,
                items,
                broadcasts,
                after,
            )
    }

    /// What the single loop makes of an encoded update that leads to `items`.
    pub open spec fn items_looped(
        self,
        message: Message,
        items: Seq<DispatchItem>,
        broadcasts: Seq<Broadcast>,
        after: PipelineView,
    ) -> bool {
        let outgoing = crate::broadcast::after_items(self.pending, self.max, items, true);
        &&& self.state.numbered().dispatched(
            (self.state.last_id + 1) as u64,
            message,
            items,
            after.state,
        )
        &&& crate::broadcast::sends_all(broadcasts, outgoing.sent)
        &&& after.pending == outgoing.pending
        &&& after.max == self.max
    }

    /// What the thread that puts blocks together makes of an update.
    pub open spec fn reconstructed(
        self,
        id: u64,
        message: Message,
        broadcasts: Seq<Broadcast>,
        after: PipelineView,
    ) -> bool {
        exists|items: Seq<DispatchItem>|
            self.items_reconstructed(id, message, items, broadcasts, after)
    }

    /// What the thread that puts blocks together makes of an update that leads to `items`.
    pub open spec fn items_reconstructed(
        self,
        id: u64,
        message: Message,
        items: Seq<DispatchItem>,
        broadcasts: Seq<Broadcast>,
        after: PipelineView,
    ) -> bool {
        let outgoing = crate::broadcast::after_items(self.pending, self.max, items, false);
        &&& self.state.dispatched(id, message, items, after.state)
        &&& crate::broadcast::sends_all(broadcasts, outgoing.sent)
        &&& after.pending == outgoing.pending
        &&& after.max == self.max
    }

    /// What happens where nothing comes in: the batch that waits goes out.
    pub open spec fn idled(self, broadcast: Option<Broadcast>, after: PipelineView) -> bool {
        &&& after == (PipelineView { pending: Seq::empty(), ..self })
        &&& broadcast is Some <==> self.pending.len() > 0
        &&& broadcast matches Some(broadcast) ==> broadcast.sends(
            (crate::broadcast::Sent {
                commitment: CommitmentLevel::Processed,
                messages: self.pending,
            }),
        )
    }
}

/// The thread that passes every update on at once, and to the thread that puts blocks together.
#[derive(Debug)]
pub struct GeyserDispatch {
    processed_messages: Vec<Numbered>,
    processed_messages_max: usize,
}

/// What the thread that passes updates on does next.
#[derive(Debug)]
pub enum DispatchStep {
    Continue,
    Send(Broadcast),
    /// Nobody puts blocks together any more.
    Stop,
}

impl DispatchStep {
    /// What is sent.
    pub open spec fn broadcasts(self) -> Seq<Broadcast> {
        match self {
            DispatchStep::Send(broadcast) => seq![broadcast],
            _ => Seq::empty(),
        }
    }
}

impl GeyserDispatch {
    /// The batch that waits.
    pub closed spec fn pending(&self) -> Seq<Numbered> {
        self.processed_messages@
    }

    /// The size at which a batch ends.
    pub closed spec fn max(&self) -> usize {
        self.processed_messages_max
    }

    /// What holds between events: a batch that waits is not full, and holds no status.
    pub open spec fn wf(&self) -> bool {
        crate::broadcast::may_wait(self.pending(), self.max())
    }

    /// A thread that has seen nothing yet.
    pub fn new(processed_messages_max: usize) -> (dispatch: Self)
        ensures
            dispatch.wf(),
            dispatch.pending() == Seq::<Numbered>::empty(),
            dispatch.max() == batch_size(processed_messages_max),
    {
        GeyserDispatch {
            processed_messages: Vec::new(),
            processed_messages_max: at_least_one(processed_messages_max),
        }
    }

    /// Numbers and encodes an update, for the thread that puts blocks together and for the
    /// broadcast, so that both share one encoded form.
    pub fn number(msgid_gen: &mut MessageId, message: Message) -> (numbered: Numbered)
        requires
            old(msgid_gen).last() < u64::MAX,
        ensures
            numbered.0 == old(msgid_gen).last() + 1,
            message.encoded_as(numbered.1),
            final(msgid_gen).last() == numbered.0,
    {
        let mut message = message;
        encode_message(&mut message);
        (msgid_gen.next(), message)
    }

    /// Takes in an update after it was handed to the thread that puts blocks together, or could
    /// not be handed to it.
    pub fn on_message(&mut self, numbered: Numbered, handed_over: bool) -> (step: DispatchStep)
        requires
            old(self).wf(),
        ensures
            final(self).wf(),
            final(self).max() == old(self).max(),
            step is Stop <==> !handed_over,
            !handed_over ==> final(self).pending() == old(self).pending(),
            handed_over ==> {
                let outgoing = crate::broadcast::after_raw(
                    old(self).pending(),
                    old(self).max(),
                    numbered,
                );
                &&& final(self).pending() == outgoing.pending
                &&& crate::broadcast::sends_all(step.broadcasts(), outgoing.sent)
            },
    {
        if !handed_over {
            return DispatchStep::Stop;
        }
        let is_slot: bool = match &numbered.1 {
            Message::Slot(_) => true,
            _ => false,
        };
        self.processed_messages.push(numbered);
        if is_slot || self.processed_messages.len() >= self.processed_messages_max {
            if let Some(broadcast) = flush_processed_batch(&mut self.processed_messages) {
                return DispatchStep::Send(broadcast);
            }
        }
        DispatchStep::Continue
    }

    /// Ends the batch where nothing comes in.
    pub fn on_empty(&mut self) -> (broadcast: Option<Broadcast>)
        requires
            old(self).wf(),
        ensures
            final(self).wf(),
            final(self).max() == old(self).max(),
            final(self).pending() == Seq::<Numbered>::empty(),
            broadcast is Some <==> old(self).pending().len() > 0,
            broadcast matches Some(broadcast) ==> broadcast.sends(
                (crate::broadcast::Sent {
                    commitment: CommitmentLevel::Processed,
                    messages: old(self).pending(),
                }),
            ),
    {
        flush_processed_batch(&mut self.processed_messages)
    }
}

/// The thread that puts blocks together: it sends what the other thread cannot know of.
#[derive(Debug)]
pub struct ReconstructionDispatch {
    state: BlockReconstructionState,
    processed_messages: Vec<Numbered>,
    processed_messages_max: usize,
}

impl View for ReconstructionDispatch {
    type V = PipelineView;

    closed spec fn view(&self) -> PipelineView {
        PipelineView {
            state: self.state@,
            pending: self.processed_messages@,
            max: self.processed_messages_max,
        }
    }
}

impl ReconstructionDispatch {
    /// A thread that has seen nothing yet.
    pub fn new(
        replay_first_available_slot: Option<u64>,
        replay_stored_slots: u64,
        processed_messages_max: usize,
    ) -> (dispatch: Self)
        requires
            replay_stored_slots <= u64::MAX - FINALIZATION_SAFETY_BUFFER,
        ensures
            dispatch@.wf(),
            dispatch@.pending == Seq::<Numbered>::empty(),
            dispatch@.max == batch_size(processed_messages_max),
            dispatch@.state.slots == Map::<u64, crate::slot_messages::SlotView>::empty(),
            dispatch@.state.last_id == 0,
            dispatch@.state.processed_first_slot is None,
            dispatch@.state.replay_first_available_slot == replay_first_available_slot,
            dispatch@.state.replay_stored_slots == replay_stored_slots,
            dispatch@.state.invalid_blocks.len() == 0,
    {
        ReconstructionDispatch {
            state: BlockReconstructionState::new(replay_first_available_slot, replay_stored_slots),
            processed_messages: Vec::new(),
            processed_messages_max: at_least_one(processed_messages_max),
        }
    }

    /// Takes in an update that the other thread has numbered, and says what is broadcast.
    /// `msgid_gen` is the source of numbers for what the update brings about.
    pub fn on_message(&mut self, msgid_gen: &mut MessageId, msgid: u64, message: Message) -> (
        broadcasts: Vec<Broadcast>)
        requires
            old(self)@.wf(),
            old(msgid_gen).last() + old(self)@.sharing(old(msgid_gen).last()).state.minted(
                msgid,
                message,
            ) <= u64::MAX,
        ensures
            final(self)@.wf(),
            old(self)@.sharing(old(msgid_gen).last()).reconstructed(
                msgid,
                message,
                broadcasts@,
                final(self)@.sharing(final(msgid_gen).last()),
            ),
    {
        let ghost before = self@.sharing(msgid_gen.last());
        self.state.swap_msgid_gen(msgid_gen);
        let items: Vec<DispatchItem> = self.state.on_message_with_id(msgid, message);
        self.state.swap_msgid_gen(msgid_gen);
        let ghost all = items@;
        let broadcasts: Vec<Broadcast> = dispatch_items(
            &mut self.processed_messages,
            self.processed_messages_max,
            items,
            false,
        );
        proof {
            crate::broadcast_laws::lemma_batch_may_wait(before.pending, before.max, all, false);
            let after = self@.sharing(msgid_gen.last());
            assert(before.items_reconstructed(msgid, message, all, broadcasts@, after));
        }
        broadcasts
    }

    /// Sets exactly as many numbers of the shared source aside as the update brings about
    /// messages, so that the other thread need not wait until it is done, and no number is left
    /// over. Nothing is set aside where there are not enough numbers left.
    pub fn reserve(&self, shared: &mut MessageId, msgid: u64, message: &Message) -> (reserved:
        Option<MessageId>)
        requires
            self@.wf(),
        ensures
            reserved is Some <==> old(shared).last() + self@.state.minted(msgid, *message)
                <= u64::MAX,
            reserved matches Some(source) ==> {
                &&& source.last() == old(shared).last()
                &&& final(shared).last() == old(shared).last() + self@.state.minted(
                    msgid,
                    *message,
                )
                &&& self@.sharing(source.last()).state.minted(msgid, *message)
                    == self@.state.minted(msgid, *message)
            },
            reserved is None ==> *final(shared) == *old(shared),
    {
        let needed: usize = self.state.numbers_for(msgid, message);
        let reserved = shared.reserve(needed as u128);
        proof {
            if reserved is Some {
                self@.state.lemma_minted_whatever_was_minted(
                    reserved->0.last(),
                    msgid,
                    *message,
                );
            }
        }
        reserved
    }

    /// Ends the batch where nothing comes in, and then answers a request to replay everything
    /// from a slot on. No other step takes a request, so that one waits until every update that
    /// came in before it was taken in.
    pub fn on_idle(&mut self, request: Option<(CommitmentLevel, u64)>) -> (step: (
        Option<Broadcast>,
        Option<ReplayedResponse>,
    ))
        requires
            old(self)@.wf(),
        ensures
            final(self)@.wf(),
            old(self)@.idled(step.0, final(self)@),
            step.1 is Some <==> request is Some,
            request matches Some((commitment, replay_slot)) ==> (step.1 matches Some(response)
                && response.answers(old(self)@.state.slots, commitment, replay_slot)),
    {
        let broadcast: Option<Broadcast> = flush_processed_batch(&mut self.processed_messages);
        let response: Option<ReplayedResponse> = match request {
            Some((commitment, replay_slot)) => Some(
                self.state.service_replay(commitment, replay_slot),
            ),
            None => None,
        };
        (broadcast, response)
    }

    /// The reconstruction that the thread drives.
    pub fn reconstruction(&mut self) -> (state: &mut BlockReconstructionState)
        ensures
            state@ == old(self)@.state,
            final(self)@ == (PipelineView { state: final(state)@, ..old(self)@ }),
    {
        &mut self.state
    }
}

impl PipelineView {
    /// The pipeline with another source of numbers, which has minted `last_id`.
    pub open spec fn sharing(self, last_id: u64) -> PipelineView {
        PipelineView { state: StateView { last_id, ..self.state }, ..self }
    }
}

} // verus!
