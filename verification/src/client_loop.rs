//! The loop of one subscriber, and the start of it where the subscriber asks for a snapshot.
use crate::client::{
    on_broadcast, on_cancelled, on_filter, on_live_update, on_replay_refused, on_replayed,
    on_replayed_update, DisconnectReason, Farewell, FilterStep, Received, ReplayStep, SendOutcome,
    Stop,
};
use crate::message::CommitmentLevel;
use crate::reconstruction::ReplayedResponse;
use crate::status::{Status, StatusCode};
use vstd::prelude::*;

verus! {

/// What the loop of a subscriber waits for.
#[derive(Debug, Clone, Copy, PartialEq, Eq, Structural)]
pub enum Phase {
    /// A request, a broadcast, or the end of the server.
    Idle,
    /// A request for a replay to be handed over.
    Requesting { from_slot: u64 },
    /// The answer to a request for a replay.
    Awaiting { from_slot: u64 },
    /// The messages of a batch to be sent, from `next` on; `live` where it is a broadcast.
    Delivering { next: usize, count: usize, live: bool },
    /// Nothing any more.
    Stopped { reason: DisconnectReason },
}

/// The state of a subscriber's loop.
pub struct LoopView {
    pub phase: Phase,
    pub commitment: CommitmentLevel,
    pub can_replay: bool,
}

impl LoopView {
    /// What holds between events.
    pub open spec fn wf(self) -> bool {
        self.phase matches Phase::Delivering { next, count, .. } ==> next <= count
    }

    /// The loop after it has moved on.
    pub open spec fn at(self, phase: Phase) -> LoopView {
        LoopView { phase, ..self }
    }

    /// The loop after it has ended.
    pub open spec fn ended(self, stop: Stop) -> LoopView {
        self.at(Phase::Stopped { reason: stop.reason })
    }
}

/// The loop of a subscriber.
#[derive(Debug)]
pub struct ClientLoop {
    phase: Phase,
    commitment: CommitmentLevel,
    can_replay: bool,
}

impl View for ClientLoop {
    type V = LoopView;

    closed spec fn view(&self) -> LoopView {
        LoopView {
            phase: self.phase,
            commitment: self.commitment,
            can_replay: self.can_replay,
        }
    }
}

impl ClientLoop {
    /// A loop that has seen nothing yet; `commitment` is that of the filter to start with.
    pub fn new(commitment: CommitmentLevel, can_replay: bool) -> (client: Self)
        ensures
            client@ == (LoopView { phase: Phase::Idle, commitment, can_replay }),
            client@.wf(),
    {
        ClientLoop { phase: Phase::Idle, commitment, can_replay }
    }

    /// Ends the loop.
    fn stop(&mut self, stop: &Stop)
        ensures
            final(self)@ == old(self)@.ended(*stop),
    {
        self.phase = Phase::Stopped { reason: stop.reason };
    }

    /// The server is shutting down.
    pub fn cancelled(&mut self) -> (stop: Stop)
        requires
            old(self)@.phase is Idle,
        ensures
            final(self)@ == old(self)@.ended(stop),
            stop.is_told_if_room(
                DisconnectReason::ServerShutdown,
                StatusCode::Unavailable,
                "server is shutting down try again later"@,
            ),
    {
        let stop = on_cancelled();
        self.stop(&stop);
        stop
    }

    /// A request came in, with the commitment of its filter; none, where the subscriber is gone.
    pub fn requested(&mut self, request: Option<(Option<u64>, CommitmentLevel)>) -> (step:
        FilterStep)
        requires
            old(self)@.phase is Idle,
        ensures
            final(self)@.wf(),
            match request {
                None => {
                    &&& step matches FilterStep::Stop(stop)
                    &&& stop.is_silent(DisconnectReason::ClientDisconnect)
                    &&& final(self)@ == old(self)@.ended(stop)
                },
                Some((from_slot, commitment)) => {
                    let filtered = LoopView { commitment, ..old(self)@ };
                    match from_slot {
                        None => step is Continue && final(self)@ == filtered,
                        Some(from_slot) => if old(self)@.can_replay {
                            &&& step == FilterStep::Replay { commitment, from_slot }
                            &&& final(self)@ == filtered.at(Phase::Requesting { from_slot })
                        } else {
                            &&& step matches FilterStep::Stop(stop)
                            &&& stop.is_told(
                                DisconnectReason::FromSlotUnsupported,
                                StatusCode::Internal,
                                "from_slot is not supported"@,
                            )
                            &&& final(self)@ == filtered.ended(stop)
                        },
                    }
                },
            },
    {
        let asked: Option<Option<u64>> = match request {
            Some((from_slot, commitment)) => {
                self.commitment = commitment;
                Some(from_slot)
            },
            None => None,
        };
        let step = on_filter(asked, self.commitment, self.can_replay);
        match &step {
            FilterStep::Continue => {},
            FilterStep::Replay { commitment: _, from_slot } => {
                self.phase = Phase::Requesting { from_slot: *from_slot };
            },
            FilterStep::Stop(stop) => {
                self.stop(stop);
            },
        }
        step
    }

    /// The request for a replay was handed over, or could not be.
    pub fn handed_over(&mut self, handed_over: bool) -> (stop: Option<Stop>)
        requires
            old(self)@.phase is Requesting,
        ensures
            final(self)@.wf(),
            handed_over ==> {
                &&& stop is None
                &&& final(self)@ == old(self)@.at(
                    Phase::Awaiting { from_slot: old(self)@.phase->Requesting_from_slot },
                )
            },
            !handed_over ==> {
                &&& stop matches Some(stop)
                &&& stop.is_told(
                    DisconnectReason::ReplayError,
                    StatusCode::Internal,
                    "failed to send from_slot request"@,
                )
                &&& final(self)@ == old(self)@.ended(stop)
            },
    {
        if handed_over {
            if let Phase::Requesting { from_slot } = self.phase {
                self.phase = Phase::Awaiting { from_slot };
            }
            None
        } else {
            let stop = on_replay_refused();
            self.stop(&stop);
            Some(stop)
        }
    }

    /// The request for a replay was answered, or never will be.
    pub fn replayed(&mut self, response: Option<ReplayedResponse>) -> (step: ReplayStep)
        requires
            old(self)@.phase is Awaiting,
        ensures
            final(self)@.wf(),
            match response {
                Some(ReplayedResponse::Messages(messages)) => {
                    &&& step matches ReplayStep::Send(sorted)
                    &&& sorted@.len() == messages@.len()
                    &&& crate::client::sorted_by_id(sorted@)
                    &&& forall|id: u64| #[trigger]
                        crate::client::with_id(sorted@, id) == crate::client::with_id(
                            messages@,
                            id,
                        )
                    &&& final(self)@ == old(self)@.at(
                        Phase::Delivering {
                            next: 0,
                            count: sorted@.len() as usize,
                            live: false,
                        },
                    )
                },
                Some(ReplayedResponse::Lagged(earliest)) => {
                    &&& step matches ReplayStep::Stop(stop)
                    &&& stop.is_told(
                        DisconnectReason::SlotUnavailable,
                        StatusCode::OutOfRange,
                        crate::client::unavailable_text(
                            old(self)@.phase->Awaiting_from_slot,
                            earliest,
                        ),
                    )
                    &&& final(self)@ == old(self)@.ended(stop)
                },
                None => {
                    &&& step matches ReplayStep::Stop(stop)
                    &&& stop.is_told(
                        DisconnectReason::ReplayError,
                        StatusCode::Internal,
                        "failed to get replay response"@,
                    )
                    &&& final(self)@ == old(self)@.ended(stop)
                },
            },
    {
        let from_slot: u64 = match self.phase {
            Phase::Awaiting { from_slot } => from_slot,
            _ => 0,
        };
        let step = on_replayed(from_slot, response);
        match &step {
            ReplayStep::Send(messages) => {
                self.phase = Phase::Delivering { next: 0, count: messages.len(), live: false };
            },
            ReplayStep::Stop(stop) => {
                self.stop(stop);
            },
        }
        step
    }

    /// A broadcast of `count` messages to a commitment came in, or none will. Says whether it
    /// is for this subscriber.
    pub fn broadcast(&mut self, received: Received<(CommitmentLevel, usize)>) -> (addressed: Result<
        bool,
        Stop,
    >)
        requires
            old(self)@.phase is Idle,
        ensures
            final(self)@.wf(),
            match received {
                Received::Batch((commitment, count)) => if commitment == old(self)@.commitment {
                    &&& addressed == Ok::<bool, Stop>(true)
                    &&& final(self)@ == old(self)@.at(
                        Phase::Delivering { next: 0, count, live: true },
                    )
                } else {
                    &&& addressed == Ok::<bool, Stop>(false)
                    &&& final(self)@ == old(self)@
                },
                Received::Closed => {
                    &&& addressed matches Err(stop)
                    &&& stop.is_silent(DisconnectReason::BroadcastClosed)
                    &&& final(self)@ == old(self)@.ended(stop)
                },
                Received::Lagged => {
                    &&& addressed matches Err(stop)
                    &&& stop.is_told(
                        DisconnectReason::ClientBroadcastLag,
                        StatusCode::Internal,
                        "lagged to receive geyser messages"@,
                    )
                    &&& final(self)@ == old(self)@.ended(stop)
                },
            },
    {
        match on_broadcast(received) {
            Ok((commitment, count)) => {
                if commitment == self.commitment {
                    self.phase = Phase::Delivering { next: 0, count, live: true };
                    Ok(true)
                } else {
                    Ok(false)
                }
            },
            Err(stop) => {
                self.stop(&stop);
                Err(stop)
            },
        }
    }

    /// The place of the next message of the batch whose updates are to be sent; none, where all
    /// were.
    pub fn next_message(&mut self) -> (at: Option<usize>)
        requires
            old(self)@.wf(),
            old(self)@.phase is Delivering,
        ensures
            final(self)@.wf(),
            at == old(self)@.next_turn(),
            final(self)@ == old(self)@.after_turn(),
    {
        if let Phase::Delivering { next, count, live } = self.phase {
            if next < count {
                self.phase = Phase::Delivering { next: next + 1, count, live };
                return Some(next);
            }
        }
        self.phase = Phase::Idle;
        None
    }

    /// An update of the batch was sent, or could not be. The updates of a replay wait for room.
    pub fn update_sent(&mut self, outcome: SendOutcome) -> (stop: Option<Stop>)
        requires
            old(self)@.wf(),
            old(self)@.phase is Delivering,
            outcome is Full ==> old(self)@.phase->Delivering_live,
        ensures
            final(self)@.wf(),
            match outcome {
                SendOutcome::Sent => stop is None && final(self)@ == old(self)@,
                SendOutcome::Full => {
                    &&& stop matches Some(stop)
                    &&& stop.is_told(
                        DisconnectReason::ClientChannelFull,
                        StatusCode::Internal,
                        "lagged to send an update"@,
                    )
                    &&& final(self)@ == old(self)@.ended(stop)
                },
                SendOutcome::Closed => {
                    &&& stop matches Some(stop)
                    &&& stop.is_silent(DisconnectReason::ClientClosed)
                    &&& final(self)@ == old(self)@.ended(stop)
                },
            },
    {
        let live: bool = match self.phase {
            Phase::Delivering { live, .. } => live,
            _ => false,
        };
        let stop = if live {
            on_live_update(outcome)
        } else {
            on_replayed_update(outcome == SendOutcome::Sent)
        };
        if let Some(stop) = &stop {
            self.stop(stop);
        }
        stop
    }

    /// The commitment of the subscriber's filter.
    pub fn commitment(&self) -> (commitment: CommitmentLevel)
        ensures
            commitment == self@.commitment,
    {
        self.commitment
    }

    /// Why the subscriber was disconnected; unknown, where it was not.
    pub fn disconnect_reason(&self) -> (reason: DisconnectReason)
        ensures
            reason == match self@.phase {
                Phase::Stopped { reason } => reason,
                _ => DisconnectReason::Unknown,
            },
    {
        match self.phase {
            Phase::Stopped { reason } => reason,
            _ => DisconnectReason::Unknown,
        }
    }
}

impl LoopView {
    /// How many messages of a batch still wait for their turn.
    pub open spec fn waiting(self) -> nat {
        match self.phase {
            Phase::Delivering { next, count, .. } => if next < count {
                (count - next) as nat
            } else {
                0
            },
            _ => 0,
        }
    }

    /// The place of the message whose turn it is.
    pub open spec fn next_turn(self) -> Option<usize> {
        match self.phase {
            Phase::Delivering { next, count, .. } => if next < count {
                Some(next)
            } else {
                None
            },
            _ => None,
        }
    }

    /// The loop after that turn; where there is none, it waits for other events.
    pub open spec fn after_turn(self) -> LoopView {
        match self.phase {
            Phase::Delivering { next, count, live } => if next < count {
                self.at(Phase::Delivering { next: (next + 1) as usize, count, live })
            } else {
                self.at(Phase::Idle)
            },
            _ => self.at(Phase::Idle),
        }
    }

    /// The places of the messages in the order of their turns.
    pub open spec fn turns(self) -> Seq<usize>
        decreases self.waiting(),
    {
        match self.next_turn() {
            Some(at) => seq![at] + self.after_turn().turns(),
            None => Seq::empty(),
        }
    }

    /// Every message of a batch that is left has its turn, once and in order.
    pub proof fn lemma_every_message_has_its_turn(self)
        requires
            self.phase is Delivering,
        ensures
            self.turns().len() == self.waiting(),
            forall|i: int|
                0 <= i < self.waiting() ==> #[trigger] self.turns()[i]
                    == self.phase->Delivering_next + i,
        decreases self.waiting(),
    {
        if let Some(at) = self.next_turn() {
            let after = self.after_turn();
            after.lemma_every_message_has_its_turn();
            assert forall|i: int| 0 <= i < self.waiting() implies #[trigger] self.turns()[i]
                == self.phase->Delivering_next + i by {
                if i > 0 {
                    assert(self.turns()[i] == after.turns()[i - 1]);
                }
            }
        }
    }
}

/// Why the stream of a snapshot ended before its end.
#[derive(Debug, Clone, Copy, PartialEq, Eq, Structural)]
pub enum ClientSnapshotReplayError {
    ClientGrpcConnectionClosed,
    Cancelled,
}

impl ClientSnapshotReplayError {
    /// The error in words.
    pub open spec fn text(self) -> Seq<char> {
        match self {
            ClientSnapshotReplayError::ClientGrpcConnectionClosed => "gRPC connection closed"@,
            ClientSnapshotReplayError::Cancelled => "client session is cancelled by plugin"@,
        }
    }

    /// The error in words.
    pub fn message(self) -> (message: &'static str)
        ensures
            message@ == self.text(),
    {
        match self {
            ClientSnapshotReplayError::ClientGrpcConnectionClosed => "gRPC connection closed",
            ClientSnapshotReplayError::Cancelled => "client session is cancelled by plugin",
        }
    }

    /// The end of the subscriber's loop that the error calls for.
    pub fn stop(self) -> (stop: Stop)
        ensures
            match self {
                ClientSnapshotReplayError::Cancelled => stop.is_told_if_room(
                    DisconnectReason::ServerShutdown,
                    StatusCode::Internal,
                    "server is shutting down try again later"@,
                ),
                ClientSnapshotReplayError::ClientGrpcConnectionClosed => stop.is_silent(
                    DisconnectReason::ClientClosed,
                ),
            },
    {
        match self {
            ClientSnapshotReplayError::Cancelled => Stop {
                reason: DisconnectReason::ServerShutdown,
                farewell: Farewell::IfRoom(
                    Status::new(StatusCode::Internal, "server is shutting down try again later"),
                ),
            },
            ClientSnapshotReplayError::ClientGrpcConnectionClosed => Stop {
                reason: DisconnectReason::ClientClosed,
                farewell: Farewell::Silent,
            },
        }
    }
}

/// What the stream of a snapshot waits for.
#[derive(Debug, Clone, Copy, PartialEq, Eq)]
pub enum SnapshotPhase {
    /// The filter: nothing is sent before it is known.
    AwaitingFilter,
    /// The messages of the snapshot.
    Streaming,
    /// Nothing any more.
    Ended { result: Result<(), ClientSnapshotReplayError> },
}

/// Something that happens while a snapshot is streamed.
#[derive(Debug, Clone, Copy, PartialEq, Eq, Structural)]
pub enum SnapshotEvent {
    Cancelled,
    /// A request with a filter; `is_ping` where it is only to be answered.
    Request { is_ping: bool },
    /// The subscriber is gone.
    Gone,
    /// The answer to a ping, or an update, was sent, or could not be.
    Sent { sent: bool },
    /// A message of the snapshot; `matches` where the filter lets it through.
    Message { matches: bool },
    /// No message of the snapshot is ready.
    Empty,
    /// There are no more messages.
    Exhausted,
}

/// What is done next while a snapshot is streamed.
#[derive(Debug, Clone, Copy, PartialEq, Eq)]
pub enum SnapshotAction {
    /// Wait for the next event of the phase.
    Continue,
    /// Answer the ping.
    SendPong,
    /// Take up the filter.
    SetFilter,
    /// Send the updates of the message.
    SendUpdates,
    /// Wait a moment before asking for another message.
    Pause,
    /// The snapshot is at its end, or was broken off.
    End { result: Result<(), ClientSnapshotReplayError> },
}

impl SnapshotPhase {
    /// The event can happen in the phase.
    pub open spec fn expects(self, event: SnapshotEvent) -> bool {
        match self {
            SnapshotPhase::AwaitingFilter => event is Cancelled || event is Request || event is Gone
                || event is Sent,
            SnapshotPhase::Streaming => event is Cancelled || event is Message || event is Empty
                || event is Exhausted || event is Sent,
            SnapshotPhase::Ended { .. } => false,
        }
    }

    /// What is done next.
    pub open spec fn action(self, event: SnapshotEvent) -> SnapshotAction {
        match event {
            SnapshotEvent::Cancelled => SnapshotAction::End {
                result: Err(ClientSnapshotReplayError::Cancelled),
            },
            SnapshotEvent::Gone => SnapshotAction::End {
                result: Err(ClientSnapshotReplayError::ClientGrpcConnectionClosed),
            },
            SnapshotEvent::Request { is_ping } => if is_ping {
                SnapshotAction::SendPong
            } else {
                SnapshotAction::SetFilter
            },
            SnapshotEvent::Sent { sent } => if sent {
                SnapshotAction::Continue
            } else {
                SnapshotAction::End {
                    result: Err(ClientSnapshotReplayError::ClientGrpcConnectionClosed),
                }
            },
            SnapshotEvent::Message { matches } => if matches {
                SnapshotAction::SendUpdates
            } else {
                SnapshotAction::Continue
            },
            SnapshotEvent::Empty => SnapshotAction::Pause,
            SnapshotEvent::Exhausted => SnapshotAction::End { result: Ok(()) },
        }
    }

    /// The phase after an event: a filter starts the stream, an end is the end.
    pub open spec fn after(self, event: SnapshotEvent) -> SnapshotPhase {
        match self.action(event) {
            SnapshotAction::SetFilter => SnapshotPhase::Streaming,
            SnapshotAction::End { result } => SnapshotPhase::Ended { result },
            _ => self,
        }
    }
}

/// The stream of a snapshot.
#[derive(Debug)]
pub struct SnapshotLoop {
    phase: SnapshotPhase,
}

impl SnapshotLoop {
    /// What the stream waits for.
    pub closed spec fn waits_for(&self) -> SnapshotPhase {
        self.phase
    }

    /// A stream that waits for its filter.
    pub fn new() -> (snapshot: Self)
        ensures
            snapshot.waits_for() is AwaitingFilter,
    {
        SnapshotLoop { phase: SnapshotPhase::AwaitingFilter }
    }

    /// What the stream waits for.
    pub fn phase(&self) -> (phase: SnapshotPhase)
        ensures
            phase == self.waits_for(),
    {
        self.phase
    }

    /// Takes in an event, and says what is done next.
    pub fn on_event(&mut self, event: SnapshotEvent) -> (action: SnapshotAction)
        requires
            old(self).waits_for().expects(event),
        ensures
            action == old(self).waits_for().action(event),
            final(self).waits_for() == old(self).waits_for().after(event),
    {
        let action = match event {
            SnapshotEvent::Cancelled => SnapshotAction::End {
                result: Err(ClientSnapshotReplayError::Cancelled),
            },
            SnapshotEvent::Gone => SnapshotAction::End {
                result: Err(ClientSnapshotReplayError::ClientGrpcConnectionClosed),
            },
            SnapshotEvent::Request { is_ping } => {
                if is_ping {
                    SnapshotAction::SendPong
                } else {
                    SnapshotAction::SetFilter
                }
            },
            SnapshotEvent::Sent { sent } => {
                if sent {
                    SnapshotAction::Continue
                } else {
                    SnapshotAction::End {
                        result: Err(ClientSnapshotReplayError::ClientGrpcConnectionClosed),
                    }
                }
            },
            SnapshotEvent::Message { matches } => {
                if matches {
                    SnapshotAction::SendUpdates
                } else {
                    SnapshotAction::Continue
                }
            },
            SnapshotEvent::Empty => SnapshotAction::Pause,
            SnapshotEvent::Exhausted => SnapshotAction::End { result: Ok(()) },
        };
        match action {
            SnapshotAction::SetFilter => {
                self.phase = SnapshotPhase::Streaming;
            },
            SnapshotAction::End { result } => {
                self.phase = SnapshotPhase::Ended { result };
            },
            _ => {},
        }
        action
    }
}

/// Nothing of a snapshot is sent before the subscriber's filter is known.
pub proof fn lemma_no_update_before_filter(phase: SnapshotPhase, event: SnapshotEvent)
    requires
        phase is AwaitingFilter,
        phase.expects(event),
    ensures
        !(phase.action(event) is SendUpdates),
        phase.after(event) is Streaming <==> event == (SnapshotEvent::Request { is_ping: false }),
{
}

} // verus!
