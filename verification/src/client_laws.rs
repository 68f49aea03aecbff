//! What a subscriber is sent and when it is let go, over whole runs of events.
use crate::broadcast::Broadcast;
use crate::client::{
    DisconnectReason, Farewell, FilterStep, Received, ReplayStep, SendOutcome, Stop,
};
use crate::client_loop::{
    ClientLoop, ClientSnapshotReplayError, LoopView, Phase, SnapshotAction, SnapshotEvent,
    SnapshotLoop, SnapshotPhase,
};
use crate::message::{CommitmentLevel, Message, Numbered};
use crate::reconstruction::ReplayedResponse;
use crate::status::StatusCode;
use vstd::prelude::*;

verus! {

/// The stream of a snapshot, event by event: what it waits for, and what is done.
pub struct StreamStep {
    pub before: SnapshotPhase,
    pub event: SnapshotEvent,
    pub action: SnapshotAction,
    pub after: SnapshotPhase,
}

impl StreamStep {
    /// The step is one that the stream takes.
    pub open spec fn taken(self) -> bool {
        &&& self.before.expects(self.event)
        &&& self.action == self.before.action(self.event)
        &&& self.after == self.before.after(self.event)
    }
}

/// A call of `on_event` is such a step.
pub proof fn lemma_calls_are_steps()
    ensures
        forall|stream: &mut SnapshotLoop, event: SnapshotEvent, action: SnapshotAction| #[trigger]
            call_ensures(SnapshotLoop::on_event, (stream, event), action)
                && (*stream).waits_for().expects(event) ==> (StreamStep {
                before: (*stream).waits_for(),
                event,
                action,
                after: final(stream).waits_for(),
            }).taken(),
        forall|stream: SnapshotLoop| #[trigger]
            call_ensures(SnapshotLoop::new, (), stream) ==> stream.waits_for() is AwaitingFilter,
        forall|stream: &SnapshotLoop, phase: SnapshotPhase| #[trigger]
            call_ensures(SnapshotLoop::phase, (stream,), phase) ==> phase == stream.waits_for(),
{
}

/// Steps of one stream, one after the other.
pub open spec fn is_stream(steps: Seq<StreamStep>) -> bool {
    &&& forall|i: int| 0 <= i < steps.len() ==> (#[trigger] steps[i]).taken()
    &&& forall|i: int| 0 < i < steps.len() ==> (#[trigger] steps[i]).before == steps[i - 1].after
}

/// The event breaks the stream off: the session is cancelled, or the subscriber is gone.
pub open spec fn breaks_off(event: SnapshotEvent) -> bool {
    ||| event is Cancelled
    ||| event is Gone
    ||| event == (SnapshotEvent::Sent { sent: false })
}

/// A stream can take any event of the phase that it is in: requests before it has a filter,
/// messages of the snapshot and their end afterwards, and what became of what was sent at any
/// time before its end.
pub proof fn lemma_stream_takes_its_events(phase: SnapshotPhase, event: SnapshotEvent)
    ensures
        phase is AwaitingFilter ==> (phase.expects(event) <==> event is Cancelled
            || event is Request || event is Gone || event is Sent),
        phase is Streaming ==> (phase.expects(event) <==> event is Cancelled || event is Message
            || event is Empty || event is Exhausted || event is Sent),
        phase is Ended ==> !phase.expects(event),
{
}

/// A stream ends well only when the snapshot is exhausted; it ends with an error only when it is
/// broken off; and any other event leaves it where it is, but for the filter, which starts it.
pub proof fn lemma_stream_ends_only_at_its_end(step: StreamStep)
    requires
        step.taken(),
    ensures
        step.action == (SnapshotAction::End { result: Ok(()) }) <==> step.event is Exhausted,
        step.after == (SnapshotPhase::Ended { result: Ok(()) }) <==> step.event is Exhausted,
        step.event is Cancelled <==> step.action == (SnapshotAction::End {
            result: Err(ClientSnapshotReplayError::Cancelled),
        }),
        step.event is Gone || step.event == (SnapshotEvent::Sent { sent: false })
            <==> step.action == (SnapshotAction::End {
            result: Err(ClientSnapshotReplayError::ClientGrpcConnectionClosed),
        }),
        step.after is Ended <==> step.action is End,
        step.action matches SnapshotAction::End { result } ==> step.after == (
        SnapshotPhase::Ended { result }),
        step.action is SetFilter <==> step.event == (SnapshotEvent::Request { is_ping: false }),
        step.action is SendPong <==> step.event == (SnapshotEvent::Request { is_ping: true }),
        step.action is SendUpdates <==> step.event == (SnapshotEvent::Message { matches: true }),
        step.action is Pause <==> step.event is Empty,
        step.action is SetFilter ==> step.after is Streaming,
        !(step.event is Exhausted) && !breaks_off(step.event) && !(step.action is SetFilter)
            ==> step.after == step.before,
{
}

/// As long as a stream is neither broken off nor exhausted it goes on, and every message that
/// the filter lets through is sent, and no other.
pub proof fn lemma_stream_sends_every_match(steps: Seq<StreamStep>)
    requires
        is_stream(steps),
        steps.len() > 0,
        steps[0].before is Streaming,
        forall|i: int|
            0 <= i < steps.len() ==> !breaks_off((#[trigger] steps[i]).event)
                && !(steps[i].event is Exhausted),
    ensures
        forall|i: int|
            0 <= i < steps.len() ==> {
                &&& (#[trigger] steps[i]).after is Streaming
                &&& steps[i].action is SendUpdates <==> steps[i].event == (
                SnapshotEvent::Message { matches: true })
                &&& !(steps[i].action is End)
            },
{
    assert forall|i: int| 0 <= i < steps.len() implies {
        &&& (#[trigger] steps[i]).after is Streaming
        &&& steps[i].action is SendUpdates <==> steps[i].event == (SnapshotEvent::Message {
            matches: true,
        })
        &&& !(steps[i].action is End)
    } by {
        lemma_stream_goes_on(steps, i);
        lemma_stream_ends_only_at_its_end(steps[i]);
    }
}

/// A stream that is neither broken off nor exhausted goes on.
proof fn lemma_stream_goes_on(steps: Seq<StreamStep>, i: int)
    requires
        is_stream(steps),
        0 <= i < steps.len(),
        steps[0].before is Streaming,
        forall|j: int|
            0 <= j < steps.len() ==> !breaks_off((#[trigger] steps[j]).event)
                && !(steps[j].event is Exhausted),
    ensures
        steps[i].before is Streaming,
        steps[i].after is Streaming,
    decreases i,
{
    if i > 0 {
        lemma_stream_goes_on(steps, i - 1);
        assert(steps[i].before == steps[i - 1].after);
    }
    assert(steps[i].taken());
    assert(!breaks_off(steps[i].event));
    lemma_stream_ends_only_at_its_end(steps[i]);
}

/// The stream of a snapshot that ended well was exhausted last, and never broken off.
pub proof fn lemma_stream_that_ends_well_was_exhausted(steps: Seq<StreamStep>)
    requires
        is_stream(steps),
        steps.len() > 0,
        steps.last().after == (SnapshotPhase::Ended { result: Ok(()) }),
    ensures
        steps.last().event is Exhausted,
        forall|i: int| 0 <= i < steps.len() ==> !breaks_off((#[trigger] steps[i]).event),
{
    assert(steps.last() == steps[steps.len() - 1]);
    lemma_stream_ends_only_at_its_end(steps.last());
    assert forall|i: int| 0 <= i < steps.len() implies !breaks_off((#[trigger] steps[i]).event) by {
        lemma_stream_ends_only_at_its_end(steps[i]);
        if breaks_off(steps[i].event) {
            if i < steps.len() - 1 {
                assert(steps[i + 1].before == steps[i + 1 - 1].after);
                assert(steps[i + 1].taken());
            }
        }
    }
}

/// A subscriber is told this when its loop ends.
pub open spec fn told(
    stop: Stop,
    reason: DisconnectReason,
    code: StatusCode,
    text: Seq<char>,
) -> bool {
    &&& stop.reason == reason
    &&& stop.farewell matches Farewell::WhenRoom(status)
    &&& status.code == code
    &&& status.message@ == text
}

/// The loop of a subscriber has moved on to `phase`, and nothing else of it has changed.
pub open spec fn moved(before: LoopView, after: LoopView, phase: Phase) -> bool {
    &&& after.phase == phase
    &&& after.commitment == before.commitment
    &&& after.can_replay == before.can_replay
}

/// A request replaces the filter of a subscriber, and so the commitment by which broadcasts are
/// chosen. One with a slot to start from asks for a replay to that commitment from that slot, if
/// replays are to be had, and ends the loop if not; one without goes on. A subscriber that is
/// gone ends the loop.
pub proof fn lemma_request_sets_the_filter()
    ensures
        forall|
            client: &mut ClientLoop,
            request: Option<(Option<u64>, CommitmentLevel)>,
            step: FilterStep,
        | #[trigger]
            call_ensures(ClientLoop::requested, (client, request), step)
                && (*client)@.phase is Idle ==> {
                let before = (*client)@;
                let after = final(client)@;
                match request {
                    None => {
                        &&& step matches FilterStep::Stop(stop)
                        &&& stop.reason is ClientDisconnect
                        &&& stop.farewell is Silent
                        &&& moved(before, after, Phase::Stopped { reason: stop.reason })
                    },
                    Some((from_slot, commitment)) => {
                        &&& after.commitment == commitment
                        &&& after.can_replay == before.can_replay
                        &&& match from_slot {
                            None => step is Continue && after.phase is Idle,
                            Some(slot) => if before.can_replay {
                                &&& step == (FilterStep::Replay { commitment, from_slot: slot })
                                &&& after.phase == (Phase::Requesting { from_slot: slot })
                            } else {
                                &&& step matches FilterStep::Stop(stop)
                                &&& told(
                                    stop,
                                    DisconnectReason::FromSlotUnsupported,
                                    StatusCode::Internal,
                                    "from_slot is not supported"@,
                                )
                                &&& after.phase == (Phase::Stopped { reason: stop.reason })
                            },
                        }
                    },
                }
            },
{
}

/// A broadcast is delivered exactly where it is to the commitment of the subscriber's filter,
/// whole and from its first message; others are passed over. The loop ends where broadcasts do,
/// or where the subscriber was too slow for them.
pub proof fn lemma_broadcast_is_delivered_to_its_commitment()
    ensures
        forall|
            client: &mut ClientLoop,
            commitment: CommitmentLevel,
            count: usize,
            addressed: Result<bool, Stop>,
        | #[trigger]
            call_ensures(
                ClientLoop::broadcast,
                (client, Received::Batch((commitment, count))),
                addressed,
            ) && (*client)@.phase is Idle ==> {
                &&& addressed == Ok::<bool, Stop>(commitment == (*client)@.commitment)
                &&& commitment == (*client)@.commitment ==> moved(
                    (*client)@,
                    final(client)@,
                    Phase::Delivering { next: 0, count, live: true },
                )
                &&& commitment != (*client)@.commitment ==> moved(
                    (*client)@,
                    final(client)@,
                    Phase::Idle,
                )
            },
        forall|client: &mut ClientLoop, addressed: Result<bool, Stop>| #[trigger]
            call_ensures(ClientLoop::broadcast, (client, Received::Closed), addressed)
                && (*client)@.phase is Idle ==> {
                &&& addressed matches Err(stop)
                &&& stop.reason is BroadcastClosed
                &&& stop.farewell is Silent
                &&& moved((*client)@, final(client)@, Phase::Stopped { reason: stop.reason })
            },
        forall|client: &mut ClientLoop, addressed: Result<bool, Stop>| #[trigger]
            call_ensures(ClientLoop::broadcast, (client, Received::Lagged), addressed)
                && (*client)@.phase is Idle ==> {
                &&& addressed matches Err(stop)
                &&& told(
                    stop,
                    DisconnectReason::ClientBroadcastLag,
                    StatusCode::Internal,
                    "lagged to receive geyser messages"@,
                )
                &&& moved((*client)@, final(client)@, Phase::Stopped { reason: stop.reason })
            },
{
}

/// The messages of a batch have their turns from the first to the last, and then the loop waits
/// for other events. What is sent leaves the loop where it is; a stream that is closed, or full
/// for a broadcast, ends it.
pub proof fn lemma_messages_have_their_turns()
    ensures
        forall|client: &mut ClientLoop, at: Option<usize>| #[trigger]
            call_ensures(ClientLoop::next_message, (client,), at) ==> ((
            *client)@.phase matches Phase::Delivering { next, count, live } ==> {
                if next < count {
                    &&& at == Some(next)
                    &&& moved(
                        (*client)@,
                        final(client)@,
                        Phase::Delivering { next: (next + 1) as usize, count, live },
                    )
                } else {
                    &&& at is None
                    &&& moved((*client)@, final(client)@, Phase::Idle)
                }
            }),
        forall|client: &mut ClientLoop, outcome: SendOutcome, stop: Option<Stop>| #[trigger]
            call_ensures(ClientLoop::update_sent, (client, outcome), stop)
                && (*client)@.phase is Delivering ==> match outcome {
                SendOutcome::Sent => stop is None && final(client)@ == (*client)@,
                SendOutcome::Full => {
                    &&& stop matches Some(stop)
                    &&& told(
                        stop,
                        DisconnectReason::ClientChannelFull,
                        StatusCode::Internal,
                        "lagged to send an update"@,
                    )
                    &&& moved((*client)@, final(client)@, Phase::Stopped { reason: stop.reason })
                },
                SendOutcome::Closed => {
                    &&& stop matches Some(stop)
                    &&& stop.reason is ClientClosed
                    &&& stop.farewell is Silent
                    &&& moved((*client)@, final(client)@, Phase::Stopped { reason: stop.reason })
                },
            },
{
}

/// How often a message is there.
proof fn lemma_count_under_number(messages: Seq<Numbered>, numbered: Numbered)
    ensures
        messages.to_multiset().count(numbered) == crate::client::with_id(
            messages,
            numbered.0,
        ).to_multiset().count(numbered),
    decreases messages.len(),
{
    broadcast use vstd::seq_lib::group_to_multiset_ensures;

    let keep = crate::client::has_id(numbered.0);
    if messages.len() > 0 {
        let rest = messages.drop_last();
        lemma_count_under_number(rest, numbered);
        assert(rest.push(messages.last()) =~= messages);
        assert(messages.filter(keep) == if keep(messages.last()) {
            rest.filter(keep).push(messages.last())
        } else {
            rest.filter(keep)
        }) by {
            reveal(Seq::filter);
        }
    } else {
        assert(messages.filter(keep) =~= Seq::empty()) by {
            reveal(Seq::filter);
        }
        assert(messages =~= Seq::empty());
    }
}

/// A replay is delivered whole, each message as often as it was answered, in the order of the
/// numbers; a slot that is not stored any more ends the loop, and the subscriber learns which
/// slot is the first that is; so does a request that cannot be handed over or is not answered.
pub proof fn lemma_replay_is_delivered_by_number()
    ensures
        forall|client: &mut ClientLoop, messages: Vec<Numbered>, step: ReplayStep| #[trigger]
            call_ensures(
                ClientLoop::replayed,
                (client, Some(ReplayedResponse::Messages(messages))),
                step,
            ) && (*client)@.phase is Awaiting ==> {
                &&& step matches ReplayStep::Send(sorted)
                &&& sorted@.to_multiset() == messages@.to_multiset()
                &&& forall|i: int, j: int|
                    0 <= i < j < sorted@.len() ==> (#[trigger] sorted@[i]).0 <= (
                    #[trigger] sorted@[j]).0
                &&& moved(
                    (*client)@,
                    final(client)@,
                    Phase::Delivering { next: 0, count: messages@.len() as usize, live: false },
                )
            },
        forall|client: &mut ClientLoop, earliest: u64, step: ReplayStep| #[trigger]
            call_ensures(
                ClientLoop::replayed,
                (client, Some(ReplayedResponse::Lagged(earliest))),
                step,
            ) && (*client)@.phase is Awaiting ==> {
                &&& step matches ReplayStep::Stop(stop)
                &&& told(
                    stop,
                    DisconnectReason::SlotUnavailable,
                    StatusCode::OutOfRange,
                    "broadcast from "@ + crate::text::decimal(
                        (*client)@.phase->Awaiting_from_slot as nat,
                    ) + " is not available, last available: "@ + crate::text::decimal(
                        earliest as nat,
                    ),
                )
                &&& moved((*client)@, final(client)@, Phase::Stopped { reason: stop.reason })
            },
        forall|client: &mut ClientLoop, step: ReplayStep| #[trigger]
            call_ensures(ClientLoop::replayed, (client, None), step)
                && (*client)@.phase is Awaiting ==> {
                &&& step matches ReplayStep::Stop(stop)
                &&& told(
                    stop,
                    DisconnectReason::ReplayError,
                    StatusCode::Internal,
                    "failed to get replay response"@,
                )
                &&& moved((*client)@, final(client)@, Phase::Stopped { reason: stop.reason })
            },
        forall|client: &mut ClientLoop, handed_over: bool, stop: Option<Stop>| #[trigger]
            call_ensures(ClientLoop::handed_over, (client, handed_over), stop) ==> ((
            *client)@.phase matches Phase::Requesting { from_slot } ==> {
                if handed_over {
                    stop is None && moved(
                        (*client)@,
                        final(client)@,
                        Phase::Awaiting { from_slot },
                    )
                } else {
                    &&& stop matches Some(stop)
                    &&& told(
                        stop,
                        DisconnectReason::ReplayError,
                        StatusCode::Internal,
                        "failed to send from_slot request"@,
                    )
                    &&& moved((*client)@, final(client)@, Phase::Stopped { reason: stop.reason })
                }
            }),
{
    assert forall|client: &mut ClientLoop, messages: Vec<Numbered>, step: ReplayStep| #[trigger]
        call_ensures(
            ClientLoop::replayed,
            (client, Some(ReplayedResponse::Messages(messages))),
            step,
        ) && (*client)@.phase is Awaiting implies {
        &&& step matches ReplayStep::Send(sorted)
        &&& sorted@.to_multiset() == messages@.to_multiset()
        &&& forall|i: int, j: int|
            0 <= i < j < sorted@.len() ==> (#[trigger] sorted@[i]).0 <= (
            #[trigger] sorted@[j]).0
        &&& moved(
            (*client)@,
            final(client)@,
            Phase::Delivering { next: 0, count: messages@.len() as usize, live: false },
        )
    } by {
        let sorted = step->Send_0;
        assert forall|numbered: Numbered| #[trigger] sorted@.to_multiset().count(numbered)
            == messages@.to_multiset().count(numbered) by {
            lemma_count_under_number(sorted@, numbered);
            lemma_count_under_number(messages@, numbered);
            assert(crate::client::with_id(sorted@, numbered.0) == crate::client::with_id(
                messages@,
                numbered.0,
            ));
        }
        assert(sorted@.to_multiset() =~= messages@.to_multiset());
    }
}

/// A server that shuts down ends the loop, and says so where there is room.
pub proof fn lemma_shutdown_ends_the_loop()
    ensures
        forall|client: &mut ClientLoop, stop: Stop| #[trigger]
            call_ensures(ClientLoop::cancelled, (client,), stop) && (*client)@.phase is Idle ==> {
                &&& stop.reason is ServerShutdown
                &&& stop.farewell matches Farewell::IfRoom(status)
                &&& status.code is Unavailable
                &&& status.message@ == "server is shutting down try again later"@
                &&& moved((*client)@, final(client)@, Phase::Stopped { reason: stop.reason })
            },
        forall|error: ClientSnapshotReplayError, stop: Stop| #[trigger]
            call_ensures(ClientSnapshotReplayError::stop, (error,), stop) ==> match error {
                ClientSnapshotReplayError::Cancelled => {
                    &&& stop.reason is ServerShutdown
                    &&& stop.farewell matches Farewell::IfRoom(status)
                    &&& status.code is Internal
                    &&& status.message@ == "server is shutting down try again later"@
                },
                ClientSnapshotReplayError::ClientGrpcConnectionClosed => stop.reason is ClientClosed
                    && stop.farewell is Silent,
            },
        forall|client: &ClientLoop, reason: DisconnectReason| #[trigger]
            call_ensures(ClientLoop::disconnect_reason, (client,), reason) ==> reason
                == match client@.phase {
                Phase::Stopped { reason } => reason,
                _ => DisconnectReason::Unknown,
            },
        forall|client: &ClientLoop, commitment: CommitmentLevel| #[trigger]
            call_ensures(ClientLoop::commitment, (client,), commitment) ==> commitment
                == client@.commitment,
        forall|commitment: CommitmentLevel, can_replay: bool, client: ClientLoop| #[trigger]
            call_ensures(ClientLoop::new, (commitment, can_replay), client) ==> {
                &&& client@.phase is Idle
                &&& client@.commitment == commitment
                &&& client@.can_replay == can_replay
            },
{
}

/// A subscriber that a ping cannot be sent to is let go; any other is kept.
pub proof fn lemma_failed_ping_ends_the_session()
    ensures
        forall|sent: bool, step: crate::client::PingStep| #[trigger]
            call_ensures(crate::client::on_ping, (sent,), step) ==> (step is CancelSession
                <==> !sent),
{
}

/// Of the requests that wait the last counts, unless the subscriber is gone.
pub proof fn lemma_last_request_counts(
    first: Option<u64>,
    newer: Vec<u64>,
    gone: bool,
    latest: Option<u64>,
)
    requires
        call_ensures(crate::client::latest_request::<u64>, (first, newer, gone), latest),
    ensures
        gone ==> latest is None,
        !gone && newer@.len() > 0 ==> latest == Some(newer@.last()),
        !gone && newer@.len() == 0 ==> latest == first,
{
}

/// The places of the statuses in a batch.
spec fn status_places(messages: Seq<Numbered>) -> Seq<int>
    decreases messages.len(),
{
    if messages.len() == 0 {
        Seq::empty()
    } else {
        let before = status_places(messages.drop_last());
        if messages.last().1 is Slot {
            before.push(messages.len() - 1)
        } else {
            before
        }
    }
}

/// `slots` are the slots of the statuses in a batch, in order: `places` rise, and lead to every
/// status, and to nothing else.
pub open spec fn are_slots_of_statuses(
    messages: Seq<Numbered>,
    slots: Seq<u64>,
    places: Seq<int>,
) -> bool {
    &&& places.len() == slots.len()
    &&& forall|k: int|
        0 <= k < places.len() ==> {
            &&& 0 <= #[trigger] places[k] < messages.len()
            &&& messages[places[k]].1 matches Message::Slot(msg)
            &&& msg.slot == slots[k]
        }
    &&& forall|k: int, l: int|
        0 <= k < l < places.len() ==> #[trigger] places[k] < #[trigger] places[l]
    &&& forall|i: int|
        0 <= i < messages.len() && (#[trigger] messages[i]).1 is Slot ==> places.contains(i)
}

/// A watcher learns of the slots of exactly the statuses that go out to the processed
/// commitment, in order.
pub proof fn lemma_watcher_learns_of_statuses(broadcast: &Broadcast, slots: Vec<u64>)
    requires
        call_ensures(crate::client::watched_slots, (broadcast,), slots),
    ensures
        !(broadcast.commitment is Processed) ==> slots@.len() == 0,
        broadcast.commitment is Processed ==> exists|places: Seq<int>|
            are_slots_of_statuses(broadcast.messages@, slots@, places),
{
    if broadcast.commitment is Processed {
        lemma_slots_of(broadcast.messages@);
        assert(are_slots_of_statuses(
            broadcast.messages@,
            slots@,
            status_places(broadcast.messages@),
        ));
    }
}

/// The slots whose statuses a batch holds.
proof fn lemma_slots_of(messages: Seq<Numbered>)
    ensures
        are_slots_of_statuses(
            messages,
            crate::client::slots_of(messages),
            status_places(messages),
        ),
    decreases messages.len(),
{
    if messages.len() > 0 {
        let rest = messages.drop_last();
        let n = messages.len() - 1;
        let before = status_places(rest);
        let places = status_places(messages);
        let slots = crate::client::slots_of(messages);
        lemma_slots_of(rest);
        assert forall|k: int| 0 <= k < places.len() implies {
            &&& 0 <= #[trigger] places[k] < messages.len()
            &&& messages[places[k]].1 matches Message::Slot(msg)
            &&& msg.slot == slots[k]
        } by {
            if k < before.len() {
                assert(before[k] == places[k]);
                assert(rest[before[k]] == messages[places[k]]);
            }
        }
        assert forall|k: int, l: int| 0 <= k < l < places.len() implies #[trigger] places[k]
            < #[trigger] places[l] by {
            assert(before[k] == places[k]);
            if l < before.len() {
                assert(before[l] == places[l]);
            }
        }
        assert forall|i: int| 0 <= i < messages.len() && (
        #[trigger] messages[i]).1 is Slot implies places.contains(i) by {
            if i < n {
                assert(rest[i] == messages[i]);
                let k = choose|k: int| 0 <= k < before.len() && before[k] == i;
                assert(places[k] == i);
            } else {
                assert(places[places.len() - 1] == i);
            }
        }
    }
}

/// The loop ends without a word.
pub open spec fn silent(stop: Stop, reason: DisconnectReason) -> bool {
    stop.reason == reason && stop.farewell is Silent
}

/// A subscriber learns why its loop ends wherever it can still be told: that replays are not to
/// be had, that one failed, that its slot is gone, that it was too slow, or that the server is
/// shutting down. One that is gone is not told, nor is anyone where there are no more broadcasts.
pub proof fn lemma_subscriber_learns_why(
    commitment: CommitmentLevel,
    can_replay: bool,
    from_slot: u64,
    earliest: u64,
)
    ensures
        forall|stop: Stop| #[trigger]
            call_ensures(crate::client::on_cancelled, (), stop) ==> {
                &&& stop.reason is ServerShutdown
                &&& stop.farewell matches Farewell::IfRoom(status)
                &&& status.code is Unavailable
                &&& status.message@ == "server is shutting down try again later"@
            },
        forall|stop: Stop| #[trigger]
            call_ensures(crate::client::on_replay_refused, (), stop) ==> told(
                stop,
                DisconnectReason::ReplayError,
                StatusCode::Internal,
                "failed to send from_slot request"@,
            ),
        forall|step: FilterStep| #[trigger]
            call_ensures(crate::client::on_filter, (None, commitment, can_replay), step) ==> (
            step matches FilterStep::Stop(stop) && silent(
                stop,
                DisconnectReason::ClientDisconnect,
            )),
        forall|step: FilterStep| #[trigger]
            call_ensures(crate::client::on_filter, (Some(None), commitment, can_replay), step)
                ==> step is Continue,
        forall|step: FilterStep| #[trigger]
            call_ensures(
                crate::client::on_filter,
                (Some(Some(from_slot)), commitment, can_replay),
                step,
            ) ==> if can_replay {
                step == (FilterStep::Replay { commitment, from_slot })
            } else {
                step matches FilterStep::Stop(stop) && told(
                    stop,
                    DisconnectReason::FromSlotUnsupported,
                    StatusCode::Internal,
                    "from_slot is not supported"@,
                )
            },
        forall|step: ReplayStep| #[trigger]
            call_ensures(crate::client::on_replayed, (from_slot, None), step) ==> (
            step matches ReplayStep::Stop(stop) && told(
                stop,
                DisconnectReason::ReplayError,
                StatusCode::Internal,
                "failed to get replay response"@,
            )),
        forall|step: ReplayStep| #[trigger]
            call_ensures(
                crate::client::on_replayed,
                (from_slot, Some(ReplayedResponse::Lagged(earliest))),
                step,
            ) ==> (step matches ReplayStep::Stop(stop) && told(
                stop,
                DisconnectReason::SlotUnavailable,
                StatusCode::OutOfRange,
                "broadcast from "@ + crate::text::decimal(from_slot as nat)
                    + " is not available, last available: "@ + crate::text::decimal(
                    earliest as nat,
                ),
            )),
        forall|given: u64, batch: Result<u64, Stop>| #[trigger]
            call_ensures(crate::client::on_broadcast::<u64>, (Received::Batch(given),), batch)
                ==> batch == Ok::<u64, Stop>(given),
        forall|batch: Result<u64, Stop>| #[trigger]
            call_ensures(crate::client::on_broadcast::<u64>, (Received::Closed,), batch) ==> (
            batch matches Err(stop) && silent(stop, DisconnectReason::BroadcastClosed)),
        forall|batch: Result<u64, Stop>| #[trigger]
            call_ensures(crate::client::on_broadcast::<u64>, (Received::Lagged,), batch) ==> (
            batch matches Err(stop) && told(
                stop,
                DisconnectReason::ClientBroadcastLag,
                StatusCode::Internal,
                "lagged to receive geyser messages"@,
            )),
        forall|outcome: SendOutcome, stop: Option<Stop>| #[trigger]
            call_ensures(crate::client::on_live_update, (outcome,), stop) ==> match stop {
                None => outcome is Sent,
                Some(stop) => if outcome is Full {
                    told(
                        stop,
                        DisconnectReason::ClientChannelFull,
                        StatusCode::Internal,
                        "lagged to send an update"@,
                    )
                } else {
                    outcome is Closed && silent(stop, DisconnectReason::ClientClosed)
                },
            },
        forall|sent: bool, stop: Option<Stop>| #[trigger]
            call_ensures(crate::client::on_replayed_update, (sent,), stop) ==> match stop {
                None => sent,
                Some(stop) => !sent && silent(stop, DisconnectReason::ClientClosed),
            },
{
}

/// A size is counted as it is, or as the largest that can be counted.
pub proof fn lemma_sizes_are_counted(len: usize, size: u32)
    requires
        call_ensures(crate::client::counted_size, (len,), size),
    ensures
        size <= len,
        size < len ==> size == 0xffff_ffff,
{
}

/// Why a snapshot was broken off, in words.
pub proof fn lemma_errors_are_in_words(error: ClientSnapshotReplayError, message: &'static str)
    requires
        call_ensures(ClientSnapshotReplayError::message, (error,), message),
    ensures
        error is Cancelled ==> message@ == "client session is cancelled by plugin"@,
        error is ClientGrpcConnectionClosed ==> message@ == "gRPC connection closed"@,
{
}

} // verus!
