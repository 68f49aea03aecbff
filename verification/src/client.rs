//! What the loop of one subscriber does on each event.
use crate::broadcast::Broadcast;
use crate::message::{CommitmentLevel, Message, Numbered};
use crate::reconstruction::ReplayedResponse;
use crate::status::{Status, StatusCode};
use crate::text::push_decimal;
use vstd::prelude::*;
use vstd::string::StringExecFns;

verus! {

/// Why a subscriber was disconnected.
#[derive(Debug, Clone, Copy, PartialEq, Eq, Structural)]
pub enum DisconnectReason {
    Unknown,
    ServerShutdown,
    ClientClosed,
    FromSlotUnsupported,
    ReplayError,
    SlotUnavailable,
    ClientDisconnect,
    BroadcastClosed,
    ClientBroadcastLag,
    ClientChannelFull,
}

impl DisconnectReason {
    /// The label under which the disconnect is counted.
    pub open spec fn text(self) -> Seq<char> {
        match self {
            DisconnectReason::Unknown => "unknown"@,
            DisconnectReason::ServerShutdown => "server_shutdown"@,
            DisconnectReason::ClientClosed => "client_closed"@,
            DisconnectReason::FromSlotUnsupported => "from_slot_unsupported"@,
            DisconnectReason::ReplayError => "replay_error"@,
            DisconnectReason::SlotUnavailable => "slot_unavailable"@,
            DisconnectReason::ClientDisconnect => "client_disconnect"@,
            DisconnectReason::BroadcastClosed => "broadcast_closed"@,
            DisconnectReason::ClientBroadcastLag => "client_broadcast_lag"@,
            DisconnectReason::ClientChannelFull => "client_channel_full"@,
        }
    }

    /// The label under which the disconnect is counted.
    pub fn label(self) -> (label: &'static str)
        ensures
            label@ == self.text(),
    {
        match self {
            DisconnectReason::Unknown => "unknown",
            DisconnectReason::ServerShutdown => "server_shutdown",
            DisconnectReason::ClientClosed => "client_closed",
            DisconnectReason::FromSlotUnsupported => "from_slot_unsupported",
            DisconnectReason::ReplayError => "replay_error",
            DisconnectReason::SlotUnavailable => "slot_unavailable",
            DisconnectReason::ClientDisconnect => "client_disconnect",
            DisconnectReason::BroadcastClosed => "broadcast_closed",
            DisconnectReason::ClientBroadcastLag => "client_broadcast_lag",
            DisconnectReason::ClientChannelFull => "client_channel_full",
        }
    }
}

/// The last word to a subscriber.
#[derive(Debug)]
pub enum Farewell {
    Silent,
    /// Sent if there is room for it at once.
    IfRoom(Status),
    /// Sent as soon as there is room for it.
    WhenRoom(Status),
}

/// The end of a subscriber's loop.
#[derive(Debug)]
pub struct Stop {
    pub reason: DisconnectReason,
    pub farewell: Farewell,
}

impl Stop {
    /// The loop ends without a word.
    pub open spec fn is_silent(self, reason: DisconnectReason) -> bool {
        self.reason == reason && self.farewell is Silent
    }

    /// The loop ends with a refusal that waits for room.
    pub open spec fn is_told(
        self,
        reason: DisconnectReason,
        code: StatusCode,
        text: Seq<char>,
    ) -> bool {
        &&& self.reason == reason
        &&& self.farewell matches Farewell::WhenRoom(status)
        &&& status.says(code, text)
    }

    /// The loop ends with a refusal that does not wait for room.
    pub open spec fn is_told_if_room(
        self,
        reason: DisconnectReason,
        code: StatusCode,
        text: Seq<char>,
    ) -> bool {
        &&& self.reason == reason
        &&& self.farewell matches Farewell::IfRoom(status)
        &&& status.says(code, text)
    }

    /// The loop ends without a word.
    fn silent(reason: DisconnectReason) -> (stop: Self)
        ensures
            stop.is_silent(reason),
    {
        Stop { reason, farewell: Farewell::Silent }
    }

    /// The loop ends with a refusal that waits for room.
    fn told(reason: DisconnectReason, code: StatusCode, text: &str) -> (stop: Self)
        ensures
            stop.is_told(reason, code, text@),
    {
        Stop { reason, farewell: Farewell::WhenRoom(Status::new(code, text)) }
    }
}

/// What a subscriber asks for: what to send, and from which slot on.
#[derive(Debug)]
pub struct FilterRequest<F> {
    pub from_slot: Option<u64>,
    pub filter: F,
}

/// The request that counts of those that are waiting: the latest; none, where the subscriber is
/// gone.
pub open spec fn latest_of<T>(first: Option<T>, newer: Seq<T>, gone: bool) -> Option<T> {
    if gone {
        None
    } else if newer.len() > 0 {
        Some(newer.last())
    } else {
        first
    }
}

/// The request that counts of those that are waiting.
pub fn latest_request<T>(first: Option<T>, newer: Vec<T>, gone: bool) -> (latest: Option<T>)
    ensures
        latest == latest_of(first, newer@, gone),
{
    if gone {
        return None;
    }
    let mut newer = newer;
    match newer.pop() {
        Some(last) => Some(last),
        None => first,
    }
}

/// What the loop does after a request for a filter.
#[derive(Debug)]
pub enum FilterStep {
    /// Go on with the filter.
    Continue,
    /// Ask for a replay with the filter's commitment.
    Replay { commitment: CommitmentLevel, from_slot: u64 },
    Stop(Stop),
}

/// What the loop does after the answer to a request for a replay.
#[derive(Debug)]
pub enum ReplayStep {
    /// Send these, in this order.
    Send(Vec<Numbered>),
    Stop(Stop),
}

/// How a broadcast reached the subscriber.
#[derive(Debug)]
pub enum Received<T> {
    Batch(T),
    Closed,
    Lagged,
}

/// What became of an update that was sent to the subscriber.
#[derive(Debug, Clone, Copy, PartialEq, Eq, Structural)]
pub enum SendOutcome {
    Sent,
    Full,
    Closed,
}

/// Whether a message has the number.
pub open spec fn has_id(id: u64) -> spec_fn(Numbered) -> bool {
    |numbered: Numbered| numbered.0 == id
}

/// The messages with one number, in their order.
pub open spec fn with_id(messages: Seq<Numbered>, id: u64) -> Seq<Numbered> {
    messages.filter(has_id(id))
}

/// The numbers do not fall.
pub open spec fn sorted_by_id(messages: Seq<Numbered>) -> bool {
    forall|i: int, j: int|
        0 <= i < j < messages.len() ==> (#[trigger] messages[i]).0 <= (#[trigger] messages[j]).0
}

/// `slice::sort_by_key` by the number: the numbers do not fall, and the messages with one number
/// are the same as before, in the same order.
#[verifier::external_body]
fn sort_by_id(messages: &mut Vec<Numbered>)
    ensures
        final(messages)@.len() == old(messages)@.len(),
        sorted_by_id(final(messages)@),
        forall|id: u64| #[trigger] with_id(final(messages)@, id) == with_id(old(messages)@, id),
{
    messages.sort_by_key(|numbered| numbered.0);
}

/// The server is shutting down.
pub fn on_cancelled() -> (stop: Stop)
    ensures
        stop.is_told_if_room(
            DisconnectReason::ServerShutdown,
            StatusCode::Unavailable,
            "server is shutting down try again later"@,
        ),
{
    Stop {
        reason: DisconnectReason::ServerShutdown,
        farewell: Farewell::IfRoom(
            Status::new(StatusCode::Unavailable, "server is shutting down try again later"),
        ),
    }
}

/// A request for a filter came in, or the subscriber is gone; `commitment` is that of the
/// filter.
pub fn on_filter(
    request: Option<Option<u64>>,
    commitment: CommitmentLevel,
    can_replay: bool,
) -> (step: FilterStep)
    ensures
        match request {
            None => step matches FilterStep::Stop(stop) && stop.is_silent(
                DisconnectReason::ClientDisconnect,
            ),
            Some(None) => step is Continue,
            Some(Some(from_slot)) => if can_replay {
                step == FilterStep::Replay { commitment, from_slot }
            } else {
                step matches FilterStep::Stop(stop) && stop.is_told(
                    DisconnectReason::FromSlotUnsupported,
                    StatusCode::Internal,
                    "from_slot is not supported"@,
                )
            },
        },
{
    match request {
        None => FilterStep::Stop(Stop::silent(DisconnectReason::ClientDisconnect)),
        Some(None) => FilterStep::Continue,
        Some(Some(from_slot)) => {
            if can_replay {
                FilterStep::Replay { commitment, from_slot }
            } else {
                FilterStep::Stop(
                    Stop::told(
                        DisconnectReason::FromSlotUnsupported,
                        StatusCode::Internal,
                        "from_slot is not supported",
                    ),
                )
            }
        },
    }
}

/// A request for a replay could not be handed over.
pub fn on_replay_refused() -> (stop: Stop)
    ensures
        stop.is_told(
            DisconnectReason::ReplayError,
            StatusCode::Internal,
            "failed to send from_slot request"@,
        ),
{
    Stop::told(
        DisconnectReason::ReplayError,
        StatusCode::Internal,
        "failed to send from_slot request",
    )
}

/// What a subscriber is told whose slot is not stored any more.
pub open spec fn unavailable_text(from_slot: u64, earliest: u64) -> Seq<char> {
    "broadcast from "@ + crate::text::decimal(from_slot as nat)
        + " is not available, last available: "@ + crate::text::decimal(earliest as nat)
}

/// A request for a replay was answered, or never will be.
pub fn on_replayed(from_slot: u64, response: Option<ReplayedResponse>) -> (step: ReplayStep)
    ensures
        match response {
            Some(ReplayedResponse::Messages(messages)) => {
                &&& step matches ReplayStep::Send(sorted)
                &&& sorted@.len() == messages@.len()
                &&& sorted_by_id(sorted@)
                &&& forall|id: u64| #[trigger] with_id(sorted@, id) == with_id(messages@, id)
            },
            Some(ReplayedResponse::Lagged(earliest)) => {
                &&& step matches ReplayStep::Stop(stop)
                &&& stop.is_told(
                    DisconnectReason::SlotUnavailable,
                    StatusCode::OutOfRange,
                    unavailable_text(from_slot, earliest),
                )
            },
            None => {
                &&& step matches ReplayStep::Stop(stop)
                &&& stop.is_told(
                    DisconnectReason::ReplayError,
                    StatusCode::Internal,
                    "failed to get replay response"@,
                )
            },
        },
{
    match response {
        Some(ReplayedResponse::Messages(messages)) => {
            let mut messages = messages;
            sort_by_id(&mut messages);
            ReplayStep::Send(messages)
        },
        Some(ReplayedResponse::Lagged(earliest)) => {
            let mut message = String::from_str("broadcast from ");
            push_decimal(&mut message, from_slot);
            message.append(" is not available, last available: ");
            push_decimal(&mut message, earliest);
            ReplayStep::Stop(
                Stop {
                    reason: DisconnectReason::SlotUnavailable,
                    farewell: Farewell::WhenRoom(Status { code: StatusCode::OutOfRange, message }),
                },
            )
        },
        None => ReplayStep::Stop(
            Stop::told(
                DisconnectReason::ReplayError,
                StatusCode::Internal,
                "failed to get replay response",
            ),
        ),
    }
}

/// A broadcast came in, or none will; a batch is handed on as it is.
pub fn on_broadcast<T>(received: Received<T>) -> (batch: Result<T, Stop>)
    ensures
        match received {
            Received::Batch(given) => batch == Ok::<T, Stop>(given),
            Received::Closed => batch matches Err(stop) && stop.is_silent(
                DisconnectReason::BroadcastClosed,
            ),
            Received::Lagged => batch matches Err(stop) && stop.is_told(
                DisconnectReason::ClientBroadcastLag,
                StatusCode::Internal,
                "lagged to receive geyser messages"@,
            ),
        },
{
    match received {
        Received::Batch(given) => Ok(given),
        Received::Closed => Err(Stop::silent(DisconnectReason::BroadcastClosed)),
        Received::Lagged => Err(
            Stop::told(
                DisconnectReason::ClientBroadcastLag,
                StatusCode::Internal,
                "lagged to receive geyser messages",
            ),
        ),
    }
}

/// An update of a broadcast was sent, or could not be.
pub fn on_live_update(outcome: SendOutcome) -> (stop: Option<Stop>)
    ensures
        match outcome {
            SendOutcome::Sent => stop is None,
            SendOutcome::Full => stop matches Some(stop) && stop.is_told(
                DisconnectReason::ClientChannelFull,
                StatusCode::Internal,
                "lagged to send an update"@,
            ),
            SendOutcome::Closed => stop matches Some(stop) && stop.is_silent(
                DisconnectReason::ClientClosed,
            ),
        },
{
    match outcome {
        SendOutcome::Sent => None,
        SendOutcome::Full => Some(
            Stop::told(
                DisconnectReason::ClientChannelFull,
                StatusCode::Internal,
                "lagged to send an update",
            ),
        ),
        SendOutcome::Closed => Some(Stop::silent(DisconnectReason::ClientClosed)),
    }
}

/// An update of a replay, which waits for room, was sent, or could not be.
pub fn on_replayed_update(sent: bool) -> (stop: Option<Stop>)
    ensures
        sent ==> stop is None,
        !sent ==> (stop matches Some(stop) && stop.is_silent(DisconnectReason::ClientClosed)),
{
    if sent {
        None
    } else {
        Some(Stop::silent(DisconnectReason::ClientClosed))
    }
}

/// The size of an update as it is counted.
pub fn counted_size(len: usize) -> (size: u32)
    ensures
        size == if len <= u32::MAX {
            len as int
        } else {
            u32::MAX as int
        },
{
    if len <= u32::MAX as usize {
        len as u32
    } else {
        u32::MAX
    }
}

/// The slots whose statuses a batch holds.
pub open spec fn slots_of(messages: Seq<Numbered>) -> Seq<u64>
    decreases messages.len(),
{
    if messages.len() == 0 {
        Seq::empty()
    } else {
        match messages.last().1 {
            Message::Slot(msg) => slots_of(messages.drop_last()).push(msg.slot),
            _ => slots_of(messages.drop_last()),
        }
    }
}

/// The slots that a watcher of the subscribers is told of: those whose statuses a batch for the
/// processed commitment holds.
pub fn watched_slots(broadcast: &Broadcast) -> (slots: Vec<u64>)
    ensures
        slots@ == if broadcast.commitment is Processed {
            slots_of(broadcast.messages@)
        } else {
            Seq::empty()
        },
{
    let mut slots: Vec<u64> = Vec::new();
    if broadcast.commitment == CommitmentLevel::Processed {
        let count: usize = broadcast.messages.len();
        for i in 0..count
            invariant
                count == broadcast.messages@.len(),
                slots@ == slots_of(broadcast.messages@.take(i as int)),
        {
            proof {
                let upto = broadcast.messages@.take(i + 1);
                assert(upto.drop_last() =~= broadcast.messages@.take(i as int));
                assert(upto.last() == broadcast.messages@[i as int]);
            }
            if let Message::Slot(msg) = &broadcast.messages[i].1 {
                slots.push(msg.slot);
            }
        }
        assert(broadcast.messages@.take(count as int) =~= broadcast.messages@);
    }
    slots
}

/// A message is among those with its number exactly if it is there at all. So two sequences
/// with the same messages under every number have the same messages.
pub proof fn lemma_found_by_number(messages: Seq<Numbered>, numbered: Numbered)
    ensures
        messages.contains(numbered) <==> with_id(messages, numbered.0).contains(numbered),
{
    if messages.contains(numbered) {
        let i = choose|i: int| 0 <= i < messages.len() && messages[i] == numbered;
        messages.lemma_filter_contains(has_id(numbered.0), i);
    }
    if with_id(messages, numbered.0).contains(numbered) {
        messages.lemma_filter_contains_rev(has_id(numbered.0), numbered);
    }
}

/// What follows an attempt to send a subscriber a ping.
#[derive(Debug, Clone, Copy, PartialEq, Eq, Structural)]
pub enum PingStep {
    Continue,
    /// The subscriber is gone, and its session ends.
    CancelSession,
}

/// Ends the session of a subscriber that a ping could not be sent to.
pub fn on_ping(sent: bool) -> (step: PingStep)
    ensures
        step == if sent {
            PingStep::Continue
        } else {
            PingStep::CancelSession
        },
{
    if sent {
        PingStep::Continue
    } else {
        PingStep::CancelSession
    }
}

} // verus!
