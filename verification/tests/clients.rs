use geyser_fanout::broadcast::Broadcast;
use geyser_fanout::client::{
    counted_size, latest_request, on_ping, watched_slots, DisconnectReason, Farewell,
    FilterStep, PingStep, Received, ReplayStep, SendOutcome, Stop,
};
use geyser_fanout::client_loop::{
    ClientLoop, ClientSnapshotReplayError, SnapshotAction, SnapshotEvent, SnapshotLoop,
    SnapshotPhase,
};
use geyser_fanout::message::{
    CommitmentLevel, Message, MessageEntry, MessageSlot, Numbered, SlotStatus, Timestamp,
};
use geyser_fanout::reconstruction::ReplayedResponse;
use geyser_fanout::status::StatusCode;
use std::sync::Arc;

const NOW: Timestamp = Timestamp { seconds: 1, nanos: 2 };

fn status(slot: u64) -> Message {
    Message::Slot(MessageSlot {
        slot,
        parent: None,
        status: SlotStatus::Processed,
        dead_error: None,
        created_at: NOW,
    })
}

fn entry(slot: u64) -> Message {
    Message::Entry(Arc::new(MessageEntry {
        slot,
        index: 0,
        num_hashes: 0,
        hash: [0; 32],
        executed_transaction_count: 0,
        starting_transaction_index: 0,
        created_at: NOW,
    }))
}

fn silent(stop: &Stop, reason: DisconnectReason) {
    assert_eq!(stop.reason, reason);
    assert!(matches!(stop.farewell, Farewell::Silent));
}

fn told(stop: &Stop, reason: DisconnectReason, code: StatusCode, text: &str) {
    assert_eq!(stop.reason, reason);
    let Farewell::WhenRoom(status) = &stop.farewell else { panic!("expected a farewell") };
    assert_eq!((status.code, status.message.as_str()), (code, text));
}

fn idle() -> ClientLoop {
    ClientLoop::new(CommitmentLevel::Processed, true)
}

#[test]
fn closed_stream_ends_the_loop_of_a_half_closed_client() {
    // a half-closed subscriber is still served until an update finds its stream closed
    let mut client = ClientLoop::new(CommitmentLevel::Processed, false);
    let step = client.requested(Some((None, CommitmentLevel::Processed)));
    assert!(matches!(step, FilterStep::Continue));
    let batch = Received::Batch((CommitmentLevel::Processed, 1));
    assert!(client.broadcast(batch).unwrap());
    assert_eq!(client.next_message(), Some(0));
    let stop = client.update_sent(SendOutcome::Closed).unwrap();
    silent(&stop, DisconnectReason::ClientClosed);
    assert_eq!(client.disconnect_reason().label(), "client_closed");
}

#[test]
fn failed_ping_ends_the_session() {
    assert_eq!(on_ping(true), PingStep::Continue);
    assert_eq!(on_ping(false), PingStep::CancelSession);
}

#[test]
fn batch_of_the_filters_commitment_is_delivered_in_order() {
    let mut client = idle();
    assert!(client.broadcast(Received::Batch((CommitmentLevel::Processed, 2))).unwrap());
    assert_eq!(client.next_message(), Some(0));
    assert!(client.update_sent(SendOutcome::Sent).is_none());
    assert!(client.update_sent(SendOutcome::Sent).is_none());
    assert_eq!(client.next_message(), Some(1));
    assert_eq!(client.next_message(), None);
    let confirmed = Received::Batch((CommitmentLevel::Confirmed, 2));
    assert!(!client.broadcast(confirmed).unwrap());
    assert!(client.broadcast(Received::Batch((CommitmentLevel::Processed, 0))).unwrap());
    assert_eq!(client.next_message(), None);
    client.requested(Some((None, CommitmentLevel::Confirmed)));
    assert_eq!(client.commitment(), CommitmentLevel::Confirmed);
    assert_eq!(client.disconnect_reason(), DisconnectReason::Unknown);
}

#[test]
fn full_stream_ends_the_loop() {
    let mut client = idle();
    client.broadcast(Received::Batch((CommitmentLevel::Processed, 2))).unwrap();
    client.next_message();
    let stop = client.update_sent(SendOutcome::Full).unwrap();
    told(
        &stop,
        DisconnectReason::ClientChannelFull,
        StatusCode::Internal,
        "lagged to send an update",
    );
    assert_eq!(client.disconnect_reason().label(), "client_channel_full");
}

#[test]
fn shutdown_is_announced_if_there_is_room() {
    let stop = idle().cancelled();
    assert_eq!(stop.reason.label(), "server_shutdown");
    let Farewell::IfRoom(status) = stop.farewell else { panic!("expected a farewell") };
    assert_eq!(status.code, StatusCode::Unavailable);
    assert_eq!(status.message, "server is shutting down try again later");
}

#[test]
fn gone_subscriber_ends_the_loop() {
    let mut client = idle();
    let FilterStep::Stop(stop) = client.requested(None) else { panic!("expected a stop") };
    silent(&stop, DisconnectReason::ClientDisconnect);
    assert_eq!(stop.reason.label(), "client_disconnect");
}

#[test]
fn broadcasts_that_are_missed_end_the_loop() {
    let stop = idle().broadcast(Received::Closed).unwrap_err();
    silent(&stop, DisconnectReason::BroadcastClosed);
    assert_eq!(stop.reason.label(), "broadcast_closed");
    let stop = idle().broadcast(Received::Lagged).unwrap_err();
    told(
        &stop,
        DisconnectReason::ClientBroadcastLag,
        StatusCode::Internal,
        "lagged to receive geyser messages",
    );
    assert_eq!(stop.reason.label(), "client_broadcast_lag");
}

#[test]
fn replay_needs_stored_slots() {
    let mut client = ClientLoop::new(CommitmentLevel::Processed, false);
    let step = client.requested(Some((Some(4), CommitmentLevel::Finalized)));
    let FilterStep::Stop(stop) = step else { panic!("expected a stop") };
    told(
        &stop,
        DisconnectReason::FromSlotUnsupported,
        StatusCode::Internal,
        "from_slot is not supported",
    );
    assert_eq!(stop.reason.label(), "from_slot_unsupported");
}

fn awaiting(from_slot: u64) -> ClientLoop {
    let mut client = idle();
    let step = client.requested(Some((Some(from_slot), CommitmentLevel::Finalized)));
    let FilterStep::Replay { commitment, from_slot: asked } = step else {
        panic!("expected a replay")
    };
    assert_eq!((commitment, asked), (CommitmentLevel::Finalized, from_slot));
    assert!(client.handed_over(true).is_none());
    client
}

#[test]
fn replayed_messages_are_sent_by_their_numbers() {
    let mut client = awaiting(4);
    let messages: Vec<Numbered> =
        vec![(3, status(5)), (1, status(4)), (3, entry(5)), (2, entry(4))];
    let step = client.replayed(Some(ReplayedResponse::Messages(messages)));
    let ReplayStep::Send(sorted) = step else { panic!("expected messages") };
    let shape: Vec<_> =
        sorted.iter().map(|(id, m)| (*id, matches!(m, Message::Slot(_)))).collect();
    assert_eq!(shape, vec![(1, true), (2, false), (3, true), (3, false)]);
    assert_eq!(client.next_message(), Some(0));
    let stop = client.update_sent(SendOutcome::Closed).unwrap();
    silent(&stop, DisconnectReason::ClientClosed);
}

#[test]
fn replay_that_fails_ends_the_loop() {
    let step = awaiting(7).replayed(Some(ReplayedResponse::Lagged(1200)));
    let ReplayStep::Stop(stop) = step else { panic!("expected a stop") };
    told(
        &stop,
        DisconnectReason::SlotUnavailable,
        StatusCode::OutOfRange,
        "broadcast from 7 is not available, last available: 1200",
    );
    assert_eq!(stop.reason.label(), "slot_unavailable");

    let ReplayStep::Stop(stop) = awaiting(7).replayed(None) else { panic!("expected a stop") };
    told(
        &stop,
        DisconnectReason::ReplayError,
        StatusCode::Internal,
        "failed to get replay response",
    );
    assert_eq!(stop.reason.label(), "replay_error");

    let mut client = idle();
    client.requested(Some((Some(1), CommitmentLevel::Processed)));
    let stop = client.handed_over(false).unwrap();
    told(
        &stop,
        DisconnectReason::ReplayError,
        StatusCode::Internal,
        "failed to send from_slot request",
    );
}

#[test]
fn latest_request_counts() {
    assert_eq!(latest_request(Some(1), vec![], false), Some(1));
    assert_eq!(latest_request(Some(1), vec![2, 3], false), Some(3));
    assert_eq!(latest_request(Some(1), vec![2, 3], true), None);
    assert_eq!(latest_request::<u8>(None, vec![], false), None);
}

#[test]
fn updates_are_counted_up_to_a_limit() {
    assert_eq!(counted_size(12), 12);
    assert_eq!(counted_size(u32::MAX as usize + 1), u32::MAX);
    assert_eq!(DisconnectReason::Unknown.label(), "unknown");
}

#[test]
fn watchers_are_told_of_processed_slots() {
    let messages = || vec![(1, status(5)), (2, entry(6)), (3, status(7))];
    let processed =
        Broadcast { commitment: CommitmentLevel::Processed, messages: messages() };
    assert_eq!(watched_slots(&processed), vec![5, 7]);
    let confirmed =
        Broadcast { commitment: CommitmentLevel::Confirmed, messages: messages() };
    assert!(watched_slots(&confirmed).is_empty());
}

#[test]
fn snapshot_waits_for_its_filter() {
    let mut snapshot = SnapshotLoop::new();
    assert_eq!(
        snapshot.on_event(SnapshotEvent::Request { is_ping: true }),
        SnapshotAction::SendPong
    );
    assert_eq!(
        snapshot.on_event(SnapshotEvent::Sent { sent: true }),
        SnapshotAction::Continue
    );
    assert_eq!(snapshot.phase(), SnapshotPhase::AwaitingFilter);
    assert_eq!(
        snapshot.on_event(SnapshotEvent::Request { is_ping: false }),
        SnapshotAction::SetFilter
    );
    assert_eq!(snapshot.phase(), SnapshotPhase::Streaming);
    assert_eq!(snapshot.on_event(SnapshotEvent::Empty), SnapshotAction::Pause);
    assert_eq!(
        snapshot.on_event(SnapshotEvent::Message { matches: false }),
        SnapshotAction::Continue
    );
    assert_eq!(
        snapshot.on_event(SnapshotEvent::Message { matches: true }),
        SnapshotAction::SendUpdates
    );
    assert_eq!(
        snapshot.on_event(SnapshotEvent::Exhausted),
        SnapshotAction::End { result: Ok(()) }
    );
    assert_eq!(snapshot.phase(), SnapshotPhase::Ended { result: Ok(()) });
}

#[test]
fn snapshot_can_be_broken_off() {
    let closed = Err(ClientSnapshotReplayError::ClientGrpcConnectionClosed);
    let cancelled = Err(ClientSnapshotReplayError::Cancelled);
    let mut snapshot = SnapshotLoop::new();
    assert_eq!(
        snapshot.on_event(SnapshotEvent::Gone),
        SnapshotAction::End { result: closed }
    );
    let mut snapshot = SnapshotLoop::new();
    snapshot.on_event(SnapshotEvent::Request { is_ping: false });
    assert_eq!(
        snapshot.on_event(SnapshotEvent::Cancelled),
        SnapshotAction::End { result: cancelled }
    );
    let mut snapshot = SnapshotLoop::new();
    snapshot.on_event(SnapshotEvent::Request { is_ping: true });
    assert_eq!(
        snapshot.on_event(SnapshotEvent::Sent { sent: false }),
        SnapshotAction::End { result: closed }
    );

    let stop = ClientSnapshotReplayError::Cancelled.stop();
    assert_eq!(stop.reason, DisconnectReason::ServerShutdown);
    let Farewell::IfRoom(status) = stop.farewell else { panic!("expected a farewell") };
    assert_eq!(status.code, StatusCode::Internal);
    assert_eq!(status.message, "server is shutting down try again later");
    silent(
        &ClientSnapshotReplayError::ClientGrpcConnectionClosed.stop(),
        DisconnectReason::ClientClosed,
    );
    assert_eq!(
        ClientSnapshotReplayError::ClientGrpcConnectionClosed.message(),
        "gRPC connection closed"
    );
    assert_eq!(
        ClientSnapshotReplayError::Cancelled.message(),
        "client session is cancelled by plugin"
    );
}
