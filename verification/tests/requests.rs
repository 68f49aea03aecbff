use geyser_fanout::access::{
    authorize, endpoint_or_empty, get_block_height, get_latest_blockhash, get_slot,
    is_blockhash_valid, on_incoming, ping, stream_capacity, subscribe_deshred, while_running,
    IncomingAction, IncomingEvent,
};
use geyser_fanout::block_meta::{BlockMetaStorage, BlockhashStatus};
use geyser_fanout::message::{
    CommitmentLevel, Message, MessageBlockMeta, MessageEntry, MessageSlot, SlotStatus, Timestamp,
};
use geyser_fanout::service::{
    encrypts, ignores_tls, ListenerKind, Pipeline, ServiceConfig, ServicePlan,
};
use geyser_fanout::status::{Status, StatusCode};
use geyser_fanout::subscribe::{subscribe, SubscribeHeaders, SubscribeLimits};
use geyser_fanout::subscription::{enter, identify, Admission, ClientSession, Tally};
use std::sync::Arc;

const NOW: Timestamp = Timestamp { seconds: 1, nanos: 2 };

fn status(slot: u64, status: SlotStatus) -> Message {
    Message::Slot(MessageSlot { slot, parent: None, status, dead_error: None, created_at: NOW })
}

fn meta(slot: u64, block_height: Option<u64>) -> Message {
    Message::BlockMeta(Arc::new(MessageBlockMeta {
        slot,
        blockhash: format!("hash-{slot}"),
        rewards: None,
        block_time: Some(7),
        block_height,
        parent_slot: slot.saturating_sub(1),
        parent_blockhash: String::new(),
        executed_transaction_count: 0,
        entries_count: 0,
        created_at: NOW,
    }))
}

fn says<T>(answer: Result<T, Status>, code: StatusCode, text: &str) {
    match answer {
        Ok(_) => panic!("expected a refusal: {text}"),
        Err(refusal) => assert_eq!((refusal.code, refusal.message.as_str()), (code, text)),
    }
}

#[test]
fn test_subscription_tracker_decrements_on_session_drop() {
    let mut tracker = Tally::new();
    let mut peers = Tally::new();
    assert_eq!(tracker.increment("sub-1"), 1);
    assert_eq!(tracker.increment("sub-1"), 2);
    assert_eq!(tracker.get("sub-1").unwrap(), 2);

    {
        let (session, _) =
            ClientSession::new(0, Some("sub-1".into()), "".into(), None, &mut peers);
        assert_eq!(tracker.get("sub-1").unwrap(), 2);
        session.close(&mut tracker, &mut peers);
    }
    assert_eq!(tracker.get("sub-1").unwrap(), 1);

    {
        let (session, _) =
            ClientSession::new(1, Some("sub-1".into()), "".into(), None, &mut peers);
        session.close(&mut tracker, &mut peers);
    }
    assert!(tracker.get("sub-1").is_none());
}

#[test]
fn test_subscription_tracker_skips_unidentified_subscribers() {
    let mut tracker = Tally::new();
    let mut peers = Tally::new();
    assert_eq!(enter(&mut tracker, None, 1, true).unwrap(), Admission::WithinLimit);
    {
        let (session, _) = ClientSession::new(0, None, "".into(), None, &mut peers);
        assert_eq!(session.subscriber_id, "UNKNOWN");
        session.close(&mut tracker, &mut peers);
    }
    assert!(tracker.is_empty());
}

#[test]
fn limit_is_enforced_where_it_is_asked_for() {
    let mut tracker = Tally::new();
    assert_eq!(enter(&mut tracker, Some("a"), 2, true).unwrap(), Admission::WithinLimit);
    assert_eq!(enter(&mut tracker, Some("a"), 2, true).unwrap(), Admission::WithinLimit);
    says(
        enter(&mut tracker, Some("a"), 2, true),
        StatusCode::ResourceExhausted,
        "max subscription limit exceeded",
    );
    assert_eq!(tracker.get("a"), Some(2));
    assert_eq!(enter(&mut tracker, Some("a"), 2, false).unwrap(), Admission::OverLimit);
    assert_eq!(tracker.get("a"), Some(3));
    assert_eq!(enter(&mut tracker, Some("b"), 2, true).unwrap(), Admission::WithinLimit);
    assert_eq!(enter(&mut tracker, Some("c"), 0, true).unwrap(), Admission::WithinLimit);
    assert_eq!(tracker.get("c"), None);
}

#[test]
fn sessions_are_counted_by_connection() {
    let mut tracker = Tally::new();
    let mut peers = Tally::new();
    let peer = || Some("10.0.0.1:80".to_string());
    let (first, one) = ClientSession::new(4, None, "e".into(), peer(), &mut peers);
    let (second, two) = ClientSession::new(5, None, "e".into(), peer(), &mut peers);
    assert_eq!((one, two), (Some(1), Some(2)));
    assert_eq!((first.id, first.endpoint.as_str()), (4, "e"));
    assert_eq!(first.close(&mut tracker, &mut peers), Some(1));
    assert_eq!(second.close(&mut tracker, &mut peers), Some(0));
    assert!(peers.is_empty());
    assert_eq!(second.close(&mut tracker, &mut peers), None);
}

#[test]
fn subscription_begins() {
    let mut tally = Tally::new();
    let mut next_id = 6;
    let limits = SubscribeLimits {
        subscription_limit: 1,
        subscription_limit_enforce: true,
        snapshot_channel_capacity: 50,
        channel_capacity: 20,
    };
    let headers = |wants_snapshot| SubscribeHeaders {
        subscription_id: None,
        remote_ip: Some("1.2.3.4".to_string()),
        endpoint: None,
        wants_snapshot,
    };
    let begun =
        subscribe(&mut tally, &mut next_id, headers(true), limits, false, true).unwrap();
    assert_eq!(begun.id, 6);
    assert_eq!(begun.subscriber_id.as_deref(), Some("1.2.3.4"));
    assert_eq!(begun.admission, Admission::WithinLimit);
    assert_eq!(begun.endpoint, "");
    assert!(begun.takes_snapshot);
    assert_eq!(begun.capacity, 50);
    assert_eq!(next_id, 7);

    says(
        subscribe(&mut tally, &mut next_id, headers(true), limits, false, true),
        StatusCode::ResourceExhausted,
        "max subscription limit exceeded",
    );
    assert_eq!((tally.get("1.2.3.4"), next_id), (Some(1), 7));

    let lenient = SubscribeLimits { subscription_limit_enforce: false, ..limits };
    let begun =
        subscribe(&mut tally, &mut next_id, headers(true), lenient, false, false).unwrap();
    assert_eq!(begun.admission, Admission::OverLimit);
    assert!(!begun.takes_snapshot);
    assert_eq!(begun.capacity, 20);

    next_id = u64::MAX;
    says(
        subscribe(&mut tally, &mut next_id, headers(false), lenient, true, false),
        StatusCode::Unavailable,
        "server is shutting down",
    );
    assert_eq!((tally.get("1.2.3.4"), next_id), (Some(3), 0));
}

#[test]
fn subscriber_is_named_by_its_header_first() {
    let text = |s: &str| Some(s.to_string());
    assert_eq!(identify(text("id"), text("1.2.3.4")), text("id"));
    assert_eq!(identify(None, text("1.2.3.4")), text("1.2.3.4"));
    assert_eq!(identify(None, None), None);
}

#[test]
fn token_is_checked_where_there_is_one() {
    assert!(authorize(None, None).is_ok());
    assert!(authorize(None, Some(b"x")).is_ok());
    assert!(authorize(Some(b"secret"), Some(b"secret")).is_ok());
    let refused = |given| {
        says(authorize(Some(b"secret"), given), StatusCode::Unauthenticated, "No valid auth token")
    };
    refused(None);
    refused(Some(b"secre".as_slice()));
    refused(Some(b"secreT".as_slice()));
}

#[test]
fn requests_are_let_in_while_the_server_runs() {
    assert!(while_running(false).is_ok());
    says(while_running(true), StatusCode::Unavailable, "server is shutting down");
    assert_eq!(stream_capacity(true, 5, 9), 5);
    assert_eq!(stream_capacity(false, 5, 9), 9);
    assert_eq!(endpoint_or_empty(None), "");
    assert_eq!(endpoint_or_empty(Some("x".to_string())), "x");
    assert_eq!(ping(3), 3);
    let refusal = subscribe_deshred();
    assert_eq!(refusal.code, StatusCode::Unimplemented);
    assert_eq!(refusal.message, "SubscribeDeshred is not available on this server");
}

#[test]
fn incoming_requests_are_taken_up() {
    assert!(matches!(on_incoming(IncomingEvent::Cancelled), IncomingAction::End));
    assert!(matches!(on_incoming(IncomingEvent::Ping), IncomingAction::SendPong));
    assert!(matches!(on_incoming(IncomingEvent::Filter), IncomingAction::HandOver));
    assert!(matches!(on_incoming(IncomingEvent::HalfClosed), IncomingAction::AwaitCancellation));
    assert!(matches!(on_incoming(IncomingEvent::Failed), IncomingAction::Disconnect));
    for event in [
        IncomingEvent::BadFilter("too many".to_string()),
        IncomingEvent::NotHandedOver("too many".to_string()),
    ] {
        let IncomingAction::Refuse(refusal) = on_incoming(event) else {
            panic!("expected a refusal")
        };
        assert_eq!(refusal.code, StatusCode::InvalidArgument);
        assert_eq!(refusal.message, "failed to create filter: too many");
    }
}

#[test]
fn commitments_are_parsed() {
    let parse = BlockMetaStorage::parse_commitment;
    assert_eq!(parse(None).unwrap(), CommitmentLevel::Processed);
    assert_eq!(parse(Some(0)).unwrap(), CommitmentLevel::Processed);
    assert_eq!(parse(Some(1)).unwrap(), CommitmentLevel::Confirmed);
    assert_eq!(parse(Some(2)).unwrap(), CommitmentLevel::Finalized);
    says(parse(Some(3)), StatusCode::Unknown, "failed to create CommitmentLevel from 3");
    says(parse(Some(-1)), StatusCode::Unknown, "failed to create CommitmentLevel from -1");
    says(
        parse(Some(i32::MIN)),
        StatusCode::Unknown,
        "failed to create CommitmentLevel from -2147483648",
    );
}

#[test]
fn unary_requests_are_answered_from_the_latest_slots() {
    let mut storage = BlockMetaStorage::new();
    says(get_slot(Some(&storage), None), StatusCode::Internal, "block is not available yet");
    assert!(storage.update(&meta(7, Some(70))));
    assert!(storage.update(&status(7, SlotStatus::Processed)));
    assert_eq!(get_slot(Some(&storage), None).unwrap(), 7);
    assert_eq!(get_block_height(Some(&storage), Some(0)).unwrap(), 70);
    let latest = get_latest_blockhash(Some(&storage), None).unwrap();
    assert_eq!(latest.slot, 7);
    assert_eq!(latest.blockhash, "hash-7");
    assert_eq!(latest.last_valid_block_height, 370);
    says(
        get_slot(Some(&storage), Some(1)),
        StatusCode::Internal,
        "block is not available yet",
    );
    storage.update(&meta(8, None));
    storage.update(&status(8, SlotStatus::Confirmed));
    assert_eq!(get_slot(Some(&storage), Some(1)).unwrap(), 8);
    says(
        get_block_height(Some(&storage), Some(1)),
        StatusCode::Internal,
        "failed to build response",
    );
    says(
        get_latest_blockhash(Some(&storage), Some(1)),
        StatusCode::Internal,
        "failed to build response",
    );
    says(
        get_slot(Some(&storage), Some(9)),
        StatusCode::Unknown,
        "failed to create CommitmentLevel from 9",
    );
}

#[test]
fn unary_requests_can_be_switched_off() {
    says(get_slot(None, None), StatusCode::Unimplemented, "method disabled");
    says(get_block_height(None, None), StatusCode::Unimplemented, "method disabled");
    says(get_latest_blockhash(None, None), StatusCode::Unimplemented, "method disabled");
    says(is_blockhash_valid(None, "x", None), StatusCode::Unimplemented, "method disabled");
}

#[test]
fn only_statuses_and_metas_are_stored() {
    let mut storage = BlockMetaStorage::new();
    let entry = Message::Entry(Arc::new(MessageEntry {
        slot: 1,
        index: 0,
        num_hashes: 0,
        hash: [0; 32],
        executed_transaction_count: 0,
        starting_transaction_index: 0,
        created_at: NOW,
    }));
    assert!(!storage.update(&entry));
}

#[test]
fn metas_are_dropped_behind_a_finalized_slot() {
    let mut storage = BlockMetaStorage::new();
    for slot in 1..=10 {
        storage.update(&meta(slot, Some(slot)));
    }
    storage.update(&status(6, SlotStatus::Confirmed));
    storage.update(&status(10, SlotStatus::Finalized));
    says(
        get_slot(Some(&storage), Some(1)),
        StatusCode::Internal,
        "block is not available yet",
    );
    storage.update(&status(7, SlotStatus::Confirmed));
    assert_eq!(get_slot(Some(&storage), Some(1)).unwrap(), 7);
}

#[test]
fn blockhashes_are_valid_while_they_are_recent() {
    let mut storage = BlockMetaStorage::new();
    let ask = |storage: &BlockMetaStorage, hash: &str, commitment| {
        is_blockhash_valid(Some(storage), hash, Some(commitment))
    };
    for slot in 1..=331 {
        storage.update(&meta(slot, Some(slot)));
        storage.update(&status(slot, SlotStatus::Processed));
    }
    says(ask(&storage, "hash-1", 0), StatusCode::Internal, "startup");
    storage.update(&meta(332, Some(332)));
    storage.update(&status(332, SlotStatus::Processed));
    let answer = ask(&storage, "hash-1", 0).unwrap();
    assert_eq!((answer.valid, answer.slot), (true, 332));
    assert!(!ask(&storage, "hash-999", 0).unwrap().valid);
    says(ask(&storage, "hash-1", 1), StatusCode::Internal, "startup");
    storage.update(&status(332, SlotStatus::Confirmed));
    assert!(!ask(&storage, "hash-1", 1).unwrap().valid);
    assert!(ask(&storage, "hash-332", 1).unwrap().valid);

    // slot 334 is finalized: only the blockhashes from slot 2 on are kept
    storage.update(&meta(333, Some(333)));
    storage.update(&status(333, SlotStatus::Dead));
    storage.update(&meta(334, Some(334)));
    storage.update(&status(334, SlotStatus::Finalized));
    assert!(!ask(&storage, "hash-1", 0).unwrap().valid);
    assert!(ask(&storage, "hash-2", 0).unwrap().valid);
    assert!(!ask(&storage, "hash-333", 0).unwrap().valid);
    assert!(ask(&storage, "hash-334", 2).unwrap().valid);
    assert_eq!(
        BlockhashStatus::new(4),
        BlockhashStatus { slot: 4, processed: false, confirmed: false, finalized: false }
    );
}

#[test]
fn service_is_set_up_as_configured() {
    let config = ServiceConfig {
        snapshot_plugin_channel_capacity: Some(8),
        unary_disabled: false,
        replay_stored_slots: 149,
        geyser_dispatch_cpu_core: None,
    };
    assert_eq!(
        config.plan(false),
        ServicePlan {
            snapshot_capacity: Some(8),
            answers_unary: true,
            first_available_slot: Some(u64::MAX),
            pipeline: Pipeline::Loop,
            warns_of_few_slots: true,
        }
    );
    assert_eq!(config.plan(true).snapshot_capacity, None);
    let config = ServiceConfig {
        snapshot_plugin_channel_capacity: None,
        unary_disabled: true,
        replay_stored_slots: 0,
        geyser_dispatch_cpu_core: Some(3),
    };
    let plan = config.plan(false);
    assert_eq!(plan.first_available_slot, None);
    assert_eq!(plan.pipeline, Pipeline::Threads { cpu_core: 3 });
    assert!(!plan.answers_unary);
    let config = ServiceConfig { replay_stored_slots: 150, ..config };
    assert!(!config.plan(false).warns_of_few_slots);

    assert!(encrypts(ListenerKind::Tcp, true));
    assert!(!encrypts(ListenerKind::Tcp, false));
    assert!(!encrypts(ListenerKind::Unix, true));
    assert!(ignores_tls(ListenerKind::Unix, true));
    assert!(!ignores_tls(ListenerKind::Tcp, true));
}
