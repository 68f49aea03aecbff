use bytes::Bytes;
use geyser_fanout::broadcast::{flush_processed_batch, Broadcast};
use geyser_fanout::dispatch::{
    is_for_block_meta, restarts_wait, DispatchStep, GeyserDispatch, GeyserLoop,
    ReconstructionDispatch, PROCESSED_MESSAGES_SLEEP_MILLIS,
};
use geyser_fanout::message::{
    CommitmentLevel, Message, MessageAccount, MessageAccountInfo, MessageBlockMeta, MessageEntry,
    MessageSlot, MessageTransaction, MessageTransactionInfo, Numbered, Pubkey, SlotStatus,
    Timestamp,
};
use geyser_fanout::message_id::MessageId;
use geyser_fanout::reconstruction::ReplayedResponse;
use std::collections::VecDeque;
use std::sync::Arc;

const NOW: Timestamp = Timestamp { seconds: 1_700_000_000, nanos: 5 };

fn key(seed: u8) -> Pubkey {
    Pubkey { bytes: [seed; 32] }
}

fn unique_signature(seed: u64) -> [u8; 64] {
    let mut bytes = [0u8; 64];
    bytes[..8].copy_from_slice(&seed.to_le_bytes());
    bytes
}

fn make_slot(slot: u64, parent: Option<u64>, status: SlotStatus) -> Message {
    Message::Slot(MessageSlot { slot, parent, status, dead_error: None, created_at: NOW })
}

fn make_account(slot: u64, pubkey: Pubkey, write_version: u64) -> Message {
    Message::Account(MessageAccount {
        account: Arc::new(MessageAccountInfo {
            pubkey,
            lamports: 0,
            owner: Pubkey { bytes: [0; 32] },
            executable: false,
            rent_epoch: 0,
            data: Bytes::new(),
            write_version,
            txn_signature: None,
            pre_encoded: None,
        }),
        slot,
        is_startup: false,
        created_at: NOW,
    })
}

fn make_transaction(slot: u64, signature: [u8; 64]) -> Message {
    Message::Transaction(MessageTransaction {
        transaction: Arc::new(MessageTransactionInfo {
            signature,
            is_vote: false,
            transaction: Bytes::new(),
            meta: Bytes::new(),
            index: 0,
            account_keys: Arc::new(Vec::new()),
            pre_encoded: None,
        }),
        slot,
        created_at: NOW,
    })
}

fn make_entry(slot: u64, index: u64) -> Message {
    Message::Entry(Arc::new(MessageEntry {
        slot,
        index,
        num_hashes: 0,
        hash: [0; 32],
        executed_transaction_count: 0,
        starting_transaction_index: 0,
        created_at: NOW,
    }))
}

fn make_block_meta(slot: u64, executed_transaction_count: u64, entries_count: u64) -> Message {
    Message::BlockMeta(Arc::new(MessageBlockMeta {
        slot,
        blockhash: format!("hash-{slot}"),
        rewards: None,
        block_time: None,
        block_height: None,
        parent_slot: slot.saturating_sub(1),
        parent_blockhash: String::new(),
        executed_transaction_count,
        entries_count,
        created_at: NOW,
    }))
}

#[derive(Clone, Copy)]
enum DispatchKind {
    Loop,
    Dispatch,
}

/// The two threads, with the channel between them.
struct Threads {
    source: MessageId,
    dispatch: GeyserDispatch,
    reconstruction: ReconstructionDispatch,
    channel: VecDeque<Numbered>,
    gated: bool,
    out: Vec<Broadcast>,
}

impl Threads {
    fn new(replay_stored_slots: u64, processed_messages_max: usize, gated: bool) -> Self {
        Threads {
            source: MessageId::default(),
            dispatch: GeyserDispatch::new(processed_messages_max),
            reconstruction: ReconstructionDispatch::new(
                Some(u64::MAX),
                replay_stored_slots,
                processed_messages_max,
            ),
            channel: VecDeque::new(),
            gated,
            out: Vec::new(),
        }
    }

    fn send(&mut self, message: Message) {
        let numbered = GeyserDispatch::number(&mut self.source, message);
        self.channel.push_back(numbered.clone());
        match self.dispatch.on_message(numbered, true) {
            DispatchStep::Send(broadcast) => self.out.push(broadcast),
            DispatchStep::Continue => {}
            DispatchStep::Stop => panic!("unexpected stop"),
        }
        if !self.gated {
            self.drain();
        }
    }

    /// One turn of the thread that puts blocks together, with a request that may wait.
    fn turn(&mut self, request: Option<(CommitmentLevel, u64)>) -> Option<ReplayedResponse> {
        match self.channel.pop_front() {
            Some((id, message)) => {
                let mut own = self.reconstruction.reserve(&mut self.source, id, &message).unwrap();
                self.out.extend(self.reconstruction.on_message(&mut own, id, message));
                None
            }
            None => {
                let (broadcast, response) = self.reconstruction.on_idle(request);
                self.out.extend(broadcast);
                response
            }
        }
    }

    fn drain(&mut self) {
        while !self.channel.is_empty() {
            assert!(self.turn(None).is_none());
        }
        assert!(self.turn(None).is_none());
    }
}

enum Pipeline {
    Loop(GeyserLoop, Vec<Broadcast>),
    Threads(Threads),
}

fn spawn_dispatch(kind: DispatchKind, replay_stored_slots: u64, max: usize) -> Pipeline {
    match kind {
        DispatchKind::Loop => {
            Pipeline::Loop(GeyserLoop::new(Some(u64::MAX), replay_stored_slots, max), Vec::new())
        }
        DispatchKind::Dispatch => {
            Pipeline::Threads(Threads::new(replay_stored_slots, max, false))
        }
    }
}

impl Pipeline {
    fn send(&mut self, message: Message) {
        match self {
            Pipeline::Loop(geyser_loop, out) => out.extend(geyser_loop.on_message(message)),
            Pipeline::Threads(threads) => threads.send(message),
        }
    }

    fn received(&mut self) -> Vec<Broadcast> {
        match self {
            Pipeline::Loop(_, out) => std::mem::take(out),
            Pipeline::Threads(threads) => std::mem::take(&mut threads.out),
        }
    }

    fn replay(&mut self, slot: u64) -> ReplayedResponse {
        match self {
            Pipeline::Loop(geyser_loop, _) => {
                geyser_loop.service_replay(CommitmentLevel::Processed, slot)
            }
            Pipeline::Threads(threads) => {
                threads.turn(Some((CommitmentLevel::Processed, slot))).expect("a response")
            }
        }
    }

    fn replay_first_available_slot(&mut self) -> Option<u64> {
        match self {
            Pipeline::Loop(geyser_loop, _) => {
                geyser_loop.reconstruction().replay_first_available_slot()
            }
            Pipeline::Threads(threads) => {
                threads.reconstruction.reconstruction().replay_first_available_slot()
            }
        }
    }
}

fn to(broadcasts: Vec<Broadcast>, commitment: CommitmentLevel) -> Vec<Numbered> {
    broadcasts
        .into_iter()
        .filter(|broadcast| broadcast.commitment == commitment)
        .flat_map(|broadcast| broadcast.messages)
        .collect()
}

fn run_dedup_by_write_version(kind: DispatchKind) {
    let mut tx = spawn_dispatch(kind, 100, 1);
    let pubkey = key(1);
    tx.send(make_account(10, pubkey, 5));
    tx.send(make_account(10, pubkey, 2));
    tx.send(make_slot(10, None, SlotStatus::Confirmed));

    let write_versions: Vec<_> = to(tx.received(), CommitmentLevel::Confirmed)
        .iter()
        .filter_map(|(_, m)| match m {
            Message::Account(a) => Some(a.account.write_version),
            _ => None,
        })
        .collect();
    assert_eq!(
        write_versions,
        vec![5],
        "only the higher write_version account update should survive dedup"
    );
}

#[test]
fn test_dedup_by_write_version_loop() {
    run_dedup_by_write_version(DispatchKind::Loop);
}

#[test]
fn test_dedup_by_write_version_dispatch() {
    run_dedup_by_write_version(DispatchKind::Dispatch);
}

fn run_block_seal_on_matching_counts(kind: DispatchKind) {
    let mut tx = spawn_dispatch(kind, 100, 1);
    tx.send(make_block_meta(50, 1, 1));
    tx.send(make_transaction(50, unique_signature(1)));
    tx.send(make_entry(50, 0));

    let saw_block = to(tx.received(), CommitmentLevel::Processed)
        .iter()
        .any(|(_, m)| matches!(m, Message::Block(_)));
    assert!(
        saw_block,
        "a sealed Block message should be produced once tx and entry counts match block_meta"
    );
}

#[test]
fn test_block_seal_on_matching_counts_loop() {
    run_block_seal_on_matching_counts(DispatchKind::Loop);
}

#[test]
fn test_block_seal_on_matching_counts_dispatch() {
    run_block_seal_on_matching_counts(DispatchKind::Dispatch);
}

fn run_block_seal_gated_by_mismatched_counts(kind: DispatchKind) {
    let mut tx = spawn_dispatch(kind, 100, 1);
    tx.send(make_block_meta(60, 2, 0));
    tx.send(make_transaction(60, unique_signature(2)));

    let received = tx.received();
    assert_eq!(received.len(), 2);
    for broadcast in received {
        assert_eq!(broadcast.commitment, CommitmentLevel::Processed);
        assert!(!broadcast.messages.iter().any(|(_, m)| matches!(m, Message::Block(_))));
    }
}

#[test]
fn test_block_seal_gated_by_mismatched_counts_loop() {
    run_block_seal_gated_by_mismatched_counts(DispatchKind::Loop);
}

#[test]
fn test_block_seal_gated_by_mismatched_counts_dispatch() {
    run_block_seal_gated_by_mismatched_counts(DispatchKind::Dispatch);
}

fn run_duplicate_block_meta_overwrites(kind: DispatchKind) {
    let mut tx = spawn_dispatch(kind, 100, 1);
    tx.send(make_block_meta(70, 1, 0));
    tx.send(make_block_meta(70, 2, 0));
    tx.send(make_transaction(70, unique_signature(3)));
    tx.send(make_transaction(70, unique_signature(4)));

    let mut saw_block = false;
    for (_, message) in to(tx.received(), CommitmentLevel::Processed) {
        if let Message::Block(block) = message {
            assert_eq!(
                block.meta.executed_transaction_count, 2,
                "sealed block should reflect the second (duplicate) BlockMeta, not the first"
            );
            saw_block = true;
        }
    }
    assert!(
        saw_block,
        "block should still seal (using the most recently stored BlockMeta) after a duplicate arrives, without panicking"
    );
}

#[test]
fn test_duplicate_block_meta_overwrites_loop() {
    run_duplicate_block_meta_overwrites(DispatchKind::Loop);
}

#[test]
fn test_duplicate_block_meta_overwrites_dispatch() {
    run_duplicate_block_meta_overwrites(DispatchKind::Dispatch);
}

fn run_missed_status_backfill(kind: DispatchKind) {
    let mut tx = spawn_dispatch(kind, 100, 1);
    tx.send(make_slot(100, None, SlotStatus::Processed));
    tx.send(make_slot(101, Some(100), SlotStatus::Processed));
    tx.send(make_slot(102, Some(101), SlotStatus::Processed));
    tx.send(make_slot(102, Some(101), SlotStatus::Confirmed));

    let confirmed_slots: Vec<_> = to(tx.received(), CommitmentLevel::Confirmed)
        .iter()
        .filter_map(|(_, m)| match m {
            Message::Slot(s) if s.status == SlotStatus::Confirmed => Some(s.slot),
            _ => None,
        })
        .collect();
    assert!(
        confirmed_slots.contains(&100),
        "ancestor slot 100 should get a synthesized Confirmed status backfilled from slot 102"
    );
    assert!(
        confirmed_slots.contains(&101),
        "ancestor slot 101 should get a synthesized Confirmed status backfilled from slot 102"
    );
}

#[test]
fn test_missed_status_backfill_loop() {
    run_missed_status_backfill(DispatchKind::Loop);
}

#[test]
fn test_missed_status_backfill_dispatch() {
    run_missed_status_backfill(DispatchKind::Dispatch);
}

fn run_gc_retains_until_safety_buffer(kind: DispatchKind) {
    const FINALIZATION_SAFETY_BUFFER: u64 = 10;
    let replay_stored_slots = 5u64;
    let mut tx = spawn_dispatch(kind, replay_stored_slots, 1);
    for slot in 1..=30u64 {
        tx.send(make_account(slot, key(slot as u8), 1));
    }
    tx.send(make_slot(30, Some(29), SlotStatus::Finalized));

    let expected_earliest = 30 - (FINALIZATION_SAFETY_BUFFER + replay_stored_slots);
    assert_eq!(
        tx.replay_first_available_slot(),
        Some(expected_earliest),
        "earliest surviving slot should be exactly FINALIZATION_SAFETY_BUFFER + replay_stored_slots \
         behind the finalized slot: not gc'd before that boundary, not retained past it"
    );
}

#[test]
fn test_gc_retains_until_safety_buffer_loop() {
    run_gc_retains_until_safety_buffer(DispatchKind::Loop);
}

#[test]
fn test_gc_retains_until_safety_buffer_dispatch() {
    run_gc_retains_until_safety_buffer(DispatchKind::Dispatch);
}

fn run_replay_buffer_servicing(kind: DispatchKind) {
    let mut tx = spawn_dispatch(kind, 1000, 1);
    for slot in 10..=15u64 {
        tx.send(make_slot(slot, Some(slot.saturating_sub(1)), SlotStatus::Processed));
    }

    match tx.replay(12) {
        ReplayedResponse::Messages(messages) => {
            let slots: Vec<_> = messages
                .iter()
                .filter_map(|(_, m)| match m {
                    Message::Slot(s) => Some(s.slot),
                    _ => None,
                })
                .collect();
            assert_eq!(slots, vec![12, 13, 14, 15]);
        }
        ReplayedResponse::Lagged(slot) => {
            panic!("expected in-range replay messages, got Lagged({slot})")
        }
    }
    match tx.replay(5) {
        ReplayedResponse::Lagged(earliest) => assert_eq!(earliest, 10),
        ReplayedResponse::Messages(_) => {
            panic!("expected a Lagged response for an out-of-range from_slot")
        }
    }
}

#[test]
fn test_replay_buffer_servicing_loop() {
    run_replay_buffer_servicing(DispatchKind::Loop);
}

#[test]
fn test_replay_buffer_servicing_dispatch() {
    run_replay_buffer_servicing(DispatchKind::Dispatch);
}

fn run_live_ordering_no_backfill(kind: DispatchKind) {
    let mut tx = spawn_dispatch(kind, 100, 1);
    tx.send(make_account(200, key(1), 1));
    tx.send(make_account(200, key(2), 1));
    tx.send(make_transaction(200, unique_signature(5)));

    let received = tx.received();
    assert_eq!(received.len(), 3);
    let mut msgids = Vec::new();
    for broadcast in received {
        assert_eq!(broadcast.commitment, CommitmentLevel::Processed);
        msgids.extend(broadcast.messages.iter().map(|m| m.0));
    }
    assert!(
        msgids.windows(2).all(|w| w[0] < w[1]),
        "live Processed messages should arrive in strictly increasing msgid order \
         when no missed-status backfill occurs, got {msgids:?}"
    );
}

#[test]
fn test_live_ordering_no_backfill_loop() {
    run_live_ordering_no_backfill(DispatchKind::Loop);
}

#[test]
fn test_live_ordering_no_backfill_dispatch() {
    run_live_ordering_no_backfill(DispatchKind::Dispatch);
}

fn run_live_ordering_backfill(kind: DispatchKind) {
    let mut tx = spawn_dispatch(kind, 100, 1);
    tx.send(make_slot(300, None, SlotStatus::Processed));
    tx.send(make_slot(301, Some(300), SlotStatus::Processed));
    tx.send(make_slot(302, Some(301), SlotStatus::Processed));
    tx.send(make_slot(302, Some(301), SlotStatus::Confirmed));

    let seen: Vec<(u64, u64)> = to(tx.received(), CommitmentLevel::Confirmed)
        .iter()
        .filter_map(|(msgid, m)| match m {
            Message::Slot(s) if s.status == SlotStatus::Confirmed => Some((*msgid, s.slot)),
            _ => None,
        })
        .collect();
    assert_eq!(
        seen.iter().map(|(_, s)| *s).collect::<Vec<_>>(),
        vec![300, 301, 302],
        "oldest backfilled ancestor should be broadcast first, then its descendant, \
         then the slot whose status update triggered the backfill"
    );
    let msgids: Vec<_> = seen.iter().map(|(id, _)| *id).collect();
    assert!(
        msgids.windows(2).all(|w| w[0] > w[1]),
        "backfilled ancestor broadcasts should arrive in msgid-decreasing order, got {msgids:?}"
    );
}

#[test]
fn test_live_ordering_backfill_loop() {
    run_live_ordering_backfill(DispatchKind::Loop);
}

#[test]
fn test_live_ordering_backfill_dispatch() {
    run_live_ordering_backfill(DispatchKind::Dispatch);
}

#[test]
fn test_decoupling_processed_flows_without_waiting_on_gated_reconstruction() {
    let mut tx = Threads::new(100, 1, true);
    tx.send(make_block_meta(500, 1, 1));
    tx.send(make_transaction(500, unique_signature(50)));
    tx.send(make_entry(500, 0));

    let pubkey = key(8);
    tx.send(make_slot(501, Some(500), SlotStatus::Processed));
    tx.send(make_account(501, pubkey, 1));
    tx.send(make_account(501, pubkey, 2));
    tx.send(make_transaction(501, unique_signature(51)));

    let mut msgids_501 = Vec::new();
    let mut write_versions_501 = Vec::new();
    let mut saw_block_500 = false;
    for (msgid, m) in to(std::mem::take(&mut tx.out), CommitmentLevel::Processed) {
        match m {
            Message::Block(b) if b.meta.slot == 500 => saw_block_500 = true,
            Message::Slot(s) if s.slot == 501 => msgids_501.push(msgid),
            Message::Account(a) if a.slot == 501 && a.account.pubkey.bytes == pubkey.bytes => {
                msgids_501.push(msgid);
                write_versions_501.push(a.account.write_version);
            }
            Message::Transaction(t) if t.slot == 501 => msgids_501.push(msgid),
            _ => {}
        }
    }
    assert!(!saw_block_500);
    assert_eq!(msgids_501.len(), 4);
    assert!(msgids_501.windows(2).all(|w| w[0] < w[1]));
    assert_eq!(write_versions_501, vec![1, 2]);
    let last_501_msgid = *msgids_501.last().unwrap();

    tx.drain();
    let block_500_msgid = to(std::mem::take(&mut tx.out), CommitmentLevel::Processed)
        .iter()
        .find_map(|(msgid, m)| match m {
            Message::Block(b) if b.meta.slot == 500 => Some(*msgid),
            _ => None,
        })
        .expect("the sealed Block message should be delivered late, not dropped");
    assert!(block_500_msgid > last_501_msgid);
}

#[test]
fn test_decoupling_confirmed_subscriber_still_gets_correct_slot_under_gate() {
    let mut tx = Threads::new(100, 1, true);
    tx.send(make_block_meta(600, 1, 1));
    tx.send(make_transaction(600, unique_signature(60)));
    tx.send(make_entry(600, 0));
    tx.send(make_slot(600, Some(599), SlotStatus::Confirmed));

    let early = to(std::mem::take(&mut tx.out), CommitmentLevel::Confirmed);
    assert!(early.is_empty(), "no Confirmed batch should arrive while gated, got {early:?}");

    tx.drain();
    let confirmed = to(std::mem::take(&mut tx.out), CommitmentLevel::Confirmed);
    assert!(confirmed.iter().all(|(_, m)| m.get_slot() == 600));
    assert!(confirmed.iter().any(|(_, m)| matches!(m, Message::Transaction(_))));
    assert!(confirmed.iter().any(|(_, m)| matches!(m, Message::Block(_))));
    assert!(confirmed
        .iter()
        .any(|(_, m)| matches!(m, Message::Slot(s) if s.status == SlotStatus::Confirmed)));
}

#[test]
fn test_reconnect_replay_blocks_until_gated_reconstruction_drains() {
    let mut tx = Threads::new(100, 1, true);
    tx.send(make_slot(700, Some(699), SlotStatus::Processed));
    tx.send(make_account(700, key(1), 1));

    let request = Some((CommitmentLevel::Processed, 700));
    let mut pending = 0;
    let response = loop {
        let backlog = tx.channel.len();
        match tx.turn(request) {
            Some(response) => break response,
            None => {
                assert!(backlog > 0, "a request may wait only for an unprocessed backlog");
                pending += 1;
            }
        }
    };
    assert_eq!(pending, 2, "the replay must stay pending until both updates were taken in");
    assert!(tx.channel.is_empty());

    match response {
        ReplayedResponse::Messages(messages) => {
            assert_eq!(messages.len(), 2);
            assert!(matches!(&messages[0], (1, Message::Slot(s)) if s.slot == 700));
            assert!(matches!(&messages[1], (2, Message::Account(a)) if a.slot == 700));
        }
        ReplayedResponse::Lagged(slot) => {
            panic!("expected in-range replay messages for slot 700, got Lagged({slot})")
        }
    }
}

#[test]
fn replay_is_answered_after_the_batch_that_waits() {
    let mut tx = Threads::new(100, 10, true);
    tx.send(make_block_meta(500, 1, 1));
    tx.send(make_transaction(500, unique_signature(50)));
    tx.send(make_entry(500, 0));
    tx.drain();
    assert!(matches!(
        tx.turn(Some((CommitmentLevel::Processed, 499))),
        Some(ReplayedResponse::Lagged(500))
    ));
    assert!(tx.turn(None).is_none());
}

#[test]
fn dispatch_stops_once_nobody_puts_blocks_together() {
    let mut source = MessageId::default();
    let mut dispatch = GeyserDispatch::new(1);
    let numbered = GeyserDispatch::number(&mut source, make_account(1, key(1), 1));
    assert!(matches!(dispatch.on_message(numbered, false), DispatchStep::Stop));
    assert!(dispatch.on_empty().is_none());
}

#[test]
fn batches_fill_up_to_their_size() {
    let mut geyser_loop = GeyserLoop::new(None, 0, 3);
    assert!(geyser_loop.on_message(make_account(1, key(1), 1)).is_empty());
    assert!(geyser_loop.on_message(make_account(1, key(2), 1)).is_empty());
    let broadcasts = geyser_loop.on_message(make_account(1, key(3), 1));
    assert_eq!(broadcasts.len(), 1);
    assert_eq!(broadcasts[0].commitment, CommitmentLevel::Processed);
    let ids: Vec<_> = broadcasts[0].messages.iter().map(|m| m.0).collect();
    assert_eq!(ids, vec![1, 2, 3]);
    for (_, message) in &broadcasts[0].messages {
        let Message::Account(msg) = message else { panic!("expected an account") };
        assert!(msg.account.pre_encoded.is_some());
    }
    assert!(geyser_loop.on_tick().is_none());
    assert!(geyser_loop.on_message(make_account(1, key(4), 1)).is_empty());
    assert_eq!(geyser_loop.on_tick().unwrap().messages[0].0, 4);
    assert!(geyser_loop.on_tick().is_none());
    assert_eq!(PROCESSED_MESSAGES_SLEEP_MILLIS, 10);
}

#[test]
fn status_ends_the_batch_and_comes_before_its_companions() {
    let mut geyser_loop = GeyserLoop::new(None, 0, 100);
    assert!(geyser_loop.on_message(make_account(1, key(1), 1)).is_empty());
    let broadcasts = geyser_loop.on_message(make_slot(1, None, SlotStatus::Confirmed));
    let shape: Vec<_> =
        broadcasts.iter().map(|b| (b.commitment, b.messages.len())).collect();
    assert_eq!(
        shape,
        vec![
            (CommitmentLevel::Processed, 2),
            (CommitmentLevel::Confirmed, 2),
            (CommitmentLevel::Finalized, 1)
        ]
    );
    let restarts: Vec<_> = broadcasts.iter().map(restarts_wait).collect();
    assert_eq!(restarts, vec![true, false, false]);
}

#[test]
fn size_of_zero_stands_for_one() {
    let mut geyser_loop = GeyserLoop::new(None, 0, 0);
    assert_eq!(geyser_loop.on_message(make_account(1, key(1), 1)).len(), 1);
    let mut dispatch = GeyserDispatch::new(0);
    let step = dispatch.on_message((9, make_account(1, key(1), 1)), true);
    assert!(matches!(step, DispatchStep::Send(_)));
}

#[test]
fn pipelines_send_the_same_messages() {
    let messages = || {
        vec![
            make_slot(1, None, SlotStatus::Processed),
            make_account(1, key(1), 1),
            make_slot(2, Some(1), SlotStatus::Processed),
            make_block_meta(2, 1, 0),
            make_transaction(2, unique_signature(1)),
            make_slot(2, Some(1), SlotStatus::Confirmed),
            make_block_meta(1, 0, 0),
            make_slot(2, Some(1), SlotStatus::Finalized),
        ]
    };
    let mut outputs = Vec::new();
    for kind in [DispatchKind::Loop, DispatchKind::Dispatch] {
        let mut tx = spawn_dispatch(kind, 100, 4);
        for message in messages() {
            tx.send(message);
        }
        outputs.push(tx.received());
    }
    let describe = |broadcasts: &Vec<Broadcast>, commitment| {
        broadcasts
            .iter()
            .filter(|b| b.commitment == commitment)
            .flat_map(|b| b.messages.iter())
            .map(|(_, m)| (m.get_kind(), m.get_slot()))
            .collect::<Vec<_>>()
    };
    for commitment in [CommitmentLevel::Confirmed, CommitmentLevel::Finalized] {
        assert_eq!(describe(&outputs[0], commitment), describe(&outputs[1], commitment));
    }
    let mut sent: Vec<Vec<String>> = outputs
        .iter()
        .map(|out| {
            describe(out, CommitmentLevel::Processed)
                .iter()
                .map(|entry| format!("{entry:?}"))
                .collect()
        })
        .collect();
    sent[0].sort();
    sent[1].sort();
    assert_eq!(sent[0], sent[1]);
}

#[test]
fn numbers_that_are_set_aside_are_not_minted_twice() {
    let mut shared = MessageId::default();
    shared.next();
    let mut own = shared.reserve(3).unwrap();
    assert_eq!((own.next(), own.next(), own.next()), (2, 3, 4));
    assert_eq!(shared.next(), 5);
    assert!(shared.reserve(u64::MAX as u128).is_none());
    assert_eq!(shared.next(), 6);
}

#[test]
fn numbers_are_set_aside_for_what_an_update_brings_about() {
    let mut reconstruction = ReconstructionDispatch::new(None, 100, 10);
    let mut source = MessageId::default();
    let mut take_in = |message: Message| {
        let before = source.last_id();
        let (id, message) = GeyserDispatch::number(&mut source, message);
        let mut own = reconstruction.reserve(&mut source, id, &message).unwrap();
        assert_eq!(own.last_id(), before + 1);
        reconstruction.on_message(&mut own, id, message);
        assert_eq!(own.last_id(), source.last_id(), "a number was left over");
        source.last_id() - before - 1
    };
    assert_eq!(take_in(make_account(1, key(1), 1)), 0);
    for slot in 1..5 {
        assert_eq!(take_in(make_slot(slot, Some(slot - 1), SlotStatus::Processed)), 0);
    }
    // a cycle of parents ends where it closes
    assert_eq!(take_in(make_slot(1, Some(4), SlotStatus::Processed)), 0);
    assert_eq!(take_in(make_slot(2, Some(1), SlotStatus::Confirmed)), 3);
    assert_eq!(take_in(make_slot(2, Some(1), SlotStatus::Confirmed)), 0);
    assert_eq!(take_in(make_block_meta(4, 1, 1)), 0);
    assert_eq!(take_in(make_entry(4, 0)), 0);
    assert_eq!(take_in(make_transaction(4, unique_signature(1))), 1);
    assert_eq!(take_in(make_transaction(4, unique_signature(2))), 0);
    assert_eq!(take_in(make_block_meta(5, 0, 0)), 1);
    // the parent is dropped before it could be told
    assert_eq!(take_in(make_slot(200, Some(4), SlotStatus::Processed)), 0);
    assert_eq!(take_in(make_slot(200, Some(4), SlotStatus::Finalized)), 0);
}

#[test]
fn threads_leave_no_number_out() {
    let mut tx = Threads::new(100, 1, false);
    tx.send(make_slot(300, Some(299), SlotStatus::Processed));
    tx.send(make_slot(301, Some(300), SlotStatus::Processed));
    tx.send(make_block_meta(301, 1, 1));
    tx.send(make_transaction(301, unique_signature(3)));
    tx.send(make_entry(301, 0));
    tx.send(make_slot(301, Some(300), SlotStatus::Confirmed));
    let sent = to(std::mem::take(&mut tx.out), CommitmentLevel::Processed);
    let mut ids: Vec<u64> = sent.iter().map(|(id, _)| *id).collect();
    ids.sort();
    assert_eq!(ids, (1..=8).collect::<Vec<u64>>());
    assert_eq!(tx.source.last_id(), 8);
}

#[test]
fn users_of_one_source_take_turns() {
    let mut source = MessageId::default();
    let mut ids = (Vec::new(), Vec::new());
    for turn in [true, true, false, true, false, false, true] {
        let id = source.next();
        if turn {
            ids.0.push(id);
        } else {
            ids.1.push(id);
        }
    }
    assert_eq!(ids, (vec![1, 2, 4, 7], vec![3, 5, 6]));
}

#[test]
fn block_meta_storage_gets_statuses_and_metas() {
    assert!(is_for_block_meta(&make_slot(1, None, SlotStatus::Dead)));
    assert!(is_for_block_meta(&make_block_meta(1, 0, 0)));
    assert!(!is_for_block_meta(&make_entry(1, 0)));
    assert!(!is_for_block_meta(&make_account(1, key(1), 0)));
}

#[test]
fn empty_batch_is_not_sent() {
    let mut batch: Vec<Numbered> = Vec::new();
    assert!(flush_processed_batch(&mut batch).is_none());
    batch.push((3, make_entry(1, 0)));
    let broadcast = flush_processed_batch(&mut batch).unwrap();
    assert_eq!(broadcast.messages.len(), 1);
    assert!(batch.is_empty());
}

fn account_of(message: &Message) -> Option<Arc<MessageAccountInfo>> {
    match message {
        Message::Account(msg) => Some(Arc::clone(&msg.account)),
        _ => None,
    }
}

#[test]
fn stored_and_sent_messages_share_one_encoded_form() {
    for kind in [DispatchKind::Loop, DispatchKind::Dispatch] {
        let mut tx = spawn_dispatch(kind, 100, 1);
        tx.send(make_account(800, key(1), 1));
        tx.send(make_block_meta(800, 1, 1));
        tx.send(make_entry(800, 0));
        tx.send(make_transaction(800, unique_signature(80)));
        tx.send(make_slot(800, Some(799), SlotStatus::Confirmed));
        let received = tx.received();

        let sent: Vec<_> = received
            .iter()
            .flat_map(|b| b.messages.iter())
            .filter_map(|(_, m)| account_of(m))
            .collect();
        assert_eq!(sent.len(), 2, "once with the update, once with the confirmation");
        assert!(sent[0].pre_encoded.is_some());
        assert!(Arc::ptr_eq(&sent[0], &sent[1]));

        let ReplayedResponse::Messages(replayed) = tx.replay(800) else {
            panic!("expected a replay");
        };
        let replayed: Vec<_> = replayed.iter().filter_map(|(_, m)| account_of(m)).collect();
        assert!(Arc::ptr_eq(&sent[0], &replayed[0]));

        let block = received
            .iter()
            .flat_map(|b| b.messages.iter())
            .find_map(|(_, m)| match m {
                Message::Block(block) => Some(Arc::clone(block)),
                _ => None,
            })
            .expect("a block");
        assert!(Arc::ptr_eq(&sent[0], &block.accounts[0]));
        assert!(block.transactions[0].pre_encoded.is_some());
    }
}

#[test]
fn status_is_the_last_message_of_its_batch() {
    for kind in [DispatchKind::Loop, DispatchKind::Dispatch] {
        let mut tx = spawn_dispatch(kind, 100, 10);
        for slot in 1..4 {
            tx.send(make_account(slot, key(1), 1));
            tx.send(make_slot(slot, Some(slot - 1), SlotStatus::Processed));
            tx.send(make_account(slot, key(2), 1));
        }
        tx.send(make_slot(3, Some(2), SlotStatus::Confirmed));
        for broadcast in tx.received() {
            let statuses = broadcast
                .messages
                .iter()
                .rev()
                .skip(1)
                .filter(|(_, m)| matches!(m, Message::Slot(_)))
                .count();
            assert_eq!(statuses, 0);
        }
    }
}

#[test]
fn pauses_keep_updates_in_order() {
    let mut dispatch = GeyserDispatch::new(3);
    let mut source = MessageId::default();
    let mut sent = Vec::new();
    for pause in [false, true, true, false, false, false, false, true] {
        if pause {
            sent.extend(dispatch.on_empty().into_iter().flat_map(|b| b.messages));
        }
        let numbered = GeyserDispatch::number(&mut source, make_account(1, key(1), 1));
        if let DispatchStep::Send(b) = dispatch.on_message(numbered, true) {
            sent.extend(b.messages);
        }
    }
    sent.extend(dispatch.on_empty().into_iter().flat_map(|b| b.messages));
    let ids: Vec<u64> = sent.iter().map(|(id, _)| *id).collect();
    assert_eq!(ids, (1..=8).collect::<Vec<u64>>());
}
