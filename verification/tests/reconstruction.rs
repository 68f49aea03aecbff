use bytes::Bytes;
use geyser_fanout::invalid::{FailureReason, InvalidBlock, MessageKind, Mismatch};
use geyser_fanout::message::{
    CommitmentLevel, Message, MessageAccount, MessageAccountInfo, MessageBlockMeta, MessageEntry,
    MessageSlot, MessageTransaction, MessageTransactionInfo, Numbered, Pubkey, SlotStatus,
    Timestamp,
};
use geyser_fanout::message_id::MessageId;
use geyser_fanout::reconstruction::{
    backfilled_status, BlockReconstructionState, DispatchItem, ReplayedResponse,
    FINALIZATION_SAFETY_BUFFER,
};
use std::sync::atomic::{AtomicU64, Ordering};
use std::sync::Arc;


const NOW: Timestamp = Timestamp { seconds: 1_700_000_000, nanos: 5 };

static NEXT_KEY: AtomicU64 = AtomicU64::new(1);

fn new_unique() -> Pubkey {
    let mut bytes = [0u8; 32];
    bytes[..8].copy_from_slice(&NEXT_KEY.fetch_add(1, Ordering::Relaxed).to_le_bytes());
    Pubkey { bytes }
}

fn unique_signature(seed: u64) -> [u8; 64] {
    let mut bytes = [0u8; 64];
    bytes[..8].copy_from_slice(&seed.to_le_bytes());
    bytes
}

fn make_slot(slot: u64, parent: Option<u64>, status: SlotStatus) -> Message {
    Message::Slot(MessageSlot { slot, parent, status, dead_error: None, created_at: NOW })
}

fn make_account(slot: u64, pubkey: Pubkey, write_version: u64) -> Message {
    Message::Account(MessageAccount {
        account: Arc::new(MessageAccountInfo {
            pubkey,
            lamports: 0,
            owner: Pubkey { bytes: [0; 32] },
            executable: false,
            rent_epoch: 0,
            data: Bytes::new(),
            write_version,
            txn_signature: None,
            pre_encoded: None,
        }),
        slot,
        is_startup: false,
        created_at: NOW,
    })
}

fn make_transaction(slot: u64, signature: [u8; 64]) -> Message {
    Message::Transaction(MessageTransaction {
        transaction: Arc::new(MessageTransactionInfo {
            signature,
            is_vote: false,
            transaction: Bytes::new(),
            meta: Bytes::new(),
            index: 0,
            account_keys: Arc::new(Vec::new()),
            pre_encoded: None,
        }),
        slot,
        created_at: NOW,
    })
}

fn make_entry(slot: u64, index: u64) -> Message {
    Message::Entry(Arc::new(MessageEntry {
        slot,
        index,
        num_hashes: 0,
        hash: [0; 32],
        executed_transaction_count: 0,
        starting_transaction_index: 0,
        created_at: NOW,
    }))
}

fn make_block_meta(slot: u64, executed_transaction_count: u64, entries_count: u64) -> Message {
    Message::BlockMeta(Arc::new(MessageBlockMeta {
        slot,
        blockhash: format!("hash-{slot}"),
        rewards: None,
        block_time: None,
        block_height: None,
        parent_slot: slot.saturating_sub(1),
        parent_blockhash: String::new(),
        executed_transaction_count,
        entries_count,
        created_at: NOW,
    }))
}

fn new_state() -> BlockReconstructionState {
    BlockReconstructionState::new(None, 100)
}

fn apply(state: &mut BlockReconstructionState, message: Message) {
    for _ in state.on_message(message) {}
}

fn has_block(items: &[DispatchItem]) -> bool {
    items.iter().any(|item| matches!(item.message.1, Message::Block(_)))
}

fn write_versions(batch: &[Numbered]) -> Vec<u64> {
    batch
        .iter()
        .filter_map(|(_, m)| match m {
            Message::Account(a) => Some(a.account.write_version),
            _ => None,
        })
        .collect()
}

fn kinds(batch: &[Numbered]) -> Vec<MessageKind> {
    batch.iter().map(|(_, m)| m.get_kind()).collect()
}

#[test]
fn dedup_by_write_version() {
    let mut state = new_state();
    let pubkey = new_unique();
    apply(&mut state, make_account(10, pubkey, 5));
    apply(&mut state, make_account(10, pubkey, 2));
    let items = state.on_message(make_slot(10, None, SlotStatus::Confirmed));

    let confirmed = items
        .into_iter()
        .find_map(|item| item.confirmed_messages)
        .expect("Confirmed slot message should carry a confirmed batch");
    assert_eq!(
        write_versions(&confirmed),
        vec![5],
        "only the higher write_version account update should survive dedup"
    );
}

#[test]
fn block_seals_when_counts_match() {
    let mut state = new_state();
    apply(&mut state, make_block_meta(50, 1, 1));
    apply(&mut state, make_transaction(50, unique_signature(1)));
    let items = state.on_message(make_entry(50, 0));

    assert!(
        has_block(&items),
        "a sealed Block message should be produced once tx and entry counts match block_meta"
    );
}

#[test]
fn block_seal_gated_by_mismatched_counts() {
    let mut state = new_state();
    assert!(!has_block(&state.on_message(make_block_meta(60, 2, 0))));
    assert!(
        !has_block(&state.on_message(make_transaction(60, unique_signature(2)))),
        "no Block message should ever be produced while tx count (1) != executed_transaction_count (2)"
    );
}

#[test]
fn gc_retains_until_safety_buffer() {
    let replay_stored_slots = 5u64;
    let mut state = BlockReconstructionState::new(None, replay_stored_slots);

    for slot in 1..=30u64 {
        apply(&mut state, make_account(slot, new_unique(), 1));
    }
    apply(&mut state, make_slot(30, Some(29), SlotStatus::Finalized));

    let expected_earliest = 30 - (FINALIZATION_SAFETY_BUFFER + replay_stored_slots);
    assert_eq!(
        state.earliest_slot(),
        Some(expected_earliest),
        "earliest surviving slot should be exactly FINALIZATION_SAFETY_BUFFER + replay_stored_slots \
         behind the finalized slot: not gc'd before that boundary, not retained past it"
    );
    assert_eq!(state.stored_slots(), 16);
}

#[test]
fn missed_status_backfill_populates_ancestors() {
    let mut state = new_state();
    apply(&mut state, make_slot(100, None, SlotStatus::Processed));
    apply(&mut state, make_slot(101, Some(100), SlotStatus::Processed));
    apply(&mut state, make_slot(102, Some(101), SlotStatus::Processed));
    let items = state.on_message(make_slot(102, Some(101), SlotStatus::Confirmed));

    let confirmed_slots: Vec<_> = items
        .iter()
        .filter_map(|item| match &item.message.1 {
            Message::Slot(s) if s.status == SlotStatus::Confirmed => Some(s.slot),
            _ => None,
        })
        .collect();

    assert!(
        confirmed_slots.contains(&100),
        "ancestor slot 100 should get a synthesized Confirmed status backfilled from slot 102"
    );
    assert!(
        confirmed_slots.contains(&101),
        "ancestor slot 101 should get a synthesized Confirmed status backfilled from slot 102"
    );
    assert!(confirmed_slots.contains(&102));
}

#[test]
fn dispatch_bookkeeping_unaffected_by_partial_iterator_drain() {
    let pubkey = new_unique();

    let mut fully_drained = new_state();
    apply(&mut fully_drained, make_account(20, pubkey, 1));
    apply(&mut fully_drained, make_slot(20, None, SlotStatus::Confirmed));

    let mut zero_pulled = new_state();
    apply(&mut zero_pulled, make_account(20, pubkey, 1));
    drop(zero_pulled.on_message(make_slot(20, None, SlotStatus::Confirmed)));

    assert_eq!(
        fully_drained.confirmed_at(20),
        zero_pulled.confirmed_at(20),
        "confirmed_at bookkeeping must be recorded even if the dispatch iterator is never pulled"
    );

    let mut one_pulled = new_state();
    apply(&mut one_pulled, make_account(20, pubkey, 1));
    let mut items = one_pulled.on_message(make_slot(20, None, SlotStatus::Confirmed)).into_iter();
    items.next();
    drop(items);

    assert_eq!(
        fully_drained.confirmed_at(20),
        one_pulled.confirmed_at(20),
        "confirmed_at bookkeeping must match a full drain after pulling only one item"
    );
    assert_eq!(one_pulled.confirmed_at(20), Some(1));

    let mut fully_drained_final = new_state();
    apply(&mut fully_drained_final, make_account(21, pubkey, 1));
    apply(&mut fully_drained_final, make_slot(21, None, SlotStatus::Finalized));

    let mut zero_pulled_final = new_state();
    apply(&mut zero_pulled_final, make_account(21, pubkey, 1));
    drop(zero_pulled_final.on_message(make_slot(21, None, SlotStatus::Finalized)));

    assert_eq!(
        fully_drained_final.finalized_at(21),
        zero_pulled_final.finalized_at(21),
        "finalized_at bookkeeping must be recorded even if the dispatch iterator is never pulled"
    );
    assert_eq!(zero_pulled_final.finalized_at(21), Some(1));
}

#[test]
fn replay_servicing_returns_in_range_messages_and_lagged_for_out_of_range() {
    let mut state = new_state();
    for slot in 10..=15u64 {
        apply(&mut state, make_slot(slot, Some(slot.saturating_sub(1)), SlotStatus::Processed));
    }

    match state.service_replay(CommitmentLevel::Processed, 12) {
        ReplayedResponse::Messages(messages) => {
            let slots: Vec<_> = messages
                .iter()
                .filter_map(|(_, m)| match m {
                    Message::Slot(s) => Some(s.slot),
                    _ => None,
                })
                .collect();
            assert_eq!(slots, vec![12, 13, 14, 15]);
        }
        ReplayedResponse::Lagged(slot) => {
            panic!("expected in-range replay messages, got Lagged({slot})")
        }
    }

    match state.service_replay(CommitmentLevel::Processed, 5) {
        ReplayedResponse::Lagged(earliest) => assert_eq!(earliest, 10),
        ReplayedResponse::Messages(_) => {
            panic!("expected a Lagged response for an out-of-range from_slot")
        }
    }
}

#[test]
fn replay_from_empty_state_is_empty() {
    match new_state().service_replay(CommitmentLevel::Finalized, 0) {
        ReplayedResponse::Messages(messages) => assert!(messages.is_empty()),
        ReplayedResponse::Lagged(slot) => panic!("unexpected Lagged({slot})"),
    }
}

#[test]
fn replay_leaves_out_what_has_not_reached_the_commitment() {
    let mut state = new_state();
    apply(&mut state, make_slot(10, None, SlotStatus::Processed));
    apply(&mut state, make_account(10, new_unique(), 1));
    apply(&mut state, make_account(11, new_unique(), 2));
    apply(&mut state, make_slot(11, Some(12), SlotStatus::Confirmed));

    let replayed = |commitment| match state.service_replay(commitment, 10) {
        ReplayedResponse::Messages(messages) => messages.iter().map(|m| m.0).collect::<Vec<_>>(),
        ReplayedResponse::Lagged(slot) => panic!("unexpected Lagged({slot})"),
    };
    assert_eq!(replayed(CommitmentLevel::Processed), vec![1, 2, 4, 3]);
    assert_eq!(replayed(CommitmentLevel::Confirmed), vec![1, 4, 3]);
    assert_eq!(replayed(CommitmentLevel::Finalized), vec![1, 4]);
}

#[test]
fn first_of_equal_write_versions_survives() {
    let mut state = new_state();
    let (a, b) = (new_unique(), new_unique());
    for (pubkey, version) in [(a, 3), (b, 9), (a, 4), (a, 4), (b, 1)] {
        apply(&mut state, make_account(7, pubkey, version));
    }
    let items = state.on_message(make_slot(7, None, SlotStatus::Finalized));
    let finalized = items[0].finalized_messages.as_ref().unwrap();
    let ids: Vec<_> = finalized.iter().map(|m| m.0).collect();
    assert_eq!(ids, vec![2, 3, 6]);
    assert_eq!(write_versions(finalized), vec![9, 4]);
}

#[test]
fn sealed_block_holds_the_parts_of_its_slot() {
    let mut state = new_state();
    let pubkey = new_unique();
    apply(&mut state, make_account(50, pubkey, 1));
    apply(&mut state, make_account(50, pubkey, 2));
    apply(&mut state, make_transaction(50, unique_signature(7)));
    apply(&mut state, make_entry(50, 3));
    let items = state.on_message(make_block_meta(50, 1, 1));
    assert_eq!(items.len(), 2);
    assert_eq!(items[0].message.0, 5);
    assert!(items[0].is_raw_message);
    assert_eq!(items[1].message.0, 6);
    assert!(!items[1].is_raw_message);
    let Message::Block(block) = &items[1].message.1 else { panic!("expected a block") };
    assert_eq!(block.meta.slot, 50);
    assert_eq!(block.transactions.len(), 1);
    assert_eq!(block.transactions[0].signature, unique_signature(7));
    assert_eq!(block.accounts.len(), 1);
    assert_eq!(block.accounts[0].write_version, 2);
    assert_eq!(block.entries.len(), 1);
    assert_eq!(block.entries[0].index, 3);
}

#[test]
fn block_without_counted_entries_holds_none() {
    let mut state = new_state();
    apply(&mut state, make_entry(8, 0));
    let items = state.on_message(make_block_meta(8, 0, 0));
    let Message::Block(block) = &items[1].message.1 else { panic!("expected a block") };
    assert!(block.entries.is_empty());
    // a late entry is no finding for such a block, any other late message is
    apply(&mut state, make_entry(8, 1));
    assert!(state.take_invalid_blocks().is_empty());
    apply(&mut state, make_transaction(8, unique_signature(1)));
    let findings = state.take_invalid_blocks();
    assert_eq!(findings, vec![InvalidBlock::UnexpectedMessage(MessageKind::Transaction)]);
    assert_eq!(findings[0].reason(), "unexpected message Transaction");
    assert!(state.take_invalid_blocks().is_empty());
}

#[test]
fn block_is_sealed_once() {
    let mut state = new_state();
    assert!(has_block(&state.on_message(make_block_meta(9, 0, 0))));
    assert!(!has_block(&state.on_message(make_block_meta(9, 0, 0))));
    assert_eq!(
        state.take_invalid_blocks(),
        vec![
            InvalidBlock::UnexpectedMessage(MessageKind::BlockMeta),
            InvalidBlock::DuplicateBlockMeta
        ]
    );
    assert_eq!(
        InvalidBlock::DuplicateBlockMeta.reason(),
        "unexpected message: BlockMeta (duplicate)"
    );
}

#[test]
fn block_completed_after_confirmation_carries_what_came_since() {
    let mut state = new_state();
    apply(&mut state, make_account(5, new_unique(), 1));
    apply(&mut state, make_slot(5, None, SlotStatus::Confirmed));
    apply(&mut state, make_transaction(5, unique_signature(1)));
    let items = state.on_message(make_block_meta(5, 1, 0));
    assert_eq!(items[0].confirmed_messages.is_none(), true);
    let confirmed = items[1].confirmed_messages.as_ref().unwrap();
    assert_eq!(
        kinds(confirmed),
        vec![MessageKind::Transaction, MessageKind::BlockMeta, MessageKind::Block]
    );
    assert!(items[1].finalized_messages.is_none());
}

#[test]
fn every_status_goes_to_all_commitments() {
    let mut state = new_state();
    apply(&mut state, make_account(5, new_unique(), 1));
    for status in [
        SlotStatus::Processed,
        SlotStatus::FirstShredReceived,
        SlotStatus::Completed,
        SlotStatus::CreatedBank,
        SlotStatus::Dead,
    ] {
        let items = state.on_message(make_slot(5, None, status));
        assert_eq!(items.len(), 1);
        assert_eq!(items[0].confirmed_messages.as_ref().unwrap().len(), 1);
        assert_eq!(items[0].finalized_messages.as_ref().unwrap().len(), 1);
    }
}

#[test]
fn backfill_stops_at_an_ancestor_that_has_the_status() {
    let mut state = new_state();
    for (slot, parent) in [(1, None), (2, Some(1)), (3, Some(2)), (4, Some(3))] {
        apply(&mut state, make_slot(slot, parent, SlotStatus::Processed));
    }
    apply(&mut state, make_slot(2, Some(1), SlotStatus::Finalized));
    let items = state.on_message(make_slot(4, Some(3), SlotStatus::Finalized));
    let slots: Vec<_> = items.iter().map(|item| item.message.1.get_slot()).collect();
    assert_eq!(slots, vec![3, 4]);
    let Message::Slot(msg) = &items[0].message.1 else { panic!("expected a status") };
    assert_eq!(msg.parent, Some(2));
    assert_eq!(msg.dead_error, None);
    assert!(msg.created_at.nanos >= 0 && msg.created_at.nanos < 1_000_000_000);
    assert!(msg.created_at.seconds > 1_600_000_000);
}

#[test]
fn backfill_ends_on_a_cycle_of_parents() {
    let mut state = new_state();
    apply(&mut state, make_slot(1, Some(2), SlotStatus::Processed));
    apply(&mut state, make_slot(2, Some(1), SlotStatus::Processed));
    let items = state.on_message(make_slot(1, None, SlotStatus::Confirmed));
    let slots: Vec<_> = items.iter().map(|item| item.message.1.get_slot()).collect();
    assert_eq!(slots, vec![2, 1]);
}

#[test]
fn backfilled_status_is_made_of_its_parts() {
    let message = backfilled_status(4, Some(3), SlotStatus::Confirmed, NOW);
    let Message::Slot(msg) = message else { panic!("expected a status") };
    assert_eq!((msg.slot, msg.parent, msg.status), (4, Some(3), SlotStatus::Confirmed));
    assert_eq!(msg.created_at, NOW);
}

#[test]
fn numbers_start_at_one_and_are_not_reused() {
    let mut state = new_state();
    let first = state.on_message(make_account(1, new_unique(), 1));
    assert_eq!(first[0].message.0, 1);
    assert_eq!(state.last_id(), 1);
    let items = state.on_message_with_id(40, make_block_meta(2, 0, 0));
    let ids: Vec<_> = items.iter().map(|item| item.message.0).collect();
    assert_eq!(ids, vec![40, 2]);
    assert!(state.has_room());
}

#[test]
fn source_of_numbers_can_be_shared() {
    let mut source = MessageId::new();
    assert_eq!(source.next(), 1);
    assert_eq!(source.next(), 2);
    let mut state = new_state();
    state.swap_msgid_gen(&mut source);
    assert_eq!(state.last_id(), 2);
    let items = state.on_message_with_id(2, make_block_meta(2, 0, 0));
    assert_eq!(items[1].message.0, 3);
    state.swap_msgid_gen(&mut source);
    assert_eq!(source.last_id(), 3);
    assert_eq!(new_state().with_msgid_gen(source).last_id(), 3);
    assert_eq!(MessageId::default().last_id(), 0);
}

#[test]
fn first_available_slot_is_published_with_the_clean_up() {
    let mut state = BlockReconstructionState::new(Some(u64::MAX), 0);
    for slot in 1..=20u64 {
        apply(&mut state, make_account(slot, new_unique(), 1));
    }
    assert_eq!(state.replay_first_available_slot(), Some(u64::MAX));
    apply(&mut state, make_slot(9, None, SlotStatus::Finalized));
    assert_eq!(state.replay_first_available_slot(), Some(u64::MAX));
    assert_eq!(state.earliest_slot(), Some(1));
    apply(&mut state, make_slot(15, None, SlotStatus::Finalized));
    assert_eq!(state.replay_first_available_slot(), Some(5));
}

#[test]
fn dropped_slot_without_its_block_is_reported() {
    let mut state = BlockReconstructionState::new(None, 0);
    apply(&mut state, make_slot(1, None, SlotStatus::Processed));
    for slot in 1..=4u64 {
        apply(&mut state, make_slot(slot, None, SlotStatus::Finalized));
    }
    apply(&mut state, make_block_meta(3, 2, 1));
    apply(&mut state, make_block_meta(4, 0, 0));
    assert!(state.take_invalid_blocks().is_empty());
    apply(&mut state, make_slot(15, None, SlotStatus::Finalized));
    let findings = state.take_invalid_blocks();
    assert_eq!(
        findings,
        vec![
            InvalidBlock::FailedReconstruct { slot: 2, reason: FailureReason::NoBlockMeta },
            InvalidBlock::FailedReconstruct {
                slot: 3,
                reason: FailureReason::InvalidCounts {
                    transactions: Some(Mismatch { counted: 2, received: 0 }),
                    entries: Some(Mismatch { counted: 1, received: 0 }),
                },
            },
        ]
    );
    assert_eq!(findings[0].reason(), "failed reconstruct NoBlockMeta");
    assert_eq!(
        findings[1].reason(),
        "failed reconstruct InvalidTxnCount,InvalidEntriesCount"
    );
    assert_eq!(state.earliest_slot(), Some(15));
}

#[test]
fn reasons_of_failures_are_named() {
    let off = Some(Mismatch { counted: 1, received: 0 });
    let name = |transactions, entries| {
        FailureReason::InvalidCounts { transactions, entries }.name().to_string()
    };
    assert_eq!(name(off, None), "InvalidTxnCount");
    assert_eq!(name(None, off), "InvalidEntriesCount");
    assert_eq!(name(None, None), "");
}

#[test]
fn nothing_is_reported_before_the_first_processed_slot() {
    let mut state = BlockReconstructionState::new(None, 0);
    apply(&mut state, make_slot(2, None, SlotStatus::Finalized));
    apply(&mut state, make_slot(15, None, SlotStatus::Finalized));
    assert!(state.take_invalid_blocks().is_empty());
    assert_eq!(state.stored_slots(), 1);
}

#[test]
fn earliest_of_the_newest_images_goes_out() {
    let mut state = new_state();
    let (pubkey, other) = (new_unique(), new_unique());
    apply(&mut state, make_account(10, pubkey, 1));
    apply(&mut state, make_account(10, pubkey, 3));
    apply(&mut state, make_account(10, other, 7));
    apply(&mut state, make_account(10, pubkey, 3));
    apply(&mut state, make_account(11, pubkey, 9));
    apply(&mut state, make_account(10, pubkey, 2));
    for status in [SlotStatus::Confirmed, SlotStatus::Finalized] {
        let mut items = state.on_message(make_slot(10, None, status));
        let item = items.pop().unwrap();
        let batch = match status {
            SlotStatus::Confirmed => item.confirmed_messages.unwrap(),
            _ => item.finalized_messages.unwrap(),
        };
        let images: Vec<u64> = batch
            .iter()
            .filter(|(_, m)| matches!(m, Message::Account(_)))
            .map(|(id, _)| *id)
            .collect();
        assert_eq!(images, vec![2, 3]);
    }
}

#[test]
fn second_status_brings_about_nothing() {
    let mut state = new_state();
    apply(&mut state, make_slot(20, Some(19), SlotStatus::Processed));
    apply(&mut state, make_slot(21, Some(20), SlotStatus::Processed));
    assert_eq!(state.on_message(make_slot(21, Some(20), SlotStatus::Confirmed)).len(), 2);
    assert_eq!(state.on_message(make_slot(21, Some(20), SlotStatus::Confirmed)).len(), 1);
    assert_eq!(state.on_message(make_slot(21, Some(20), SlotStatus::Finalized)).len(), 2);
}

#[test]
fn numbers_are_counted_before_they_are_minted() {
    let mut state = new_state();
    for message in [
        make_slot(20, Some(19), SlotStatus::Processed),
        make_slot(21, Some(20), SlotStatus::Processed),
        make_slot(21, Some(20), SlotStatus::Finalized),
        make_block_meta(21, 0, 0),
        make_account(21, new_unique(), 1),
    ] {
        let id = state.last_id() + 1;
        let expected = state.numbers_for(id, &message);
        assert_eq!(state.on_message(message).len(), 1 + expected);
        assert_eq!(state.last_id(), id + expected as u64);
    }
}
