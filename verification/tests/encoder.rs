use bytes::Bytes;
use geyser_fanout::encoder::{encode_message, encode_messages, AccountEncoder, TransactionEncoder};
use geyser_fanout::message::{
    Message, MessageAccount, MessageAccountInfo, MessageSlot, MessageTransaction,
    MessageTransactionInfo, Numbered, Pubkey, SlotStatus, Timestamp,
};
use geyser_fanout::parallel::ParallelEncoder;
use geyser_fanout::wire::{prost_bytes_encode_raw, prost_bytes_encoded_len};
use std::sync::Arc;

const NOW: Timestamp = Timestamp { seconds: 1, nanos: 2 };

fn transaction_info() -> MessageTransactionInfo {
    MessageTransactionInfo {
        signature: [1u8; 64],
        is_vote: false,
        transaction: Bytes::new(),
        meta: Bytes::new(),
        index: 0,
        account_keys: Arc::new(Vec::new()),
        pre_encoded: None,
    }
}

fn account_info() -> MessageAccountInfo {
    MessageAccountInfo {
        pubkey: Pubkey { bytes: [7; 32] },
        lamports: 1000,
        owner: Pubkey { bytes: [9; 32] },
        executable: false,
        rent_epoch: 0,
        data: Bytes::from(vec![1, 2, 3]),
        write_version: 1,
        txn_signature: None,
        pre_encoded: None,
    }
}

fn create_test_transaction() -> Message {
    Message::Transaction(MessageTransaction {
        transaction: Arc::new(transaction_info()),
        slot: 100,
        created_at: NOW,
    })
}

fn create_test_account() -> Message {
    Message::Account(MessageAccount {
        account: Arc::new(account_info()),
        slot: 100,
        is_startup: false,
        created_at: NOW,
    })
}

fn make_account_msg(write_version: u64) -> Message {
    Message::Account(MessageAccount {
        account: Arc::new(MessageAccountInfo {
            pubkey: Pubkey { bytes: [3; 32] },
            lamports: 42,
            owner: Pubkey { bytes: [4; 32] },
            executable: false,
            rent_epoch: 0,
            data: Bytes::from_static(&[1, 2, 3, 4]),
            write_version,
            txn_signature: None,
            pre_encoded: None,
        }),
        slot: 1,
        is_startup: false,
        created_at: Timestamp { seconds: 0, nanos: 0 },
    })
}

fn pre_encoded(message: &Message) -> Option<Bytes> {
    match message {
        Message::Account(acc) => acc.account.pre_encoded.clone(),
        Message::Transaction(tx) => tx.transaction.pre_encoded.clone(),
        _ => None,
    }
}

fn pre_encoded_len(message: &Message) -> Option<usize> {
    pre_encoded(message).map(|encoded| encoded.len())
}

#[test]
fn test_encode_messages_transactions() {
    let mut batch: Vec<Numbered> = (0..10).map(|i| (i, create_test_transaction())).collect();

    encode_messages(&mut batch);

    assert_eq!(batch.len(), 10);
    for (_msgid, msg) in &batch {
        if let Message::Transaction(tx) = msg {
            assert!(tx.transaction.pre_encoded.is_some(), "transaction should be encoded");
        }
    }
}

#[test]
fn test_encode_messages_accounts() {
    let mut batch: Vec<Numbered> = (0..10).map(|i| (i, create_test_account())).collect();

    encode_messages(&mut batch);

    assert_eq!(batch.len(), 10);
    for (_msgid, msg) in &batch {
        if let Message::Account(acc) = msg {
            assert!(acc.account.pre_encoded.is_some(), "account should be encoded");
        }
    }
}

#[test]
fn test_encode_messages_small_batch() {
    let mut batch: Vec<Numbered> = (0..2).map(|i| (i, create_test_transaction())).collect();

    encode_messages(&mut batch);

    assert_eq!(batch.len(), 2);
    for (_msgid, msg) in &batch {
        if let Message::Transaction(tx) = msg {
            assert!(tx.transaction.pre_encoded.is_some());
        }
    }
}

#[test]
fn test_encode_messages_mixed_batch() {
    let mut batch: Vec<Numbered> = Vec::new();
    for i in 0..5 {
        batch.push((i * 2, create_test_transaction()));
        batch.push((i * 2 + 1, create_test_account()));
    }

    encode_messages(&mut batch);

    assert_eq!(batch.len(), 10);
    for (_msgid, msg) in &batch {
        match msg {
            Message::Transaction(tx) => assert!(tx.transaction.pre_encoded.is_some()),
            Message::Account(acc) => assert!(acc.account.pre_encoded.is_some()),
            _ => unreachable!(),
        }
    }
}

#[test]
fn test_encode_messages_is_idempotent_for_already_encoded_messages() {
    let mut batch: Vec<Numbered> =
        vec![(0, create_test_transaction()), (1, create_test_account())];

    encode_messages(&mut batch);
    let (tx_before, acc_before) = (pre_encoded(&batch[0].1), pre_encoded(&batch[1].1));
    assert!(tx_before.is_some());
    assert!(acc_before.is_some());

    encode_messages(&mut batch);
    assert_eq!(tx_before, pre_encoded(&batch[0].1));
    assert_eq!(acc_before, pre_encoded(&batch[1].1));
}

#[test]
fn encoder_has_the_threads_it_was_asked_for() {
    assert_eq!(ParallelEncoder::new(1).unwrap().num_threads(), 1);
    assert_eq!(ParallelEncoder::new(3).unwrap().num_threads(), 3);
    assert!(ParallelEncoder::new(0).unwrap().num_threads() >= 1);
}

#[test]
fn encodes_small_batch_serially() {
    let encoder = ParallelEncoder::new(2).unwrap();
    let mut msgs: Vec<Message> = (0..2).map(make_account_msg).collect();
    encoder.encode_blocking(&mut msgs);
    for msg in &msgs {
        assert!(pre_encoded_len(msg).unwrap() > 0);
    }
}

#[test]
fn encodes_large_batch_in_parallel() {
    let encoder = ParallelEncoder::new(4).unwrap();
    let mut msgs: Vec<Message> = (0..64).map(make_account_msg).collect();
    encoder.encode_blocking(&mut msgs);
    for (i, msg) in msgs.iter().enumerate() {
        assert!(pre_encoded_len(msg).unwrap() > 0);
        let mut alone = make_account_msg(i as u64);
        encode_message(&mut alone);
        assert_eq!(pre_encoded(msg), pre_encoded(&alone));
    }
}

#[test]
fn re_encoding_is_idempotent() {
    let encoder = ParallelEncoder::new(2).unwrap();
    let mut msgs: Vec<Message> = (0..8).map(make_account_msg).collect();
    encoder.encode_blocking(&mut msgs);
    let first: Vec<usize> = msgs.iter().map(|m| pre_encoded_len(m).unwrap()).collect();
    encoder.encode_blocking(&mut msgs);
    let second: Vec<usize> = msgs.iter().map(|m| pre_encoded_len(m).unwrap()).collect();
    assert_eq!(first, second);
}

#[test]
fn account_has_its_protobuf_form() {
    let mut account = account_info();
    account.lamports = 300;
    account.executable = true;
    account.rent_epoch = u64::MAX;
    account.txn_signature = Some([5; 64]);
    let len = AccountEncoder::encoded_len(&account);
    AccountEncoder::pre_encode(&mut account);
    let encoded = account.pre_encoded.clone().unwrap();

    let mut expected = vec![0x0a, 32];
    expected.extend([7u8; 32]);
    expected.extend([0x10, 0xac, 0x02]);
    expected.extend([0x1a, 32]);
    expected.extend([9u8; 32]);
    expected.extend([0x20, 1]);
    expected.extend([0x28, 0xff, 0xff, 0xff, 0xff, 0xff, 0xff, 0xff, 0xff, 0xff, 0x01]);
    expected.extend([0x32, 3, 1, 2, 3]);
    expected.extend([0x38, 1]);
    expected.extend([0x42, 64]);
    expected.extend([5u8; 64]);
    assert_eq!(encoded.to_vec(), expected);
    assert_eq!(len, expected.len());
    assert_eq!(AccountEncoder::checked_len(&account), Some(expected.len()));
}

#[test]
fn fields_with_default_values_are_left_out() {
    let account = MessageAccountInfo {
        lamports: 0,
        data: Bytes::new(),
        write_version: 0,
        ..account_info()
    };
    assert_eq!(AccountEncoder::encoded_len(&account), 68);
}

#[test]
fn transaction_has_its_protobuf_form() {
    let tx = MessageTransactionInfo {
        is_vote: true,
        transaction: Bytes::from_static(&[0xaa]),
        meta: Bytes::from_static(&[0xbb, 0xcc]),
        index: 130,
        ..transaction_info()
    };
    let mut encoded = vec![0xee];
    TransactionEncoder::encode_raw(&tx, &mut encoded);
    let mut expected = vec![0xee, 0x0a, 64];
    expected.extend([1u8; 64]);
    expected.extend([0x10, 1, 0x1a, 1, 0xaa, 0x22, 2, 0xbb, 0xcc, 0x28, 0x82, 0x01]);
    assert_eq!(encoded, expected);
    assert_eq!(TransactionEncoder::encoded_len(&tx), expected.len() - 1);
    assert_eq!(TransactionEncoder::checked_len(&tx), Some(expected.len() - 1));

    let mut plain = transaction_info();
    TransactionEncoder::pre_encode(&mut plain);
    let mut expected = vec![0x0a, 64];
    expected.extend([1u8; 64]);
    expected.extend([0x1a, 0, 0x22, 0]);
    assert_eq!(plain.pre_encoded.unwrap().to_vec(), expected);
}

#[test]
fn encoded_form_that_is_there_is_kept() {
    let mut account = account_info();
    account.pre_encoded = Some(Bytes::from_static(&[1]));
    AccountEncoder::pre_encode(&mut account);
    assert_eq!(account.pre_encoded.unwrap().to_vec(), vec![1]);
    let mut tx = transaction_info();
    tx.pre_encoded = Some(Bytes::from_static(&[2]));
    TransactionEncoder::pre_encode(&mut tx);
    assert_eq!(tx.pre_encoded.unwrap().to_vec(), vec![2]);
}

#[test]
fn encoding_keeps_what_a_message_says() {
    let mut message = create_test_account();
    encode_message(&mut message);
    let Message::Account(msg) = &message else { panic!("expected an account") };
    assert_eq!((msg.slot, msg.is_startup, msg.created_at), (100, false, NOW));
    assert_eq!(msg.account.data.to_vec(), vec![1, 2, 3]);
    assert_eq!(msg.account.lamports, 1000);

    let mut status = Message::Slot(MessageSlot {
        slot: 4,
        parent: None,
        status: SlotStatus::Dead,
        dead_error: Some("gone".to_string()),
        created_at: NOW,
    });
    encode_message(&mut status);
    let Message::Slot(msg) = &status else { panic!("expected a status") };
    assert_eq!(msg.dead_error.as_deref(), Some("gone"));
}

#[test]
fn long_fields_have_long_lengths() {
    let value = vec![6u8; 300];
    let mut encoded = Vec::new();
    prost_bytes_encode_raw(20, &value, &mut encoded);
    assert_eq!(encoded[..4], [0xa2, 0x01, 0xac, 0x02]);
    assert_eq!(encoded.len(), 304);
    assert_eq!(prost_bytes_encoded_len(20, &value), 304);
}

/// The fields of a protobuf message: a number, or bytes.
fn decode(mut bytes: &[u8]) -> Vec<(u32, Result<u64, Vec<u8>>)> {
    let mut fields = Vec::new();
    while !bytes.is_empty() {
        let (tag, wire_type) = prost::encoding::decode_key(&mut bytes).unwrap();
        let number = prost::encoding::decode_varint(&mut bytes).unwrap();
        if wire_type == prost::encoding::WireType::Varint {
            fields.push((tag, Ok(number)));
        } else {
            let (content, rest) = bytes.split_at(number as usize);
            fields.push((tag, Err(content.to_vec())));
            bytes = rest;
        }
    }
    fields
}

#[test]
fn account_decodes_to_its_fields() {
    let mut account = account_info();
    account.rent_epoch = u64::MAX;
    account.data = Bytes::from(vec![3u8; 200]);
    account.txn_signature = Some([5; 64]);
    AccountEncoder::pre_encode(&mut account);
    assert_eq!(
        decode(&account.pre_encoded.clone().unwrap()),
        vec![
            (1, Err(vec![7; 32])),
            (2, Ok(1000)),
            (3, Err(vec![9; 32])),
            (5, Ok(u64::MAX)),
            (6, Err(vec![3; 200])),
            (7, Ok(account.write_version)),
            (8, Err(vec![5; 64])),
        ]
    );
}

#[test]
fn transaction_decodes_to_its_fields() {
    let mut tx = transaction_info();
    let mut buf = vec![0xff];
    TransactionEncoder::encode_raw(&tx, &mut buf);
    assert_eq!(
        decode(&buf[1..]),
        vec![(1, Err(vec![1; 64])), (3, Err(Vec::new())), (4, Err(Vec::new()))]
    );
    tx.is_vote = true;
    tx.index = 300;
    tx.meta = Bytes::from_static(b"meta");
    buf.clear();
    TransactionEncoder::encode_raw(&tx, &mut buf);
    assert_eq!(
        decode(&buf),
        vec![
            (1, Err(vec![1; 64])),
            (2, Ok(1)),
            (3, Err(Vec::new())),
            (4, Err(b"meta".to_vec())),
            (5, Ok(300))
        ]
    );
}
