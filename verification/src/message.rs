//! The updates that a validator reports and that the service fans out.
use bytes::Bytes;
use std::sync::Arc;
use vstd::prelude::*;
use vstd::slice::slice_subrange;

verus! {

/// A point in time: seconds and nanoseconds since the Unix epoch.
#[derive(Debug, Clone, Copy, PartialEq, Eq, Structural)]
pub struct Timestamp {
    pub seconds: i64,
    pub nanos: i32,
}

/// How far a slot has come.
#[derive(Debug, Clone, Copy, PartialEq, Eq, Structural)]
pub enum SlotStatus {
    Processed,
    Confirmed,
    Finalized,
    FirstShredReceived,
    Completed,
    CreatedBank,
    Dead,
}

/// The commitment that a subscriber asks for.
#[derive(Debug, Clone, Copy, PartialEq, Eq, Structural)]
pub enum CommitmentLevel {
    Processed,
    Confirmed,
    Finalized,
}

/// The address of an account.
#[derive(Debug, Clone, Copy)]
pub struct Pubkey {
    pub bytes: [u8; 32],
}

/// The two halves of an address as little-endian numbers.
pub open spec fn address_key(bytes: Seq<u8>) -> (u128, u128) {
    (
        vstd::bytes::spec_u128_from_le_bytes(bytes.subrange(0, 16)),
        vstd::bytes::spec_u128_from_le_bytes(bytes.subrange(16, 32)),
    )
}

impl View for Pubkey {
    type V = Seq<u8>;

    open spec fn view(&self) -> Seq<u8> {
        self.bytes@
    }
}

impl Pubkey {
    /// The address as a pair of numbers, by which it can be ordered.
    pub fn key(&self) -> (key: (u128, u128))
        ensures
            key == address_key(self@),
    {
        let all = self.bytes.as_slice();
        let low: u128 = vstd::bytes::u128_from_le_bytes(slice_subrange(all, 0, 16));
        let high: u128 = vstd::bytes::u128_from_le_bytes(slice_subrange(all, 16, 32));
        (low, high)
    }
}

/// Two addresses with the same key are the same address.
pub proof fn lemma_address_key_is_injective(a: Seq<u8>, b: Seq<u8>)
    requires
        a.len() == 32,
        b.len() == 32,
        address_key(a) == address_key(b),
    ensures
        a == b,
{
    vstd::bytes::lemma_auto_spec_u128_to_from_le_bytes();
    let (a0, a1) = (a.subrange(0, 16), a.subrange(16, 32));
    let (b0, b1) = (b.subrange(0, 16), b.subrange(16, 32));
    assert(vstd::bytes::spec_u128_to_le_bytes(vstd::bytes::spec_u128_from_le_bytes(a0)) == a0);
    assert(vstd::bytes::spec_u128_to_le_bytes(vstd::bytes::spec_u128_from_le_bytes(b0)) == b0);
    assert(vstd::bytes::spec_u128_to_le_bytes(vstd::bytes::spec_u128_from_le_bytes(a1)) == a1);
    assert(vstd::bytes::spec_u128_to_le_bytes(vstd::bytes::spec_u128_from_le_bytes(b1)) == b1);
    assert(a =~= a0 + a1);
    assert(b =~= b0 + b1);
}

/// The state of one slot, as the validator reports it.
#[derive(Debug)]
pub struct MessageSlot {
    pub slot: u64,
    pub parent: Option<u64>,
    pub status: SlotStatus,
    pub dead_error: Option<String>,
    pub created_at: Timestamp,
}

/// One image of an account.
#[derive(Debug)]
pub struct MessageAccountInfo {
    pub pubkey: Pubkey,
    pub lamports: u64,
    pub owner: Pubkey,
    pub executable: bool,
    pub rent_epoch: u64,
    pub data: Bytes,
    pub write_version: u64,
    pub txn_signature: Option<[u8; 64]>,
    pub pre_encoded: Option<Bytes>,
}

/// An account update.
#[derive(Debug)]
pub struct MessageAccount {
    pub account: Arc<MessageAccountInfo>,
    pub slot: u64,
    pub is_startup: bool,
    pub created_at: Timestamp,
}

/// One transaction; `transaction` and `meta` are its two protobuf messages in their encoded form.
#[derive(Debug)]
pub struct MessageTransactionInfo {
    pub signature: [u8; 64],
    pub is_vote: bool,
    pub transaction: Bytes,
    pub meta: Bytes,
    pub index: u64,
    pub account_keys: Arc<Vec<Pubkey>>,
    pub pre_encoded: Option<Bytes>,
}

/// A transaction update.
#[derive(Debug)]
pub struct MessageTransaction {
    pub transaction: Arc<MessageTransactionInfo>,
    pub slot: u64,
    pub created_at: Timestamp,
}

/// One entry of a block.
#[derive(Debug)]
pub struct MessageEntry {
    pub slot: u64,
    pub index: u64,
    pub num_hashes: u64,
    pub hash: [u8; 32],
    pub executed_transaction_count: u64,
    pub starting_transaction_index: u64,
    pub created_at: Timestamp,
}

/// What a validator says of a block as a whole; `rewards` is a protobuf message in its encoded form.
#[derive(Debug)]
pub struct MessageBlockMeta {
    pub slot: u64,
    pub blockhash: String,
    pub rewards: Option<Bytes>,
    pub block_time: Option<i64>,
    pub block_height: Option<u64>,
    pub parent_slot: u64,
    pub parent_blockhash: String,
    pub executed_transaction_count: u64,
    pub entries_count: u64,
    pub created_at: Timestamp,
}

/// A whole block, put together from its parts.
#[derive(Debug)]
pub struct MessageBlock {
    pub meta: Arc<MessageBlockMeta>,
    pub transactions: Vec<Arc<MessageTransactionInfo>>,
    pub accounts: Vec<Arc<MessageAccountInfo>>,
    pub entries: Vec<Arc<MessageEntry>>,
}

/// One update.
#[derive(Debug)]
pub enum Message {
    Slot(MessageSlot),
    Account(MessageAccount),
    Transaction(MessageTransaction),
    Entry(Arc<MessageEntry>),
    BlockMeta(Arc<MessageBlockMeta>),
    Block(Arc<MessageBlock>),
}

/// A message together with the number under which it is broadcast.
pub type Numbered = (u64, Message);

impl Clone for MessageSlot {
    fn clone(&self) -> (copy: Self)
        ensures
            copy == *self,
    {
        let dead_error = match &self.dead_error {
            Some(text) => Some(text.clone()),
            None => None,
        };
        MessageSlot {
            slot: self.slot,
            parent: self.parent,
            status: self.status,
            dead_error,
            created_at: self.created_at,
        }
    }
}

impl Clone for Message {
    fn clone(&self) -> (copy: Self)
        ensures
            copy == *self,
    {
        match self {
            Message::Slot(msg) => Message::Slot(msg.clone()),
            Message::Account(msg) => Message::Account(
                MessageAccount {
                    account: Arc::clone(&msg.account),
                    slot: msg.slot,
                    is_startup: msg.is_startup,
                    created_at: msg.created_at,
                },
            ),
            Message::Transaction(msg) => Message::Transaction(
                MessageTransaction {
                    transaction: Arc::clone(&msg.transaction),
                    slot: msg.slot,
                    created_at: msg.created_at,
                },
            ),
            Message::Entry(msg) => Message::Entry(Arc::clone(msg)),
            Message::BlockMeta(msg) => Message::BlockMeta(Arc::clone(msg)),
            Message::Block(msg) => Message::Block(Arc::clone(msg)),
        }
    }
}

impl Message {
    /// The slot that the message is about.
    pub open spec fn slot(self) -> u64 {
        match self {
            Message::Slot(msg) => msg.slot,
            Message::Account(msg) => msg.slot,
            Message::Transaction(msg) => msg.slot,
            Message::Entry(msg) => msg.slot,
            Message::BlockMeta(msg) => msg.slot,
            Message::Block(msg) => msg.meta.slot,
        }
    }

    /// The slot that the message is about.
    pub fn get_slot(&self) -> (slot: u64)
        ensures
            slot == self.slot(),
    {
        match self {
            Message::Slot(msg) => msg.slot,
            Message::Account(msg) => msg.slot,
            Message::Transaction(msg) => msg.slot,
            Message::Entry(msg) => msg.slot,
            Message::BlockMeta(msg) => msg.slot,
            Message::Block(msg) => msg.meta.slot,
        }
    }
}

/// A copy of a numbered message.
pub fn copy_numbered(numbered: &Numbered) -> (copy: Numbered)
    ensures
        copy == *numbered,
{
    (numbered.0, numbered.1.clone())
}

} // verus!
