//! Encodes account and transaction updates once, before they are fanned out.
use crate::buffer::{as_slice, freeze, share};
use crate::message::{
    Message, MessageAccount, MessageAccountInfo, MessageTransaction, MessageTransactionInfo,
    Numbered,
};
use crate::wire::{
    encode_bool, encode_uint64, encoded_len_bool, encoded_len_uint64, narrow,
    prost_bytes_encode_raw, prost_bytes_encoded_len, wide_bytes_len,
};
use std::sync::Arc;
use vstd::prelude::*;

verus! {

/// Encodes transactions.
#[derive(Debug)]
pub struct TransactionEncoder;

/// Encodes account images.
#[derive(Debug)]
pub struct AccountEncoder;

/// How many bytes a field takes that holds a number, if it is there.
spec fn present_len(present: bool, tag: nat, value: nat) -> nat {
    crate::content::unless(!present, crate::wire::number_field(tag, value)).len()
}

/// How many bytes a field takes that holds a number and is left out where that is zero.
fn present_uint64_len(tag: u32, value: u64) -> (len: usize)
    requires
        crate::wire::valid_tag(tag),
    ensures
        len == present_len(value != 0, tag as nat, value as nat),
{
    if value != 0 {
        encoded_len_uint64(tag, value)
    } else {
        0
    }
}

/// How many bytes a field takes that holds a flag and is left out where that is not set.
fn present_bool_len(tag: u32, value: bool) -> (len: usize)
    requires
        crate::wire::valid_tag(tag),
    ensures
        len == present_len(value, tag as nat, 1),
{
    if value {
        encoded_len_bool(tag, value)
    } else {
        0
    }
}

impl AccountEncoder {
    /// How many bytes the encoded image takes.
    pub fn encoded_len(account: &MessageAccountInfo) -> (len: usize)
        requires
            account@.wire().len() <= usize::MAX,
        ensures
            len == account@.wire().len(),
    {
        let pubkey: usize = prost_bytes_encoded_len(1, account.pubkey.bytes.as_slice());
        let lamports: usize = present_uint64_len(2, account.lamports);
        let owner: usize = prost_bytes_encoded_len(3, account.owner.bytes.as_slice());
        let executable: usize = present_bool_len(4, account.executable);
        let rent_epoch: usize = present_uint64_len(5, account.rent_epoch);
        let held = as_slice(&account.data);
        let data: usize = if held.len() != 0 {
            prost_bytes_encoded_len(6, held)
        } else {
            0
        };
        let write_version: usize = present_uint64_len(7, account.write_version);
        let signature: usize = match &account.txn_signature {
            Some(signature) => prost_bytes_encoded_len(8, signature.as_slice()),
            None => 0,
        };
        pubkey + lamports + owner + executable + rent_epoch + data + write_version + signature
    }

    /// How many bytes the encoded image takes, if that fits in memory.
    pub fn checked_len(account: &MessageAccountInfo) -> (len: Option<usize>)
        ensures
            len == crate::wire::fits(account@.wire().len()),
    {
        let pubkey: u128 = wide_bytes_len(1, account.pubkey.bytes.as_slice());
        let lamports: usize = present_uint64_len(2, account.lamports);
        let owner: u128 = wide_bytes_len(3, account.owner.bytes.as_slice());
        let executable: usize = present_bool_len(4, account.executable);
        let rent_epoch: usize = present_uint64_len(5, account.rent_epoch);
        let held = as_slice(&account.data);
        let data: u128 = if held.len() != 0 {
            wide_bytes_len(6, held)
        } else {
            0
        };
        let write_version: usize = present_uint64_len(7, account.write_version);
        let signature: u128 = match &account.txn_signature {
            Some(signature) => wide_bytes_len(8, signature.as_slice()),
            None => 0,
        };
        narrow(
            pubkey + lamports as u128 + owner + executable as u128 + rent_epoch as u128 + data
                + write_version as u128 + signature,
        )
    }

    /// Gives the image its encoded form, unless it carries one already.
    pub fn pre_encode(account: &mut MessageAccountInfo)
        requires
            old(account)@.wire().len() <= usize::MAX,
        ensures
            final(account)@ == old(account)@,
            old(account).pre_encoded is Some ==> *final(account) == *old(account),
            old(account).pre_encoded is None ==> final(account).is_encoded(),
    {
        if account.pre_encoded.is_some() {
            return;
        }
        let len: usize = Self::encoded_len(account);
        let mut buf: Vec<u8> = Vec::with_capacity(len);
        prost_bytes_encode_raw(1, account.pubkey.bytes.as_slice(), &mut buf);
        if account.lamports != 0 {
            encode_uint64(2, account.lamports, &mut buf);
        }
        prost_bytes_encode_raw(3, account.owner.bytes.as_slice(), &mut buf);
        if account.executable {
            encode_bool(4, account.executable, &mut buf);
        }
        if account.rent_epoch != 0 {
            encode_uint64(5, account.rent_epoch, &mut buf);
        }
        let data = as_slice(&account.data);
        if data.len() != 0 {
            prost_bytes_encode_raw(6, data, &mut buf);
        }
        if account.write_version != 0 {
            encode_uint64(7, account.write_version, &mut buf);
        }
        if let Some(signature) = &account.txn_signature {
            prost_bytes_encode_raw(8, signature.as_slice(), &mut buf);
        }
        assert(buf@ =~= account@.wire());
        account.pre_encoded = Some(freeze(buf));
    }

    /// The image with its encoded form; the shared image stays as it is.
    fn encoded(account: &MessageAccountInfo) -> (after: MessageAccountInfo)
        requires
            account@.wire().len() <= usize::MAX,
        ensures
            after@ == account@,
            after.is_encoded(),
    {
        let mut copy = MessageAccountInfo {
            pubkey: account.pubkey,
            lamports: account.lamports,
            owner: account.owner,
            executable: account.executable,
            rent_epoch: account.rent_epoch,
            data: share(&account.data),
            write_version: account.write_version,
            txn_signature: account.txn_signature,
            pre_encoded: None,
        };
        Self::pre_encode(&mut copy);
        copy
    }
}

impl TransactionEncoder {
    /// How many bytes the encoded transaction takes.
    pub fn encoded_len(tx: &MessageTransactionInfo) -> (len: usize)
        requires
            tx@.wire().len() <= usize::MAX,
        ensures
            len == tx@.wire().len(),
    {
        let signature: usize = prost_bytes_encoded_len(1, tx.signature.as_slice());
        let is_vote: usize = present_bool_len(2, tx.is_vote);
        let transaction: usize = prost_bytes_encoded_len(3, as_slice(&tx.transaction));
        let meta: usize = prost_bytes_encoded_len(4, as_slice(&tx.meta));
        let index: usize = present_uint64_len(5, tx.index);
        signature + is_vote + transaction + meta + index
    }

    /// How many bytes the encoded transaction takes, if that fits in memory.
    pub fn checked_len(tx: &MessageTransactionInfo) -> (len: Option<usize>)
        ensures
            len == crate::wire::fits(tx@.wire().len()),
    {
        let signature: u128 = wide_bytes_len(1, tx.signature.as_slice());
        let is_vote: usize = present_bool_len(2, tx.is_vote);
        let transaction: u128 = wide_bytes_len(3, as_slice(&tx.transaction));
        let meta: u128 = wide_bytes_len(4, as_slice(&tx.meta));
        let index: usize = present_uint64_len(5, tx.index);
        narrow(signature + is_vote as u128 + transaction + meta + index as u128)
    }

    /// Appends the encoded transaction.
    pub fn encode_raw(tx: &MessageTransactionInfo, buf: &mut Vec<u8>)
        ensures
            final(buf)@ == old(buf)@ + tx@.wire(),
    {
        prost_bytes_encode_raw(1, tx.signature.as_slice(), buf);
        if tx.is_vote {
            encode_bool(2, tx.is_vote, buf);
        }
        prost_bytes_encode_raw(3, as_slice(&tx.transaction), buf);
        prost_bytes_encode_raw(4, as_slice(&tx.meta), buf);
        if tx.index != 0 {
            encode_uint64(5, tx.index, buf);
        }
        assert(buf@ =~= old(buf)@ + tx@.wire());
    }

    /// Gives the transaction its encoded form, unless it carries one already.
    pub fn pre_encode(tx: &mut MessageTransactionInfo)
        requires
            old(tx)@.wire().len() <= usize::MAX,
        ensures
            final(tx)@ == old(tx)@,
            old(tx).pre_encoded is Some ==> *final(tx) == *old(tx),
            old(tx).pre_encoded is None ==> final(tx).is_encoded(),
    {
        if tx.pre_encoded.is_some() {
            return;
        }
        let len: usize = Self::encoded_len(tx);
        let mut buf: Vec<u8> = Vec::with_capacity(len);
        Self::encode_raw(tx, &mut buf);
        assert(buf@ =~= tx@.wire());
        tx.pre_encoded = Some(freeze(buf));
    }

    /// The transaction with its encoded form; the shared transaction stays as it is.
    fn encoded(tx: &MessageTransactionInfo) -> (after: MessageTransactionInfo)
        requires
            tx@.wire().len() <= usize::MAX,
        ensures
            after@ == tx@,
            after.is_encoded(),
    {
        let mut copy = MessageTransactionInfo {
            signature: tx.signature,
            is_vote: tx.is_vote,
            transaction: share(&tx.transaction),
            meta: share(&tx.meta),
            index: tx.index,
            account_keys: Arc::clone(&tx.account_keys),
            pre_encoded: None,
        };
        Self::pre_encode(&mut copy);
        copy
    }
}

/// Gives an account or transaction update its encoded form, unless it carries one already or
/// the form does not fit in memory; any other message stays as it is.
pub fn encode_message(message: &mut Message)
    ensures
        old(message).encoded_as(*final(message)),
{
    let mut encoded: Option<Message> = None;
    match &*message {
        Message::Account(msg) => {
            if msg.account.pre_encoded.is_none() && AccountEncoder::checked_len(
                &msg.account,
            ).is_some() {
                encoded =
                Some(
                    Message::Account(
                        MessageAccount {
                            account: Arc::new(AccountEncoder::encoded(&msg.account)),
                            slot: msg.slot,
                            is_startup: msg.is_startup,
                            created_at: msg.created_at,
                        },
                    ),
                );
            }
        },
        Message::Transaction(msg) => {
            if msg.transaction.pre_encoded.is_none() && TransactionEncoder::checked_len(
                &msg.transaction,
            ).is_some() {
                encoded =
                Some(
                    Message::Transaction(
                        MessageTransaction {
                            transaction: Arc::new(TransactionEncoder::encoded(&msg.transaction)),
                            slot: msg.slot,
                            created_at: msg.created_at,
                        },
                    ),
                );
            }
        },
        _ => {},
    }
    if let Some(after) = encoded {
        *message = after;
    }
}

/// `after` is a batch after every message of it was encoded.
pub open spec fn all_encoded_as(before: Seq<Numbered>, after: Seq<Numbered>) -> bool {
    &&& after.len() == before.len()
    &&& forall|i: int|
        0 <= i < before.len() ==> {
            &&& (#[trigger] after[i]).0 == before[i].0
            &&& before[i].1.encoded_as(after[i].1)
        }
}

/// Encodes every message of a batch that is not encoded yet.
pub fn encode_messages(messages: &mut Vec<Numbered>)
    ensures
        all_encoded_as(old(messages)@, final(messages)@),
{
    let count: usize = messages.len();
    for i in 0..count
        invariant
            count == old(messages)@.len() == messages@.len(),
            forall|j: int|
                0 <= j < i ==> {
                    &&& (#[trigger] messages@[j]).0 == old(messages)@[j].0
                    &&& old(messages)@[j].1.encoded_as(messages@[j].1)
                },
            forall|j: int| i <= j < count ==> #[trigger] messages@[j] == old(messages)@[j],
    {
        encode_message(&mut messages[i].1);
    }
}

/// Encoding changes nothing of what a message says, and leaves nothing to be encoded.
pub proof fn lemma_encoding_keeps_content(before: Message, after: Message)
    requires
        before.encoded_as(after),
    ensures
        after@ == before@,
        after.slot() == before.slot(),
        after.in_final_form(),
{
}

/// Every message whose encoded form fits in memory carries one afterwards, and it is its own
/// if that was so of the form that it may have carried before.
pub proof fn lemma_encoding_encodes(before: Message, after: Message)
    requires
        before.encoded_as(after),
        before.can_encode(),
    ensures
        after.has_encoded(),
        (before.has_encoded() ==> before.is_encoded()) ==> after.is_encoded(),
{
}

/// Encoding a message a second time leaves it as it is.
pub proof fn lemma_encoding_is_idempotent(before: Message, once: Message, twice: Message)
    requires
        before.encoded_as(once),
        once.encoded_as(twice),
    ensures
        twice == once,
{
}

/// After a batch was encoded, every account and transaction whose form fits in memory carries
/// one, what carried one before and every other message is left as it was, and encoding the
/// batch a second time changes nothing.
pub proof fn lemma_batch_is_encoded_once(
    before: Seq<Numbered>,
    once: Seq<Numbered>,
    twice: Seq<Numbered>,
)
    requires
        all_encoded_as(before, once),
        all_encoded_as(once, twice),
    ensures
        forall|i: int| 0 <= i < before.len() && (#[trigger] before[i]).1.can_encode()
            ==> once[i].1.has_encoded(),
        forall|i: int|
            0 <= i < before.len() && (before[i].1.has_encoded() || !(before[i].1 is Account
                || before[i].1 is Transaction)) ==> #[trigger] once[i] == before[i],
        twice == once,
{
    assert forall|i: int| 0 <= i < once.len() implies #[trigger] twice[i] == once[i] by {
        assert(once[i].0 == before[i].0);
        lemma_encoding_is_idempotent(before[i].1, once[i].1, twice[i].1);
    }
    assert(twice =~= once);
    assert forall|i: int| 0 <= i < before.len() && (#[trigger] before[i]).1.can_encode() implies
        once[i].1.has_encoded() by {
        assert(once[i].0 == before[i].0);
    }
}

} // verus!
