//! What messages say, apart from the encoded forms that they may carry along.
use crate::message::{
    Message, MessageAccountInfo, MessageBlock, MessageBlockMeta, MessageEntry, MessageSlot,
    MessageTransactionInfo, Numbered, Pubkey, Timestamp,
};
use std::sync::Arc;
use vstd::prelude::*;

verus! {

/// What one image of an account says.
pub struct AccountContent {
    pub pubkey: Seq<u8>,
    pub lamports: u64,
    pub owner: Seq<u8>,
    pub executable: bool,
    pub rent_epoch: u64,
    pub data: Seq<u8>,
    pub write_version: u64,
    pub txn_signature: Option<Seq<u8>>,
}

/// What one transaction says.
pub struct TransactionContent {
    pub signature: Seq<u8>,
    pub is_vote: bool,
    pub transaction: Seq<u8>,
    pub meta: Seq<u8>,
    pub index: u64,
    pub account_keys: Arc<Vec<Pubkey>>,
}

/// What a message says.
pub enum Content {
    Slot(MessageSlot),
    Account { account: AccountContent, slot: u64, is_startup: bool, created_at: Timestamp },
    Transaction { transaction: TransactionContent, slot: u64, created_at: Timestamp },
    Entry(Arc<MessageEntry>),
    BlockMeta(Arc<MessageBlockMeta>),
    Block(Arc<MessageBlock>),
}

/// The field of a protobuf message, which is left out where it has its default value.
pub open spec fn unless(absent: bool, field: Seq<u8>) -> Seq<u8> {
    if absent {
        Seq::empty()
    } else {
        field
    }
}

impl AccountContent {
    /// The protobuf form of the image.
    pub open spec fn wire(self) -> Seq<u8> {
        crate::wire::bytes_field(1, self.pubkey) + unless(
            self.lamports == 0,
            crate::wire::number_field(2, self.lamports as nat),
        ) + crate::wire::bytes_field(3, self.owner) + unless(
            !self.executable,
            crate::wire::number_field(4, 1),
        ) + unless(
            self.rent_epoch == 0,
            crate::wire::number_field(5, self.rent_epoch as nat),
        ) + unless(self.data.len() == 0, crate::wire::bytes_field(6, self.data)) + unless(
            self.write_version == 0,
            crate::wire::number_field(7, self.write_version as nat),
        ) + match self.txn_signature {
            Some(signature) => crate::wire::bytes_field(8, signature),
            None => Seq::empty(),
        }
    }
}

impl TransactionContent {
    /// The protobuf form of the transaction.
    pub open spec fn wire(self) -> Seq<u8> {
        crate::wire::bytes_field(1, self.signature) + unless(
            !self.is_vote,
            crate::wire::number_field(2, 1),
        ) + crate::wire::bytes_field(3, self.transaction) + crate::wire::bytes_field(4, self.meta)
            + unless(self.index == 0, crate::wire::number_field(5, self.index as nat))
    }
}

impl View for MessageAccountInfo {
    type V = AccountContent;

    open spec fn view(&self) -> AccountContent {
        AccountContent {
            pubkey: self.pubkey@,
            lamports: self.lamports,
            owner: self.owner@,
            executable: self.executable,
            rent_epoch: self.rent_epoch,
            data: crate::buffer::bytes_content(self.data),
            write_version: self.write_version,
            txn_signature: match self.txn_signature {
                Some(signature) => Some(signature@),
                None => None,
            },
        }
    }
}

impl View for MessageTransactionInfo {
    type V = TransactionContent;

    open spec fn view(&self) -> TransactionContent {
        TransactionContent {
            signature: self.signature@,
            is_vote: self.is_vote,
            transaction: crate::buffer::bytes_content(self.transaction),
            meta: crate::buffer::bytes_content(self.meta),
            index: self.index,
            account_keys: self.account_keys,
        }
    }
}

impl View for Message {
    type V = Content;

    open spec fn view(&self) -> Content {
        match *self {
            Message::Slot(msg) => Content::Slot(msg),
            Message::Account(msg) => Content::Account {
                account: (*msg.account)@,
                slot: msg.slot,
                is_startup: msg.is_startup,
                created_at: msg.created_at,
            },
            Message::Transaction(msg) => Content::Transaction {
                transaction: (*msg.transaction)@,
                slot: msg.slot,
                created_at: msg.created_at,
            },
            Message::Entry(msg) => Content::Entry(msg),
            Message::BlockMeta(msg) => Content::BlockMeta(msg),
            Message::Block(msg) => Content::Block(msg),
        }
    }
}

impl MessageAccountInfo {
    /// The image carries its encoded form.
    pub open spec fn is_encoded(self) -> bool {
        self.pre_encoded matches Some(encoded) && crate::buffer::bytes_content(encoded)
            == self@.wire()
    }

    /// Encoding leaves it as it is: it carries an encoded form, or has none that fits in memory.
    pub open spec fn in_final_form(self) -> bool {
        self.pre_encoded is Some || self@.wire().len() > usize::MAX
    }
}

impl MessageTransactionInfo {
    /// The transaction carries its encoded form.
    pub open spec fn is_encoded(self) -> bool {
        self.pre_encoded matches Some(encoded) && crate::buffer::bytes_content(encoded)
            == self@.wire()
    }

    /// Encoding leaves it as it is: it carries an encoded form, or has none that fits in memory.
    pub open spec fn in_final_form(self) -> bool {
        self.pre_encoded is Some || self@.wire().len() > usize::MAX
    }
}

impl Message {
    /// The message carries an encoded form.
    pub open spec fn has_encoded(self) -> bool {
        match self {
            Message::Account(msg) => msg.account.pre_encoded is Some,
            Message::Transaction(msg) => msg.transaction.pre_encoded is Some,
            _ => false,
        }
    }

    /// The encoded form that the message carries is its own.
    pub open spec fn is_encoded(self) -> bool {
        match self {
            Message::Account(msg) => msg.account.is_encoded(),
            Message::Transaction(msg) => msg.transaction.is_encoded(),
            _ => false,
        }
    }

    /// The message has an encoded form that fits in memory.
    pub open spec fn can_encode(self) -> bool {
        match self {
            Message::Account(msg) => (*msg.account)@.wire().len() <= usize::MAX,
            Message::Transaction(msg) => (*msg.transaction)@.wire().len() <= usize::MAX,
            _ => false,
        }
    }

    /// Encoding leaves the message as it is: it carries an encoded form, or has none that fits
    /// in memory.
    pub open spec fn in_final_form(self) -> bool {
        self.has_encoded() || !self.can_encode()
    }

    /// `after` is this message after it was encoded: a message that carries an encoded form, or
    /// has none, is left as it is; any other gets its own, and says what it said.
    pub open spec fn encoded_as(self, after: Message) -> bool {
        if self.in_final_form() {
            after == self
        } else {
            after@ == self@ && after.is_encoded()
        }
    }
}

/// What a sequence of numbered messages says, with the numbers.
pub open spec fn numbered_contents(messages: Seq<Numbered>) -> Seq<(u64, Content)> {
    messages.map_values(|numbered: Numbered| (numbered.0, numbered.1@))
}

} // verus!
