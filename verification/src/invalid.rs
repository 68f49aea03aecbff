//! What is reported of blocks that could not be put together as they should.
use crate::message::Message;
use vstd::prelude::*;
use vstd::string::StringExecFns;

verus! {

/// What a message is about.
#[derive(Debug, Clone, Copy, PartialEq, Eq, Structural)]
pub enum MessageKind {
    Slot,
    Account,
    Transaction,
    Entry,
    BlockMeta,
    Block,
}

impl MessageKind {
    /// The kind's name.
    pub open spec fn text(self) -> Seq<char> {
        match self {
            MessageKind::Slot => "Slot"@,
            MessageKind::Account => "Account"@,
            MessageKind::Transaction => "Transaction"@,
            MessageKind::Entry => "Entry"@,
            MessageKind::BlockMeta => "BlockMeta"@,
            MessageKind::Block => "Block"@,
        }
    }

    /// The kind's name.
    pub fn name(self) -> (name: &'static str)
        ensures
            name@ == self.text(),
    {
        match self {
            MessageKind::Slot => "Slot",
            MessageKind::Account => "Account",
            MessageKind::Transaction => "Transaction",
            MessageKind::Entry => "Entry",
            MessageKind::BlockMeta => "BlockMeta",
            MessageKind::Block => "Block",
        }
    }
}

impl Message {
    /// What the message is about.
    pub open spec fn kind(self) -> MessageKind {
        match self {
            Message::Slot(_) => MessageKind::Slot,
            Message::Account(_) => MessageKind::Account,
            Message::Transaction(_) => MessageKind::Transaction,
            Message::Entry(_) => MessageKind::Entry,
            Message::BlockMeta(_) => MessageKind::BlockMeta,
            Message::Block(_) => MessageKind::Block,
        }
    }

    /// What the message is about.
    pub fn get_kind(&self) -> (kind: MessageKind)
        ensures
            kind == self.kind(),
    {
        match self {
            Message::Slot(_) => MessageKind::Slot,
            Message::Account(_) => MessageKind::Account,
            Message::Transaction(_) => MessageKind::Transaction,
            Message::Entry(_) => MessageKind::Entry,
            Message::BlockMeta(_) => MessageKind::BlockMeta,
            Message::Block(_) => MessageKind::Block,
        }
    }
}

/// How the number of parts that a block's meta counts differs from the number that came in.
#[derive(Debug, Clone, Copy, PartialEq, Eq, Structural)]
pub struct Mismatch {
    pub counted: u64,
    pub received: u64,
}

/// Why the block of a finalized slot was never built.
#[derive(Debug, Clone, Copy, PartialEq, Eq, Structural)]
pub enum FailureReason {
    /// The block's meta never came.
    NoBlockMeta,
    /// The meta counts other numbers of transactions or entries than came in.
    InvalidCounts { transactions: Option<Mismatch>, entries: Option<Mismatch> },
}

/// A finding about the block of a slot.
#[derive(Debug, Clone, Copy, PartialEq, Eq, Structural)]
pub enum InvalidBlock {
    /// A message came in after the block was built.
    UnexpectedMessage(MessageKind),
    /// The block's meta came in twice.
    DuplicateBlockMeta,
    /// The slot was dropped without its block.
    FailedReconstruct { slot: u64, reason: FailureReason },
}

impl FailureReason {
    /// The reasons, separated by commas.
    pub open spec fn text(self) -> Seq<char> {
        match self {
            FailureReason::NoBlockMeta => "NoBlockMeta"@,
            FailureReason::InvalidCounts { transactions: Some(_), entries: Some(_) } =>
                "InvalidTxnCount,InvalidEntriesCount"@,
            FailureReason::InvalidCounts { transactions: Some(_), entries: None } =>
                "InvalidTxnCount"@,
            FailureReason::InvalidCounts { transactions: None, entries: Some(_) } =>
                "InvalidEntriesCount"@,
            FailureReason::InvalidCounts { transactions: None, entries: None } => ""@,
        }
    }

    /// The reasons, separated by commas.
    pub fn name(self) -> (name: &'static str)
        ensures
            name@ == self.text(),
    {
        match self {
            FailureReason::NoBlockMeta => "NoBlockMeta",
            FailureReason::InvalidCounts { transactions, entries } => {
                if transactions.is_some() {
                    if entries.is_some() {
                        "InvalidTxnCount,InvalidEntriesCount"
                    } else {
                        "InvalidTxnCount"
                    }
                } else if entries.is_some() {
                    "InvalidEntriesCount"
                } else {
                    ""
                }
            },
        }
    }
}

impl InvalidBlock {
    /// The label under which the finding is counted.
    pub open spec fn text(self) -> Seq<char> {
        match self {
            InvalidBlock::UnexpectedMessage(kind) => "unexpected message "@ + kind.text(),
            InvalidBlock::DuplicateBlockMeta => "unexpected message: BlockMeta (duplicate)"@,
            InvalidBlock::FailedReconstruct { slot, reason } => "failed reconstruct "@
                + reason.text(),
        }
    }

    /// The label under which the finding is counted.
    pub fn reason(&self) -> (reason: String)
        ensures
            reason@ == self.text(),
    {
        match self {
            InvalidBlock::UnexpectedMessage(kind) => {
                let mut reason = String::from_str("unexpected message ");
                reason.append(kind.name());
                reason
            },
            InvalidBlock::DuplicateBlockMeta => String::from_str(
                "unexpected message: BlockMeta (duplicate)",
            ),
            InvalidBlock::FailedReconstruct { slot: _, reason: why } => {
                let mut reason = String::from_str("failed reconstruct ");
                reason.append(why.name());
                reason
            },
        }
    }
}

} // verus!
