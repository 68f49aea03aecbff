//! What is known of one slot while its block is put together.
use crate::invalid::{FailureReason, InvalidBlock, Mismatch};
use crate::message::{
    copy_numbered, Message, MessageAccountInfo, MessageBlock, MessageBlockMeta, MessageEntry,
    MessageTransactionInfo, Numbered, SlotStatus,
};
use crate::message_id::MessageId;
use std::collections::BTreeMap;
use std::sync::Arc;
use vstd::prelude::*;

verus! {

/// The messages of a slot that were not dropped, in the order of their arrival.
pub open spec fn survivors(messages: Seq<Option<Numbered>>) -> Seq<Numbered>
    decreases messages.len(),
{
    if messages.len() == 0 {
        Seq::empty()
    } else {
        match messages.last() {
            Some(numbered) => survivors(messages.drop_last()).push(numbered),
            None => survivors(messages.drop_last()),
        }
    }
}

/// The account images among the messages that were not dropped.
pub open spec fn account_images(messages: Seq<Option<Numbered>>) -> Seq<Arc<MessageAccountInfo>>
    decreases messages.len(),
{
    if messages.len() == 0 {
        Seq::empty()
    } else {
        match messages.last() {
            Some((_, Message::Account(msg))) => account_images(messages.drop_last()).push(
                msg.account,
            ),
            _ => account_images(messages.drop_last()),
        }
    }
}

/// The two numbers, where they differ.
pub open spec fn mismatch(counted: u64, received: nat) -> Option<Mismatch> {
    if counted == received {
        None
    } else {
        Some(Mismatch { counted, received: received as u64 })
    }
}

/// The two numbers, where they differ.
fn find_mismatch(counted: u64, received: usize) -> (found: Option<Mismatch>)
    ensures
        found == mismatch(counted, received as nat),
{
    if counted == received as u64 {
        None
    } else {
        Some(Mismatch { counted, received: received as u64 })
    }
}

/// The state of a slot.
#[verifier::ext_equal]
pub struct SlotView {
    /// Every message but the slot's own status messages; `None` where a newer image of the
    /// same account took the message's place.
    pub messages: Seq<Option<Numbered>>,
    /// The slot's status messages.
    pub messages_slots: Seq<Numbered>,
    pub block_meta: Option<Arc<MessageBlockMeta>>,
    pub transactions: Seq<Arc<MessageTransactionInfo>>,
    /// For each account its newest write version and where in `messages` that image stands.
    pub latest: Map<(u128, u128), (u64, usize)>,
    pub entries: Seq<Arc<MessageEntry>>,
    pub sealed: bool,
    pub entries_count: u64,
    /// How many messages there were when the slot was confirmed, if its block was open then.
    pub confirmed_at: Option<usize>,
    /// How many messages there were when the slot was finalized, if its block was open then.
    pub finalized_at: Option<usize>,
    pub parent_slot: Option<u64>,
    pub confirmed: bool,
    pub finalized: bool,
}

impl SlotView {
    /// A slot of which nothing is known.
    pub open spec fn empty() -> SlotView {
        SlotView {
            messages: Seq::empty(),
            messages_slots: Seq::empty(),
            block_meta: None,
            transactions: Seq::empty(),
            latest: Map::empty(),
            entries: Seq::empty(),
            sealed: false,
            entries_count: 0,
            confirmed_at: None,
            finalized_at: None,
            parent_slot: None,
            confirmed: false,
            finalized: false,
        }
    }

    /// The image of an account at place `i` is the newest one of that account.
    pub open spec fn is_newest_image(self, i: int) -> bool {
        match self.messages[i] {
            Some((_, Message::Account(msg))) => {
                let key = crate::message::address_key(msg.account.pubkey@);
                &&& self.latest.contains_key(key)
                &&& self.latest[key] == (msg.account.write_version, i as usize)
            },
            _ => true,
        }
    }

    /// The place that `latest` gives for an account holds that account's image.
    pub open spec fn points_at_image(self, key: (u128, u128)) -> bool {
        let (write_version, at) = self.latest[key];
        &&& at < self.messages.len()
        &&& self.messages[at as int] matches Some((_, Message::Account(msg)))
        &&& crate::message::address_key(msg.account.pubkey@) == key
        &&& msg.account.write_version == write_version
    }

    /// What holds of every slot.
    pub open spec fn wf(self) -> bool {
        &&& self.messages.len() <= usize::MAX
        &&& self.confirmed_at matches Some(at) ==> at <= self.messages.len()
        &&& self.finalized_at matches Some(at) ==> at <= self.messages.len()
        &&& forall|i: int| 0 <= i < self.messages.len() ==> #[trigger] self.is_newest_image(i)
        &&& forall|key: (u128, u128)| self.latest.contains_key(key) ==> #[trigger]
            self.points_at_image(key)
    }

    /// The slot after an account update: of two images of one account the one with the higher
    /// write version stays, and the earlier one where the versions are equal.
    pub open spec fn with_account(self, id: u64, message: Message) -> SlotView
        recommends
            message is Account,
    {
        let info = message->Account_0.account;
        let key = crate::message::address_key(info.pubkey@);
        let here = self.messages.len() as usize;
        if self.latest.contains_key(key) {
            let (newest, at) = self.latest[key];
            if newest < info.write_version {
                SlotView {
                    messages: self.messages.push(Some((id, message))).update(at as int, None),
                    latest: self.latest.insert(key, (info.write_version, here)),
                    ..self
                }
            } else {
                SlotView { messages: self.messages.push(None), ..self }
            }
        } else {
            SlotView {
                messages: self.messages.push(Some((id, message))),
                latest: self.latest.insert(key, (info.write_version, here)),
                ..self
            }
        }
    }

    /// The slot after a message about it has come in.
    pub open spec fn received(self, id: u64, message: Message) -> SlotView {
        match message {
            Message::Slot(msg) => {
                let flagged = self.marked(msg.status);
                SlotView {
                    messages_slots: self.messages_slots.push((id, message)),
                    parent_slot: if msg.status is Processed {
                        msg.parent
                    } else {
                        self.parent_slot
                    },
                    ..flagged
                }
            },
            Message::Account(_) => self.with_account(id, message),
            Message::Transaction(msg) => SlotView {
                messages: self.messages.push(Some((id, message))),
                transactions: self.transactions.push(msg.transaction),
                ..self
            },
            Message::Entry(msg) => SlotView {
                messages: self.messages.push(Some((id, message))),
                entries: self.entries.push(msg),
                ..self
            },
            Message::BlockMeta(msg) => SlotView {
                messages: self.messages.push(Some((id, message))),
                block_meta: Some(msg),
                ..self
            },
            Message::Block(_) => SlotView {
                messages: self.messages.push(Some((id, message))),
                ..self
            },
        }
    }

    /// All transactions and entries that the block's meta counts are there, and the block was
    /// not built before. A meta that counts no entries does not ask for any.
    pub open spec fn ready(self) -> bool {
        &&& !self.sealed
        &&& self.block_meta matches Some(meta)
        &&& self.transactions.len() == meta.executed_transaction_count
        &&& meta.entries_count == 0 || self.entries.len() == meta.entries_count
    }

    /// `block` is the block of this slot.
    pub open spec fn is_block(self, block: MessageBlock) -> bool {
        &&& self.block_meta == Some(block.meta)
        &&& block.transactions@ == self.transactions
        &&& block.accounts@ == account_images(self.messages)
        &&& block.entries@ == if block.meta.entries_count == 0 {
            Seq::empty()
        } else {
            self.entries
        }
    }

    /// The slot after its block went out as the message `block`.
    pub open spec fn sealed_as(self, block: Numbered) -> SlotView {
        SlotView {
            messages: self.messages.push(Some(block)),
            transactions: Seq::empty(),
            entries: Seq::empty(),
            sealed: true,
            entries_count: match self.block_meta {
                Some(meta) => meta.entries_count,
                None => 0,
            },
            ..self
        }
    }

    /// Why the slot's block was not built, if the slot was finalized without it.
    pub open spec fn failure(self, slot: u64) -> Option<InvalidBlock> {
        if !self.sealed && self.finalized_at is Some {
            let reason = match self.block_meta {
                Some(meta) => FailureReason::InvalidCounts {
                    transactions: mismatch(
                        meta.executed_transaction_count,
                        self.transactions.len(),
                    ),
                    entries: mismatch(meta.entries_count, self.entries.len()),
                },
                None => FailureReason::NoBlockMeta,
            };
            Some(InvalidBlock::FailedReconstruct { slot, reason })
        } else {
            None
        }
    }

    /// Whether the slot was confirmed, or finalized, as `status` asks.
    pub open spec fn has(self, status: SlotStatus) -> bool {
        match status {
            SlotStatus::Confirmed => self.confirmed,
            SlotStatus::Finalized => self.finalized,
            _ => true,
        }
    }

    /// The slot with `status` noted.
    pub open spec fn marked(self, status: SlotStatus) -> SlotView {
        SlotView {
            confirmed: self.confirmed || status is Confirmed,
            finalized: self.finalized || status is Finalized,
            ..self
        }
    }

    /// The slot with the number of its messages noted under `status`, if its block is open.
    pub open spec fn recorded(self, status: SlotStatus) -> SlotView {
        let count = Some(self.messages.len() as usize);
        if self.sealed {
            self
        } else {
            SlotView {
                confirmed_at: if status is Confirmed {
                    count
                } else {
                    self.confirmed_at
                },
                finalized_at: if status is Finalized {
                    count
                } else {
                    self.finalized_at
                },
                ..self
            }
        }
    }
}

/// What is known of one slot.
#[derive(Debug)]
pub struct SlotMessages {
    messages: Vec<Option<Numbered>>,
    messages_slots: Vec<Numbered>,
    block_meta: Option<Arc<MessageBlockMeta>>,
    transactions: Vec<Arc<MessageTransactionInfo>>,
    accounts_dedup: BTreeMap<(u128, u128), (u64, usize)>,
    entries: Vec<Arc<MessageEntry>>,
    sealed: bool,
    entries_count: u64,
    confirmed_at: Option<usize>,
    finalized_at: Option<usize>,
    parent_slot: Option<u64>,
    confirmed: bool,
    finalized: bool,
}

impl View for SlotMessages {
    type V = SlotView;

    closed spec fn view(&self) -> SlotView {
        SlotView {
            messages: self.messages@,
            messages_slots: self.messages_slots@,
            block_meta: self.block_meta,
            transactions: self.transactions@,
            latest: self.accounts_dedup@,
            entries: self.entries@,
            sealed: self.sealed,
            entries_count: self.entries_count,
            confirmed_at: self.confirmed_at,
            finalized_at: self.finalized_at,
            parent_slot: self.parent_slot,
            confirmed: self.confirmed,
            finalized: self.finalized,
        }
    }
}

impl SlotMessages {
    /// A slot of which nothing is known.
    pub fn new() -> (fresh: Self)
        ensures
            fresh@ == SlotView::empty(),
            fresh@.wf(),
    {
        let fresh = SlotMessages {
            messages: Vec::new(),
            messages_slots: Vec::new(),
            block_meta: None,
            transactions: Vec::new(),
            accounts_dedup: BTreeMap::new(),
            entries: Vec::new(),
            sealed: false,
            entries_count: 0,
            confirmed_at: None,
            finalized_at: None,
            parent_slot: None,
            confirmed: false,
            finalized: false,
        };
        fresh
    }

    /// Takes in a message about this slot.
    pub fn receive(&mut self, id: u64, message: &Message)
        requires
            old(self)@.wf(),
        ensures
            final(self)@ == old(self)@.received(id, *message),
            final(self)@.wf(),
    {
        match message {
            Message::Slot(msg) => {
                match msg.status {
                    SlotStatus::Processed => {
                        self.parent_slot = msg.parent;
                    },
                    SlotStatus::Confirmed => {
                        self.confirmed = true;
                    },
                    SlotStatus::Finalized => {
                        self.finalized = true;
                    },
                    _ => {},
                }
                self.messages_slots.push((id, message.clone()));
            },
            Message::Account(msg) => {
                self.receive_account(id, message, msg.account.pubkey.key(), msg.account.write_version);
            },
            Message::Transaction(msg) => {
                self.messages.push(Some((id, message.clone())));
                self.transactions.push(Arc::clone(&msg.transaction));
            },
            Message::Entry(msg) => {
                self.messages.push(Some((id, message.clone())));
                self.entries.push(Arc::clone(msg));
            },
            Message::BlockMeta(msg) => {
                self.messages.push(Some((id, message.clone())));
                self.block_meta = Some(Arc::clone(msg));
            },
            Message::Block(_) => {
                self.messages.push(Some((id, message.clone())));
            },
        }
        let ghost count = self.messages.len();
        proof {
            old(self)@.lemma_received_keeps_wf(id, *message);
        }
    }

    /// Builds the slot's block once everything that its meta counts is there, and numbers it.
    pub fn try_seal(&mut self, msgid_gen: &mut MessageId) -> (sealed: Option<Numbered>)
        requires
            old(self)@.wf(),
            old(self)@.ready() ==> old(msgid_gen).last() < u64::MAX,
        ensures
            final(self)@.wf(),
            sealed is Some <==> old(self)@.ready(),
            sealed matches Some(block) ==> {
                &&& block.0 == old(msgid_gen).last() + 1
                &&& final(msgid_gen).last() == block.0
                &&& block.1 matches Message::Block(built)
                &&& old(self)@.is_block(*built)
                &&& final(self)@ == old(self)@.sealed_as(block)
            },
            sealed is None ==> final(self)@ == old(self)@ && final(msgid_gen).last() == old(
                msgid_gen,
            ).last(),
    {
        if self.sealed {
            return None;
        }
        let meta: Arc<MessageBlockMeta> = match &self.block_meta {
            Some(meta) => Arc::clone(meta),
            None => {
                return None;
            },
        };
        let entries_count: u64 = meta.entries_count;
        if self.transactions.len() as u64 != meta.executed_transaction_count || (entries_count != 0
            && self.entries.len() as u64 != entries_count) {
            return None;
        }
        let accounts: Vec<Arc<MessageAccountInfo>> = self.account_images();
        let mut transactions: Vec<Arc<MessageTransactionInfo>> = Vec::new();
        std::mem::swap(&mut transactions, &mut self.transactions);
        let mut entries: Vec<Arc<MessageEntry>> = Vec::new();
        std::mem::swap(&mut entries, &mut self.entries);
        if entries_count == 0 {
            entries.clear();
        }
        let block = MessageBlock { meta, transactions, accounts, entries };
        let id: u64 = msgid_gen.next();
        let message: Numbered = (id, Message::Block(Arc::new(block)));
        self.messages.push(Some(copy_numbered(&message)));
        self.sealed = true;
        self.entries_count = entries_count;
        let ghost count = self.messages.len();
        proof {
            old(self)@.lemma_sealed_keeps_wf(message);
        }
        Some(message)
    }

    /// Whether the slot has everything that its block needs once a message was taken in.
    pub fn completes_with(&self, message: &Message) -> (complete: bool)
        ensures
            forall|id: u64| complete == #[trigger] self@.received(id, *message).ready(),
            complete == self@.received(0, *message).ready(),
    {
        let mut transactions: u128 = self.transactions.len() as u128;
        let mut entries: u128 = self.entries.len() as u128;
        let mut counts: Option<(u64, u64)> = match &self.block_meta {
            Some(meta) => Some((meta.executed_transaction_count, meta.entries_count)),
            None => None,
        };
        match message {
            Message::Transaction(_) => {
                transactions = transactions + 1;
            },
            Message::Entry(_) => {
                entries = entries + 1;
            },
            Message::BlockMeta(meta) => {
                counts = Some((meta.executed_transaction_count, meta.entries_count));
            },
            _ => {},
        }
        match counts {
            Some((transactions_count, entries_count)) => {
                !self.sealed && transactions == transactions_count as u128 && (entries_count == 0
                    || entries == entries_count as u128)
            },
            None => false,
        }
    }

    /// The account images that were not dropped.
    fn account_images(&self) -> (images: Vec<Arc<MessageAccountInfo>>)
        ensures
            images@ == crate::slot_messages::account_images(self@.messages),
    {
        let mut images: Vec<Arc<MessageAccountInfo>> = Vec::new();
        let count: usize = self.messages.len();
        for i in 0..count
            invariant
                count == self.messages@.len(),
                images@ == crate::slot_messages::account_images(self.messages@.take(i as int)),
        {
            proof {
                let upto = self.messages@.take(i + 1);
                assert(upto.drop_last() == self.messages@.take(i as int));
                assert(upto.last() == self.messages@[i as int]);
            }
            if let Some((_, Message::Account(msg))) = &self.messages[i] {
                images.push(Arc::clone(&msg.account));
            }
        }
        assert(self.messages@.take(count as int) == self.messages@);
        images
    }

    /// Appends copies of the messages from place `from` on that were not dropped.
    pub fn append_survivors(&self, from: usize, out: &mut Vec<Numbered>)
        requires
            from <= self@.messages.len(),
        ensures
            final(out)@ == old(out)@ + survivors(self@.messages.skip(from as int)),
    {
        let count: usize = self.messages.len();
        let ghost tail = self.messages@.skip(from as int);
        for i in from..count
            invariant
                from <= count == self.messages@.len(),
                tail == self.messages@.skip(from as int),
                out@ == old(out)@ + survivors(tail.take(i - from)),
        {
            proof {
                let upto = tail.take(i + 1 - from);
                assert(upto.drop_last() == tail.take(i - from));
                assert(upto.last() == self.messages@[i as int]);
            }
            if let Some(numbered) = &self.messages[i] {
                out.push(copy_numbered(numbered));
            }
        }
        assert(tail.take(count - from) == tail);
    }

    /// Appends copies of the slot's status messages.
    pub fn append_statuses(&self, out: &mut Vec<Numbered>)
        ensures
            final(out)@ == old(out)@ + self@.messages_slots,
    {
        let count: usize = self.messages_slots.len();
        for i in 0..count
            invariant
                count == self.messages_slots@.len(),
                out@ == old(out)@ + self.messages_slots@.take(i as int),
        {
            out.push(copy_numbered(&self.messages_slots[i]));
        }
    }

    /// Notes that the slot was confirmed, or finalized.
    pub fn mark(&mut self, status: SlotStatus)
        requires
            old(self)@.wf(),
        ensures
            final(self)@ == old(self)@.marked(status),
            final(self)@.wf(),
    {
        match status {
            SlotStatus::Confirmed => {
                self.confirmed = true;
            },
            SlotStatus::Finalized => {
                self.finalized = true;
            },
            _ => {},
        }
        proof {
            old(self)@.lemma_marked_keeps_wf(status);
        }
    }

    /// Notes how many messages the slot has, if its block is open.
    pub fn record(&mut self, status: SlotStatus)
        requires
            old(self)@.wf(),
        ensures
            final(self)@ == old(self)@.recorded(status),
            final(self)@.wf(),
    {
        if !self.sealed {
            let count: usize = self.messages.len();
            match status {
                SlotStatus::Confirmed => {
                    self.confirmed_at = Some(count);
                },
                SlotStatus::Finalized => {
                    self.finalized_at = Some(count);
                },
                _ => {},
            }
        }
        proof {
            old(self)@.lemma_recorded_keeps_wf(status);
        }
    }

    /// Whether the slot was confirmed.
    pub fn is_confirmed(&self) -> (confirmed: bool)
        ensures
            confirmed == self@.confirmed,
    {
        self.confirmed
    }

    /// Whether the slot was finalized.
    pub fn is_finalized(&self) -> (finalized: bool)
        ensures
            finalized == self@.finalized,
    {
        self.finalized
    }

    /// Whether the slot's block was built.
    pub fn is_sealed(&self) -> (sealed: bool)
        ensures
            sealed == self@.sealed,
    {
        self.sealed
    }

    /// The number of entries that the built block counts.
    pub fn sealed_entries_count(&self) -> (count: u64)
        ensures
            count == self@.entries_count,
    {
        self.entries_count
    }

    /// The slot's parent, if it is known.
    pub fn parent_slot(&self) -> (parent: Option<u64>)
        ensures
            parent == self@.parent_slot,
    {
        self.parent_slot
    }

    /// How many messages there were when the slot was confirmed.
    pub fn confirmed_at(&self) -> (at: Option<usize>)
        ensures
            at == self@.confirmed_at,
    {
        self.confirmed_at
    }

    /// How many messages there were when the slot was finalized.
    pub fn finalized_at(&self) -> (at: Option<usize>)
        ensures
            at == self@.finalized_at,
    {
        self.finalized_at
    }

    /// Why the slot's block was not built, if the slot was finalized without it.
    pub fn find_failure(&self, slot: u64) -> (found: Option<InvalidBlock>)
        ensures
            found == self@.failure(slot),
    {
        if self.sealed || self.finalized_at.is_none() {
            return None;
        }
        let reason = match &self.block_meta {
            Some(meta) => FailureReason::InvalidCounts {
                transactions: find_mismatch(
                    meta.executed_transaction_count,
                    self.transactions.len(),
                ),
                entries: find_mismatch(meta.entries_count, self.entries.len()),
            },
            None => FailureReason::NoBlockMeta,
        };
        Some(InvalidBlock::FailedReconstruct { slot, reason })
    }

    /// Whether the block's meta came in.
    pub fn has_block_meta(&self) -> (known: bool)
        ensures
            known == self@.block_meta is Some,
    {
        self.block_meta.is_some()
    }

    /// Takes in an account update, and keeps only the newest image of the account.
    fn receive_account(&mut self, id: u64, message: &Message, key: (u128, u128), write_version: u64)
        requires
            old(self)@.wf(),
            message is Account,
            key == crate::message::address_key(message->Account_0.account.pubkey@),
            write_version == message->Account_0.account.write_version,
        ensures
            final(self)@ == old(self)@.with_account(id, *message),
    {
        broadcast use vstd::laws_cmp::group_laws_cmp;

        let here: usize = self.messages.len();
        let known: Option<(u64, usize)> = match self.accounts_dedup.get(&key) {
            Some(entry) => Some(*entry),
            None => None,
        };
        match known {
            Some((newest, at)) => {
                proof {
                    assert(old(self)@.points_at_image(key));
                }
                if newest < write_version {
                    self.messages.push(Some((id, message.clone())));
                    self.messages[at] = None;
                    self.accounts_dedup.insert(key, (write_version, here));
                } else {
                    self.messages.push(None);
                }
            },
            None => {
                self.messages.push(Some((id, message.clone())));
                self.accounts_dedup.insert(key, (write_version, here));
            },
        }
    }
}

impl SlotView {
    /// An account update keeps the slot well formed.
    proof fn lemma_account_keeps_wf(self, id: u64, message: Message)
        requires
            self.wf(),
            message is Account,
            self.with_account(id, message).messages.len() <= usize::MAX,
        ensures
            self.with_account(id, message).wf(),
    {
        let after = self.with_account(id, message);
        let key = crate::message::address_key(message->Account_0.account.pubkey@);
        if self.latest.contains_key(key) {
            assert(self.points_at_image(key));
        }
        assert(after.messages.len() == self.messages.len() + 1);
        assert forall|i: int| 0 <= i < after.messages.len() implies #[trigger] after.is_newest_image(
            i,
        ) by {
            if i < self.messages.len() {
                assert(self.is_newest_image(i));
            }
        }
        assert forall|other: (u128, u128)| after.latest.contains_key(other) implies #[trigger]
            after.points_at_image(other) by {
            if other != key {
                assert(self.points_at_image(other));
            }
        }
    }

    /// Noting the number of messages keeps the slot well formed.
    pub proof fn lemma_recorded_keeps_wf(self, status: SlotStatus)
        requires
            self.wf(),
        ensures
            self.recorded(status).wf(),
    {
        let after = self.recorded(status);
        assert forall|i: int| 0 <= i < after.messages.len() implies #[trigger] after.is_newest_image(
            i,
        ) by {
            assert(self.is_newest_image(i));
        }
        assert forall|key: (u128, u128)| after.latest.contains_key(key) implies #[trigger]
            after.points_at_image(key) by {
            assert(self.points_at_image(key));
        }
    }

    /// Noting a status keeps the slot well formed.
    pub proof fn lemma_marked_keeps_wf(self, status: SlotStatus)
        requires
            self.wf(),
        ensures
            self.marked(status).wf(),
    {
        self.lemma_extended_wf(self.marked(status));
    }

    /// Sending out the block keeps the slot well formed.
    pub proof fn lemma_sealed_keeps_wf(self, block: Numbered)
        requires
            self.wf(),
            self.messages.len() < usize::MAX,
            block.1 is Block,
        ensures
            self.sealed_as(block).wf(),
    {
        self.lemma_extended_wf(self.sealed_as(block));
    }

    /// A message keeps the slot well formed.
    pub proof fn lemma_received_keeps_wf(self, id: u64, message: Message)
        requires
            self.wf(),
            self.received(id, message).messages.len() <= usize::MAX,
        ensures
            self.received(id, message).wf(),
    {
        if message is Account {
            self.lemma_account_keeps_wf(id, message);
        } else {
            self.lemma_extended_wf(self.received(id, message));
        }
    }

    /// A slot stays well formed where messages that are no account updates are added.
    proof fn lemma_extended_wf(self, after: SlotView)
        requires
            self.wf(),
            after.messages.len() <= usize::MAX,
            self.messages.is_prefix_of(after.messages),
            after.latest == self.latest,
            after.confirmed_at == self.confirmed_at,
            after.finalized_at == self.finalized_at,
            forall|i: int|
                self.messages.len() <= i < after.messages.len() ==> !(#[trigger] after.messages[i] matches Some(
                    (_, Message::Account(_)),
                )),
        ensures
            after.wf(),
    {
        assert forall|i: int| 0 <= i < after.messages.len() implies #[trigger] after.is_newest_image(
            i,
        ) by {
            if i < self.messages.len() {
                assert(self.is_newest_image(i));
                assert(after.messages[i] == self.messages[i]);
            }
        }
        assert forall|key: (u128, u128)| after.latest.contains_key(key) implies #[trigger]
            after.points_at_image(key) by {
            assert(self.points_at_image(key));
            assert(after.messages[self.latest[key].1 as int] == self.messages[self.latest[key].1 as int]);
        }
    }
}

} // verus!
