//! What unary requests are answered from: the latest slots, their metas, and recent blockhashes.
use crate::message::{CommitmentLevel, Message, MessageBlockMeta, SlotStatus};
use crate::ordered::{lookup, put, sorted_keys, take};
use crate::status::{Status, StatusCode};
use crate::text::push_signed;
use std::collections::BTreeMap;
use std::sync::Arc;
use vstd::prelude::*;
use vstd::string::StringExecFns;

verus! {

/// How many slots behind a finalized slot keep their metas.
pub const KEEP_SLOTS: u64 = 3;

/// How many slots beyond the recent ones keep their blockhashes.
pub const BLOCKHASH_MARGIN: u64 = 32;

/// How many blockhashes the validator takes for recent.
pub open spec fn recent_blockhashes() -> nat {
    300
}

/// `solana_clock::MAX_RECENT_BLOCKHASHES`: how many blockhashes are recent.
#[verifier::external_body]
fn max_recent_blockhashes() -> (count: usize)
    ensures
        count == recent_blockhashes(),
{
    solana_clock::MAX_RECENT_BLOCKHASHES
}

/// How far the block with a blockhash has come.
#[derive(Debug, Clone, Copy, PartialEq, Eq, Structural)]
pub struct BlockhashStatus {
    pub slot: u64,
    pub processed: bool,
    pub confirmed: bool,
    pub finalized: bool,
}

impl BlockhashStatus {
    /// A block of which nothing is known but its slot.
    pub fn new(slot: u64) -> (status: Self)
        ensures
            status == Self::fresh(slot),
    {
        BlockhashStatus { slot, processed: false, confirmed: false, finalized: false }
    }

    /// A block of which nothing is known but its slot.
    pub open spec fn fresh(slot: u64) -> BlockhashStatus {
        BlockhashStatus { slot, processed: false, confirmed: false, finalized: false }
    }

    /// The block after it has reached `status`.
    pub open spec fn reached(self, status: SlotStatus) -> BlockhashStatus {
        BlockhashStatus {
            slot: self.slot,
            processed: self.processed || status is Processed,
            confirmed: self.confirmed || status is Confirmed,
            finalized: self.finalized || status is Finalized,
        }
    }

    /// The block after it has reached `status`.
    fn reach(self, status: SlotStatus) -> (after: BlockhashStatus)
        ensures
            after == self.reached(status),
    {
        let mut after = self;
        match status {
            SlotStatus::Processed => {
                after.processed = true;
            },
            SlotStatus::Confirmed => {
                after.confirmed = true;
            },
            SlotStatus::Finalized => {
                after.finalized = true;
            },
            _ => {},
        }
        after
    }

    /// Whether the block has reached `commitment`.
    pub open spec fn has(self, commitment: CommitmentLevel) -> bool {
        match commitment {
            CommitmentLevel::Processed => self.processed,
            CommitmentLevel::Confirmed => self.confirmed,
            CommitmentLevel::Finalized => self.finalized,
        }
    }
}

/// Blockhashes with what is known of their blocks.
type Known = (String, BlockhashStatus);

/// The blockhashes of a list as a map.
spec fn known_map(known: Seq<Known>) -> Map<Seq<char>, BlockhashStatus>
    decreases known.len(),
{
    if known.len() == 0 {
        Map::empty()
    } else {
        known_map(known.drop_last()).insert(known.last().0@, known.last().1)
    }
}

/// No blockhash is listed twice.
spec fn distinct(known: Seq<Known>) -> bool {
    forall|i: int, j: int|
        0 <= i < j < known.len() ==> (#[trigger] known[i]).0@ != (#[trigger] known[j]).0@
}

/// What a list without repetitions says of its blockhashes.
proof fn lemma_known_map(known: Seq<Known>)
    requires
        distinct(known),
    ensures
        forall|i: int|
            0 <= i < known.len() ==> known_map(known).contains_key((#[trigger] known[i]).0@)
                && known_map(known)[known[i].0@] == known[i].1,
        forall|hash: Seq<char>| #[trigger]
            known_map(known).contains_key(hash) ==> exists|i: int|
                0 <= i < known.len() && (#[trigger] known[i]).0@ == hash,
        known_map(known).dom().finite(),
        known_map(known).dom().len() == known.len(),
    decreases known.len(),
{
    if known.len() > 0 {
        let rest = known.drop_last();
        lemma_known_map(rest);
        let last = known.last();
        assert(!known_map(rest).contains_key(last.0@)) by {
            if known_map(rest).contains_key(last.0@) {
                let i = choose|i: int| 0 <= i < rest.len() && (#[trigger] rest[i]).0@ == last.0@;
                assert(known[i].0@ == known[known.len() - 1].0@);
            }
        }
        assert(known_map(known).dom() =~= known_map(rest).dom().insert(last.0@));
        assert forall|i: int| 0 <= i < known.len() implies known_map(known).contains_key(
            (#[trigger] known[i]).0@,
        ) && known_map(known)[known[i].0@] == known[i].1 by {
            if i < rest.len() {
                assert(rest[i] == known[i]);
            }
        }
        assert forall|hash: Seq<char>| #[trigger] known_map(known).contains_key(
            hash,
        ) implies exists|i: int| 0 <= i < known.len() && (#[trigger] known[i]).0@ == hash by {
            if hash == last.0@ {
                assert(known[known.len() - 1].0@ == hash);
            } else {
                assert(known_map(rest).contains_key(hash));
                let i = choose|i: int| 0 <= i < rest.len() && (#[trigger] rest[i]).0@ == hash;
                assert(known[i].0@ == hash);
            }
        }
    }
}

/// Where a blockhash stands in a list.
fn position(known: &Vec<Known>, hash: &String) -> (found: Option<usize>)
    ensures
        found matches Some(at) ==> at < known@.len() && known@[at as int].0@ == hash@,
        found is None ==> forall|i: int|
            0 <= i < known@.len() ==> (#[trigger] known@[i]).0@ != hash@,
{
    let count: usize = known.len();
    for i in 0..count
        invariant
            count == known@.len(),
            forall|j: int| 0 <= j < i ==> (#[trigger] known@[j]).0@ != hash@,
    {
        if known[i].0 == *hash {
            return Some(i);
        }
    }
    None
}

/// A blockhash that is listed gets another status.
proof fn lemma_known_updated(known: Seq<Known>, at: int, entry: Known)
    requires
        distinct(known),
        0 <= at < known.len(),
        entry.0@ == known[at].0@,
    ensures
        distinct(known.update(at, entry)),
        known_map(known.update(at, entry)) == known_map(known).insert(entry.0@, entry.1),
{
    let after = known.update(at, entry);
    assert(distinct(after)) by {
        assert forall|i: int, j: int| 0 <= i < j < after.len() implies (#[trigger] after[i]).0@ != (
        #[trigger] after[j]).0@ by {
            assert(known[i].0@ != known[j].0@);
        }
    }
    lemma_known_map(known);
    lemma_known_map(after);
    assert forall|hash: Seq<char>| #[trigger] known_map(after).contains_key(hash) <==> known_map(
        known,
    ).insert(entry.0@, entry.1).contains_key(hash) by {
        if known_map(after).contains_key(hash) {
            let i = choose|i: int| 0 <= i < after.len() && (#[trigger] after[i]).0@ == hash;
            assert(known[i].0@ == hash);
        }
        if known_map(known).contains_key(hash) {
            let i = choose|i: int| 0 <= i < known.len() && (#[trigger] known[i]).0@ == hash;
            assert(after[i].0@ == hash);
        }
        assert(after[at].0@ == entry.0@);
    }
    assert forall|hash: Seq<char>| #[trigger] known_map(after).contains_key(hash) implies known_map(
        after,
    )[hash] == known_map(known).insert(entry.0@, entry.1)[hash] by {
        let i = choose|i: int| 0 <= i < after.len() && (#[trigger] after[i]).0@ == hash;
        if i != at {
            assert(known[i].0@ == hash);
            assert(known[i].0@ != known[at].0@) by {
                if i < at {
                    assert(known[i].0@ != known[at].0@);
                } else {
                    assert(known[at].0@ != known[i].0@);
                }
            }
        }
    }
    assert(known_map(after) =~= known_map(known).insert(entry.0@, entry.1));
}

/// The blockhashes of the slots from `keep_slot` on.
pub open spec fn kept_blockhashes(
    blockhashes: Map<Seq<char>, BlockhashStatus>,
    keep_slot: u64,
) -> Map<Seq<char>, BlockhashStatus> {
    blockhashes.restrict(
        Set::new(
            |hash: Seq<char>| blockhashes.contains_key(hash) && keep_slot <= blockhashes[hash].slot,
        ),
    )
}

/// Drops the blockhashes of the slots below `keep_slot`.
fn keep_blockhashes(known: Vec<Known>, keep_slot: u64) -> (kept: Vec<Known>)
    requires
        distinct(known@),
    ensures
        distinct(kept@),
        known_map(kept@) == kept_blockhashes(known_map(known@), keep_slot),
{
    let ghost all = known@;
    let mut kept: Vec<Known> = Vec::new();
    assert(known_map(kept@) =~= kept_blockhashes(known_map(all.take(0)), keep_slot));
    for entry in it: known
        invariant
            it.seq() == all,
            distinct(all),
            distinct(kept@),
            known_map(kept@) == kept_blockhashes(known_map(all.take(it.index())), keep_slot),
    {
        let ghost i = it.index();
        let ghost before = kept@;
        proof {
            let upto = all.take(i + 1);
            let prefix = all.take(i);
            assert(upto.drop_last() =~= prefix);
            assert(upto.last() == entry);
            assert(distinct(prefix)) by {
                assert forall|a: int, b: int| 0 <= a < b < prefix.len() implies (
                #[trigger] prefix[a]).0@ != (#[trigger] prefix[b]).0@ by {
                    assert(all[a].0@ != all[b].0@);
                }
            }
            lemma_known_map(prefix);
            assert(!known_map(prefix).contains_key(entry.0@)) by {
                if known_map(prefix).contains_key(entry.0@) {
                    let k = choose|k: int|
                        0 <= k < prefix.len() && (#[trigger] prefix[k]).0@ == entry.0@;
                    assert(all[k].0@ != all[i].0@);
                }
            }
            lemma_known_map(before);
            assert forall|a: int| 0 <= a < before.len() implies (#[trigger] before[a]).0@
                != entry.0@ by {
                assert(known_map(before).contains_key(before[a].0@));
                assert(known_map(prefix).contains_key(before[a].0@));
            }
        }
        if entry.1.slot >= keep_slot {
            kept.push(entry);
            proof {
                assert(kept@.drop_last() =~= before);
                assert(distinct(kept@)) by {
                    assert forall|a: int, b: int| 0 <= a < b < kept@.len() implies (
                    #[trigger] kept@[a]).0@ != (#[trigger] kept@[b]).0@ by {
                        assert(before[a] == kept@[a]);
                        if b < before.len() {
                            assert(before[b] == kept@[b]);
                        }
                    }
                }
            }
        }
        assert(known_map(kept@) =~= kept_blockhashes(known_map(all.take(i + 1)), keep_slot));
    }
    assert(all.take(all.len() as int) =~= all);
    kept
}

/// What the answers rest on.
#[verifier::ext_equal]
pub struct MetaView {
    pub blocks: Map<u64, Arc<MessageBlockMeta>>,
    pub blockhashes: Map<Seq<char>, BlockhashStatus>,
    pub processed: Option<u64>,
    pub confirmed: Option<u64>,
    pub finalized: Option<u64>,
}

impl MetaView {
    /// The latest slot with a commitment.
    pub open spec fn latest(self, commitment: CommitmentLevel) -> Option<u64> {
        match commitment {
            CommitmentLevel::Processed => self.processed,
            CommitmentLevel::Confirmed => self.confirmed,
            CommitmentLevel::Finalized => self.finalized,
        }
    }

    /// The latest slots after `slot` has reached `status`.
    pub open spec fn pointed(self, slot: u64, status: SlotStatus) -> MetaView {
        MetaView {
            processed: if status is Processed {
                Some(slot)
            } else {
                self.processed
            },
            confirmed: if status is Confirmed {
                Some(slot)
            } else {
                self.confirmed
            },
            finalized: if status is Finalized {
                Some(slot)
            } else {
                self.finalized
            },
            ..self
        }
    }

    /// The blockhashes after `slot` has reached `status`, if its meta is stored.
    pub open spec fn hashed(self, slot: u64, status: SlotStatus) -> MetaView {
        if self.blocks.contains_key(slot) {
            let hash = self.blocks[slot].blockhash@;
            let known = if self.blockhashes.contains_key(hash) {
                self.blockhashes[hash]
            } else {
                BlockhashStatus::fresh(slot)
            };
            MetaView { blockhashes: self.blockhashes.insert(hash, known.reached(status)), ..self }
        } else {
            self
        }
    }

    /// What is left once `slot` is finalized: the metas of the slots just behind it, and the
    /// blockhashes that are recent, with a margin.
    pub open spec fn trimmed(self, slot: u64) -> MetaView {
        MetaView {
            blocks: if KEEP_SLOTS <= slot {
                self.blocks.restrict(Set::new(|s: u64| slot - KEEP_SLOTS <= s))
            } else {
                self.blocks
            },
            blockhashes: if recent_blockhashes() + BLOCKHASH_MARGIN <= slot {
                kept_blockhashes(
                    self.blockhashes,
                    (slot - recent_blockhashes() - BLOCKHASH_MARGIN) as u64,
                )
            } else {
                self.blockhashes
            },
            ..self
        }
    }

    /// What the answers rest on after a message.
    pub open spec fn updated(self, message: Message) -> MetaView {
        match message {
            Message::Slot(msg) => {
                let hashed = self.pointed(msg.slot, msg.status).hashed(msg.slot, msg.status);
                if msg.status is Finalized {
                    hashed.trimmed(msg.slot)
                } else {
                    hashed
                }
            },
            Message::BlockMeta(msg) => MetaView { blocks: self.blocks.insert(msg.slot, msg), ..self },
            _ => self,
        }
    }

    /// The meta of the latest slot with a commitment.
    pub open spec fn latest_block(self, commitment: CommitmentLevel) -> Option<
        Arc<MessageBlockMeta>,
    > {
        match self.latest(commitment) {
            Some(slot) => if self.blocks.contains_key(slot) {
                Some(self.blocks[slot])
            } else {
                None
            },
            None => None,
        }
    }
}

impl MetaView {
    /// What a request for a part of the latest block is answered.
    pub open spec fn built<V>(
        self,
        level: CommitmentLevel,
        part: spec_fn(MessageBlockMeta) -> Option<V>,
    ) -> Result<V, (StatusCode, Seq<char>)> {
        match self.latest_block(level) {
            Some(block) => match part(*block) {
                Some(value) => Ok(value),
                None => Err((StatusCode::Internal, "failed to build response"@)),
            },
            None => Err((StatusCode::Internal, "block is not available yet"@)),
        }
    }

    /// What a request for the validity of a blockhash is answered.
    pub open spec fn validity(self, hash: Seq<char>, level: CommitmentLevel) -> Result<
        BlockhashValidity,
        (StatusCode, Seq<char>),
    > {
        match self.latest(level) {
            Some(slot) if self.blockhashes.dom().len() >= recent_blockhashes()
                + BLOCKHASH_MARGIN => Ok(
                BlockhashValidity {
                    valid: self.blockhashes.contains_key(hash) && self.blockhashes[hash].has(level),
                    slot,
                },
            ),
            _ => Err((StatusCode::Internal, "startup"@)),
        }
    }
}

/// The latest blockhash, and the height up to which it is taken.
#[derive(Debug)]
pub struct LatestBlockhash {
    pub slot: u64,
    pub blockhash: String,
    pub last_valid_block_height: u64,
}

/// Whether a blockhash is valid, and the slot as of which this is said.
#[derive(Debug, Clone, Copy, PartialEq, Eq, Structural)]
pub struct BlockhashValidity {
    pub valid: bool,
    pub slot: u64,
}

/// What unary requests are answered from.
#[derive(Debug)]
pub struct BlockMetaStorage {
    blocks: BTreeMap<u64, Arc<MessageBlockMeta>>,
    blockhashes: Vec<Known>,
    processed: Option<u64>,
    confirmed: Option<u64>,
    finalized: Option<u64>,
}

impl View for BlockMetaStorage {
    type V = MetaView;

    closed spec fn view(&self) -> MetaView {
        MetaView {
            blocks: self.blocks@,
            blockhashes: known_map(self.blockhashes@),
            processed: self.processed,
            confirmed: self.confirmed,
            finalized: self.finalized,
        }
    }
}

impl BlockMetaStorage {
    /// What holds of every storage: no blockhash is listed twice.
    pub closed spec fn wf(&self) -> bool {
        distinct(self.blockhashes@)
    }

    /// A storage that knows nothing.
    pub fn new() -> (storage: Self)
        ensures
            storage.wf(),
            storage@ == (MetaView {
                blocks: Map::empty(),
                blockhashes: Map::empty(),
                processed: None,
                confirmed: None,
                finalized: None,
            }),
    {
        BlockMetaStorage {
            blocks: BTreeMap::new(),
            blockhashes: Vec::new(),
            processed: None,
            confirmed: None,
            finalized: None,
        }
    }

    /// Takes in a status or a meta; says whether the message was one.
    pub fn update(&mut self, message: &Message) -> (accepted: bool)
        requires
            old(self).wf(),
        ensures
            final(self).wf(),
            final(self)@ == old(self)@.updated(*message),
            accepted == crate::dispatch::feeds_block_meta(*message),
    {
        match message {
            Message::Slot(msg) => {
                match msg.status {
                    SlotStatus::Processed => {
                        self.processed = Some(msg.slot);
                    },
                    SlotStatus::Confirmed => {
                        self.confirmed = Some(msg.slot);
                    },
                    SlotStatus::Finalized => {
                        self.finalized = Some(msg.slot);
                    },
                    _ => {},
                }
                assert(self@ =~= old(self)@.pointed(msg.slot, msg.status));
                self.note_blockhash(msg.slot, msg.status);
                if msg.status == SlotStatus::Finalized {
                    self.trim(msg.slot);
                }
                true
            },
            Message::BlockMeta(msg) => {
                put(&mut self.blocks, msg.slot, Arc::clone(msg));
                assert(self@ =~= old(self)@.updated(*message));
                true
            },
            _ => false,
        }
    }

    /// Notes `status` on the blockhash of a slot, if its meta is stored.
    fn note_blockhash(&mut self, slot: u64, status: SlotStatus)
        requires
            old(self).wf(),
        ensures
            final(self).wf(),
            final(self)@ == old(self)@.hashed(slot, status),
    {
        let hash: String = match lookup(&self.blocks, slot) {
            Some(block) => block.blockhash.clone(),
            None => {
                return;
            },
        };
        let ghost before = self.blockhashes@;
        proof {
            lemma_known_map(before);
        }
        match position(&self.blockhashes, &hash) {
            Some(at) => {
                let reached: BlockhashStatus = self.blockhashes[at].1.reach(status);
                proof {
                    lemma_known_updated(before, at as int, (before[at as int].0, reached));
                }
                self.blockhashes[at].1 = reached;
                assert(self.blockhashes@ =~= before.update(
                    at as int,
                    (before[at as int].0, reached),
                ));
            },
            None => {
                let reached: BlockhashStatus = BlockhashStatus::new(slot).reach(status);
                self.blockhashes.push((hash, reached));
                assert(self.blockhashes@.drop_last() =~= before);
            },
        }
        assert(self@ =~= old(self)@.hashed(slot, status));
    }

    /// Drops what is not asked for any more once `slot` is finalized.
    fn trim(&mut self, slot: u64)
        requires
            old(self).wf(),
        ensures
            final(self).wf(),
            final(self)@ == old(self)@.trimmed(slot),
    {
        if slot >= KEEP_SLOTS {
            keep_blocks(&mut self.blocks, slot - KEEP_SLOTS);
        }
        let recent: u64 = max_recent_blockhashes() as u64 + BLOCKHASH_MARGIN;
        if slot >= recent {
            let mut known: Vec<Known> = Vec::new();
            std::mem::swap(&mut known, &mut self.blockhashes);
            self.blockhashes = keep_blockhashes(known, slot - recent);
        }
        assert(self@ =~= old(self)@.trimmed(slot));
    }

    /// The commitment that a request asks for; processed where it names none.
    pub fn parse_commitment(commitment: Option<i32>) -> (parsed: Result<CommitmentLevel, Status>)
        ensures
            requested(commitment) matches Some(level) ==> parsed == Ok::<CommitmentLevel, Status>(
                level,
            ),
            requested(commitment) is None ==> (parsed matches Err(status) && status.says(
                StatusCode::Unknown,
                "failed to create CommitmentLevel from "@ + crate::text::signed_decimal(
                    commitment->0 as int,
                ),
            )),
    {
        match commitment {
            None => Ok(CommitmentLevel::Processed),
            Some(0) => Ok(CommitmentLevel::Processed),
            Some(1) => Ok(CommitmentLevel::Confirmed),
            Some(2) => Ok(CommitmentLevel::Finalized),
            Some(other) => {
                let mut message = String::from_str("failed to create CommitmentLevel from ");
                push_signed(&mut message, other);
                Err(Status { code: StatusCode::Unknown, message })
            },
        }
    }

    /// The latest slot with a commitment.
    fn latest_slot(&self, commitment: CommitmentLevel) -> (slot: Option<u64>)
        ensures
            slot == self@.latest(commitment),
    {
        match commitment {
            CommitmentLevel::Processed => self.processed,
            CommitmentLevel::Confirmed => self.confirmed,
            CommitmentLevel::Finalized => self.finalized,
        }
    }

    /// The meta of the latest slot with the commitment that a request asks for.
    pub fn get_block(&self, commitment: Option<i32>) -> (block: Result<
        Arc<MessageBlockMeta>,
        Status,
    >)
        ensures
            answers(
                commitment,
                |level: CommitmentLevel|
                    match self@.latest_block(level) {
                        Some(block) => Ok(block),
                        None => Err((StatusCode::Internal, "block is not available yet"@)),
                    },
                block,
                |found: Arc<MessageBlockMeta>| found,
            ),
    {
        let level: CommitmentLevel = match Self::parse_commitment(commitment) {
            Ok(level) => level,
            Err(status) => {
                return Err(status);
            },
        };
        if let Some(slot) = self.latest_slot(level) {
            if let Some(block) = lookup(&self.blocks, slot) {
                return Ok(Arc::clone(block));
            }
        }
        Err(Status::new(StatusCode::Internal, "block is not available yet"))
    }

    /// The latest blockhash, and the height up to which it is taken.
    pub fn latest_blockhash(&self, commitment: Option<i32>) -> (answer: Result<
        LatestBlockhash,
        Status,
    >)
        requires
            requested(commitment) matches Some(level) ==> (self@.latest_block(level) matches Some(
                block,
            ) ==> (block.block_height matches Some(height) ==> height + recent_blockhashes()
                <= u64::MAX)),
        ensures
            answers(
                commitment,
                |level: CommitmentLevel|
                    self@.built(
                        level,
                        |block: MessageBlockMeta|
                            match block.block_height {
                                Some(height) => Some(
                                    (
                                        block.slot,
                                        block.blockhash@,
                                        (height + recent_blockhashes()) as u64,
                                    ),
                                ),
                                None => None,
                            },
                    ),
                answer,
                |given: LatestBlockhash|
                    (given.slot, given.blockhash@, given.last_valid_block_height),
            ),
    {
        let block: Arc<MessageBlockMeta> = match self.get_block(commitment) {
            Ok(block) => block,
            Err(status) => {
                return Err(status);
            },
        };
        match block.block_height {
            Some(height) => Ok(
                LatestBlockhash {
                    slot: block.slot,
                    blockhash: block.blockhash.clone(),
                    last_valid_block_height: height + max_recent_blockhashes() as u64,
                },
            ),
            None => Err(Status::new(StatusCode::Internal, "failed to build response")),
        }
    }

    /// The height of the latest block.
    pub fn block_height(&self, commitment: Option<i32>) -> (answer: Result<u64, Status>)
        ensures
            answers(
                commitment,
                |level: CommitmentLevel|
                    self@.built(level, |block: MessageBlockMeta| block.block_height),
                answer,
                |given: u64| given,
            ),
    {
        let block: Arc<MessageBlockMeta> = match self.get_block(commitment) {
            Ok(block) => block,
            Err(status) => {
                return Err(status);
            },
        };
        match block.block_height {
            Some(height) => Ok(height),
            None => Err(Status::new(StatusCode::Internal, "failed to build response")),
        }
    }

    /// The latest slot whose meta is stored.
    pub fn slot(&self, commitment: Option<i32>) -> (answer: Result<u64, Status>)
        ensures
            answers(
                commitment,
                |level: CommitmentLevel|
                    self@.built(level, |block: MessageBlockMeta| Some(block.slot)),
                answer,
                |given: u64| given,
            ),
    {
        match self.get_block(commitment) {
            Ok(block) => Ok(block.slot),
            Err(status) => Err(status),
        }
    }

    /// Whether a blockhash belongs to a recent block with the commitment that a request asks
    /// for, and the latest slot with that commitment. Until enough blockhashes are known there
    /// is no answer.
    pub fn is_blockhash_valid(&self, blockhash: &str, commitment: Option<i32>) -> (answer: Result<
        BlockhashValidity,
        Status,
    >)
        requires
            self.wf(),
        ensures
            answers(
                commitment,
                |level: CommitmentLevel| self@.validity(blockhash@, level),
                answer,
                |given: BlockhashValidity| given,
            ),
    {
        let level: CommitmentLevel = match Self::parse_commitment(commitment) {
            Ok(level) => level,
            Err(status) => {
                return Err(status);
            },
        };
        proof {
            lemma_known_map(self.blockhashes@);
        }
        if self.blockhashes.len() < max_recent_blockhashes() + BLOCKHASH_MARGIN as usize {
            return Err(Status::new(StatusCode::Internal, "startup"));
        }
        let slot: u64 = match self.latest_slot(level) {
            Some(slot) => slot,
            None => {
                return Err(Status::new(StatusCode::Internal, "startup"));
            },
        };
        let hash: String = blockhash.to_owned();
        let valid: bool = match position(&self.blockhashes, &hash) {
            Some(at) => {
                let known: BlockhashStatus = self.blockhashes[at].1;
                match level {
                    CommitmentLevel::Processed => known.processed,
                    CommitmentLevel::Confirmed => known.confirmed,
                    CommitmentLevel::Finalized => known.finalized,
                }
            },
            None => false,
        };
        Ok(BlockhashValidity { valid, slot })
    }
}

/// Drops the metas of the slots below `keep_slot`.
fn keep_blocks(blocks: &mut BTreeMap<u64, Arc<MessageBlockMeta>>, keep_slot: u64)
    ensures
        final(blocks)@ == old(blocks)@.restrict(Set::new(|slot: u64| keep_slot <= slot)),
{
    let keys: Vec<u64> = sorted_keys(blocks);
    let count: usize = keys.len();
    for i in 0..count
        invariant
            count == keys@.len(),
            crate::ordered::enumerates(keys@, old(blocks)@.dom()),
            forall|slot: u64| #[trigger]
                blocks@.contains_key(slot) ==> old(blocks)@.contains_key(slot) && blocks@[slot]
                    == old(blocks)@[slot],
            forall|slot: u64|
                keep_slot <= slot && old(blocks)@.contains_key(slot) ==> #[trigger]
                    blocks@.contains_key(slot),
            forall|j: int|
                0 <= j < i && keys@[j] < keep_slot ==> !blocks@.contains_key(#[trigger] keys@[j]),
    {
        if keys[i] < keep_slot {
            take(blocks, keys[i]);
        }
    }
    proof {
        let kept = old(blocks)@.restrict(Set::new(|slot: u64| keep_slot <= slot));
        assert forall|slot: u64| #[trigger] blocks@.contains_key(slot) <==> kept.contains_key(
            slot,
        ) by {
            if blocks@.contains_key(slot) && slot < keep_slot {
                assert(old(blocks)@.contains_key(slot));
                assert(keys@.contains(slot));
                let j = choose|j: int| 0 <= j < keys@.len() && keys@[j] == slot;
                assert(!blocks@.contains_key(keys@[j]));
            }
        }
        assert(blocks@ =~= kept);
    }
}

/// The commitment that a request asks for.
pub open spec fn requested(commitment: Option<i32>) -> Option<CommitmentLevel> {
    match commitment {
        None => Some(CommitmentLevel::Processed),
        Some(n) => if n == 0 {
            Some(CommitmentLevel::Processed)
        } else if n == 1 {
            Some(CommitmentLevel::Confirmed)
        } else if n == 2 {
            Some(CommitmentLevel::Finalized)
        } else {
            None
        },
    }
}

/// A request is refused where its commitment is none, and else as `wanted` says for the
/// commitment; what is returned otherwise is what `wanted` gives.
pub open spec fn answers<T, V>(
    commitment: Option<i32>,
    wanted: spec_fn(CommitmentLevel) -> Result<V, (StatusCode, Seq<char>)>,
    answer: Result<T, Status>,
    view: spec_fn(T) -> V,
) -> bool {
    match requested(commitment) {
        None => answer matches Err(status) && status.says(
            StatusCode::Unknown,
            "failed to create CommitmentLevel from "@ + crate::text::signed_decimal(
                commitment->0 as int,
            ),
        ),
        Some(level) => match wanted(level) {
            Ok(value) => answer matches Ok(given) && view(given) == value,
            Err((code, text)) => answer matches Err(status) && status.says(code, text),
        },
    }
}

/// What other messages say is of no concern to the storage.
pub proof fn lemma_only_statuses_and_metas(before: MetaView, message: Message)
    requires
        !crate::dispatch::feeds_block_meta(message),
    ensures
        before.updated(message) == before,
{
}

/// After a slot is finalized, only metas of the slots just behind it and later are stored, and
/// only blockhashes of slots that are recent, with a margin.
pub proof fn lemma_finalized_slot_trims(before: MetaView, message: Message)
    requires
        message is Slot,
        message->Slot_0.status is Finalized,
    ensures
        forall|slot: u64| #[trigger]
            before.updated(message).blocks.contains_key(slot) ==> before.blocks.contains_key(slot)
                && message.slot() <= slot + KEEP_SLOTS,
        forall|hash: Seq<char>| #[trigger]
            before.updated(message).blockhashes.contains_key(hash) ==> message.slot()
                <= before.updated(message).blockhashes[hash].slot + recent_blockhashes()
                + BLOCKHASH_MARGIN,
{
}

/// A slot whose meta came before its status has a blockhash with that status.
pub proof fn lemma_status_reaches_blockhash(before: MetaView, message: Message)
    requires
        message is Slot,
        message->Slot_0.status is Processed || message->Slot_0.status is Confirmed,
        before.blocks.contains_key(message.slot()),
    ensures
        ({
            let hash = before.blocks[message.slot()].blockhash@;
            let after = before.updated(message);
            &&& after.blockhashes.contains_key(hash)
            &&& message->Slot_0.status is Processed ==> after.blockhashes[hash].processed
            &&& message->Slot_0.status is Confirmed ==> after.blockhashes[hash].confirmed
        }),
{
}

/// What a blockhash has reached, it does not lose while it is stored.
pub proof fn lemma_blockhash_keeps_status(
    before: MetaView,
    message: Message,
    hash: Seq<char>,
    level: CommitmentLevel,
)
    requires
        before.blockhashes.contains_key(hash),
        before.blockhashes[hash].has(level),
        before.updated(message).blockhashes.contains_key(hash),
    ensures
        before.updated(message).blockhashes[hash].has(level),
        before.updated(message).blockhashes[hash].slot == before.blockhashes[hash].slot,
{
}

} // verus!
