//! What unary requests are answered, in terms of the messages that came in.
use crate::block_meta::{
    BlockMetaStorage, BlockhashStatus, BlockhashValidity, LatestBlockhash, MetaView,
};
use crate::message::{CommitmentLevel, Message, MessageBlockMeta, SlotStatus};
use crate::status::{Status, StatusCode};
use std::sync::Arc;
use vstd::prelude::*;

verus! {

/// What a new storage rests on, and what that becomes message by message.
pub open spec fn is_history(views: Seq<MetaView>, messages: Seq<Message>) -> bool {
    &&& views.len() == messages.len() + 1
    &&& views[0].blocks == Map::<u64, Arc<MessageBlockMeta>>::empty()
    &&& views[0].blockhashes == Map::<Seq<char>, BlockhashStatus>::empty()
    &&& views[0].processed is None
    &&& views[0].confirmed is None
    &&& views[0].finalized is None
    &&& forall|i: int|
        0 <= i < messages.len() ==> #[trigger] views[i + 1] == views[i].updated(messages[i])
}

/// A new storage and the calls of `update` on it make such a history; only statuses and metas
/// are taken in.
pub proof fn lemma_calls_make_a_history()
    ensures
        forall|storage: BlockMetaStorage| #[trigger]
            call_ensures(BlockMetaStorage::new, (), storage) ==> storage.wf() && is_history(
                seq![storage@],
                Seq::empty(),
            ),
        forall|storage: &mut BlockMetaStorage, message: &Message, accepted: bool| #[trigger]
            call_ensures(BlockMetaStorage::update, (storage, message), accepted)
                && (*storage).wf() ==> {
                &&& final(storage).wf()
                &&& final(storage)@ == (*storage)@.updated(*message)
                &&& accepted <==> *message is Slot || *message is BlockMeta
            },
{
}

/// The slot of the last status message with exactly this status.
pub open spec fn last_slot(messages: Seq<Message>, status: SlotStatus) -> Option<u64>
    decreases messages.len(),
{
    if messages.len() == 0 {
        None
    } else {
        match messages.last() {
            Message::Slot(msg) => if msg.status == status {
                Some(msg.slot)
            } else {
                last_slot(messages.drop_last(), status)
            },
            _ => last_slot(messages.drop_last(), status),
        }
    }
}

/// The last meta that came in for a slot, unless a slot more than three behind which it lies was
/// finalized since.
pub open spec fn meta_for(messages: Seq<Message>, slot: u64) -> Option<Arc<MessageBlockMeta>>
    decreases messages.len(),
{
    if messages.len() == 0 {
        None
    } else {
        let before = meta_for(messages.drop_last(), slot);
        match messages.last() {
            Message::BlockMeta(meta) => if meta.slot == slot {
                Some(meta)
            } else {
                before
            },
            Message::Slot(msg) => if msg.status is Finalized && slot + 3 < msg.slot {
                None
            } else {
                before
            },
            _ => before,
        }
    }
}

/// What is known of a block by its blockhash: its slot, and which commitments were reported of
/// it.
pub struct Reports {
    pub slot: u64,
    pub processed: bool,
    pub confirmed: bool,
    pub finalized: bool,
}

/// What was reported of a blockhash: a status counts where the meta of its slot came before it,
/// and a finalized slot makes forget what lies more than 332 slots behind it.
pub open spec fn reports_on(messages: Seq<Message>, hash: Seq<char>) -> Option<Reports>
    decreases messages.len(),
{
    if messages.len() == 0 {
        None
    } else {
        let rest = messages.drop_last();
        let before = reports_on(rest, hash);
        match messages.last() {
            Message::Slot(msg) => {
                let now = match meta_for(rest, msg.slot) {
                    Some(meta) => if meta.blockhash@ == hash {
                        let known = match before {
                            Some(known) => known,
                            None => Reports {
                                slot: msg.slot,
                                processed: false,
                                confirmed: false,
                                finalized: false,
                            },
                        };
                        Some(
                            Reports {
                                slot: known.slot,
                                processed: known.processed || msg.status is Processed,
                                confirmed: known.confirmed || msg.status is Confirmed,
                                finalized: known.finalized || msg.status is Finalized,
                            },
                        )
                    } else {
                        before
                    },
                    None => before,
                };
                match now {
                    Some(known) => if msg.status is Finalized && known.slot + 332 < msg.slot {
                        None
                    } else {
                        Some(known)
                    },
                    None => None,
                }
            },
            _ => before,
        }
    }
}

/// The storage holds what came in.
spec fn stores(view: MetaView, messages: Seq<Message>) -> bool {
    &&& view.processed == last_slot(messages, SlotStatus::Processed)
    &&& view.confirmed == last_slot(messages, SlotStatus::Confirmed)
    &&& view.finalized == last_slot(messages, SlotStatus::Finalized)
    &&& forall|slot: u64|
        match meta_for(messages, slot) {
            Some(meta) => #[trigger] view.blocks.contains_key(slot) && view.blocks[slot] == meta,
            None => !view.blocks.contains_key(slot),
        }
    &&& forall|hash: Seq<char>|
        match reports_on(messages, hash) {
            Some(known) => {
                &&& #[trigger] view.blockhashes.contains_key(hash)
                &&& view.blockhashes[hash].slot == known.slot
                &&& view.blockhashes[hash].processed == known.processed
                &&& view.blockhashes[hash].confirmed == known.confirmed
                &&& view.blockhashes[hash].finalized == known.finalized
            },
            None => !view.blockhashes.contains_key(hash),
        }
}

/// One more message.
proof fn lemma_stores_one_more(view: MetaView, messages: Seq<Message>)
    requires
        messages.len() > 0,
        stores(view, messages.drop_last()),
    ensures
        stores(view.updated(messages.last()), messages),
{
    let rest = messages.drop_last();
    let after = view.updated(messages.last());
    assert forall|slot: u64|
        match meta_for(messages, slot) {
            Some(meta) => #[trigger] after.blocks.contains_key(slot) && after.blocks[slot] == meta,
            None => !after.blocks.contains_key(slot),
        } by {
        assert(view.blocks.contains_key(slot) == meta_for(rest, slot) is Some);
    }
    assert forall|hash: Seq<char>|
        match reports_on(messages, hash) {
            Some(known) => {
                &&& #[trigger] after.blockhashes.contains_key(hash)
                &&& after.blockhashes[hash].slot == known.slot
                &&& after.blockhashes[hash].processed == known.processed
                &&& after.blockhashes[hash].confirmed == known.confirmed
                &&& after.blockhashes[hash].finalized == known.finalized
            },
            None => !after.blockhashes.contains_key(hash),
        } by {
        assert(view.blockhashes.contains_key(hash) == reports_on(rest, hash) is Some);
        if let Message::Slot(msg) = messages.last() {
            assert(view.blocks.contains_key(msg.slot) == meta_for(rest, msg.slot) is Some);
        }
    }
}

/// Over any history the storage holds what came in.
proof fn lemma_history_is_stored(views: Seq<MetaView>, messages: Seq<Message>)
    requires
        is_history(views, messages),
    ensures
        stores(views.last(), messages),
    decreases messages.len(),
{
    if messages.len() > 0 {
        let shorter = views.drop_last();
        let rest = messages.drop_last();
        let n = rest.len() as int;
        assert(is_history(shorter, rest)) by {
            assert forall|i: int| 0 <= i < rest.len() implies #[trigger] shorter[i + 1]
                == shorter[i].updated(rest[i]) by {
                assert(views[i + 1] == views[i].updated(messages[i]));
            }
        }
        lemma_history_is_stored(shorter, rest);
        assert(shorter.last() == views[n]);
        assert(views[n + 1] == views[n].updated(messages[n]));
        lemma_stores_one_more(views[n], messages);
    }
}

/// The commitment that a request asks for by its number.
pub open spec fn asks_for(commitment: Option<i32>, level: CommitmentLevel) -> bool {
    match level {
        CommitmentLevel::Processed => commitment == None::<i32> || commitment == Some(0i32),
        CommitmentLevel::Confirmed => commitment == Some(1i32),
        CommitmentLevel::Finalized => commitment == Some(2i32),
    }
}

/// The meta that a request is answered from: that of the slot of the last status message with
/// exactly the status of the commitment.
pub open spec fn answered_from(messages: Seq<Message>, level: CommitmentLevel) -> Option<
    Arc<MessageBlockMeta>,
> {
    match last_slot(messages, crate::slot_laws::status_of(level)) {
        Some(slot) => meta_for(messages, slot),
        None => None,
    }
}

/// A request is refused in these words.
pub open spec fn refused<T>(answer: Result<T, Status>, code: StatusCode, text: Seq<char>) -> bool {
    answer matches Err(status) && status.code == code && status.message@ == text
}

/// A meta is stored under its own slot.
proof fn lemma_meta_is_of_slot(messages: Seq<Message>, slot: u64)
    ensures
        meta_for(messages, slot) matches Some(meta) ==> meta.slot == slot,
    decreases messages.len(),
{
    if messages.len() > 0 {
        lemma_meta_is_of_slot(messages.drop_last(), slot);
    }
}

/// A request for the slot of a commitment is answered with the slot of the last status message
/// with exactly that status, whatever came in of other commitments, as long as the meta of that
/// slot is there.
pub proof fn lemma_slot_is_the_last_reported(
    views: Seq<MetaView>,
    messages: Seq<Message>,
    storage: &BlockMetaStorage,
    commitment: Option<i32>,
    level: CommitmentLevel,
    answer: Result<u64, Status>,
)
    requires
        is_history(views, messages),
        storage@ == views.last(),
        asks_for(commitment, level),
        call_ensures(BlockMetaStorage::slot, (storage, commitment), answer) || call_ensures(
            crate::access::get_slot,
            (Some(storage), commitment),
            answer,
        ),
    ensures
        match answered_from(messages, level) {
            Some(meta) => answer == Ok::<u64, Status>(
                last_slot(messages, crate::slot_laws::status_of(level))->0,
            ),
            None => refused(answer, StatusCode::Internal, "block is not available yet"@),
        },
{
    lemma_history_is_stored(views, messages);
    let view = storage@;
    if let Some(slot) = last_slot(messages, crate::slot_laws::status_of(level)) {
        lemma_meta_is_of_slot(messages, slot);
        assert(view.blocks.contains_key(slot) == meta_for(messages, slot) is Some);
    }
}

/// The same of the height of the block.
pub proof fn lemma_height_is_of_the_last_reported(
    views: Seq<MetaView>,
    messages: Seq<Message>,
    storage: &BlockMetaStorage,
    commitment: Option<i32>,
    level: CommitmentLevel,
    answer: Result<u64, Status>,
)
    requires
        is_history(views, messages),
        storage@ == views.last(),
        asks_for(commitment, level),
        call_ensures(BlockMetaStorage::block_height, (storage, commitment), answer) || call_ensures(
            crate::access::get_block_height,
            (Some(storage), commitment),
            answer,
        ),
    ensures
        match answered_from(messages, level) {
            Some(meta) => match meta.block_height {
                Some(height) => answer == Ok::<u64, Status>(height),
                None => refused(answer, StatusCode::Internal, "failed to build response"@),
            },
            None => refused(answer, StatusCode::Internal, "block is not available yet"@),
        },
{
    lemma_history_is_stored(views, messages);
    let view = storage@;
    if let Some(slot) = last_slot(messages, crate::slot_laws::status_of(level)) {
        assert(view.blocks.contains_key(slot) == meta_for(messages, slot) is Some);
    }
}

/// The same of the blockhash, which is valid for three hundred blocks.
pub proof fn lemma_blockhash_is_of_the_last_reported(
    views: Seq<MetaView>,
    messages: Seq<Message>,
    storage: &BlockMetaStorage,
    commitment: Option<i32>,
    level: CommitmentLevel,
    answer: Result<LatestBlockhash, Status>,
)
    requires
        is_history(views, messages),
        storage@ == views.last(),
        asks_for(commitment, level),
        answered_from(messages, level) matches Some(meta) ==> (meta.block_height matches Some(
            height,
        ) ==> height + 300 <= u64::MAX),
        call_ensures(BlockMetaStorage::latest_blockhash, (storage, commitment), answer) || call_ensures(
            crate::access::get_latest_blockhash,
            (Some(storage), commitment),
            answer,
        ),
    ensures
        match answered_from(messages, level) {
            Some(meta) => match meta.block_height {
                Some(height) => {
                    &&& answer matches Ok(given)
                    &&& given.slot == last_slot(
                        messages,
                        crate::slot_laws::status_of(level),
                    )->0
                    &&& given.blockhash@ == meta.blockhash@
                    &&& given.last_valid_block_height == height + 300
                },
                None => refused(answer, StatusCode::Internal, "failed to build response"@),
            },
            None => refused(answer, StatusCode::Internal, "block is not available yet"@),
        },
{
    lemma_history_is_stored(views, messages);
    let view = storage@;
    if let Some(slot) = last_slot(messages, crate::slot_laws::status_of(level)) {
        lemma_meta_is_of_slot(messages, slot);
        assert(view.blocks.contains_key(slot) == meta_for(messages, slot) is Some);
    }
}

/// The same of the meta itself.
pub proof fn lemma_block_is_the_last_reported(
    views: Seq<MetaView>,
    messages: Seq<Message>,
    storage: &BlockMetaStorage,
    commitment: Option<i32>,
    level: CommitmentLevel,
    answer: Result<Arc<MessageBlockMeta>, Status>,
)
    requires
        is_history(views, messages),
        storage@ == views.last(),
        asks_for(commitment, level),
        call_ensures(BlockMetaStorage::get_block, (storage, commitment), answer),
    ensures
        match answered_from(messages, level) {
            Some(meta) => answer == Ok::<Arc<MessageBlockMeta>, Status>(meta),
            None => refused(answer, StatusCode::Internal, "block is not available yet"@),
        },
{
    lemma_history_is_stored(views, messages);
    let view = storage@;
    if let Some(slot) = last_slot(messages, crate::slot_laws::status_of(level)) {
        assert(view.blocks.contains_key(slot) == meta_for(messages, slot) is Some);
    }
}

/// A blockhash is valid exactly where a status of the commitment that is asked for was reported
/// of it, and the answer is as of the last slot with that status. There is no answer before 332
/// blockhashes are known.
pub proof fn lemma_blockhash_is_valid_as_reported(
    views: Seq<MetaView>,
    messages: Seq<Message>,
    storage: &BlockMetaStorage,
    hash: &str,
    commitment: Option<i32>,
    level: CommitmentLevel,
    answer: Result<BlockhashValidity, Status>,
)
    requires
        is_history(views, messages),
        storage@ == views.last(),
        asks_for(commitment, level),
        call_ensures(
            BlockMetaStorage::is_blockhash_valid,
            (storage, hash, commitment),
            answer,
        ) || call_ensures(
            crate::access::is_blockhash_valid,
            (Some(storage), hash, commitment),
            answer,
        ),
    ensures
        ({
            let known = Set::new(|other: Seq<char>| reports_on(messages, other) is Some);
            let slot = last_slot(messages, crate::slot_laws::status_of(level));
            if known.len() >= 332 && slot is Some {
                &&& answer matches Ok(given)
                &&& given.slot == slot->0
                &&& given.valid <==> (reports_on(messages, hash@) matches Some(reports) && match level {
                    CommitmentLevel::Processed => reports.processed,
                    CommitmentLevel::Confirmed => reports.confirmed,
                    CommitmentLevel::Finalized => reports.finalized,
                })
            } else {
                refused(answer, StatusCode::Internal, "startup"@)
            }
        }),
{
    lemma_history_is_stored(views, messages);
    let view = storage@;
    let known = Set::new(|other: Seq<char>| reports_on(messages, other) is Some);
    assert forall|other: Seq<char>| known.contains(other) == view.blockhashes.dom().contains(
        other,
    ) by {
        assert(view.blockhashes.contains_key(other) == reports_on(messages, other) is Some);
    }
    assert(known =~= view.blockhashes.dom());
    assert(view.blockhashes.contains_key(hash@) == reports_on(messages, hash@) is Some);
}

/// A request that asks for no commitment there is is refused, with the number that it gave.
pub proof fn lemma_unknown_commitment_is_refused(
    storage: &BlockMetaStorage,
    commitment: i32,
    hash: &str,
    slot: Result<u64, Status>,
    height: Result<u64, Status>,
    blockhash: Result<LatestBlockhash, Status>,
    validity: Result<BlockhashValidity, Status>,
)
    requires
        commitment < 0 || commitment > 2,
        call_ensures(BlockMetaStorage::slot, (storage, Some(commitment)), slot),
        call_ensures(BlockMetaStorage::block_height, (storage, Some(commitment)), height),
        call_ensures(BlockMetaStorage::latest_blockhash, (storage, Some(commitment)), blockhash),
        call_ensures(
            BlockMetaStorage::is_blockhash_valid,
            (storage, hash, Some(commitment)),
            validity,
        ),
    ensures
        ({
            let text = "failed to create CommitmentLevel from "@ + crate::text::signed_decimal(
                commitment as int,
            );
            &&& refused(slot, StatusCode::Unknown, text)
            &&& refused(height, StatusCode::Unknown, text)
            &&& refused(blockhash, StatusCode::Unknown, text)
            &&& refused(validity, StatusCode::Unknown, text)
        }),
{
}

/// A commitment is asked for by its number, and processed is meant where none is given; any
/// other number is refused, also where a meta is asked for.
pub proof fn lemma_commitment_is_read(
    storage: &BlockMetaStorage,
    commitment: Option<i32>,
    parsed: Result<CommitmentLevel, Status>,
    block: Result<Arc<MessageBlockMeta>, Status>,
)
    requires
        call_ensures(BlockMetaStorage::parse_commitment, (commitment,), parsed),
        call_ensures(BlockMetaStorage::get_block, (storage, commitment), block),
    ensures
        forall|level: CommitmentLevel| #[trigger]
            asks_for(commitment, level) ==> parsed == Ok::<CommitmentLevel, Status>(level),
        commitment matches Some(number) && (number < 0 || number > 2) ==> {
            let text = "failed to create CommitmentLevel from "@ + crate::text::signed_decimal(
                commitment->0 as int,
            );
            &&& refused(parsed, StatusCode::Unknown, text)
            &&& refused(block, StatusCode::Unknown, text)
        },
{
}

/// Where unary requests are switched off, each is refused, whatever it asks for.
pub proof fn lemma_disabled_requests_are_refused(
    commitment: Option<i32>,
    hash: &str,
    slot: Result<u64, Status>,
    height: Result<u64, Status>,
    blockhash: Result<LatestBlockhash, Status>,
    validity: Result<BlockhashValidity, Status>,
)
    requires
        call_ensures(crate::access::get_slot, (None, commitment), slot),
        call_ensures(crate::access::get_block_height, (None, commitment), height),
        call_ensures(crate::access::get_latest_blockhash, (None, commitment), blockhash),
        call_ensures(crate::access::is_blockhash_valid, (None, hash, commitment), validity),
    ensures
        refused(slot, StatusCode::Unimplemented, "method disabled"@),
        refused(height, StatusCode::Unimplemented, "method disabled"@),
        refused(blockhash, StatusCode::Unimplemented, "method disabled"@),
        refused(validity, StatusCode::Unimplemented, "method disabled"@),
{
}

} // verus!
