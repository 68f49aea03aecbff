//! Which requests are let in, and how they are taken up.
use crate::block_meta::{BlockMetaStorage, BlockhashValidity, LatestBlockhash};
use crate::status::{Status, StatusCode};
use vstd::prelude::*;
use vstd::string::StringExecFns;

verus! {

/// Whether two runs of bytes are the same.
fn same_bytes(a: &[u8], b: &[u8]) -> (same: bool)
    ensures
        same == (a@ == b@),
{
    if a.len() != b.len() {
        return false;
    }
    let count: usize = a.len();
    for i in 0..count
        invariant
            count == a@.len() == b@.len(),
            forall|j: int| 0 <= j < i ==> a@[j] == b@[j],
    {
        if a[i] != b[i] {
            return false;
        }
    }
    assert(a@ =~= b@);
    true
}

/// The view of an optional run of bytes.
pub open spec fn bytes_view(bytes: Option<&[u8]>) -> Option<Seq<u8>> {
    match bytes {
        Some(bytes) => Some(bytes@),
        None => None,
    }
}

/// Lets a request in that carries the token, if there is one.
pub fn authorize(x_token: Option<&[u8]>, given: Option<&[u8]>) -> (admitted: Result<(), Status>)
    ensures
        admitted is Ok <==> x_token is None || bytes_view(given) == bytes_view(x_token),
        admitted matches Err(status) ==> status.says(
            StatusCode::Unauthenticated,
            "No valid auth token"@,
        ),
{
    match x_token {
        None => Ok(()),
        Some(token) => {
            if let Some(given) = given {
                if same_bytes(given, token) {
                    return Ok(());
                }
            }
            Err(Status::new(StatusCode::Unauthenticated, "No valid auth token"))
        },
    }
}

/// Lets a subscriber in unless the server is shutting down.
pub fn while_running(is_cancelled: bool) -> (admitted: Result<(), Status>)
    ensures
        admitted is Ok <==> !is_cancelled,
        admitted matches Err(status) ==> status.says(
            StatusCode::Unavailable,
            "server is shutting down"@,
        ),
{
    if is_cancelled {
        Err(Status::new(StatusCode::Unavailable, "server is shutting down"))
    } else {
        Ok(())
    }
}

/// How many updates may wait for a subscriber: a snapshot has a limit of its own.
pub fn stream_capacity(with_snapshot: bool, snapshot_capacity: usize, capacity: usize) -> (
    chosen: usize)
    ensures
        chosen == if with_snapshot {
            snapshot_capacity
        } else {
            capacity
        },
{
    if with_snapshot {
        snapshot_capacity
    } else {
        capacity
    }
}

/// The endpoint that a subscriber names; an empty one where it names none.
pub fn endpoint_or_empty(header: Option<String>) -> (endpoint: String)
    ensures
        endpoint@ == match header {
            Some(endpoint) => endpoint@,
            None => Seq::empty(),
        },
{
    match header {
        Some(endpoint) => endpoint,
        None => String::new(),
    }
}

/// The refusal of a method that this server does not have.
pub fn subscribe_deshred() -> (status: Status)
    ensures
        status.says(
            StatusCode::Unimplemented,
            "SubscribeDeshred is not available on this server"@,
        ),
{
    Status::new(
        StatusCode::Unimplemented,
        "SubscribeDeshred is not available on this server",
    )
}

/// The answer to a ping: its count.
pub fn ping(count: i32) -> (pong: i32)
    ensures
        pong == count,
{
    count
}

/// The refusal of unary requests where they are switched off.
fn method_disabled() -> (status: Status)
    ensures
        status.says(StatusCode::Unimplemented, "method disabled"@),
{
    Status::new(StatusCode::Unimplemented, "method disabled")
}

/// The answer is the refusal of unary requests.
pub open spec fn is_disabled<T>(answer: Result<T, Status>) -> bool {
    answer matches Err(status) && status.says(StatusCode::Unimplemented, "method disabled"@)
}

/// The latest blockhash, if unary requests are answered.
pub fn get_latest_blockhash(storage: Option<&BlockMetaStorage>, commitment: Option<i32>) -> (
    answer: Result<LatestBlockhash, Status>)
    requires
        storage matches Some(storage) ==> (crate::block_meta::requested(commitment) matches Some(
            level,
        ) ==> (storage@.latest_block(level) matches Some(block) ==> (block.block_height matches Some(
            height,
        ) ==> height + crate::block_meta::recent_blockhashes() <= u64::MAX))),
    ensures
        storage is None ==> is_disabled(answer),
        storage matches Some(storage) ==> crate::block_meta::answers(
            commitment,
            |level: crate::message::CommitmentLevel|
                storage@.built(
                    level,
                    |block: crate::message::MessageBlockMeta|
                        match block.block_height {
                            Some(height) => Some(
                                (
                                    block.slot,
                                    block.blockhash@,
                                    (height + crate::block_meta::recent_blockhashes()) as u64,
                                ),
                            ),
                            None => None,
                        },
                ),
            answer,
            |given: LatestBlockhash| (given.slot, given.blockhash@, given.last_valid_block_height),
        ),
{
    match storage {
        Some(storage) => storage.latest_blockhash(commitment),
        None => Err(method_disabled()),
    }
}

/// The height of the latest block, if unary requests are answered.
pub fn get_block_height(storage: Option<&BlockMetaStorage>, commitment: Option<i32>) -> (
    answer: Result<u64, Status>)
    ensures
        storage is None ==> is_disabled(answer),
        storage matches Some(storage) ==> crate::block_meta::answers(
            commitment,
            |level: crate::message::CommitmentLevel|
                storage@.built(
                    level,
                    |block: crate::message::MessageBlockMeta| block.block_height,
                ),
            answer,
            |given: u64| given,
        ),
{
    match storage {
        Some(storage) => storage.block_height(commitment),
        None => Err(method_disabled()),
    }
}

/// The latest slot, if unary requests are answered.
pub fn get_slot(storage: Option<&BlockMetaStorage>, commitment: Option<i32>) -> (answer: Result<
    u64,
    Status,
>)
    ensures
        storage is None ==> is_disabled(answer),
        storage matches Some(storage) ==> crate::block_meta::answers(
            commitment,
            |level: crate::message::CommitmentLevel|
                storage@.built(
                    level,
                    |block: crate::message::MessageBlockMeta| Some(block.slot),
                ),
            answer,
            |given: u64| given,
        ),
{
    match storage {
        Some(storage) => storage.slot(commitment),
        None => Err(method_disabled()),
    }
}

/// Whether a blockhash is valid, if unary requests are answered.
pub fn is_blockhash_valid(
    storage: Option<&BlockMetaStorage>,
    blockhash: &str,
    commitment: Option<i32>,
) -> (answer: Result<BlockhashValidity, Status>)
    requires
        storage matches Some(storage) ==> storage.wf(),
    ensures
        storage is None ==> is_disabled(answer),
        storage matches Some(storage) ==> crate::block_meta::answers(
            commitment,
            |level: crate::message::CommitmentLevel| storage@.validity(blockhash@, level),
            answer,
            |given: BlockhashValidity| given,
        ),
{
    match storage {
        Some(storage) => storage.is_blockhash_valid(blockhash, commitment),
        None => Err(method_disabled()),
    }
}

/// Something that happens on the way from a subscriber to its loop.
#[derive(Debug)]
pub enum IncomingEvent {
    /// The subscription is over.
    Cancelled,
    /// A request that is only to be answered.
    Ping,
    /// A request for a filter.
    Filter,
    /// A request for a filter that cannot be made, and why.
    BadFilter(String),
    /// The loop is gone: the request could not be handed to it, and why.
    NotHandedOver(String),
    /// The subscriber sends nothing more, but still listens.
    HalfClosed,
    /// The subscriber cannot be heard any more.
    Failed,
}

/// What is done on the way from a subscriber to its loop.
#[derive(Debug)]
pub enum IncomingAction {
    /// Answer; where that fails, tell the loop that the subscriber is gone, and end.
    SendPong,
    /// Hand the request to the loop.
    HandOver,
    /// Refuse the request; where that fails, tell the loop that the subscriber is gone.
    Refuse(Status),
    /// Read nothing more, and end when the subscription does; until then the loop goes on.
    AwaitCancellation,
    /// Tell the loop that the subscriber is gone, and end.
    Disconnect,
    /// End.
    End,
}

/// What is done on the way from a subscriber to its loop.
pub fn on_incoming(event: IncomingEvent) -> (action: IncomingAction)
    ensures
        match event {
            IncomingEvent::Cancelled => action is End,
            IncomingEvent::Ping => action is SendPong,
            IncomingEvent::Filter => action is HandOver,
            IncomingEvent::BadFilter(why) => action matches IncomingAction::Refuse(status)
                && status.says(
                StatusCode::InvalidArgument,
                "failed to create filter: "@ + why@,
            ),
            IncomingEvent::NotHandedOver(why) => action matches IncomingAction::Refuse(status)
                && status.says(
                StatusCode::InvalidArgument,
                "failed to create filter: "@ + why@,
            ),
            IncomingEvent::HalfClosed => action is AwaitCancellation,
            IncomingEvent::Failed => action is Disconnect,
        },
{
    match event {
        IncomingEvent::Cancelled => IncomingAction::End,
        IncomingEvent::Ping => IncomingAction::SendPong,
        IncomingEvent::Filter => IncomingAction::HandOver,
        IncomingEvent::BadFilter(why) => IncomingAction::Refuse(bad_filter(&why)),
        IncomingEvent::NotHandedOver(why) => IncomingAction::Refuse(bad_filter(&why)),
        IncomingEvent::HalfClosed => IncomingAction::AwaitCancellation,
        IncomingEvent::Failed => IncomingAction::Disconnect,
    }
}

/// The refusal of a request for a filter.
fn bad_filter(why: &String) -> (status: Status)
    ensures
        status.says(StatusCode::InvalidArgument, "failed to create filter: "@ + why@),
{
    let mut message = String::from_str("failed to create filter: ");
    message.append(why.as_str());
    Status { code: StatusCode::InvalidArgument, message }
}

} // verus!
