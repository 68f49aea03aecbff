//! Encodes batches on a thread pool of their own.
use crate::encoder::encode_message;
use crate::message::Message;
use rayon::iter::{IntoParallelRefMutIterator, ParallelIterator};
use std::sync::Arc;
use vstd::prelude::*;

verus! {

/// Batches smaller than this are encoded on the caller's thread, since handing a few messages
/// to other threads costs more than it saves.
pub const PARALLEL_ENCODE_THRESHOLD: usize = 4;

/// A pool of worker threads of the `rayon` crate.
#[verifier::external_type_specification]
#[verifier::external_body]
pub struct ExThreadPool(rayon::ThreadPool);

/// Why a pool of the `rayon` crate could not be started.
#[verifier::external_type_specification]
#[verifier::external_body]
pub struct ExThreadPoolBuildError(rayon::ThreadPoolBuildError);

/// How many threads a pool has.
pub uninterp spec fn pool_threads(pool: rayon::ThreadPool) -> usize;

/// `rayon::ThreadPool::current_num_threads`: how many threads the pool was started with.
#[verifier::external_body]
fn count_threads(pool: &rayon::ThreadPool) -> (count: usize)
    ensures
        count == pool_threads(*pool),
{
    pool.current_num_threads()
}

/// The most threads that a pool of the `rayon` crate has: as many as sixteen bits count on a
/// machine of 64 bits, and as eight bits count on one of 32.
pub open spec fn most_threads() -> int {
    if usize::BITS == 64 {
        0xffff
    } else {
        0xff
    }
}

/// `count` threads are what is started when `wanted` are asked for: that many, up to the most
/// that a pool has. Where none are asked for, the machine decides, and at least one is started.
pub open spec fn starts(wanted: usize, count: usize) -> bool {
    &&& 1 <= count <= most_threads()
    &&& wanted > 0 ==> count == if wanted <= most_threads() {
        wanted as int
    } else {
        most_threads()
    }
}

/// `rayon::ThreadPoolBuilder::build`: starts a pool of `num_threads` threads, up to the most
/// that a pool has, or as many as the machine suggests where that is zero, at least one. Whether
/// the threads can be started depends on the machine.
#[verifier::external_body]
fn build_pool(num_threads: usize) -> (pool: Result<
    rayon::ThreadPool,
    rayon::ThreadPoolBuildError,
>)
    ensures
        pool matches Ok(started) ==> starts(num_threads, pool_threads(started)),
{
    rayon::ThreadPoolBuilder::new()
        .num_threads(num_threads)
        .thread_name(|i| format!("geyser-encoder-{i}"))
        .build()
}

/// `rayon::ThreadPool::install` with `for_each` over the messages: runs `encode_message` on every
/// message once, each in its place, and returns when all are done.
#[verifier::external_body]
fn encode_on_pool(pool: &rayon::ThreadPool, messages: &mut Vec<Message>)
    ensures
        encoded_batch(old(messages)@, final(messages)@),
{
    pool.install(|| messages.par_iter_mut().for_each(encode_message));
}

/// Every message of a batch was encoded in its place.
pub open spec fn encoded_batch(before: Seq<Message>, after: Seq<Message>) -> bool {
    &&& after.len() == before.len()
    &&& forall|i: int| 0 <= i < before.len() ==> before[i].encoded_as(#[trigger] after[i])
}

/// The threads of a pool could not be started.
#[derive(Debug, Clone, Copy, PartialEq, Eq, Structural)]
pub struct PoolError;

/// Encodes batches on a pool of worker threads.
#[derive(Debug)]
pub struct ParallelEncoder {
    pool: Arc<rayon::ThreadPool>,
}

impl ParallelEncoder {
    /// How many worker threads the encoder has.
    pub closed spec fn threads(self) -> usize {
        pool_threads(*self.pool)
    }

    /// An encoder with `num_threads` worker threads, or as many as the machine suggests where
    /// that is zero. It fails only where the threads cannot be started.
    pub fn new(num_threads: usize) -> (encoder: Result<Self, PoolError>)
        ensures
            encoder matches Ok(made) ==> starts(num_threads, made.threads()),
    {
        match build_pool(num_threads) {
            Ok(pool) => Ok(ParallelEncoder { pool: Arc::new(pool) }),
            Err(_) => Err(PoolError),
        }
    }

    /// How many worker threads the encoder has.
    pub fn num_threads(&self) -> (count: usize)
        ensures
            count == self.threads(),
    {
        count_threads(&self.pool)
    }

    /// Encodes every message of a batch that is not encoded yet, and returns when all are done.
    pub fn encode_blocking(&self, messages: &mut Vec<Message>)
        ensures
            encoded_batch(old(messages)@, final(messages)@),
    {
        if messages.len() < PARALLEL_ENCODE_THRESHOLD {
            encode_in_turn(messages);
        } else {
            encode_on_pool(&self.pool, messages);
        }
    }
}

/// Encodes every message of a batch on the caller's thread.
fn encode_in_turn(messages: &mut Vec<Message>)
    ensures
        encoded_batch(old(messages)@, final(messages)@),
{
    let count: usize = messages.len();
    for i in 0..count
        invariant
            count == old(messages)@.len() == messages@.len(),
            forall|j: int| 0 <= j < i ==> old(messages)@[j].encoded_as(#[trigger] messages@[j]),
            forall|j: int| i <= j < count ==> #[trigger] messages@[j] == old(messages)@[j],
    {
        encode_message(&mut messages[i]);
    }
}

} // verus!
