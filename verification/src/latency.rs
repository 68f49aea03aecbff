//! How long batches take from their first message to their broadcast.
//!
//! Moments are nanoseconds since any fixed moment; latencies are whole microseconds.
use vstd::prelude::*;

verus! {

/// When the first message of the batch that is being filled came in.
#[derive(Debug, Clone, Copy, PartialEq, Eq, Structural)]
pub struct BatchStart {
    pub at: Option<u128>,
}

impl BatchStart {
    /// No message has come in.
    pub fn new() -> (start: Self)
        ensures
            start.at is None,
    {
        BatchStart { at: None }
    }
}

/// The whole microseconds from `start` to `now`; none, where the clock went back.
pub open spec fn elapsed(start: u128, now: u128) -> u128 {
    if start <= now {
        ((now - start) / 1000) as u128
    } else {
        0
    }
}

impl BatchStart {
    /// The start after a message came in at `now`.
    pub open spec fn received(self, now: u128) -> BatchStart {
        BatchStart {
            at: match self.at {
                Some(at) => Some(at),
                None => Some(now),
            },
        }
    }

    /// How long the batch took that was sent at `now`, if there was one.
    pub open spec fn latency(self, now: u128) -> Option<u128> {
        match self.at {
            Some(at) => Some(elapsed(at, now)),
            None => None,
        }
    }
}

/// A message came in: it starts a batch, if none is being filled.
pub fn on_message_received(start: &mut BatchStart, now: u128)
    ensures
        *final(start) == old(start).received(now),
{
    if start.at.is_none() {
        start.at = Some(now);
    }
}

/// The batch was sent: how long it took, if there was one.
pub fn on_batch_dispatched(start: &mut BatchStart, now: u128) -> (latency: Option<u128>)
    ensures
        final(start).at is None,
        latency == old(start).latency(now),
{
    match take_batch_start(start) {
        Some(at) => Some(on_batch_dispatched_from(at, now)),
        None => None,
    }
}

/// Takes the start of the batch, so that another thread can tell how long it took.
pub fn take_batch_start(start: &mut BatchStart) -> (at: Option<u128>)
    ensures
        at == old(start).at,
        final(start).at is None,
{
    let at: Option<u128> = start.at;
    start.at = None;
    at
}

/// How long a batch took whose start was taken on another thread.
pub fn on_batch_dispatched_from(start: u128, now: u128) -> (latency: u128)
    ensures
        latency == elapsed(start, now),
{
    if start <= now {
        (now - start) / 1000
    } else {
        0
    }
}

/// The upper bounds of the classes into which latencies are sorted.
pub fn latency_buckets() -> (bounds: Vec<u64>)
    ensures
        bounds@ == seq![1u64, 5, 10, 25, 50, 100, 250, 500, 1_000, 2_500, 5_000, 10_000],
{
    vec![1, 5, 10, 25, 50, 100, 250, 500, 1_000, 2_500, 5_000, 10_000]
}

/// A batch is measured from its first message, whatever comes after it.
pub proof fn lemma_first_message_counts(start: BatchStart, first: u128, later: u128, now: u128)
    ensures
        start.received(first).received(later).latency(now) == start.received(first).latency(now),
        start.at is None ==> start.received(first).latency(now) == Some(elapsed(first, now)),
{
}

} // verus!
