//! How a subscription begins.
use crate::access::{endpoint_or_empty, stream_capacity, while_running};
use crate::status::{Status, StatusCode};
use crate::subscription::{enter, identify, Admission, Tally};
use vstd::prelude::*;

verus! {

/// What a subscriber sends along with its request.
#[derive(Debug)]
pub struct SubscribeHeaders {
    pub subscription_id: Option<String>,
    pub remote_ip: Option<String>,
    pub endpoint: Option<String>,
    pub wants_snapshot: bool,
}

/// What the service allows its subscribers.
#[derive(Debug, Clone, Copy, PartialEq, Eq, Structural)]
pub struct SubscribeLimits {
    pub subscription_limit: usize,
    pub subscription_limit_enforce: bool,
    pub snapshot_channel_capacity: usize,
    pub channel_capacity: usize,
}

/// A subscription that begins.
#[derive(Debug)]
pub struct Subscription {
    pub id: u64,
    pub subscriber_id: Option<String>,
    pub admission: Admission,
    pub endpoint: String,
    /// Whether the subscription takes the snapshot, which only one can.
    pub takes_snapshot: bool,
    /// How many updates may wait for the subscriber.
    pub capacity: usize,
}

/// Who the subscriber is.
pub open spec fn subscriber(headers: SubscribeHeaders) -> Option<String> {
    match headers.subscription_id {
        Some(name) => Some(name),
        None => headers.remote_ip,
    }
}

/// The number after `id`; numbers start over when they are used up.
pub open spec fn following(id: u64) -> u64 {
    if id == u64::MAX {
        0
    } else {
        (id + 1) as u64
    }
}

impl Subscription {
    /// The subscription that a request leads to.
    pub open spec fn answers(
        self,
        headers: SubscribeHeaders,
        limits: SubscribeLimits,
        counts: Map<Seq<char>, usize>,
        id: u64,
        snapshot_ready: bool,
    ) -> bool {
        let name = crate::subscription::text_view(subscriber(headers));
        &&& self.id == id
        &&& self.subscriber_id == subscriber(headers)
        &&& self.admission == if crate::subscription::at_limit(
            counts,
            name,
            limits.subscription_limit,
        ) {
            Admission::OverLimit
        } else {
            Admission::WithinLimit
        }
        &&& self.endpoint@ == match headers.endpoint {
            Some(endpoint) => endpoint@,
            None => Seq::empty(),
        }
        &&& self.takes_snapshot == (headers.wants_snapshot && snapshot_ready)
        &&& self.capacity == if self.takes_snapshot {
            limits.snapshot_channel_capacity
        } else {
            limits.channel_capacity
        }
    }
}

/// Begins a subscription. One that is at an enforced limit is refused and not counted. The
/// server is asked last whether it is shutting down: a subscription that is refused on that
/// account has been counted and numbered.
pub fn subscribe(
    tally: &mut Tally,
    next_id: &mut u64,
    headers: SubscribeHeaders,
    limits: SubscribeLimits,
    is_cancelled: bool,
    snapshot_ready: bool,
) -> (subscription: Result<Subscription, Status>)
    requires
        subscriber(headers) matches Some(name) ==> limits.subscription_limit > 0
            ==> crate::subscription::count_of(old(tally)@, name@) < usize::MAX,
    ensures
        ({
            let name = crate::subscription::text_view(subscriber(headers));
            let counts = old(tally)@;
            if crate::subscription::at_limit(counts, name, limits.subscription_limit)
                && limits.subscription_limit_enforce {
                &&& subscription matches Err(status)
                &&& status.says(StatusCode::ResourceExhausted, "max subscription limit exceeded"@)
                &&& final(tally)@ == counts
                &&& *final(next_id) == *old(next_id)
            } else {
                &&& final(tally)@ == crate::subscription::admitted(
                    counts,
                    name,
                    limits.subscription_limit,
                )
                &&& *final(next_id) == following(*old(next_id))
                &&& if is_cancelled {
                    &&& subscription matches Err(status)
                    &&& status.says(StatusCode::Unavailable, "server is shutting down"@)
                } else {
                    &&& subscription matches Ok(begun)
                    &&& begun.answers(headers, limits, counts, *old(next_id), snapshot_ready)
                }
            }
        }),
{
    let SubscribeHeaders { subscription_id, remote_ip, endpoint, wants_snapshot } = headers;
    let subscriber_id: Option<String> = identify(subscription_id, remote_ip);
    let name: Option<&str> = match &subscriber_id {
        Some(name) => Some(name.as_str()),
        None => None,
    };
    let admission: Admission = match enter(
        tally,
        name,
        limits.subscription_limit,
        limits.subscription_limit_enforce,
    ) {
        Ok(admission) => admission,
        Err(status) => {
            return Err(status);
        },
    };
    let id: u64 = *next_id;
    *next_id = id.wrapping_add(1);
    if let Err(status) = while_running(is_cancelled) {
        return Err(status);
    }
    let takes_snapshot: bool = wants_snapshot && snapshot_ready;
    Ok(
        Subscription {
            id,
            subscriber_id,
            admission,
            endpoint: endpoint_or_empty(endpoint),
            takes_snapshot,
            capacity: stream_capacity(
                takes_snapshot,
                limits.snapshot_channel_capacity,
                limits.channel_capacity,
            ),
        },
    )
}

} // verus!
