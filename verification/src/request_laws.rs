//! Who is let in, what is counted of them, and how they are answered.
use crate::access::{IncomingAction, IncomingEvent};
use crate::service::{ListenerKind, Pipeline, ServiceConfig, ServicePlan};
use crate::status::{Status, StatusCode};
use crate::subscribe::{SubscribeHeaders, SubscribeLimits, Subscription};
use crate::subscription::{Admission, ClientSession, Tally};
use vstd::prelude::*;

verus! {

/// The answer is a refusal with this code and this text.
pub open spec fn refuses<T>(answer: Result<T, Status>, code: StatusCode, text: Seq<char>) -> bool {
    answer matches Err(status) && status.code == code && status.message@ == text
}

/// How often a name is counted.
pub open spec fn times(counts: Map<Seq<char>, usize>, name: Seq<char>) -> int {
    if counts.contains_key(name) {
        counts[name] as int
    } else {
        0
    }
}

/// Every listed name is counted.
pub open spec fn lists_counted(counts: Map<Seq<char>, usize>) -> bool {
    forall|name: Seq<char>| #[trigger] counts.contains_key(name) ==> counts[name] > 0
}

/// A name is counted `change` times more, and everything else stays.
pub open spec fn changes_by(
    before: Map<Seq<char>, usize>,
    after: Map<Seq<char>, usize>,
    name: Seq<char>,
    change: int,
) -> bool {
    &&& times(after, name) == times(before, name) + change
    &&& forall|other: Seq<char>|
        other != name ==> (#[trigger] after.contains_key(other) <==> before.contains_key(other))
            && (after.contains_key(other) ==> after[other] == before[other])
}

/// A count goes up by one or down by one, others stay as they are, a name is listed exactly as
/// long as it is counted, and what is returned is the new count.
pub proof fn lemma_counts_go_up_and_down()
    ensures
        forall|tally: &mut Tally, name: &str, count: usize| #[trigger]
            call_ensures(Tally::increment, (tally, name), count) && times((*tally)@, name@)
                < usize::MAX ==> {
                &&& changes_by((*tally)@, final(tally)@, name@, 1)
                &&& final(tally)@.contains_key(name@)
                &&& count == times((*tally)@, name@) + 1
            },
        forall|tally: &mut Tally, name: &str, count: Option<usize>| #[trigger]
            call_ensures(Tally::decrement, (tally, name), count) && lists_counted((*tally)@) ==> {
                if (*tally)@.contains_key(name@) {
                    &&& changes_by((*tally)@, final(tally)@, name@, -1)
                    &&& final(tally)@.contains_key(name@) <==> (*tally)@[name@] > 1
                    &&& count == Some((times((*tally)@, name@) - 1) as usize)
                } else {
                    final(tally)@ == (*tally)@ && count is None
                }
            },
        forall|tally: &Tally, name: &str, count: Option<usize>| #[trigger]
            call_ensures(Tally::get, (tally, name), count) ==> match count {
                Some(count) => tally@.contains_key(name@) && tally@[name@] == count,
                None => !tally@.contains_key(name@),
            },
        forall|tally: &Tally, empty: bool| #[trigger]
            call_ensures(Tally::is_empty, (tally,), empty) ==> (empty <==> forall|name: Seq<char>|
                !tally@.contains_key(name)),
        forall|tally: Tally| #[trigger]
            call_ensures(Tally::new, (), tally) ==> forall|name: Seq<char>|
                !tally@.contains_key(name),
{
    assert forall|tally: &mut Tally, name: &str, count: Option<usize>| #[trigger]
        call_ensures(Tally::decrement, (tally, name), count) && lists_counted((*tally)@)
            && !(*tally)@.contains_key(name@) implies final(tally)@ == (*tally)@ by {
        assert(final(tally)@ =~= (*tally)@);
    }
    assert forall|tally: &Tally, empty: bool| #[trigger]
        call_ensures(Tally::is_empty, (tally,), empty) implies (empty <==> forall|name: Seq<char>|
        !tally@.contains_key(name)) by {
        if forall|name: Seq<char>| !tally@.contains_key(name) {
            assert(tally@.dom() =~= Set::empty());
        } else {
            let name = choose|name: Seq<char>| tally@.contains_key(name);
            assert(tally@.dom().contains(name));
            if empty {
                assert(tally@ =~= Map::empty());
            }
        }
    }
}

/// A subscriber that is counted is refused at an enforced limit, and else counted once more; no
/// other count changes. Without a limit, or without a name, anyone is let in and nothing is
/// counted.
pub open spec fn enters(
    before: Map<Seq<char>, usize>,
    after: Map<Seq<char>, usize>,
    name: Option<Seq<char>>,
    limit: usize,
    enforce: bool,
    refused: bool,
    over_limit: bool,
) -> bool {
    match name {
        Some(name) => if limit == 0 {
            !refused && !over_limit && after == before
        } else if times(before, name) < limit {
            !refused && !over_limit && changes_by(before, after, name, 1)
        } else if enforce {
            refused && after == before
        } else {
            !refused && over_limit && changes_by(before, after, name, 1)
        },
        None => !refused && !over_limit && after == before,
    }
}

/// A subscriber is let in, and counted, as the limit says.
pub proof fn lemma_limit_is_applied()
    ensures
        forall|
            tally: &mut Tally,
            name: &str,
            limit: usize,
            enforce: bool,
            admission: Result<Admission, Status>,
        | #[trigger]
            call_ensures(
                crate::subscription::enter,
                (tally, Some(name), limit, enforce),
                admission,
            ) && times((*tally)@, name@) < usize::MAX ==> {
                &&& enters(
                    (*tally)@,
                    final(tally)@,
                    Some(name@),
                    limit,
                    enforce,
                    admission is Err,
                    admission matches Ok(admitted) && admitted is OverLimit,
                )
                &&& admission is Err ==> refuses(
                    admission,
                    StatusCode::ResourceExhausted,
                    "max subscription limit exceeded"@,
                )
            },
        forall|
            tally: &mut Tally,
            limit: usize,
            enforce: bool,
            admission: Result<Admission, Status>,
        | #[trigger]
            call_ensures(
                crate::subscription::enter,
                (tally, None, limit, enforce),
                admission,
            ) ==> admission == Ok::<Admission, Status>(Admission::WithinLimit) && final(tally)@
                == (*tally)@,
{
}

/// A session that was counted when it was let in and is closed leaves every count as it was.
pub proof fn lemma_session_leaves_no_count()
    ensures
        forall|
            before: &mut Tally,
            name: &str,
            limit: usize,
            enforce: bool,
            admission: Result<Admission, Status>,
            session: &ClientSession,
            after: &mut Tally,
            peers: &mut Tally,
            left: Option<usize>,
        |
            #[trigger] call_ensures(
                crate::subscription::enter,
                (before, Some(name), limit, enforce),
                admission,
            ) && #[trigger] call_ensures(ClientSession::close, (session, after, peers), left)
                && admission is Ok && limit > 0 && times((*before)@, name@) < usize::MAX
                && lists_counted((*before)@) && session.subscriber_id@ == name@ && (*after)@
                == final(before)@ ==> final(after)@ == (*before)@,
        forall|
            id: u64,
            subscriber: Option<String>,
            endpoint: String,
            peer: Option<String>,
            before: &mut Tally,
            opened: (ClientSession, Option<usize>),
            subscriptions: &mut Tally,
            after: &mut Tally,
            left: Option<usize>,
        |
            #[trigger] call_ensures(
                ClientSession::new,
                (id, subscriber, endpoint, peer, before),
                opened,
            ) && #[trigger] call_ensures(
                ClientSession::close,
                (&opened.0, subscriptions, after),
                left,
            ) && (peer matches Some(peer) ==> times((*before)@, peer@) < usize::MAX)
                && lists_counted((*before)@) && (*after)@ == final(before)@ ==> {
                &&& final(after)@ == (*before)@
                &&& peer matches Some(peer) ==> left == Some(times((*before)@, peer@) as usize)
                &&& peer is None ==> left is None
            },
{
    assert forall|
        before: &mut Tally,
        name: &str,
        limit: usize,
        enforce: bool,
        admission: Result<Admission, Status>,
        session: &ClientSession,
        after: &mut Tally,
        peers: &mut Tally,
        left: Option<usize>,
    |
        #[trigger] call_ensures(
            crate::subscription::enter,
            (before, Some(name), limit, enforce),
            admission,
        ) && #[trigger] call_ensures(ClientSession::close, (session, after, peers), left)
            && admission is Ok && limit > 0 && times((*before)@, name@) < usize::MAX
            && lists_counted((*before)@) && session.subscriber_id@ == name@ && (*after)@
            == final(before)@ implies final(after)@ == (*before)@ by {
        assert(final(after)@ =~= (*before)@);
    }
    assert forall|
        id: u64,
        subscriber: Option<String>,
        endpoint: String,
        peer: Option<String>,
        before: &mut Tally,
        opened: (ClientSession, Option<usize>),
        subscriptions: &mut Tally,
        after: &mut Tally,
        left: Option<usize>,
    |
        #[trigger] call_ensures(
            ClientSession::new,
            (id, subscriber, endpoint, peer, before),
            opened,
        ) && #[trigger] call_ensures(
            ClientSession::close,
            (&opened.0, subscriptions, after),
            left,
        ) && (peer matches Some(peer) ==> times((*before)@, peer@) < usize::MAX) && lists_counted(
            (*before)@,
        ) && (*after)@ == final(before)@ implies ({
        &&& final(after)@ == (*before)@
        &&& peer matches Some(peer) ==> left == Some(times((*before)@, peer@) as usize)
        &&& peer is None ==> left is None
    }) by {
        assert(final(after)@ =~= (*before)@);
    }
}

/// A session is opened under the name of its subscriber, or a name that stands for nobody, and
/// is counted once for the connection that it comes from, and for nothing else. When it is
/// closed, it is counted once less for both, where it was counted.
pub proof fn lemma_session_is_counted()
    ensures
        forall|
            id: u64,
            subscriber: Option<String>,
            endpoint: String,
            peer: Option<String>,
            peers: &mut Tally,
            opened: (ClientSession, Option<usize>),
        | #[trigger]
            call_ensures(
                ClientSession::new,
                (id, subscriber, endpoint, peer, peers),
                opened,
            ) && (peer matches Some(peer) ==> times((*peers)@, peer@) < usize::MAX) ==> {
                &&& opened.0.id == id
                &&& opened.0.endpoint@ == endpoint@
                &&& opened.0.peer == peer
                &&& opened.0.subscriber_id@ == match subscriber {
                    Some(name) => name@,
                    None => "UNKNOWN"@,
                }
                &&& match peer {
                    Some(peer) => {
                        &&& changes_by((*peers)@, final(peers)@, peer@, 1)
                        &&& opened.1 == Some((times((*peers)@, peer@) + 1) as usize)
                    },
                    None => final(peers)@ == (*peers)@ && opened.1 is None,
                }
            },
        forall|
            session: &ClientSession,
            subscriptions: &mut Tally,
            peers: &mut Tally,
            left: Option<usize>,
        | #[trigger]
            call_ensures(ClientSession::close, (session, subscriptions, peers), left)
                && lists_counted((*subscriptions)@) && lists_counted((*peers)@) ==> {
                &&& changes_by(
                    (*subscriptions)@,
                    final(subscriptions)@,
                    session.subscriber_id@,
                    if (*subscriptions)@.contains_key(session.subscriber_id@) {
                        -1
                    } else {
                        0
                    },
                )
                &&& session.peer matches Some(peer) ==> changes_by(
                    (*peers)@,
                    final(peers)@,
                    peer@,
                    if (*peers)@.contains_key(peer@) {
                        -1
                    } else {
                        0
                    },
                )
                &&& session.peer is None ==> final(peers)@ == (*peers)@
                &&& lists_counted(final(subscriptions)@)
                &&& lists_counted(final(peers)@)
            },
{
}

/// The subscriber that a request comes from: its header names it, or else its address does.
pub open spec fn comes_from(headers: SubscribeHeaders) -> Option<Seq<char>> {
    match (headers.subscription_id, headers.remote_ip) {
        (Some(name), _) => Some(name@),
        (None, Some(address)) => Some(address@),
        (None, None) => None,
    }
}

/// A subscription is counted as the limit says, whether or not the server is shutting down; one
/// that is let in has the next number, and gets the snapshot, with a limit of its own, exactly
/// where it asks for it and there is one.
pub proof fn lemma_subscription_begins()
    ensures
        forall|
            tally: &mut Tally,
            next_id: &mut u64,
            headers: SubscribeHeaders,
            limits: SubscribeLimits,
            is_cancelled: bool,
            snapshot_ready: bool,
            answer: Result<Subscription, Status>,
        | #[trigger]
            call_ensures(
                crate::subscribe::subscribe,
                (tally, next_id, headers, limits, is_cancelled, snapshot_ready),
                answer,
            ) && (comes_from(headers) matches Some(name) ==> times((*tally)@, name) < usize::MAX)
                ==> {
                let name = comes_from(headers);
                let over = name matches Some(name) && limits.subscription_limit > 0 && times(
                    (*tally)@,
                    name,
                ) >= limits.subscription_limit;
                let refused = over && limits.subscription_limit_enforce;
                &&& enters(
                    (*tally)@,
                    final(tally)@,
                    name,
                    limits.subscription_limit,
                    limits.subscription_limit_enforce,
                    refused,
                    over,
                )
                &&& refused ==> refuses(
                    answer,
                    StatusCode::ResourceExhausted,
                    "max subscription limit exceeded"@,
                ) && *final(next_id) == *next_id
                &&& !refused ==> *final(next_id) == if *next_id == u64::MAX {
                    0
                } else {
                    *next_id + 1
                }
                &&& !refused && is_cancelled ==> refuses(
                    answer,
                    StatusCode::Unavailable,
                    "server is shutting down"@,
                )
                &&& !refused && !is_cancelled ==> {
                    &&& answer matches Ok(begun)
                    &&& begun.id == *next_id
                    &&& begun.admission is OverLimit <==> over
                    &&& match begun.subscriber_id {
                        Some(given) => name == Some(given@),
                        None => name is None,
                    }
                    &&& begun.endpoint@ == match headers.endpoint {
                        Some(endpoint) => endpoint@,
                        None => Seq::<char>::empty(),
                    }
                    &&& begun.takes_snapshot <==> headers.wants_snapshot && snapshot_ready
                    &&& begun.takes_snapshot ==> begun.capacity == limits.snapshot_channel_capacity
                    &&& !begun.takes_snapshot ==> begun.capacity == limits.channel_capacity
                }
            },
{
}

/// Where a token is asked for, a request is let in exactly with that token; where none is, any
/// request is.
pub proof fn lemma_token_is_asked_for(
    token: &[u8],
    given: &[u8],
    with: Result<(), Status>,
    without: Result<(), Status>,
    unasked: Result<(), Status>,
    unasked_with: Result<(), Status>,
)
    requires
        call_ensures(crate::access::authorize, (Some(token), Some(given)), with),
        call_ensures(crate::access::authorize, (Some(token), None), without),
        call_ensures(crate::access::authorize, (None, None), unasked),
        call_ensures(crate::access::authorize, (None, Some(given)), unasked_with),
    ensures
        with is Ok <==> given@ == token@,
        with is Err ==> refuses(with, StatusCode::Unauthenticated, "No valid auth token"@),
        refuses(without, StatusCode::Unauthenticated, "No valid auth token"@),
        unasked is Ok,
        unasked_with is Ok,
{
}

/// A server that is shutting down lets nobody in; one that is not lets anyone in.
pub proof fn lemma_nobody_enters_at_the_end(cancelled: bool, admitted: Result<(), Status>)
    requires
        call_ensures(crate::access::while_running, (cancelled,), admitted),
    ensures
        cancelled ==> refuses(admitted, StatusCode::Unavailable, "server is shutting down"@),
        !cancelled ==> admitted is Ok,
{
}

/// A snapshot has a limit of its own.
pub proof fn lemma_capacity_is_chosen(snapshot: usize, other: usize, with: usize, without: usize)
    requires
        call_ensures(crate::access::stream_capacity, (true, snapshot, other), with),
        call_ensures(crate::access::stream_capacity, (false, snapshot, other), without),
    ensures
        with == snapshot,
        without == other,
{
}

/// A subscriber is who its header says, and else where it comes from; its endpoint is what it
/// names, and else empty.
pub proof fn lemma_headers_are_read(
    header: Option<String>,
    address: Option<String>,
    subscriber: Option<String>,
    endpoint: String,
)
    requires
        call_ensures(crate::subscription::identify, (header, address), subscriber),
        call_ensures(crate::access::endpoint_or_empty, (header,), endpoint),
    ensures
        header is Some ==> subscriber == header && endpoint@ == (header->0)@,
        header is None ==> subscriber == address && endpoint@.len() == 0,
{
}

/// A ping is answered with its count, and the method that this server does not have is refused.
pub proof fn lemma_fixed_answers(count: i32, pong: i32, status: Status)
    requires
        call_ensures(crate::access::ping, (count,), pong),
        call_ensures(crate::access::subscribe_deshred, (), status),
    ensures
        pong == count,
        status.code is Unimplemented,
        status.message@ == "SubscribeDeshred is not available on this server"@,
{
}

/// A request for a filter is handed to the loop, and a ping is answered. A request that cannot
/// be taken up is refused with the reason. The loop learns that the subscriber is gone only
/// where it cannot be heard any more; one that has nothing more to say still listens.
pub proof fn lemma_incoming_requests_are_taken_up(event: IncomingEvent, action: IncomingAction)
    requires
        call_ensures(crate::access::on_incoming, (event,), action),
    ensures
        action is HandOver <==> event is Filter,
        action is SendPong <==> event is Ping,
        action is Disconnect <==> event is Failed,
        action is AwaitCancellation <==> event is HalfClosed,
        action is End <==> event is Cancelled,
        action is Refuse <==> event is BadFilter || event is NotHandedOver,
        action matches IncomingAction::Refuse(status) ==> {
            &&& status.code is InvalidArgument
            &&& event matches IncomingEvent::BadFilter(why) ==> status.message@
                == "failed to create filter: "@ + why@
            &&& event matches IncomingEvent::NotHandedOver(why) ==> status.message@
                == "failed to create filter: "@ + why@
        },
{
}

/// The service is set up as it is configured: a snapshot is sent only before any reload, unary
/// requests are answered unless they are switched off, replays are offered exactly where slots
/// are stored, though no slot is available yet, two threads run exactly where a core is set
/// aside for the first, and fewer than 150 stored slots call for a warning.
pub proof fn lemma_service_is_set_up(
    config: &ServiceConfig,
    reload: bool,
    plan: ServicePlan,
    slot: u64,
)
    requires
        call_ensures(ServiceConfig::plan, (config, reload), plan),
    ensures
        reload ==> plan.snapshot_capacity is None,
        !reload ==> plan.snapshot_capacity == config.snapshot_plugin_channel_capacity,
        plan.answers_unary <==> !config.unary_disabled,
        plan.first_available_slot is Some <==> config.replay_stored_slots > 0,
        plan.first_available_slot matches Some(first) ==> slot <= first,
        plan.pipeline is Loop <==> config.geyser_dispatch_cpu_core is None,
        plan.pipeline matches Pipeline::Threads { cpu_core } ==> config.geyser_dispatch_cpu_core
            == Some(cpu_core),
        plan.warns_of_few_slots <==> config.replay_stored_slots < 150,
{
}

/// A listener on the network encrypts where it has an identity to show; one that is local never
/// does, and warns where it was asked to.
pub proof fn lemma_listeners_encrypt(
    yes: bool,
    network: bool,
    local: bool,
    network_warns: bool,
    local_warns: bool,
)
    requires
        call_ensures(crate::service::encrypts, (ListenerKind::Tcp, yes), network),
        call_ensures(crate::service::encrypts, (ListenerKind::Unix, yes), local),
        call_ensures(crate::service::ignores_tls, (ListenerKind::Tcp, yes), network_warns),
        call_ensures(crate::service::ignores_tls, (ListenerKind::Unix, yes), local_warns),
    ensures
        network <==> yes,
        !local,
        !network_warns,
        local_warns <==> yes,
{
}

} // verus!
