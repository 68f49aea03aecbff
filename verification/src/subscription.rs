//! Who may subscribe, and how many subscriptions there are.
use crate::status::{Status, StatusCode};
use vstd::hash_map::StringHashMap;
use vstd::prelude::*;
use vstd::string::StringExecFns;

verus! {

/// The name of a subscriber that could not be identified.
pub const UNKNOWN_SUBSCRIBER: &'static str = "UNKNOWN";

/// How often each name is counted; a name that is not counted is not listed.
pub struct Tally {
    counts: StringHashMap<usize>,
}

/// The count of a name.
pub open spec fn count_of(counts: Map<Seq<char>, usize>, name: Seq<char>) -> usize {
    if counts.contains_key(name) {
        counts[name]
    } else {
        0
    }
}

/// The counts with one more of a name.
pub open spec fn with_one_more(counts: Map<Seq<char>, usize>, name: Seq<char>) -> Map<
    Seq<char>,
    usize,
> {
    counts.insert(name, (count_of(counts, name) + 1) as usize)
}

/// The counts with one less of a name, if it is listed.
pub open spec fn with_one_less(counts: Map<Seq<char>, usize>, name: Seq<char>) -> Map<
    Seq<char>,
    usize,
> {
    if count_of(counts, name) > 1 {
        counts.insert(name, (counts[name] - 1) as usize)
    } else {
        counts.remove(name)
    }
}

impl View for Tally {
    type V = Map<Seq<char>, usize>;

    closed spec fn view(&self) -> Map<Seq<char>, usize> {
        self.counts@
    }
}

impl Tally {
    /// Nothing is counted.
    pub fn new() -> (tally: Self)
        ensures
            tally@ == Map::<Seq<char>, usize>::empty(),
    {
        Tally { counts: StringHashMap::new() }
    }

    /// The count of a name, if it is listed.
    pub fn get(&self, name: &str) -> (count: Option<usize>)
        ensures
            count == if self@.contains_key(name@) {
                Some(self@[name@])
            } else {
                None
            },
    {
        match self.counts.get(name) {
            Some(count) => Some(*count),
            None => None,
        }
    }

    /// Whether nothing is counted.
    pub fn is_empty(&self) -> (empty: bool)
        ensures
            empty == self@.is_empty(),
    {
        self.counts.is_empty()
    }

    /// Counts a name once more, and returns its count.
    pub fn increment(&mut self, name: &str) -> (count: usize)
        requires
            count_of(old(self)@, name@) < usize::MAX,
        ensures
            final(self)@ == with_one_more(old(self)@, name@),
            count == count_of(final(self)@, name@),
    {
        let count: usize = match self.counts.get(name) {
            Some(count) => *count,
            None => 0,
        };
        self.counts.insert(String::from_str(name), count + 1);
        count + 1
    }

    /// Counts a name once less, and returns its count; nothing, where it is not listed.
    pub fn decrement(&mut self, name: &str) -> (count: Option<usize>)
        ensures
            final(self)@ == with_one_less(old(self)@, name@),
            count == if old(self)@.contains_key(name@) {
                Some(count_of(final(self)@, name@))
            } else {
                None
            },
    {
        let count: usize = match self.counts.get(name) {
            Some(count) => *count,
            None => {
                assert(self@ =~= with_one_less(self@, name@));
                return None;
            },
        };
        if count > 1 {
            self.counts.insert(String::from_str(name), count - 1);
            Some(count - 1)
        } else {
            self.counts.remove(name);
            Some(0)
        }
    }
}

/// Whether a subscription is above the limit.
#[derive(Debug, Clone, Copy, PartialEq, Eq, Structural)]
pub enum Admission {
    WithinLimit,
    /// Counted as above the limit, and admitted nonetheless.
    OverLimit,
}

/// The subscriber is at the limit, which is none where it is zero. One that cannot be
/// identified never is.
pub open spec fn at_limit(
    counts: Map<Seq<char>, usize>,
    subscriber: Option<Seq<char>>,
    limit: usize,
) -> bool {
    subscriber matches Some(name) && limit > 0 && count_of(counts, name) >= limit
}

/// The counts after a subscriber was admitted. One that cannot be identified is not counted.
pub open spec fn admitted(
    counts: Map<Seq<char>, usize>,
    subscriber: Option<Seq<char>>,
    limit: usize,
) -> Map<Seq<char>, usize> {
    match subscriber {
        Some(name) => if limit > 0 {
            with_one_more(counts, name)
        } else {
            counts
        },
        None => counts,
    }
}

/// The view of an optional name.
pub open spec fn name_view(name: Option<&str>) -> Option<Seq<char>> {
    match name {
        Some(name) => Some(name@),
        None => None,
    }
}

/// Admits a subscriber and counts the subscription, or refuses it where it is at the limit and
/// the limit is enforced.
pub fn enter(tally: &mut Tally, subscriber: Option<&str>, limit: usize, enforce: bool) -> (
    admission: Result<Admission, Status>)
    requires
        subscriber matches Some(name) ==> limit > 0 ==> count_of(old(tally)@, name@) < usize::MAX,
    ensures
        if at_limit(old(tally)@, name_view(subscriber), limit) && enforce {
            &&& admission matches Err(status)
            &&& status.says(StatusCode::ResourceExhausted, "max subscription limit exceeded"@)
            &&& final(tally)@ == old(tally)@
        } else {
            &&& admission == Ok::<Admission, Status>(
                if at_limit(old(tally)@, name_view(subscriber), limit) {
                    Admission::OverLimit
                } else {
                    Admission::WithinLimit
                },
            )
            &&& final(tally)@ == admitted(old(tally)@, name_view(subscriber), limit)
        },
{
    let name: &str = match subscriber {
        Some(name) => name,
        None => {
            return Ok(Admission::WithinLimit);
        },
    };
    if limit == 0 {
        return Ok(Admission::WithinLimit);
    }
    let count: usize = match tally.get(name) {
        Some(count) => count,
        None => 0,
    };
    if count >= limit && enforce {
        return Err(Status::new(StatusCode::ResourceExhausted, "max subscription limit exceeded"));
    }
    tally.increment(name);
    if count >= limit {
        Ok(Admission::OverLimit)
    } else {
        Ok(Admission::WithinLimit)
    }
}

/// Who a subscriber is: what its header says, and else where it comes from.
pub fn identify(header: Option<String>, remote_ip: Option<String>) -> (subscriber: Option<String>)
    ensures
        subscriber == match header {
            Some(name) => Some(name),
            None => remote_ip,
        },
{
    match header {
        Some(name) => Some(name),
        None => remote_ip,
    }
}

/// Under which name a session runs.
pub open spec fn session_name(subscriber: Option<Seq<char>>) -> Seq<char> {
    match subscriber {
        Some(name) => name,
        None => "UNKNOWN"@,
    }
}

/// A subscriber's session, from its first message to its last.
#[derive(Debug)]
pub struct ClientSession {
    pub id: u64,
    pub subscriber_id: String,
    pub endpoint: String,
    pub peer: Option<String>,
}

/// The view of an optional text.
pub open spec fn text_view(text: Option<String>) -> Option<Seq<char>> {
    match text {
        Some(text) => Some(text@),
        None => None,
    }
}

impl ClientSession {
    /// Opens a session, and counts it for the connection that it comes from. Returns how many
    /// sessions that connection has now.
    pub fn new(
        id: u64,
        subscriber_id: Option<String>,
        endpoint: String,
        peer: Option<String>,
        peers: &mut Tally,
    ) -> (opened: (Self, Option<usize>))
        requires
            peer matches Some(peer) ==> count_of(old(peers)@, peer@) < usize::MAX,
        ensures
            opened.0.id == id,
            opened.0.subscriber_id@ == session_name(text_view(subscriber_id)),
            opened.0.endpoint == endpoint,
            opened.0.peer == peer,
            match peer {
                Some(peer) => {
                    &&& final(peers)@ == with_one_more(old(peers)@, peer@)
                    &&& opened.1 == Some(count_of(final(peers)@, peer@))
                },
                None => final(peers)@ == old(peers)@ && opened.1 is None,
            },
    {
        let subscriber_id = match subscriber_id {
            Some(name) => name,
            None => String::from_str(UNKNOWN_SUBSCRIBER),
        };
        let count: Option<usize> = match &peer {
            Some(peer) => Some(peers.increment(peer.as_str())),
            None => None,
        };
        (ClientSession { id, subscriber_id, endpoint, peer }, count)
    }

    /// Closes the session: it is no longer counted, neither for its subscriber nor for the
    /// connection that it came from. Returns how many sessions that connection has left.
    pub fn close(&self, subscriptions: &mut Tally, peers: &mut Tally) -> (left: Option<usize>)
        ensures
            final(subscriptions)@ == with_one_less(old(subscriptions)@, self.subscriber_id@),
            match self.peer {
                Some(peer) => {
                    &&& final(peers)@ == with_one_less(old(peers)@, peer@)
                    &&& left == if old(peers)@.contains_key(peer@) {
                        Some(count_of(final(peers)@, peer@))
                    } else {
                        None
                    }
                },
                None => final(peers)@ == old(peers)@ && left is None,
            },
    {
        let _ = subscriptions.decrement(self.subscriber_id.as_str());
        match &self.peer {
            Some(peer) => peers.decrement(peer.as_str()),
            None => None,
        }
    }
}

/// Counting a name once more and then once less changes nothing, if every listed name is
/// counted at least once.
pub proof fn lemma_one_more_one_less(counts: Map<Seq<char>, usize>, name: Seq<char>)
    requires
        count_of(counts, name) < usize::MAX,
        counts.contains_key(name) ==> counts[name] > 0,
    ensures
        with_one_less(with_one_more(counts, name), name) == counts,
{
    assert(with_one_less(with_one_more(counts, name), name) =~= counts);
}

/// A listed name is counted at least once, whatever is counted and no longer counted.
pub proof fn lemma_listed_is_counted(counts: Map<Seq<char>, usize>, name: Seq<char>)
    requires
        forall|other: Seq<char>| #[trigger] counts.contains_key(other) ==> counts[other] > 0,
        count_of(counts, name) < usize::MAX,
    ensures
        forall|other: Seq<char>| #[trigger]
            with_one_more(counts, name).contains_key(other) ==> with_one_more(counts, name)[other]
                > 0,
        forall|other: Seq<char>| #[trigger]
            with_one_less(counts, name).contains_key(other) ==> with_one_less(counts, name)[other]
                > 0,
{
}

/// A session that was admitted and is closed leaves the counts as they were.
pub proof fn lemma_closed_session_is_not_counted(
    counts: Map<Seq<char>, usize>,
    subscriber: Seq<char>,
    limit: usize,
)
    requires
        limit > 0,
        count_of(counts, subscriber) < usize::MAX,
        counts.contains_key(subscriber) ==> counts[subscriber] > 0,
    ensures
        with_one_less(
            admitted(counts, Some(subscriber), limit),
            session_name(Some(subscriber)),
        ) == counts,
{
    lemma_one_more_one_less(counts, subscriber);
}

/// A session of a subscriber that could not be identified is never counted, as long as nobody
/// subscribes under the name that stands for such subscribers.
pub proof fn lemma_unidentified_is_not_counted(counts: Map<Seq<char>, usize>, limit: usize)
    requires
        !counts.contains_key("UNKNOWN"@),
    ensures
        admitted(counts, None, limit) == counts,
        with_one_less(counts, session_name(None)) == counts,
        !at_limit(counts, None, limit),
{
    assert(with_one_less(counts, session_name(None)) =~= counts);
}

/// With the limit enforced, no subscriber is counted above it.
pub proof fn lemma_enforced_limit_holds(
    counts: Map<Seq<char>, usize>,
    subscriber: Seq<char>,
    limit: usize,
    name: Seq<char>,
)
    requires
        limit > 0,
        forall|other: Seq<char>| #[trigger] count_of(counts, other) <= limit,
        !at_limit(counts, Some(subscriber), limit),
    ensures
        count_of(admitted(counts, Some(subscriber), limit), name) <= limit,
{
    assert(count_of(counts, name) <= limit);
    assert(count_of(counts, subscriber) <= limit);
}

} // verus!
