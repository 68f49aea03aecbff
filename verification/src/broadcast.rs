//! Batches messages and says what is broadcast to which subscribers.
use crate::encoder::encode_messages;
use crate::message::{CommitmentLevel, Message, Numbered};
use crate::reconstruction::DispatchItem;
use vstd::prelude::*;

verus! {

/// A batch on its way to the subscribers with one commitment.
#[derive(Debug)]
pub struct Broadcast {
    pub commitment: CommitmentLevel,
    pub messages: Vec<Numbered>,
}

/// A batch as it is put together, before what is not encoded yet in it is encoded.
pub struct Sent {
    pub commitment: CommitmentLevel,
    pub messages: Seq<Numbered>,
}

impl Broadcast {
    /// The broadcast holds the messages of `sent`: to the processed commitment they are encoded,
    /// and to the others they go out as they are stored.
    pub open spec fn sends(self, sent: Sent) -> bool {
        &&& self.commitment == sent.commitment
        &&& if sent.commitment is Processed {
            crate::encoder::all_encoded_as(sent.messages, self.messages@)
        } else {
            self.messages@ == sent.messages
        }
    }
}

/// The broadcasts hold the messages of `sent`, in the same order.
pub open spec fn sends_all(broadcasts: Seq<Broadcast>, sent: Seq<Sent>) -> bool {
    &&& broadcasts.len() == sent.len()
    &&& forall|i: int| 0 <= i < sent.len() ==> (#[trigger] broadcasts[i]).sends(sent[i])
}

/// What goes out where a batch for the processed commitment ends.
pub open spec fn flushed(pending: Seq<Numbered>) -> Seq<Sent> {
    if pending.len() == 0 {
        Seq::empty()
    } else {
        seq![Sent { commitment: CommitmentLevel::Processed, messages: pending }]
    }
}

/// The batches that go out with an item.
pub open spec fn companions(item: DispatchItem) -> Seq<Sent> {
    let confirmed = match item.confirmed_messages {
        Some(messages) => seq![Sent { commitment: CommitmentLevel::Confirmed, messages: messages@ }],
        None => Seq::empty(),
    };
    let finalized = match item.finalized_messages {
        Some(messages) => seq![Sent { commitment: CommitmentLevel::Finalized, messages: messages@ }],
        None => Seq::empty(),
    };
    confirmed + finalized
}

/// A batch that is being filled, and what went out so far.
#[verifier::ext_equal]
pub struct Outgoing {
    pub pending: Seq<Numbered>,
    pub sent: Seq<Sent>,
}

/// An item ends the batch that it joins: a status does, a full batch does, and so does
/// everything that other batches go out with, since those must not come first.
pub open spec fn ends_batch(pending: Seq<Numbered>, max: usize, item: DispatchItem) -> bool {
    ||| item.message.1 is Slot
    ||| pending.len() >= max
    ||| item.confirmed_messages is Some
    ||| item.finalized_messages is Some
}

/// What becomes of an item. The message that came in is left out where `with_raw` is not set,
/// since another thread has sent it.
pub open spec fn after_item(
    pending: Seq<Numbered>,
    max: usize,
    item: DispatchItem,
    with_raw: bool,
) -> Outgoing {
    if item.is_raw_message && !with_raw {
        Outgoing { pending, sent: companions(item) }
    } else {
        let joined = pending.push(item.message);
        if ends_batch(joined, max, item) {
            Outgoing { pending: Seq::empty(), sent: flushed(joined) + companions(item) }
        } else {
            Outgoing { pending: joined, sent: companions(item) }
        }
    }
}

/// What becomes of several items, one after the other.
pub open spec fn after_items(
    pending: Seq<Numbered>,
    max: usize,
    items: Seq<DispatchItem>,
    with_raw: bool,
) -> Outgoing
    decreases items.len(),
{
    if items.len() == 0 {
        Outgoing { pending, sent: Seq::empty() }
    } else {
        let before = after_items(pending, max, items.drop_last(), with_raw);
        let step = after_item(before.pending, max, items.last(), with_raw);
        Outgoing { pending: step.pending, sent: before.sent + step.sent }
    }
}

/// What becomes of an update that is passed on at once: it ends the batch that it joins where it
/// is a status, or where the batch is full.
pub open spec fn after_raw(pending: Seq<Numbered>, max: usize, numbered: Numbered) -> Outgoing {
    let joined = pending.push(numbered);
    if numbered.1 is Slot || joined.len() >= max {
        Outgoing { pending: Seq::empty(), sent: flushed(joined) }
    } else {
        Outgoing { pending: joined, sent: Seq::empty() }
    }
}

/// What happens to the thread that passes updates on: one comes in, or nothing does.
pub enum RawStep {
    Update(Numbered),
    Idle,
}

/// What becomes of a batch in one step.
pub open spec fn after_raw_step(pending: Seq<Numbered>, max: usize, step: RawStep) -> Outgoing {
    match step {
        RawStep::Update(numbered) => after_raw(pending, max, numbered),
        RawStep::Idle => Outgoing { pending: Seq::empty(), sent: flushed(pending) },
    }
}

/// What becomes of a batch in several steps.
pub open spec fn after_raw_steps(
    pending: Seq<Numbered>,
    max: usize,
    steps: Seq<RawStep>,
) -> Outgoing
    decreases steps.len(),
{
    if steps.len() == 0 {
        Outgoing { pending, sent: Seq::empty() }
    } else {
        let before = after_raw_steps(pending, max, steps.drop_last());
        let step = after_raw_step(before.pending, max, steps.last());
        Outgoing { pending: step.pending, sent: before.sent + step.sent }
    }
}

/// What happens to a loop that puts blocks together: an update leads to items, or nothing comes
/// in.
pub enum ItemStep {
    Items(Seq<DispatchItem>),
    Idle,
}

/// What becomes of a batch in one step.
pub open spec fn after_item_step(
    pending: Seq<Numbered>,
    max: usize,
    step: ItemStep,
    with_raw: bool,
) -> Outgoing {
    match step {
        ItemStep::Items(items) => after_items(pending, max, items, with_raw),
        ItemStep::Idle => Outgoing { pending: Seq::empty(), sent: flushed(pending) },
    }
}

/// What becomes of a batch in several steps.
pub open spec fn after_item_steps(
    pending: Seq<Numbered>,
    max: usize,
    steps: Seq<ItemStep>,
    with_raw: bool,
) -> Outgoing
    decreases steps.len(),
{
    if steps.len() == 0 {
        Outgoing { pending, sent: Seq::empty() }
    } else {
        let before = after_item_steps(pending, max, steps.drop_last(), with_raw);
        let step = after_item_step(before.pending, max, steps.last(), with_raw);
        Outgoing { pending: step.pending, sent: before.sent + step.sent }
    }
}

/// A batch holds no status.
pub open spec fn without_status(messages: Seq<Numbered>) -> bool {
    forall|i: int| 0 <= i < messages.len() ==> !((#[trigger] messages[i]).1 is Slot)
}

/// A batch that waits is not full, and holds no status, since a status ends its batch.
pub open spec fn may_wait(pending: Seq<Numbered>, max: usize) -> bool {
    &&& pending.len() < max
    &&& without_status(pending)
}

/// Ends a batch for the processed commitment, if there is anything in it.
pub fn flush_processed_batch(processed_messages: &mut Vec<Numbered>) -> (broadcast: Option<
    Broadcast,
>)
    ensures
        final(processed_messages)@ == Seq::<Numbered>::empty(),
        broadcast is Some <==> old(processed_messages)@.len() > 0,
        broadcast matches Some(broadcast) ==> broadcast.sends(
            (Sent { commitment: CommitmentLevel::Processed, messages: old(processed_messages)@ }),
        ),
{
    if processed_messages.len() == 0 {
        assert(processed_messages@ =~= Seq::<Numbered>::empty());
        return None;
    }
    let mut messages: Vec<Numbered> = Vec::new();
    std::mem::swap(&mut messages, processed_messages);
    encode_messages(&mut messages);
    Some(Broadcast { commitment: CommitmentLevel::Processed, messages })
}

/// Says what becomes of an item.
fn dispatch_item(
    processed_messages: &mut Vec<Numbered>,
    max: usize,
    item: DispatchItem,
    with_raw: bool,
    broadcasts: &mut Vec<Broadcast>,
)
    ensures
        ({
            let step = after_item(old(processed_messages)@, max, item, with_raw);
            let start = old(broadcasts)@.len();
            &&& final(processed_messages)@ == step.pending
            &&& final(broadcasts)@.len() == start + step.sent.len()
            &&& old(broadcasts)@ == final(broadcasts)@.take(start as int)
            &&& forall|i: int|
                0 <= i < step.sent.len() ==> final(broadcasts)@[start + i].sends(
                    #[trigger] step.sent[i],
                )
        }),
{
    let ghost start = broadcasts@.len();
    let DispatchItem { message, confirmed_messages, finalized_messages, is_raw_message } = item;
    if !is_raw_message || with_raw {
        let is_slot: bool = match &message.1 {
            Message::Slot(_) => true,
            _ => false,
        };
        processed_messages.push(message);
        if is_slot || processed_messages.len() >= max || confirmed_messages.is_some()
            || finalized_messages.is_some() {
            if let Some(broadcast) = flush_processed_batch(processed_messages) {
                broadcasts.push(broadcast);
            }
        }
    }
    if let Some(messages) = confirmed_messages {
        broadcasts.push(Broadcast { commitment: CommitmentLevel::Confirmed, messages });
    }
    if let Some(messages) = finalized_messages {
        broadcasts.push(Broadcast { commitment: CommitmentLevel::Finalized, messages });
    }
    assert(old(broadcasts)@ =~= broadcasts@.take(start as int));
}

/// Says what becomes of several items, one after the other.
pub fn dispatch_items(
    processed_messages: &mut Vec<Numbered>,
    max: usize,
    items: Vec<DispatchItem>,
    with_raw: bool,
) -> (broadcasts: Vec<Broadcast>)
    ensures
        final(processed_messages)@ == after_items(
            old(processed_messages)@,
            max,
            items@,
            with_raw,
        ).pending,
        sends_all(
            broadcasts@,
            after_items(old(processed_messages)@, max, items@, with_raw).sent,
        ),
{
    let ghost all = items@;
    let ghost pending = processed_messages@;
    let mut broadcasts: Vec<Broadcast> = Vec::new();
    for item in it: items
        invariant
            it.seq() == all,
            processed_messages@ == after_items(pending, max, all.take(it.index()), with_raw).pending,
            sends_all(
                broadcasts@,
                after_items(pending, max, all.take(it.index()), with_raw).sent,
            ),
    {
        let ghost i = it.index();
        let ghost before = broadcasts@;
        proof {
            let upto = all.take(i + 1);
            assert(upto.drop_last() =~= all.take(i));
            assert(upto.last() == item);
        }
        dispatch_item(processed_messages, max, item, with_raw, &mut broadcasts);
        proof {
            let sent = after_items(pending, max, all.take(i), with_raw).sent;
            let now = after_items(pending, max, all.take(i + 1), with_raw).sent;
            assert forall|k: int| 0 <= k < now.len() implies (#[trigger] broadcasts@[k]).sends(
                now[k],
            ) by {
                if k < sent.len() {
                    assert(broadcasts@[k] == before[k]);
                    assert(now[k] == sent[k]);
                } else {
                    assert(broadcasts@[before.len() + (k - sent.len())] == broadcasts@[k]);
                }
            }
        }
    }
    assert(all.take(all.len() as int) =~= all);
    broadcasts
}

} // verus!
