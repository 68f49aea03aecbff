//! What holds of the batches as a whole.
use crate::broadcast::{Broadcast, ItemStep, Outgoing, RawStep, Sent};
use crate::message::{CommitmentLevel, Numbered};
use crate::reconstruction::DispatchItem;
use vstd::prelude::*;

verus! {

/// All messages that went out to one commitment, in order.
pub open spec fn sent_to(sent: Seq<Sent>, commitment: CommitmentLevel) -> Seq<Numbered>
    decreases sent.len(),
{
    if sent.len() == 0 {
        Seq::empty()
    } else {
        let before = sent_to(sent.drop_last(), commitment);
        if sent.last().commitment == commitment {
            before + sent.last().messages
        } else {
            before
        }
    }
}

/// The messages of the items, or only those that were brought about.
pub open spec fn messages_of(items: Seq<DispatchItem>, with_raw: bool) -> Seq<Numbered>
    decreases items.len(),
{
    if items.len() == 0 {
        Seq::empty()
    } else {
        let before = messages_of(items.drop_last(), with_raw);
        if items.last().is_raw_message && !with_raw {
            before
        } else {
            before.push(items.last().message)
        }
    }
}

/// A batch that waits is never full, and never holds a status.
pub proof fn lemma_batch_may_wait(
    pending: Seq<Numbered>,
    max: usize,
    items: Seq<DispatchItem>,
    with_raw: bool,
)
    requires
        crate::broadcast::may_wait(pending, max),
    ensures
        crate::broadcast::may_wait(
            crate::broadcast::after_items(pending, max, items, with_raw).pending,
            max,
        ),
    decreases items.len(),
{
    if items.len() > 0 {
        lemma_batch_may_wait(pending, max, items.drop_last(), with_raw);
    }
}

/// The messages of a batch up to its last hold no status.
pub open spec fn status_comes_last(messages: Seq<Numbered>) -> bool {
    forall|i: int| 0 <= i < messages.len() - 1 ==> !((#[trigger] messages[i]).1 is Slot)
}

/// A status is always the last message of its batch to the processed commitment.
pub proof fn lemma_status_ends_its_batch(
    pending: Seq<Numbered>,
    max: usize,
    items: Seq<DispatchItem>,
    with_raw: bool,
    k: int,
)
    requires
        crate::broadcast::may_wait(pending, max),
        0 <= k < crate::broadcast::after_items(pending, max, items, with_raw).sent.len(),
        crate::broadcast::after_items(pending, max, items, with_raw).sent[k].commitment is Processed,
    ensures
        status_comes_last(
            crate::broadcast::after_items(pending, max, items, with_raw).sent[k].messages,
        ),
    decreases items.len(),
{
    let rest = items.drop_last();
    let before = crate::broadcast::after_items(pending, max, rest, with_raw);
    lemma_batch_may_wait(pending, max, rest, with_raw);
    if k < before.sent.len() {
        lemma_status_ends_its_batch(pending, max, rest, with_raw, k);
    } else {
        let item = items.last();
        let step = crate::broadcast::after_item(before.pending, max, item, with_raw);
        let batch = crate::broadcast::after_items(pending, max, items, with_raw).sent[k].messages;
        assert(crate::broadcast::after_items(pending, max, items, with_raw).sent[k]
            == step.sent[k - before.sent.len()]);
        assert(batch =~= before.pending.push(item.message));
        assert forall|i: int| 0 <= i < batch.len() - 1 implies !((
        #[trigger] batch[i]).1 is Slot) by {
            assert(batch[i] == before.pending[i]);
        }
    }
}

/// The same of the updates that are passed on at once, whatever comes in and when.
pub proof fn lemma_raw_status_ends_its_batch(
    pending: Seq<Numbered>,
    max: usize,
    steps: Seq<RawStep>,
    k: int,
)
    requires
        crate::broadcast::may_wait(pending, max),
    ensures
        crate::broadcast::may_wait(
            crate::broadcast::after_raw_steps(pending, max, steps).pending,
            max,
        ),
        0 <= k < crate::broadcast::after_raw_steps(pending, max, steps).sent.len()
            ==> status_comes_last(
            crate::broadcast::after_raw_steps(pending, max, steps).sent[k].messages,
        ),
    decreases steps.len(),
{
    if steps.len() > 0 {
        let rest = steps.drop_last();
        let before = crate::broadcast::after_raw_steps(pending, max, rest);
        let step = crate::broadcast::after_raw_step(before.pending, max, steps.last());
        lemma_raw_status_ends_its_batch(pending, max, rest, k);
        if before.sent.len() <= k < before.sent.len() + step.sent.len() {
            let batch = step.sent[k - before.sent.len()].messages;
            assert(crate::broadcast::after_raw_steps(pending, max, steps).sent[k].messages
                == batch);
            assert forall|i: int| 0 <= i < batch.len() - 1 implies !((
            #[trigger] batch[i]).1 is Slot) by {
                assert(batch[i] == before.pending[i]);
            }
        }
    }
}

/// What goes out one after the other goes out to each commitment one after the other.
pub(crate) proof fn lemma_sent_to_concat(a: Seq<Sent>, b: Seq<Sent>, commitment: CommitmentLevel)
    ensures
        sent_to(a + b, commitment) == sent_to(a, commitment) + sent_to(b, commitment),
    decreases b.len(),
{
    if b.len() == 0 {
        assert(a + b =~= a);
        assert(sent_to(a, commitment) + sent_to(b, commitment) =~= sent_to(a, commitment));
    } else {
        lemma_sent_to_concat(a, b.drop_last(), commitment);
        assert((a + b).drop_last() =~= a + b.drop_last());
        assert((a + b).last() == b.last());
        assert(sent_to(a + b, commitment) =~= sent_to(a, commitment) + sent_to(b, commitment));
    }
}

/// The batches that go out with an item go to the confirmed and finalized commitments only.
proof fn lemma_companions_by_commitment(item: DispatchItem)
    ensures
        sent_to(crate::broadcast::companions(item), CommitmentLevel::Processed) == Seq::<
            Numbered,
        >::empty(),
{
    reveal_with_fuel(sent_to, 4);
    let sent = crate::broadcast::companions(item);
    assert(sent.len() <= 2);
    if sent.len() == 1 {
        assert(sent.drop_last() =~= Seq::empty());
    }
    if sent.len() == 2 {
        assert(sent.drop_last().drop_last() =~= Seq::empty());
        assert(sent.drop_last().last() == sent[0]);
        assert(sent.last() == sent[1]);
    }
}

/// One item loses no message, sends none twice, and keeps their order.
proof fn lemma_item_conserves(
    pending: Seq<Numbered>,
    max: usize,
    item: DispatchItem,
    with_raw: bool,
)
    ensures
        ({
            let step = crate::broadcast::after_item(pending, max, item, with_raw);
            sent_to(step.sent, CommitmentLevel::Processed) + step.pending == if item.is_raw_message
                && !with_raw {
                pending
            } else {
                pending.push(item.message)
            }
        }),
{
    let step = crate::broadcast::after_item(pending, max, item, with_raw);
    let companions = crate::broadcast::companions(item);
    lemma_companions_by_commitment(item);
    let joined = pending.push(item.message);
    let flushed = crate::broadcast::flushed(joined);
    lemma_sent_to_concat(flushed, companions, CommitmentLevel::Processed);
    assert(sent_to(flushed, CommitmentLevel::Processed) =~= joined) by {
        reveal_with_fuel(sent_to, 2);
        assert(flushed.drop_last() =~= Seq::empty());
    }
    assert(sent_to(step.sent, CommitmentLevel::Processed) + step.pending =~= if item.is_raw_message
        && !with_raw {
        pending
    } else {
        joined
    });
}

/// Batching to the processed commitment loses no message, sends none twice, and keeps their
/// order: what went out, and then what waits, is what waited before, and then what came.
pub proof fn lemma_batching_conserves(
    pending: Seq<Numbered>,
    max: usize,
    items: Seq<DispatchItem>,
    with_raw: bool,
)
    ensures
        ({
            let outgoing = crate::broadcast::after_items(pending, max, items, with_raw);
            sent_to(outgoing.sent, CommitmentLevel::Processed) + outgoing.pending == pending
                + messages_of(items, with_raw)
        }),
    decreases items.len(),
{
    let outgoing = crate::broadcast::after_items(pending, max, items, with_raw);
    if items.len() == 0 {
        assert(sent_to(outgoing.sent, CommitmentLevel::Processed) + outgoing.pending =~= pending
            + messages_of(items, with_raw));
    } else {
        let before = crate::broadcast::after_items(pending, max, items.drop_last(), with_raw);
        let item = items.last();
        let step = crate::broadcast::after_item(before.pending, max, item, with_raw);
        lemma_batching_conserves(pending, max, items.drop_last(), with_raw);
        lemma_item_conserves(before.pending, max, item, with_raw);
        lemma_sent_to_concat(before.sent, step.sent, CommitmentLevel::Processed);
        let sent_before = sent_to(before.sent, CommitmentLevel::Processed);
        let sent_now = sent_to(step.sent, CommitmentLevel::Processed);
        assert((sent_before + sent_now) + step.pending =~= sent_before + (sent_now + step.pending));
        let came = messages_of(items.drop_last(), with_raw);
        assert(sent_before + before.pending.push(item.message) =~= (sent_before
            + before.pending).push(item.message));
        assert((pending + came).push(item.message) =~= pending + came.push(item.message));
    }
}

/// The subscribers who wait for confirmed or finalized slots get the same from both pipelines.
pub proof fn lemma_companions_are_the_same(
    pending: Seq<Numbered>,
    max: usize,
    other_pending: Seq<Numbered>,
    other_max: usize,
    items: Seq<DispatchItem>,
    commitment: CommitmentLevel,
)
    requires
        !(commitment is Processed),
    ensures
        sent_to(crate::broadcast::after_items(pending, max, items, true).sent, commitment)
            == sent_to(
            crate::broadcast::after_items(other_pending, other_max, items, false).sent,
            commitment,
        ),
    decreases items.len(),
{
    if items.len() > 0 {
        let rest = items.drop_last();
        let item = items.last();
        lemma_companions_are_the_same(pending, max, other_pending, other_max, rest, commitment);
        let a = crate::broadcast::after_items(pending, max, rest, true);
        let b = crate::broadcast::after_items(other_pending, other_max, rest, false);
        let a1 = crate::broadcast::after_item(a.pending, max, item, true);
        let b1 = crate::broadcast::after_item(b.pending, other_max, item, false);
        lemma_sent_to_concat(a.sent, a1.sent, commitment);
        lemma_sent_to_concat(b.sent, b1.sent, commitment);
        lemma_only_companions(a.pending, max, item, true, commitment);
        lemma_only_companions(b.pending, other_max, item, false, commitment);
    }
}

/// To the confirmed and finalized commitments nothing goes out but the batches of the item.
pub(crate) proof fn lemma_only_companions(
    pending: Seq<Numbered>,
    max: usize,
    item: DispatchItem,
    with_raw: bool,
    commitment: CommitmentLevel,
)
    requires
        !(commitment is Processed),
    ensures
        sent_to(crate::broadcast::after_item(pending, max, item, with_raw).sent, commitment)
            == sent_to(crate::broadcast::companions(item), commitment),
{
    let joined = pending.push(item.message);
    let flushed = crate::broadcast::flushed(joined);
    let companions = crate::broadcast::companions(item);
    lemma_sent_to_concat(flushed, companions, commitment);
    assert(sent_to(flushed, commitment) =~= Seq::empty()) by {
        reveal_with_fuel(sent_to, 2);
        assert(flushed.drop_last() =~= Seq::empty());
    }
    assert(sent_to(flushed, commitment) + sent_to(companions, commitment) =~= sent_to(
        companions,
        commitment,
    ));
}

/// The thread that puts blocks together never sends the message that came in to the processed
/// commitment, which the other thread has done.
pub proof fn lemma_raw_is_sent_once(items: Seq<DispatchItem>, raw: Numbered, k: int)
    requires
        forall|i: int|
            0 <= i < items.len() ==> ((#[trigger] items[i]).is_raw_message <==> items[i].message.0
                == raw.0),
        0 <= k < messages_of(items, false).len(),
    ensures
        messages_of(items, false)[k].0 != raw.0,
    decreases items.len(),
{
    let rest = items.drop_last();
    assert(items.last() == items[items.len() - 1]);
    assert forall|i: int| 0 <= i < rest.len() implies ((#[trigger] rest[i]).is_raw_message
        <==> rest[i].message.0 == raw.0) by {
        assert(rest[i] == items[i]);
    }
    if k < messages_of(rest, false).len() {
        lemma_raw_is_sent_once(rest, raw, k);
    }
}

/// No empty batch goes out to the processed commitment.
pub proof fn lemma_no_empty_batch(
    pending: Seq<Numbered>,
    max: usize,
    items: Seq<DispatchItem>,
    with_raw: bool,
    k: int,
)
    requires
        0 <= k < crate::broadcast::after_items(pending, max, items, with_raw).sent.len(),
        crate::broadcast::after_items(pending, max, items, with_raw).sent[k].commitment is Processed,
    ensures
        crate::broadcast::after_items(pending, max, items, with_raw).sent[k].messages.len() > 0,
    decreases items.len(),
{
    let rest = items.drop_last();
    let before = crate::broadcast::after_items(pending, max, rest, with_raw);
    if k < before.sent.len() {
        lemma_no_empty_batch(pending, max, rest, with_raw, k);
    } else {
        let step = crate::broadcast::after_item(before.pending, max, items.last(), with_raw);
        assert(crate::broadcast::after_items(pending, max, items, with_raw).sent[k]
            == step.sent[k - before.sent.len()]);
    }
}

/// No batch to the processed commitment has more messages than its size allows.
pub proof fn lemma_batch_size_holds(
    pending: Seq<Numbered>,
    max: usize,
    items: Seq<DispatchItem>,
    with_raw: bool,
    k: int,
)
    requires
        crate::broadcast::may_wait(pending, max),
        0 <= k < crate::broadcast::after_items(pending, max, items, with_raw).sent.len(),
        crate::broadcast::after_items(pending, max, items, with_raw).sent[k].commitment is Processed,
    ensures
        crate::broadcast::after_items(pending, max, items, with_raw).sent[k].messages.len() <= max,
    decreases items.len(),
{
    let rest = items.drop_last();
    let before = crate::broadcast::after_items(pending, max, rest, with_raw);
    lemma_batch_may_wait(pending, max, rest, with_raw);
    if k < before.sent.len() {
        lemma_batch_size_holds(pending, max, rest, with_raw, k);
    } else {
        let step = crate::broadcast::after_item(before.pending, max, items.last(), with_raw);
        assert(crate::broadcast::after_items(pending, max, items, with_raw).sent[k]
            == step.sent[k - before.sent.len()]);
    }
}

/// A broadcast says what its messages said before they were encoded, under the same numbers.
pub proof fn lemma_broadcast_keeps_content(broadcast: Broadcast, sent: Sent)
    requires
        broadcast.sends(sent),
    ensures
        crate::content::numbered_contents(broadcast.messages@)
            == crate::content::numbered_contents(sent.messages),
{
    let before = crate::content::numbered_contents(sent.messages);
    let after = crate::content::numbered_contents(broadcast.messages@);
    assert forall|i: int| 0 <= i < before.len() implies after[i] == before[i] by {
        if sent.commitment is Processed {
            crate::encoder::lemma_encoding_keeps_content(
                sent.messages[i].1,
                broadcast.messages@[i].1,
            );
            assert(broadcast.messages@[i].0 == sent.messages[i].0);
        }
    }
    assert(after =~= before);
}

/// What waits goes out whole.
proof fn lemma_flush_conserves(pending: Seq<Numbered>)
    ensures
        sent_to(crate::broadcast::flushed(pending), CommitmentLevel::Processed) == pending,
{
    reveal_with_fuel(sent_to, 2);
    let flushed = crate::broadcast::flushed(pending);
    if pending.len() > 0 {
        assert(flushed.drop_last() =~= Seq::empty());
    }
    assert(sent_to(flushed, CommitmentLevel::Processed) =~= pending);
}

/// A step after others: if both lose nothing and keep the order, so do they together.
proof fn lemma_conserving_steps(
    pending: Seq<Numbered>,
    came: Seq<Numbered>,
    before: Outgoing,
    more: Seq<Numbered>,
    step: Outgoing,
)
    requires
        sent_to(before.sent, CommitmentLevel::Processed) + before.pending == pending + came,
        sent_to(step.sent, CommitmentLevel::Processed) + step.pending == before.pending + more,
    ensures
        sent_to(before.sent + step.sent, CommitmentLevel::Processed) + step.pending == pending + (
        came + more),
{
    lemma_sent_to_concat(before.sent, step.sent, CommitmentLevel::Processed);
    let first = sent_to(before.sent, CommitmentLevel::Processed);
    let then = sent_to(step.sent, CommitmentLevel::Processed);
    assert((first + then) + step.pending =~= first + (then + step.pending));
    assert(first + (before.pending + more) =~= (first + before.pending) + more);
    assert((pending + came) + more =~= pending + (came + more));
}

/// The updates among the steps, in order.
pub open spec fn updates_of(steps: Seq<RawStep>) -> Seq<Numbered>
    decreases steps.len(),
{
    if steps.len() == 0 {
        Seq::empty()
    } else {
        updates_of(steps.drop_last()) + match steps.last() {
            RawStep::Update(numbered) => seq![numbered],
            RawStep::Idle => Seq::empty(),
        }
    }
}

/// The updates that are passed on at once stay in order, none is lost, and none is sent twice,
/// whenever nothing comes in between them: what went out, and then what waits, is what waited
/// before, and then what came. That holds of older images of an account too.
pub proof fn lemma_raw_messages_stay_in_order(
    pending: Seq<Numbered>,
    max: usize,
    steps: Seq<RawStep>,
)
    ensures
        ({
            let outgoing = crate::broadcast::after_raw_steps(pending, max, steps);
            sent_to(outgoing.sent, CommitmentLevel::Processed) + outgoing.pending == pending
                + updates_of(steps)
        }),
    decreases steps.len(),
{
    let outgoing = crate::broadcast::after_raw_steps(pending, max, steps);
    if steps.len() == 0 {
        assert(sent_to(outgoing.sent, CommitmentLevel::Processed) + outgoing.pending =~= pending
            + updates_of(steps));
    } else {
        let rest = steps.drop_last();
        let before = crate::broadcast::after_raw_steps(pending, max, rest);
        let step = crate::broadcast::after_raw_step(before.pending, max, steps.last());
        lemma_raw_messages_stay_in_order(pending, max, rest);
        let more = match steps.last() {
            RawStep::Update(numbered) => seq![numbered],
            RawStep::Idle => Seq::empty(),
        };
        let joined = before.pending + more;
        if let RawStep::Update(numbered) = steps.last() {
            assert(joined =~= before.pending.push(numbered));
        }
        lemma_flush_conserves(joined);
        assert(sent_to(step.sent, CommitmentLevel::Processed) + step.pending =~= joined);
        lemma_conserving_steps(pending, updates_of(rest), before, more, step);
    }
}

/// Updates whose numbers rise are sent with numbers that rise, whenever nothing comes in between
/// them.
pub proof fn lemma_raw_numbers_rise(max: usize, steps: Seq<RawStep>, i: int, j: int)
    requires
        forall|a: int, b: int|
            0 <= a < b < updates_of(steps).len() ==> (#[trigger] updates_of(steps)[a]).0 < (
            #[trigger] updates_of(steps)[b]).0,
        0 <= i < j < sent_to(
            crate::broadcast::after_raw_steps(Seq::empty(), max, steps).sent,
            CommitmentLevel::Processed,
        ).len(),
    ensures
        ({
            let sent = sent_to(
                crate::broadcast::after_raw_steps(Seq::empty(), max, steps).sent,
                CommitmentLevel::Processed,
            );
            sent[i].0 < sent[j].0
        }),
{
    let outgoing = crate::broadcast::after_raw_steps(Seq::empty(), max, steps);
    let sent = sent_to(outgoing.sent, CommitmentLevel::Processed);
    let updates = updates_of(steps);
    lemma_raw_messages_stay_in_order(Seq::empty(), max, steps);
    assert(Seq::<Numbered>::empty() + updates =~= updates);
    assert((sent + outgoing.pending)[i] == sent[i]);
    assert((sent + outgoing.pending)[j] == sent[j]);
    assert(updates[i] == sent[i] && updates[j] == sent[j]);
}

/// The messages that the steps lead to, in order.
pub open spec fn messages_of_steps(steps: Seq<ItemStep>, with_raw: bool) -> Seq<Numbered>
    decreases steps.len(),
{
    if steps.len() == 0 {
        Seq::empty()
    } else {
        messages_of_steps(steps.drop_last(), with_raw) + match steps.last() {
            ItemStep::Items(items) => messages_of(items, with_raw),
            ItemStep::Idle => Seq::empty(),
        }
    }
}

/// Over a whole run of updates and pauses batching to the processed commitment loses no message,
/// sends none twice, and keeps their order.
pub proof fn lemma_run_conserves(
    pending: Seq<Numbered>,
    max: usize,
    steps: Seq<ItemStep>,
    with_raw: bool,
)
    ensures
        ({
            let outgoing = crate::broadcast::after_item_steps(pending, max, steps, with_raw);
            sent_to(outgoing.sent, CommitmentLevel::Processed) + outgoing.pending == pending
                + messages_of_steps(steps, with_raw)
        }),
    decreases steps.len(),
{
    let outgoing = crate::broadcast::after_item_steps(pending, max, steps, with_raw);
    if steps.len() == 0 {
        assert(sent_to(outgoing.sent, CommitmentLevel::Processed) + outgoing.pending =~= pending
            + messages_of_steps(steps, with_raw));
    } else {
        let rest = steps.drop_last();
        let before = crate::broadcast::after_item_steps(pending, max, rest, with_raw);
        let step = crate::broadcast::after_item_step(before.pending, max, steps.last(), with_raw);
        lemma_run_conserves(pending, max, rest, with_raw);
        let more = match steps.last() {
            ItemStep::Items(items) => messages_of(items, with_raw),
            ItemStep::Idle => Seq::empty(),
        };
        match steps.last() {
            ItemStep::Items(items) => {
                lemma_batching_conserves(before.pending, max, items, with_raw);
            },
            ItemStep::Idle => {
                lemma_flush_conserves(before.pending);
                assert(before.pending + more =~= before.pending);
                assert(sent_to(step.sent, CommitmentLevel::Processed) + step.pending
                    =~= before.pending);
            },
        }
        lemma_conserving_steps(pending, messages_of_steps(rest, with_raw), before, more, step);
    }
}

/// Messages that carry their encoded forms, as far as they have one, go out as they stand: the
/// form is not made a second time.
pub proof fn lemma_final_forms_go_out_as_they_stand(broadcast: Broadcast, sent: Sent)
    requires
        broadcast.sends(sent),
        forall|i: int|
            0 <= i < sent.messages.len() ==> (#[trigger] sent.messages[i]).1.in_final_form(),
    ensures
        broadcast.messages@ == sent.messages,
{
    assert forall|i: int| 0 <= i < sent.messages.len() implies #[trigger] broadcast.messages@[i]
        == sent.messages[i] by {
        assert(sent.messages[i].1.in_final_form());
    }
    assert(broadcast.messages@ =~= sent.messages);
}

/// The messages among the items that came in.
pub open spec fn raw_of(items: Seq<DispatchItem>) -> Seq<Numbered>
    decreases items.len(),
{
    if items.len() == 0 {
        Seq::empty()
    } else if items.last().is_raw_message {
        raw_of(items.drop_last()).push(items.last().message)
    } else {
        raw_of(items.drop_last())
    }
}

/// To the processed commitment the two threads together send what the single loop sends: the
/// messages that came in, and those that were brought about.
pub proof fn lemma_threads_send_what_the_loop_sends(items: Seq<DispatchItem>)
    ensures
        messages_of(items, true).to_multiset() == messages_of(items, false).to_multiset().add(
            raw_of(items).to_multiset(),
        ),
    decreases items.len(),
{
    broadcast use vstd::seq_lib::group_to_multiset_ensures;

    if items.len() == 0 {
        assert(messages_of(items, true).to_multiset() =~= messages_of(
            items,
            false,
        ).to_multiset().add(raw_of(items).to_multiset()));
    } else {
        lemma_threads_send_what_the_loop_sends(items.drop_last());
        assert(messages_of(items, true).to_multiset() =~= messages_of(
            items,
            false,
        ).to_multiset().add(raw_of(items).to_multiset()));
    }
}

} // verus!
