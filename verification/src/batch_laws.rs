//! What the subscribers get of the items that the updates lead to.
use crate::broadcast::{Broadcast, Sent};
use crate::dispatch::{DispatchStep, GeyserDispatch, GeyserLoop, ReconstructionDispatch};
use crate::message::{CommitmentLevel, Message, Numbered};
use crate::message_id::MessageId;
use crate::reconstruction::{
    BlockReconstructionState, DispatchItem, ReplayedResponse, StateView,
};
use crate::run_laws::Update;
use vstd::prelude::*;

verus! {

/// The messages that go out to one commitment, in order.
pub open spec fn out_to(broadcasts: Seq<Broadcast>, commitment: CommitmentLevel) -> Seq<Numbered>
    decreases broadcasts.len(),
{
    if broadcasts.len() == 0 {
        Seq::empty()
    } else {
        let before = out_to(broadcasts.drop_last(), commitment);
        if broadcasts.last().commitment == commitment {
            before + broadcasts.last().messages@
        } else {
            before
        }
    }
}

/// The batches that the items carry for one commitment, in order, as one sequence.
pub open spec fn carried_for(items: Seq<DispatchItem>, commitment: CommitmentLevel) -> Seq<
    Numbered,
>
    decreases items.len(),
{
    if items.len() == 0 {
        Seq::empty()
    } else {
        let before = carried_for(items.drop_last(), commitment);
        let batch = match commitment {
            CommitmentLevel::Processed => None,
            CommitmentLevel::Confirmed => items.last().confirmed_messages,
            CommitmentLevel::Finalized => items.last().finalized_messages,
        };
        match batch {
            Some(messages) => before + messages@,
            None => before,
        }
    }
}

/// The messages of the items themselves; `with_raw` says whether the one that came in is among
/// them.
pub open spec fn own_messages(items: Seq<DispatchItem>, with_raw: bool) -> Seq<Numbered>
    decreases items.len(),
{
    if items.len() == 0 {
        Seq::empty()
    } else {
        let before = own_messages(items.drop_last(), with_raw);
        if with_raw || !items.last().is_raw_message {
            before.push(items.last().message)
        } else {
            before
        }
    }
}

/// There is a status among the messages.
pub open spec fn has_status(messages: Seq<Numbered>) -> bool {
    exists|i: int| 0 <= i < messages.len() && (#[trigger] messages[i]).1 is Slot
}

/// What waited, then the items themselves, goes out to the processed commitment or waits; what
/// the items carry goes out to the other two.
pub open spec fn all_go_out(
    waited: Seq<Numbered>,
    items: Seq<DispatchItem>,
    with_raw: bool,
    broadcasts: Seq<Broadcast>,
    waits: Seq<Numbered>,
) -> bool {
    &&& crate::encoding_laws::same_updates(
        waited + own_messages(items, with_raw),
        out_to(broadcasts, CommitmentLevel::Processed) + waits,
    )
    &&& out_to(broadcasts, CommitmentLevel::Confirmed) == carried_for(
        items,
        CommitmentLevel::Confirmed,
    )
    &&& out_to(broadcasts, CommitmentLevel::Finalized) == carried_for(
        items,
        CommitmentLevel::Finalized,
    )
}

/// A batch ended for a reason: it is full, it ends with a status, or a batch to another
/// commitment comes next, which it must not come after.
pub open spec fn ended_for_a_reason(broadcasts: Seq<Broadcast>, k: int, max: usize) -> bool {
    let messages = broadcasts[k].messages@;
    ||| messages.len() >= max
    ||| messages.last().1 is Slot
    ||| k + 1 < broadcasts.len() && !(broadcasts[k + 1].commitment is Processed)
}

/// The batches to the processed commitment are neither empty nor too long, each ended for a
/// reason, and a status stands at the end of its batch and does not wait; nor does a full batch.
pub open spec fn batches_are_cut(
    broadcasts: Seq<Broadcast>,
    waits: Seq<Numbered>,
    max: usize,
) -> bool {
    &&& waits.len() < max
    &&& !has_status(waits)
    &&& forall|k: int|
        0 <= k < broadcasts.len() && (#[trigger] broadcasts[k]).commitment is Processed ==> {
            &&& 0 < broadcasts[k].messages@.len() <= max
            &&& !has_status(broadcasts[k].messages@.drop_last())
            &&& ended_for_a_reason(broadcasts, k, max)
        }
}

/// A batch that is put together and the broadcast that sends it say the same.
proof fn lemma_sends(broadcast: Broadcast, sent: Sent)
    requires
        broadcast.sends(sent),
    ensures
        broadcast.commitment == sent.commitment,
        crate::encoding_laws::same_updates(sent.messages, broadcast.messages@),
        !(sent.commitment is Processed) ==> broadcast.messages@ == sent.messages,
{
    if sent.commitment is Processed {
        assert forall|i: int| 0 <= i < sent.messages.len() implies broadcast.messages@[i].0
            == sent.messages[i].0 && crate::encoding_laws::same_update(
            #[trigger] sent.messages[i].1,
            broadcast.messages@[i].1,
        ) by {
            assert(broadcast.messages@[i].0 == sent.messages[i].0);
            crate::encoding_laws::lemma_comes_out_encoded(
                sent.messages[i].1,
                broadcast.messages@[i].1,
            );
        }
    }
}

/// What goes out to a commitment is what was put together for it.
proof fn lemma_out_to(broadcasts: Seq<Broadcast>, sent: Seq<Sent>, commitment: CommitmentLevel)
    requires
        crate::broadcast::sends_all(broadcasts, sent),
    ensures
        crate::encoding_laws::same_updates(
            crate::broadcast_laws::sent_to(sent, commitment),
            out_to(broadcasts, commitment),
        ),
        !(commitment is Processed) ==> out_to(broadcasts, commitment)
            == crate::broadcast_laws::sent_to(sent, commitment),
    decreases sent.len(),
{
    if sent.len() > 0 {
        let last = sent.len() - 1;
        assert(broadcasts[last].sends(sent[last]));
        assert forall|i: int| 0 <= i < last implies (#[trigger] broadcasts.drop_last()[i]).sends(
            sent.drop_last()[i],
        ) by {
            assert(broadcasts[i].sends(sent[i]));
        }
        lemma_out_to(broadcasts.drop_last(), sent.drop_last(), commitment);
        lemma_sends(broadcasts[last], sent[last]);
    }
}

/// The messages of the items themselves.
proof fn lemma_own_messages(items: Seq<DispatchItem>, with_raw: bool)
    ensures
        own_messages(items, with_raw) == crate::broadcast_laws::messages_of(items, with_raw),
    decreases items.len(),
{
    if items.len() > 0 {
        lemma_own_messages(items.drop_last(), with_raw);
    }
}

/// What one item carries, as it is put together.
proof fn lemma_companions(item: DispatchItem, commitment: CommitmentLevel)
    ensures
        crate::broadcast_laws::sent_to(crate::broadcast::companions(item), commitment)
            == carried_for(seq![item], commitment),
{
    reveal_with_fuel(crate::broadcast_laws::sent_to, 4);
    reveal_with_fuel(carried_for, 2);
    let sent = crate::broadcast::companions(item);
    assert(seq![item].drop_last() =~= Seq::empty());
    assert(sent.len() <= 2);
    if sent.len() == 1 {
        assert(sent.drop_last() =~= Seq::empty());
    }
    if sent.len() == 2 {
        assert(sent.drop_last().drop_last() =~= Seq::empty());
        assert(sent.drop_last().last() == sent[0]);
        assert(sent.last() == sent[1]);
    }
    assert(crate::broadcast_laws::sent_to(sent, commitment) =~= carried_for(
        seq![item],
        commitment,
    ));
}

/// What the items carry is put together for the two other commitments, and nothing else is.
proof fn lemma_carried(
    pending: Seq<Numbered>,
    max: usize,
    items: Seq<DispatchItem>,
    with_raw: bool,
    commitment: CommitmentLevel,
)
    requires
        !(commitment is Processed),
    ensures
        crate::broadcast_laws::sent_to(
            crate::broadcast::after_items(pending, max, items, with_raw).sent,
            commitment,
        ) == carried_for(items, commitment),
    decreases items.len(),
{
    if items.len() > 0 {
        let rest = items.drop_last();
        let item = items.last();
        lemma_carried(pending, max, rest, with_raw, commitment);
        let before = crate::broadcast::after_items(pending, max, rest, with_raw);
        let step = crate::broadcast::after_item(before.pending, max, item, with_raw);
        crate::broadcast_laws::lemma_sent_to_concat(before.sent, step.sent, commitment);
        crate::broadcast_laws::lemma_only_companions(
            before.pending,
            max,
            item,
            with_raw,
            commitment,
        );
        lemma_companions(item, commitment);
        reveal_with_fuel(carried_for, 2);
        assert(seq![item].drop_last() =~= Seq::empty());
        assert(carried_for(items, commitment) =~= carried_for(rest, commitment) + carried_for(
            seq![item],
            commitment,
        ));
    }
}

/// Where a batch that was put together is cut.
spec fn cut(sent: Seq<Sent>, k: int, max: usize) -> bool {
    sent[k].commitment is Processed ==> {
        &&& 0 < sent[k].messages.len() <= max
        &&& !has_status(sent[k].messages.drop_last())
        &&& {
            ||| sent[k].messages.len() >= max
            ||| sent[k].messages.last().1 is Slot
            ||| k + 1 < sent.len() && !(sent[k + 1].commitment is Processed)
        }
    }
}

/// The batches to the processed commitment are cut where they should be.
proof fn lemma_cut(
    pending: Seq<Numbered>,
    max: usize,
    items: Seq<DispatchItem>,
    with_raw: bool,
)
    requires
        pending.len() < max,
        !has_status(pending),
    ensures
        ({
            let outgoing = crate::broadcast::after_items(pending, max, items, with_raw);
            &&& outgoing.pending.len() < max
            &&& !has_status(outgoing.pending)
            &&& forall|k: int|
                0 <= k < outgoing.sent.len() ==> cut(outgoing.sent, k, max)
        }),
    decreases items.len(),
{
    if items.len() > 0 {
        let rest = items.drop_last();
        let item = items.last();
        lemma_cut(pending, max, rest, with_raw);
        let before = crate::broadcast::after_items(pending, max, rest, with_raw);
        let step = crate::broadcast::after_item(before.pending, max, item, with_raw);
        let joined = before.pending.push(item.message);
        let outgoing = crate::broadcast::after_items(pending, max, items, with_raw);
        let start = before.sent.len() as int;
        assert(joined.drop_last() =~= before.pending);
        assert(!has_status(step.pending)) by {
            if has_status(step.pending) {
                let i = choose|i: int|
                    0 <= i < step.pending.len() && (#[trigger] step.pending[i]).1 is Slot;
                if i < before.pending.len() {
                    assert(before.pending[i] == step.pending[i]);
                }
            }
        }
        assert forall|k: int| 0 <= k < outgoing.sent.len() implies cut(
            outgoing.sent,
            k,
            max,
        ) by {
            if k < start {
                assert(cut(before.sent, k, max));
                assert(outgoing.sent[k] == before.sent[k]);
                if k + 1 < start {
                    assert(outgoing.sent[k + 1] == before.sent[k + 1]);
                }
            } else {
                assert(outgoing.sent[k] == step.sent[k - start]);
                if k + 1 < outgoing.sent.len() {
                    assert(outgoing.sent[k + 1] == step.sent[k + 1 - start]);
                }
            }
        }
    }
}

/// Two sequences that say the same hold a status at the same places.
proof fn lemma_same_status(a: Seq<Numbered>, b: Seq<Numbered>)
    requires
        crate::encoding_laws::same_updates(a, b),
    ensures
        has_status(a) <==> has_status(b),
        a.len() == b.len(),
        a.len() > 0 ==> crate::encoding_laws::same_updates(a.drop_last(), b.drop_last()),
        a.len() > 0 ==> (a.last().1 is Slot <==> b.last().1 is Slot),
{
    if has_status(a) {
        let i = choose|i: int| 0 <= i < a.len() && (#[trigger] a[i]).1 is Slot;
        assert(b[i].1 is Slot);
    }
    if has_status(b) {
        let i = choose|i: int| 0 <= i < b.len() && (#[trigger] b[i]).1 is Slot;
        assert(a[i].1 is Slot);
    }
}

/// What was put together for the items goes out as it should.
proof fn lemma_items_go_out(
    pending: Seq<Numbered>,
    max: usize,
    items: Seq<DispatchItem>,
    with_raw: bool,
    broadcasts: Seq<Broadcast>,
)
    requires
        crate::broadcast::sends_all(
            broadcasts,
            crate::broadcast::after_items(pending, max, items, with_raw).sent,
        ),
    ensures
        all_go_out(
            pending,
            items,
            with_raw,
            broadcasts,
            crate::broadcast::after_items(pending, max, items, with_raw).pending,
        ),
        pending.len() < max && !has_status(pending) ==> batches_are_cut(
            broadcasts,
            crate::broadcast::after_items(pending, max, items, with_raw).pending,
            max,
        ),
{
    let outgoing = crate::broadcast::after_items(pending, max, items, with_raw);
    let sent = outgoing.sent;
    lemma_out_to(broadcasts, sent, CommitmentLevel::Processed);
    lemma_out_to(broadcasts, sent, CommitmentLevel::Confirmed);
    lemma_out_to(broadcasts, sent, CommitmentLevel::Finalized);
    crate::broadcast_laws::lemma_batching_conserves(pending, max, items, with_raw);
    lemma_own_messages(items, with_raw);
    lemma_carried(pending, max, items, with_raw, CommitmentLevel::Confirmed);
    lemma_carried(pending, max, items, with_raw, CommitmentLevel::Finalized);
    let all = pending + own_messages(items, with_raw);
    let went = out_to(broadcasts, CommitmentLevel::Processed);
    let put = crate::broadcast_laws::sent_to(sent, CommitmentLevel::Processed);
    assert(all == put + outgoing.pending);
    assert forall|i: int| 0 <= i < all.len() implies #[trigger] all[i].0 == (went
        + outgoing.pending)[i].0 && crate::encoding_laws::same_update(
        all[i].1,
        (went + outgoing.pending)[i].1,
    ) by {
        if i < put.len() {
            assert(put[i] == all[i]);
            assert(went[i] == (went + outgoing.pending)[i]);
        } else {
            assert(all[i] == outgoing.pending[i - put.len()]);
        }
    }
    if pending.len() < max && !has_status(pending) {
        lemma_cut(pending, max, items, with_raw);
        assert forall|k: int|
            0 <= k < broadcasts.len() && (
            #[trigger] broadcasts[k]).commitment is Processed implies ({
            &&& 0 < broadcasts[k].messages@.len() <= max
            &&& !has_status(broadcasts[k].messages@.drop_last())
            &&& ended_for_a_reason(broadcasts, k, max)
        }) by {
            assert(broadcasts[k].sends(sent[k]));
            assert(cut(sent, k, max));
            lemma_sends(broadcasts[k], sent[k]);
            lemma_same_status(sent[k].messages, broadcasts[k].messages@);
            lemma_same_status(sent[k].messages.drop_last(), broadcasts[k].messages@.drop_last());
            if k + 1 < sent.len() {
                assert(broadcasts[k + 1].sends(sent[k + 1]));
            }
        }
    }
}

/// Every item is dispatched: nothing is lost, nothing is sent twice, and nothing changes places
/// or subscribers; and batches are cut where they should be.
pub proof fn lemma_items_are_dispatched()
    ensures
        forall|
            pending: &mut Vec<Numbered>,
            max: usize,
            items: Vec<DispatchItem>,
            with_raw: bool,
            broadcasts: Vec<Broadcast>,
        | #[trigger]
            call_ensures(
                crate::broadcast::dispatch_items,
                (pending, max, items, with_raw),
                broadcasts,
            ) ==> {
                &&& all_go_out(pending@, items@, with_raw, broadcasts@, final(pending)@)
                &&& pending@.len() < max && !has_status(pending@) ==> batches_are_cut(
                    broadcasts@,
                    final(pending)@,
                    max,
                )
            },
{
    assert forall|
        pending: &mut Vec<Numbered>,
        max: usize,
        items: Vec<DispatchItem>,
        with_raw: bool,
        broadcasts: Vec<Broadcast>,
    | #[trigger]
        call_ensures(
            crate::broadcast::dispatch_items,
            (pending, max, items, with_raw),
            broadcasts,
        ) implies ({
        &&& all_go_out(pending@, items@, with_raw, broadcasts@, final(pending)@)
        &&& pending@.len() < max && !has_status(pending@) ==> batches_are_cut(
            broadcasts@,
            final(pending)@,
            max,
        )
    }) by {
        lemma_items_go_out(pending@, max, items@, with_raw, broadcasts@);
    }
}

/// What an item carries for the other commitments does not overtake the item itself, nor what
/// waited before it: nothing waits any more, and what is carried goes out last.
pub proof fn lemma_carried_batches_do_not_overtake()
    ensures
        forall|
            pending: &mut Vec<Numbered>,
            max: usize,
            items: Vec<DispatchItem>,
            with_raw: bool,
            broadcasts: Vec<Broadcast>,
        | #[trigger]
            call_ensures(
                crate::broadcast::dispatch_items,
                (pending, max, items, with_raw),
                broadcasts,
            ) && items@.len() > 0 && (with_raw || !items@.last().is_raw_message) && (
            items@.last().confirmed_messages is Some || items@.last().finalized_messages is Some)
                ==> {
                &&& final(pending)@.len() == 0
                &&& broadcasts@.len() > 0
                &&& !(broadcasts@.last().commitment is Processed)
            },
{
    assert forall|
        pending: &mut Vec<Numbered>,
        max: usize,
        items: Vec<DispatchItem>,
        with_raw: bool,
        broadcasts: Vec<Broadcast>,
    | #[trigger]
        call_ensures(
            crate::broadcast::dispatch_items,
            (pending, max, items, with_raw),
            broadcasts,
        ) && items@.len() > 0 && (with_raw || !items@.last().is_raw_message) && (
        items@.last().confirmed_messages is Some
            || items@.last().finalized_messages is Some) implies ({
        &&& final(pending)@.len() == 0
        &&& broadcasts@.len() > 0
        &&& !(broadcasts@.last().commitment is Processed)
    }) by {
        let outgoing = crate::broadcast::after_items(pending@, max, items@, with_raw);
        let last = outgoing.sent.len() - 1;
        assert(outgoing.sent.last().commitment != CommitmentLevel::Processed);
        assert(broadcasts@[last].sends(outgoing.sent[last]));
    }
}

/// A batch goes out whole, in one broadcast to the processed commitment, or none goes out where
/// there was none; nothing waits after it.
pub open spec fn goes_out_whole(
    waited: Seq<Numbered>,
    broadcast: Option<Broadcast>,
    waits: Seq<Numbered>,
) -> bool {
    &&& waits.len() == 0
    &&& match broadcast {
        Some(broadcast) => {
            &&& waited.len() > 0
            &&& broadcast.commitment is Processed
            &&& crate::encoding_laws::same_updates(waited, broadcast.messages@)
        },
        None => waited.len() == 0,
    }
}

/// A batch that ends goes out whole, wherever it waited: by itself, in the single loop when its
/// time is over, and in either thread when nothing comes in.
pub proof fn lemma_batch_goes_out_whole()
    ensures
        forall|pending: &mut Vec<Numbered>, broadcast: Option<Broadcast>| #[trigger]
            call_ensures(crate::broadcast::flush_processed_batch, (pending,), broadcast)
                ==> goes_out_whole(pending@, broadcast, final(pending)@),
        forall|l: &mut GeyserLoop, broadcast: Option<Broadcast>| #[trigger]
            call_ensures(GeyserLoop::on_tick, (l,), broadcast) ==> {
                &&& goes_out_whole((*l)@.pending, broadcast, final(l)@.pending)
                &&& final(l)@.state == (*l)@.state
                &&& final(l)@.max == (*l)@.max
            },
        forall|d: &mut GeyserDispatch, broadcast: Option<Broadcast>| #[trigger]
            call_ensures(GeyserDispatch::on_empty, (d,), broadcast) ==> {
                &&& goes_out_whole((*d).pending(), broadcast, final(d).pending())
                &&& final(d).max() == (*d).max()
            },
        forall|
            r: &mut ReconstructionDispatch,
            request: Option<(CommitmentLevel, u64)>,
            step: (Option<Broadcast>, Option<ReplayedResponse>),
        | #[trigger]
            call_ensures(ReconstructionDispatch::on_idle, (r, request), step) ==> {
                &&& goes_out_whole((*r)@.pending, step.0, final(r)@.pending)
                &&& final(r)@.state == (*r)@.state
                &&& final(r)@.max == (*r)@.max
                &&& step.1 is Some <==> request is Some
            },
{
    assert forall|pending: &mut Vec<Numbered>, broadcast: Option<Broadcast>| #[trigger]
        call_ensures(
            crate::broadcast::flush_processed_batch,
            (pending,),
            broadcast,
        ) implies goes_out_whole(pending@, broadcast, final(pending)@) by {
        if broadcast is Some {
            lemma_sends(
                broadcast->0,
                Sent { commitment: CommitmentLevel::Processed, messages: pending@ },
            );
        }
    }
    assert forall|l: &mut GeyserLoop, broadcast: Option<Broadcast>| #[trigger]
        call_ensures(GeyserLoop::on_tick, (l,), broadcast) implies ({
        &&& goes_out_whole((*l)@.pending, broadcast, final(l)@.pending)
        &&& final(l)@.state == (*l)@.state
        &&& final(l)@.max == (*l)@.max
    }) by {
        if broadcast is Some {
            lemma_sends(
                broadcast->0,
                Sent { commitment: CommitmentLevel::Processed, messages: (*l)@.pending },
            );
        }
    }
    assert forall|d: &mut GeyserDispatch, broadcast: Option<Broadcast>| #[trigger]
        call_ensures(GeyserDispatch::on_empty, (d,), broadcast) implies ({
        &&& goes_out_whole((*d).pending(), broadcast, final(d).pending())
        &&& final(d).max() == (*d).max()
    }) by {
        if broadcast is Some {
            lemma_sends(
                broadcast->0,
                Sent { commitment: CommitmentLevel::Processed, messages: (*d).pending() },
            );
        }
    }
    assert forall|
        r: &mut ReconstructionDispatch,
        request: Option<(CommitmentLevel, u64)>,
        step: (Option<Broadcast>, Option<ReplayedResponse>),
    | #[trigger]
        call_ensures(ReconstructionDispatch::on_idle, (r, request), step) implies ({
        &&& goes_out_whole((*r)@.pending, step.0, final(r)@.pending)
        &&& final(r)@.state == (*r)@.state
        &&& final(r)@.max == (*r)@.max
        &&& step.1 is Some <==> request is Some
    }) by {
        if step.0 is Some {
            lemma_sends(
                step.0->0,
                Sent { commitment: CommitmentLevel::Processed, messages: (*r)@.pending },
            );
        }
    }
}

/// Two replies are the same.
pub open spec fn same_reply(a: ReplayedResponse, b: ReplayedResponse) -> bool {
    match (a, b) {
        (ReplayedResponse::Messages(one), ReplayedResponse::Messages(other)) => one@ == other@,
        (ReplayedResponse::Lagged(one), ReplayedResponse::Lagged(other)) => one == other,
        _ => false,
    }
}

/// A request for a replay is answered by the single loop, and by the thread that puts blocks
/// together, as a reconstruction that holds the same slots answers it.
pub proof fn lemma_replays_are_passed_on(
    state: &BlockReconstructionState,
    commitment: CommitmentLevel,
    slot: u64,
    reply: ReplayedResponse,
)
    requires
        call_ensures(
            BlockReconstructionState::service_replay,
            (state, commitment, slot),
            reply,
        ),
    ensures
        forall|l: &GeyserLoop, response: ReplayedResponse| #[trigger]
            call_ensures(GeyserLoop::service_replay, (l, commitment, slot), response)
                && l@.state.slots == state@.slots ==> same_reply(response, reply),
        forall|r: &mut ReconstructionDispatch, step: (Option<Broadcast>, Option<ReplayedResponse>)|
            #[trigger]
            call_ensures(
                ReconstructionDispatch::on_idle,
                (r, Some((commitment, slot))),
                step,
            ) && (*r)@.state.slots == state@.slots ==> (step.1 matches Some(response)
                && same_reply(response, reply)),
{
}

/// An update of the single loop: it is encoded, taken in under the next number, and everything
/// that it leads to goes out.
pub open spec fn loops(
    state: StateView,
    waited: Seq<Numbered>,
    max: usize,
    message: Message,
    broadcasts: Seq<Broadcast>,
    after: StateView,
    waits: Seq<Numbered>,
    encoded: Message,
    items: Seq<DispatchItem>,
) -> bool {
    let id = (state.last_id + 1) as u64;
    &&& crate::encoding_laws::comes_out_encoded(message, encoded)
    &&& (Update {
        before: StateView { last_id: id, ..state },
        id,
        message: encoded,
        items,
        after,
    }).taken_in()
    &&& all_go_out(waited, items, true, broadcasts, waits)
    &&& waited.len() < max && !has_status(waited) ==> batches_are_cut(broadcasts, waits, max)
}

/// Every update of the single loop is encoded and taken in under the next number, and everything
/// that it leads to goes out: to the processed commitment the update itself and the statuses and
/// blocks that it brings about, and to the others what those carry.
pub proof fn lemma_loop_sends_everything()
    ensures
        forall|l: &mut GeyserLoop, message: Message, broadcasts: Vec<Broadcast>| #[trigger]
            call_ensures(GeyserLoop::on_message, (l, message), broadcasts) && (*l)@.wf()
                && (*l)@.state.last_id < u64::MAX ==> {
                &&& final(l)@.max == (*l)@.max
                &&& exists|encoded: Message, items: Seq<DispatchItem>| #[trigger]
                    loops(
                        (*l)@.state,
                        (*l)@.pending,
                        (*l)@.max,
                        message,
                        broadcasts@,
                        final(l)@.state,
                        final(l)@.pending,
                        encoded,
                        items,
                    )
            },
{
    assert forall|l: &mut GeyserLoop, message: Message, broadcasts: Vec<Broadcast>| #[trigger]
        call_ensures(GeyserLoop::on_message, (l, message), broadcasts) && (*l)@.wf()
            && (*l)@.state.last_id < u64::MAX implies ({
        &&& final(l)@.max == (*l)@.max
        &&& exists|encoded: Message, items: Seq<DispatchItem>| #[trigger]
            loops(
                (*l)@.state,
                (*l)@.pending,
                (*l)@.max,
                message,
                broadcasts@,
                final(l)@.state,
                final(l)@.pending,
                encoded,
                items,
            )
    }) by {
        let before = (*l)@;
        let after = final(l)@;
        let (encoded, items) = choose|encoded: Message, items: Seq<DispatchItem>|
            message.encoded_as(encoded) && #[trigger] before.items_looped(
                encoded,
                items,
                broadcasts@,
                after,
            );
        crate::encoding_laws::lemma_comes_out_encoded(message, encoded);
        lemma_items_go_out(before.pending, before.max, items, true, broadcasts@);
        let numbered = StateView {
            last_id: (before.state.last_id + 1) as u64,
            ..before.state
        };
        assert(numbered == before.state.numbered());
        assert forall|slot: u64| numbered.slots.contains_key(slot) implies #[trigger]
            numbered.slots[slot].wf() && !numbered.slots[slot].ready() by {
            assert(before.state.slots[slot].wf());
        }
        assert(loops(
            before.state,
            before.pending,
            before.max,
            message,
            broadcasts@,
            after.state,
            after.pending,
            encoded,
            items,
        ));
    }
}

/// The state, with another number that was minted last.
pub open spec fn with_last_id(state: StateView, last_id: u64) -> StateView {
    StateView { last_id, ..state }
}

/// An update of the thread that puts blocks together: it is taken in, and everything that it
/// leads to goes out, but for the update itself.
pub open spec fn reconstructs(
    state: StateView,
    waited: Seq<Numbered>,
    max: usize,
    id: u64,
    message: Message,
    broadcasts: Seq<Broadcast>,
    after: StateView,
    waits: Seq<Numbered>,
    items: Seq<DispatchItem>,
) -> bool {
    &&& (Update { before: state, id, message, items, after }).taken_in()
    &&& all_go_out(waited, items, false, broadcasts, waits)
    &&& waited.len() < max && !has_status(waited) ==> batches_are_cut(broadcasts, waits, max)
}

/// Every update of the thread that puts blocks together is taken in under the number that it
/// came with, with new numbers from the shared source, and everything that it leads to goes out,
/// but for the update itself, which the other thread sends.
pub proof fn lemma_reconstruction_sends_the_rest()
    ensures
        forall|
            r: &mut ReconstructionDispatch,
            source: &mut MessageId,
            id: u64,
            message: Message,
            broadcasts: Vec<Broadcast>,
        | #[trigger]
            call_ensures(
                ReconstructionDispatch::on_message,
                (r, source, id, message),
                broadcasts,
            ) && (*r)@.wf() ==> {
                &&& final(r)@.max == (*r)@.max
                &&& exists|items: Seq<DispatchItem>| #[trigger]
                    reconstructs(
                        with_last_id((*r)@.state, (*source).last()),
                        (*r)@.pending,
                        (*r)@.max,
                        id,
                        message,
                        broadcasts@,
                        with_last_id(final(r)@.state, final(source).last()),
                        final(r)@.pending,
                        items,
                    )
            },
{
    assert forall|
        r: &mut ReconstructionDispatch,
        source: &mut MessageId,
        id: u64,
        message: Message,
        broadcasts: Vec<Broadcast>,
    | #[trigger]
        call_ensures(
            ReconstructionDispatch::on_message,
            (r, source, id, message),
            broadcasts,
        ) && (*r)@.wf() implies ({
        &&& final(r)@.max == (*r)@.max
        &&& exists|items: Seq<DispatchItem>| #[trigger]
            reconstructs(
                with_last_id((*r)@.state, (*source).last()),
                (*r)@.pending,
                (*r)@.max,
                id,
                message,
                broadcasts@,
                with_last_id(final(r)@.state, final(source).last()),
                final(r)@.pending,
                items,
            )
    }) by {
        let before = (*r)@.sharing((*source).last());
        let after = final(r)@.sharing(final(source).last());
        let items = choose|items: Seq<DispatchItem>|
            before.items_reconstructed(id, message, items, broadcasts@, after);
        lemma_items_go_out(before.pending, before.max, items, false, broadcasts@);
        assert forall|slot: u64| before.state.slots.contains_key(slot) implies #[trigger]
            before.state.slots[slot].wf() && !before.state.slots[slot].ready() by {
            assert((*r)@.state.slots[slot].wf());
        }
        assert forall|slot: u64| after.state.slots.contains_key(slot) implies #[trigger]
            after.state.slots[slot].wf() && !after.state.slots[slot].ready() by {
            assert(final(r)@.state.slots[slot].wf());
        }
        assert(reconstructs(
            before.state,
            before.pending,
            before.max,
            id,
            message,
            broadcasts@,
            after.state,
            after.pending,
            items,
        ));
    }
}

/// The thread that passes updates on sends every update that was handed over, behind what waits,
/// in the same order; at once if it is a status or fills the batch, and else it lets it wait.
/// Where the update was not handed over the thread stops, and nothing else happens.
pub proof fn lemma_updates_are_passed_on()
    ensures
        forall|d: &mut GeyserDispatch, numbered: Numbered, handed_over: bool, step: DispatchStep|
            #[trigger]
            call_ensures(GeyserDispatch::on_message, (d, numbered, handed_over), step) ==> {
                let joined = (*d).pending().push(numbered);
                &&& final(d).max() == (*d).max()
                &&& match step {
                    DispatchStep::Stop => !handed_over && final(d).pending() == (*d).pending(),
                    DispatchStep::Send(broadcast) => {
                        &&& handed_over
                        &&& numbered.1 is Slot || joined.len() >= (*d).max()
                        &&& goes_out_whole(joined, Some(broadcast), final(d).pending())
                    },
                    DispatchStep::Continue => {
                        &&& handed_over
                        &&& !(numbered.1 is Slot)
                        &&& joined.len() < (*d).max()
                        &&& final(d).pending() == joined
                    },
                }
            },
{
    assert forall|d: &mut GeyserDispatch, numbered: Numbered, handed_over: bool, step: DispatchStep|
        #[trigger]
        call_ensures(GeyserDispatch::on_message, (d, numbered, handed_over), step) implies ({
        let joined = (*d).pending().push(numbered);
        &&& final(d).max() == (*d).max()
        &&& match step {
            DispatchStep::Stop => !handed_over && final(d).pending() == (*d).pending(),
            DispatchStep::Send(broadcast) => {
                &&& handed_over
                &&& numbered.1 is Slot || joined.len() >= (*d).max()
                &&& goes_out_whole(joined, Some(broadcast), final(d).pending())
            },
            DispatchStep::Continue => {
                &&& handed_over
                &&& !(numbered.1 is Slot)
                &&& joined.len() < (*d).max()
                &&& final(d).pending() == joined
            },
        }
    }) by {
        let joined = (*d).pending().push(numbered);
        if handed_over {
            let outgoing = crate::broadcast::after_raw((*d).pending(), (*d).max(), numbered);
            if outgoing.sent.len() == 1 {
                assert(step.broadcasts()[0].sends(outgoing.sent[0]));
                lemma_sends(step.broadcasts()[0], outgoing.sent[0]);
            }
        }
    }
}

/// Updates are numbered one after the other, and are encoded.
pub proof fn lemma_updates_are_numbered()
    ensures
        forall|source: &mut MessageId, message: Message, numbered: Numbered| #[trigger]
            call_ensures(GeyserDispatch::number, (source, message), numbered) ==> {
                &&& numbered.0 == (*source).last() + 1
                &&& final(source).last() == numbered.0
                &&& crate::encoding_laws::comes_out_encoded(message, numbered.1)
            },
{
    assert forall|source: &mut MessageId, message: Message, numbered: Numbered| #[trigger]
        call_ensures(GeyserDispatch::number, (source, message), numbered) implies ({
        &&& numbered.0 == (*source).last() + 1
        &&& final(source).last() == numbered.0
        &&& crate::encoding_laws::comes_out_encoded(message, numbered.1)
    }) by {
        crate::encoding_laws::lemma_comes_out_encoded(message, numbered.1);
    }
}

/// A batch that is configured to hold nothing holds one message; any other size is kept.
pub proof fn lemma_batches_hold_something(
    first: Option<u64>,
    stored: u64,
    configured: usize,
    l: GeyserLoop,
    d: GeyserDispatch,
    r: ReconstructionDispatch,
)
    requires
        call_ensures(GeyserLoop::new, (first, stored, configured), l),
        call_ensures(GeyserDispatch::new, (configured,), d),
        call_ensures(ReconstructionDispatch::new, (first, stored, configured), r),
    ensures
        l@.max >= 1,
        configured >= 1 ==> l@.max == configured,
        configured == 0 ==> l@.max == 1,
        d.max() == l@.max,
        r@.max == l@.max,
        l@.pending.len() == 0,
        d.pending().len() == 0,
        r@.pending.len() == 0,
        forall|slot: u64| !l@.state.slots.contains_key(slot),
        forall|slot: u64| !r@.state.slots.contains_key(slot),
{
}

/// The storage of block metas is fed with statuses and metas alone, and the waiting time of the
/// next batch starts anew with what goes out to the processed commitment alone.
pub proof fn lemma_what_is_fed_and_what_restarts(
    message: &Message,
    wanted: bool,
    broadcast: &Broadcast,
    restarts: bool,
)
    requires
        call_ensures(crate::dispatch::is_for_block_meta, (message,), wanted),
        call_ensures(crate::dispatch::restarts_wait, (broadcast,), restarts),
    ensures
        message is Slot || message is BlockMeta ==> wanted,
        message is Account || message is Transaction || message is Entry || message is Block
            ==> !wanted,
        restarts <==> broadcast.commitment is Processed,
{
}

/// Whoever is handed the reconstruction of a pipeline changes that, and nothing else of it.
pub proof fn lemma_reconstruction_is_handed_out()
    ensures
        forall|l: &mut GeyserLoop, state: &mut BlockReconstructionState| #[trigger]
            call_ensures(GeyserLoop::reconstruction, (l,), state) ==> {
                &&& (*state)@ == (*l)@.state
                &&& final(l)@.state == final(state)@
                &&& final(l)@.pending == (*l)@.pending
                &&& final(l)@.max == (*l)@.max
            },
        forall|r: &mut ReconstructionDispatch, state: &mut BlockReconstructionState| #[trigger]
            call_ensures(ReconstructionDispatch::reconstruction, (r,), state) ==> {
                &&& (*state)@ == (*r)@.state
                &&& final(r)@.state == final(state)@
                &&& final(r)@.pending == (*r)@.pending
                &&& final(r)@.max == (*r)@.max
            },
{
}

} // verus!
