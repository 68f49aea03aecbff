//! Which image of an account a slot keeps.
use crate::message::{Message, Numbered, SlotStatus};
use crate::slot_messages::SlotView;
use vstd::prelude::*;

verus! {

/// Everything that can happen to a slot.
pub enum SlotStep {
    Received(u64, Message),
    Sealed(Numbered),
    Marked(SlotStatus),
    Recorded(SlotStatus),
}

impl SlotStep {
    /// The slot after the step.
    pub open spec fn apply(self, entry: SlotView) -> SlotView {
        match self {
            SlotStep::Received(id, message) => entry.received(id, message),
            SlotStep::Sealed(block) => entry.sealed_as(block),
            SlotStep::Marked(status) => entry.marked(status),
            SlotStep::Recorded(status) => entry.recorded(status),
        }
    }

    /// Only blocks are sent out as a slot's block.
    pub open spec fn wf(self) -> bool {
        self matches SlotStep::Sealed(block) ==> block.1 is Block
    }

    /// The step brings an image of the account `pubkey`.
    pub open spec fn is_image_of(self, pubkey: Seq<u8>) -> bool {
        self matches SlotStep::Received(_, Message::Account(msg)) && msg.account.pubkey@ == pubkey
    }

    /// The write version of the image that the step brings.
    pub open spec fn write_version(self) -> u64 {
        self->Received_1->Account_0.account.write_version
    }

    /// The numbered message that the step brings.
    pub open spec fn numbered(self) -> Numbered {
        (self->Received_0, self->Received_1)
    }
}

/// A slot after several steps.
pub open spec fn apply_all(entry: SlotView, steps: Seq<SlotStep>) -> SlotView
    decreases steps.len(),
{
    if steps.len() == 0 {
        entry
    } else {
        steps.last().apply(apply_all(entry, steps.drop_last()))
    }
}

/// A slot after all that happened to it.
pub open spec fn after_steps(steps: Seq<SlotStep>) -> SlotView {
    apply_all(SlotView::empty(), steps)
}

/// Steps can be taken in two parts.
pub proof fn lemma_steps_compose(steps: Seq<SlotStep>, more: Seq<SlotStep>)
    ensures
        after_steps(steps + more) == apply_all(after_steps(steps), more),
    decreases more.len(),
{
    if more.len() == 0 {
        assert(steps + more =~= steps);
    } else {
        assert((steps + more).drop_last() =~= steps + more.drop_last());
        assert((steps + more).last() == more.last());
        lemma_steps_compose(steps, more.drop_last());
    }
}

/// All steps are possible, and there are not too many of them.
pub open spec fn possible(steps: Seq<SlotStep>) -> bool {
    &&& steps.len() <= usize::MAX
    &&& forall|i: int| 0 <= i < steps.len() ==> (#[trigger] steps[i]).wf()
}

/// Whatever happens to a slot, it stays well formed.
pub proof fn lemma_steps_keep_wf(steps: Seq<SlotStep>)
    requires
        possible(steps),
    ensures
        after_steps(steps).wf(),
        after_steps(steps).messages.len() <= steps.len(),
    decreases steps.len(),
{
    if steps.len() > 0 {
        let before = steps.drop_last();
        lemma_steps_keep_wf(before);
        let entry = after_steps(before);
        assert(steps[steps.len() - 1].wf());
        match steps.last() {
            SlotStep::Received(id, message) => {
                if let Message::Account(msg) = message {
                    let key = crate::message::address_key(msg.account.pubkey@);
                    if entry.latest.contains_key(key) {
                        assert(entry.points_at_image(key));
                    }
                }
                entry.lemma_received_keeps_wf(id, message);
            },
            SlotStep::Sealed(block) => {
                entry.lemma_sealed_keeps_wf(block);
            },
            SlotStep::Marked(status) => {
                entry.lemma_marked_keeps_wf(status);
            },
            SlotStep::Recorded(status) => {
                entry.lemma_recorded_keeps_wf(status);
            },
        }
    }
}

/// The newest write version that a slot knows of an account came with one of its messages.
proof fn lemma_newest_was_received(steps: Seq<SlotStep>, pubkey: Seq<u8>)
    requires
        possible(steps),
        pubkey.len() == 32,
        after_steps(steps).latest.contains_key(crate::message::address_key(pubkey)),
    ensures
        exists|j: int|
            0 <= j < steps.len() && (#[trigger] steps[j]).is_image_of(pubkey)
                && steps[j].write_version() == after_steps(
                steps,
            ).latest[crate::message::address_key(pubkey)].0,
    decreases steps.len(),
{
    let key = crate::message::address_key(pubkey);
    let before = steps.drop_last();
    let last = steps.last();
    if last.is_image_of(pubkey) && after_steps(steps).latest[key].0 == last.write_version() {
        assert(steps[steps.len() - 1].is_image_of(pubkey));
    } else {
        if let SlotStep::Received(_, Message::Account(msg)) = last {
            if crate::message::address_key(msg.account.pubkey@) == key {
                crate::message::lemma_address_key_is_injective(msg.account.pubkey@, pubkey);
            }
        }
        lemma_newest_was_received(before, pubkey);
        let j = choose|j: int|
            0 <= j < before.len() && (#[trigger] before[j]).is_image_of(pubkey)
                && before[j].write_version() == after_steps(before).latest[key].0;
        assert(steps[j] == before[j]);
    }
}

/// Of all images of an account that came in, the first with the highest write version stays.
pub proof fn lemma_newest_image_survives(steps: Seq<SlotStep>, pubkey: Seq<u8>, i: int)
    requires
        possible(steps),
        pubkey.len() == 32,
        0 <= i < steps.len(),
        steps[i].is_image_of(pubkey),
        forall|j: int|
            0 <= j < i && (#[trigger] steps[j]).is_image_of(pubkey) ==> steps[j].write_version()
                < steps[i].write_version(),
        forall|j: int|
            i < j < steps.len() && (#[trigger] steps[j]).is_image_of(pubkey)
                ==> steps[j].write_version() <= steps[i].write_version(),
    ensures
        ({
            let entry = after_steps(steps);
            let key = crate::message::address_key(pubkey);
            &&& entry.latest.contains_key(key)
            &&& entry.latest[key].0 == steps[i].write_version()
            &&& entry.latest[key].1 < entry.messages.len()
            &&& entry.messages[entry.latest[key].1 as int] == Some(steps[i].numbered())
        }),
        crate::slot_messages::survivors(after_steps(steps).messages).contains(steps[i].numbered()),
    decreases steps.len(),
{
    let key = crate::message::address_key(pubkey);
    let before = steps.drop_last();
    let entry = after_steps(before);
    let after = after_steps(steps);
    let last = steps.last();
    assert(last == steps[steps.len() - 1]);
    lemma_steps_keep_wf(before);
    lemma_steps_keep_wf(steps);
    if i == steps.len() - 1 {
        if entry.latest.contains_key(key) {
            lemma_newest_was_received(before, pubkey);
            let j = choose|j: int|
                0 <= j < before.len() && (#[trigger] before[j]).is_image_of(pubkey)
                    && before[j].write_version() == entry.latest[key].0;
            assert(steps[j] == before[j]);
            assert(entry.points_at_image(key));
        }
    } else {
        assert forall|j: int|
            i < j < before.len() && (#[trigger] before[j]).is_image_of(
                pubkey,
            ) implies before[j].write_version() <= before[i].write_version() by {
            assert(steps[j] == before[j]);
        }
        assert forall|j: int|
            0 <= j < i && (#[trigger] before[j]).is_image_of(
                pubkey,
            ) implies before[j].write_version() < before[i].write_version() by {
            assert(steps[j] == before[j]);
        }
        lemma_newest_image_survives(before, pubkey, i);
        if let SlotStep::Received(_, Message::Account(msg)) = last {
            let other = crate::message::address_key(msg.account.pubkey@);
            if other == key {
                crate::message::lemma_address_key_is_injective(msg.account.pubkey@, pubkey);
                assert(steps[steps.len() - 1].is_image_of(pubkey));
            } else if entry.latest.contains_key(other) {
                assert(entry.points_at_image(other));
                assert(entry.points_at_image(key));
            }
        }
    }
    lemma_held_survives(after.messages, after.latest[key].1 as int);
}

/// A message that was not dropped is among the survivors.
pub proof fn lemma_held_survives(messages: Seq<Option<Numbered>>, at: int)
    requires
        0 <= at < messages.len(),
        messages[at] is Some,
    ensures
        crate::slot_messages::survivors(messages).contains(messages[at]->0),
    decreases messages.len(),
{
    let before = messages.drop_last();
    let all = crate::slot_messages::survivors(messages);
    if at == messages.len() - 1 {
        assert(all.last() == messages[at]->0);
    } else {
        lemma_held_survives(before, at);
        assert(before[at] == messages[at]);
        let rest = crate::slot_messages::survivors(before);
        let k = choose|k: int| 0 <= k < rest.len() && rest[k] == messages[at]->0;
        assert(all[k] == messages[at]->0);
    }
}

/// Every survivor is a message that was not dropped.
pub proof fn lemma_survivor_is_held(messages: Seq<Option<Numbered>>, k: int) -> (at: int)
    requires
        0 <= k < crate::slot_messages::survivors(messages).len(),
    ensures
        0 <= at < messages.len(),
        messages[at] == Some(crate::slot_messages::survivors(messages)[k]),
    decreases messages.len(),
{
    let before = messages.drop_last();
    let rest = crate::slot_messages::survivors(before);
    if k < rest.len() {
        let at = lemma_survivor_is_held(before, k);
        assert(before[at] == messages[at]);
        at
    } else {
        messages.len() - 1
    }
}

/// Every account image of a slot stands in one of its messages.
proof fn lemma_image_is_held(messages: Seq<Option<Numbered>>, k: int) -> (at: int)
    requires
        0 <= k < crate::slot_messages::account_images(messages).len(),
    ensures
        0 <= at < messages.len(),
        messages[at] matches Some((_, Message::Account(msg))) && msg.account
            == crate::slot_messages::account_images(messages)[k],
    decreases messages.len(),
{
    let before = messages.drop_last();
    let rest = crate::slot_messages::account_images(before);
    if k < rest.len() {
        let at = lemma_image_is_held(before, k);
        assert(before[at] == messages[at]);
        at
    } else {
        messages.len() - 1
    }
}

/// A slot, and so its block, holds at most one image of an account.
pub proof fn lemma_one_image_per_account(entry: SlotView, i: int, j: int)
    requires
        entry.wf(),
        0 <= i < j < crate::slot_messages::account_images(entry.messages).len(),
    ensures
        crate::slot_messages::account_images(entry.messages)[i].pubkey@
            != crate::slot_messages::account_images(entry.messages)[j].pubkey@,
{
    assert(entry.messages.take(entry.messages.len() as int) =~= entry.messages);
    lemma_one_image_in_prefix(entry, entry.messages.len() as int, i, j);
}

/// The same of the first `n` messages.
proof fn lemma_one_image_in_prefix(entry: SlotView, n: int, i: int, j: int)
    requires
        entry.wf(),
        0 <= n <= entry.messages.len(),
        0 <= i < j < crate::slot_messages::account_images(entry.messages.take(n)).len(),
    ensures
        crate::slot_messages::account_images(entry.messages.take(n))[i].pubkey@
            != crate::slot_messages::account_images(entry.messages.take(n))[j].pubkey@,
    decreases n,
{
    let prefix = entry.messages.take(n);
    let images = crate::slot_messages::account_images(prefix);
    assert(n > 0);
    let before = entry.messages.take(n - 1);
    let rest = crate::slot_messages::account_images(before);
    assert(prefix.drop_last() =~= before);
    if j < rest.len() {
        lemma_one_image_in_prefix(entry, n - 1, i, j);
    } else {
        let at = lemma_image_is_held(before, i);
        assert(before[at] == entry.messages[at]);
        assert(prefix.last() == entry.messages[n - 1]);
        assert(entry.is_newest_image(at));
        assert(entry.is_newest_image(n - 1));
        assert(images[i] == rest[i]);
    }
}

/// The messages of a slot only grow in number; one that is there stays, or is dropped.
pub open spec fn grows(before: Seq<Option<Numbered>>, after: Seq<Option<Numbered>>) -> bool {
    &&& before.len() <= after.len()
    &&& forall|i: int|
        0 <= i < before.len() ==> (#[trigger] after[i] == before[i] || after[i] is None)
}

/// Whatever happens to a slot, its messages only grow in number.
pub proof fn lemma_steps_grow(steps: Seq<SlotStep>, more: Seq<SlotStep>)
    requires
        possible(steps + more),
    ensures
        grows(after_steps(steps).messages, after_steps(steps + more).messages),
    decreases more.len(),
{
    if more.len() == 0 {
        assert(steps + more =~= steps);
    } else {
        let rest = more.drop_last();
        let all = steps + more;
        assert(all.drop_last() =~= steps + rest);
        assert(all.last() == more.last());
        assert(possible(steps + rest)) by {
            assert forall|i: int| 0 <= i < (steps + rest).len() implies (#[trigger] (steps
                + rest)[i]).wf() by {
                assert((steps + rest)[i] == all[i]);
            }
        }
        lemma_steps_grow(steps, rest);
        lemma_steps_keep_wf(steps + rest);
        let first = after_steps(steps).messages;
        let entry = after_steps(steps + rest);
        let after = after_steps(all);
        if let SlotStep::Received(_, Message::Account(msg)) = more.last() {
            let key = crate::message::address_key(msg.account.pubkey@);
            if entry.latest.contains_key(key) {
                assert(entry.points_at_image(key));
            }
        }
        assert forall|i: int| 0 <= i < first.len() implies (#[trigger] after.messages[i]
            == first[i] || after.messages[i] is None) by {
            assert(entry.messages[i] == first[i] || entry.messages[i] is None);
        }
    }
}

/// A subscriber who waits for confirmed slots misses nothing, whenever the slot is confirmed:
/// what the slot holds when its block is complete was sent with the confirmation, or goes out
/// with the block. The same holds of finalized slots.
pub proof fn lemma_late_block_completes_the_batch(
    steps: Seq<SlotStep>,
    more: Seq<SlotStep>,
    at: int,
)
    requires
        possible(steps + more),
        0 <= at < after_steps(steps + more).messages.len(),
        after_steps(steps + more).messages[at] is Some,
    ensures
        ({
            let then = after_steps(steps).messages;
            let now = after_steps(steps + more).messages;
            ||| crate::slot_messages::survivors(then).contains(now[at]->0)
            ||| crate::slot_messages::survivors(now.skip(then.len() as int)).contains(now[at]->0)
        }),
{
    let then = after_steps(steps).messages;
    let now = after_steps(steps + more).messages;
    lemma_steps_grow(steps, more);
    if at < then.len() {
        assert(now[at] == then[at]);
        lemma_held_survives(then, at);
    } else {
        let since = now.skip(then.len() as int);
        assert(since[at - then.len()] == now[at]);
        lemma_held_survives(since, at - then.len());
    }
}

} // verus!
