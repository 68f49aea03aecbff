//! How numbers are minted, written down and measured, and under which labels things are counted.
use crate::client::DisconnectReason;
use crate::invalid::{FailureReason, InvalidBlock, MessageKind};
use crate::latency::BatchStart;
use crate::message::Message;
use crate::message_id::MessageId;
use vstd::prelude::*;

verus! {

/// The value of a decimal digit.
pub open spec fn digit_value(c: char) -> int {
    c as int - '0' as int
}

/// The text is made of decimal digits.
pub open spec fn is_decimal(text: Seq<char>) -> bool {
    &&& text.len() > 0
    &&& forall|i: int| 0 <= i < text.len() ==> 0 <= digit_value(#[trigger] text[i]) <= 9
}

/// The number that decimal digits stand for.
pub open spec fn read_decimal(text: Seq<char>) -> int
    decreases text.len(),
{
    if text.len() == 0 {
        0
    } else {
        10 * read_decimal(text.drop_last()) + digit_value(text.last())
    }
}

/// The text of one digit reads as the digit.
proof fn lemma_digit(d: nat)
    requires
        d < 10,
    ensures
        crate::text::digit(d).len() == 1,
        digit_value(crate::text::digit(d)[0]) == d,
{
    reveal_strlit("0");
    reveal_strlit("1");
    reveal_strlit("2");
    reveal_strlit("3");
    reveal_strlit("4");
    reveal_strlit("5");
    reveal_strlit("6");
    reveal_strlit("7");
    reveal_strlit("8");
    reveal_strlit("9");
}

/// A number in decimal reads as the number, and has no leading zero.
proof fn lemma_decimal_is_read(n: nat)
    ensures
        is_decimal(crate::text::decimal(n)),
        read_decimal(crate::text::decimal(n)) == n,
        n > 0 ==> digit_value(crate::text::decimal(n)[0]) > 0,
        n == 0 ==> crate::text::decimal(n).len() == 1,
    decreases n,
{
    reveal_with_fuel(read_decimal, 2);
    let text = crate::text::decimal(n);
    if n < 10 {
        lemma_digit(n);
        assert(text.drop_last() =~= Seq::empty());
    } else {
        lemma_decimal_is_read(n / 10);
        lemma_digit(n % 10);
        let before = crate::text::decimal(n / 10);
        assert(text.drop_last() =~= before);
        assert forall|i: int| 0 <= i < text.len() implies 0 <= digit_value(#[trigger] text[i])
            <= 9 by {
            if i < before.len() {
                assert(text[i] == before[i]);
            }
        }
        assert(text[0] == before[0]);
    }
}

/// A number is appended as decimal digits that read as the number, without a leading zero; a
/// sign comes before them exactly where it is negative.
pub proof fn lemma_numbers_are_written_down()
    ensures
        forall|out: &mut String, n: u64| #[trigger]
            call_ensures(crate::text::push_decimal, (out, n), ()) ==> {
                let start = (*out)@.len() as int;
                let text = final(out)@.skip(start);
                &&& start < final(out)@.len()
                &&& final(out)@.take(start) == (*out)@
                &&& is_decimal(text)
                &&& read_decimal(text) == n
                &&& text.len() > 1 ==> digit_value(text[0]) > 0
            },
        forall|out: &mut String, n: i32| #[trigger]
            call_ensures(crate::text::push_signed, (out, n), ()) ==> {
                let start = (*out)@.len() as int;
                let text = final(out)@.skip(start);
                let digits = if n < 0 {
                    text.drop_first()
                } else {
                    text
                };
                &&& start < final(out)@.len()
                &&& final(out)@.take(start) == (*out)@
                &&& n < 0 ==> text[0] == '-'
                &&& is_decimal(digits)
                &&& read_decimal(digits) == if n < 0 {
                    -n
                } else {
                    n as int
                }
                &&& digits.len() > 1 ==> digit_value(digits[0]) > 0
            },
{
    assert forall|out: &mut String, n: u64| #[trigger]
        call_ensures(crate::text::push_decimal, (out, n), ()) implies ({
        let start = (*out)@.len() as int;
        let text = final(out)@.skip(start);
        &&& start < final(out)@.len()
        &&& final(out)@.take(start) == (*out)@
        &&& is_decimal(text)
        &&& read_decimal(text) == n
        &&& text.len() > 1 ==> digit_value(text[0]) > 0
    }) by {
        let start = (*out)@.len() as int;
        lemma_decimal_is_read(n as nat);
        assert(final(out)@.skip(start) =~= crate::text::decimal(n as nat));
        assert(final(out)@.take(start) =~= (*out)@);
    }
    assert forall|out: &mut String, n: i32| #[trigger]
        call_ensures(crate::text::push_signed, (out, n), ()) implies ({
        let start = (*out)@.len() as int;
        let text = final(out)@.skip(start);
        let digits = if n < 0 {
            text.drop_first()
        } else {
            text
        };
        &&& start < final(out)@.len()
        &&& final(out)@.take(start) == (*out)@
        &&& n < 0 ==> text[0] == '-'
        &&& is_decimal(digits)
        &&& read_decimal(digits) == if n < 0 {
            -n
        } else {
            n as int
        }
        &&& digits.len() > 1 ==> digit_value(digits[0]) > 0
    }) by {
        let start = (*out)@.len() as int;
        let text = final(out)@.skip(start);
        assert(final(out)@.take(start) =~= (*out)@);
        if n < 0 {
            reveal_strlit("-");
            lemma_decimal_is_read((-n) as nat);
            assert(text.drop_first() =~= crate::text::decimal((-n) as nat));
        } else {
            lemma_decimal_is_read(n as nat);
            assert(text =~= crate::text::decimal(n as nat));
        }
    }
}

/// `latency` is how many whole microseconds lie between two moments; none do, where the second
/// comes first.
pub open spec fn lies_between(start: u128, now: u128, latency: u128) -> bool {
    if start <= now {
        1000 * latency <= now - start < 1000 * (latency + 1)
    } else {
        latency == 0
    }
}

/// A batch is measured from its first message to its broadcast, in whole microseconds, and the
/// next batch starts anew.
pub proof fn lemma_batches_are_measured()
    ensures
        forall|start: &mut BatchStart, now: u128| #[trigger]
            call_ensures(crate::latency::on_message_received, (start, now), ()) ==> final(start).at
                == match (*start).at {
                None => Some(now),
                first => first,
            },
        forall|start: &mut BatchStart, now: u128, latency: Option<u128>| #[trigger]
            call_ensures(crate::latency::on_batch_dispatched, (start, now), latency) ==> {
                &&& final(start).at is None
                &&& match (*start).at {
                    Some(first) => latency matches Some(latency) && lies_between(
                        first,
                        now,
                        latency,
                    ),
                    None => latency is None,
                }
            },
        forall|start: &mut BatchStart, first: Option<u128>| #[trigger]
            call_ensures(crate::latency::take_batch_start, (start,), first) ==> first == (
            *start).at && final(start).at is None,
        forall|first: u128, now: u128, latency: u128| #[trigger]
            call_ensures(crate::latency::on_batch_dispatched_from, (first, now), latency)
                ==> lies_between(first, now, latency),
        forall|start: BatchStart| #[trigger]
            call_ensures(BatchStart::new, (), start) ==> start.at is None,
{
}

/// One of the powers of ten up to ten thousand.
pub open spec fn is_power_of_ten(n: int) -> bool {
    n == 1 || n == 10 || n == 100 || n == 1_000 || n == 10_000
}

/// The classes of latencies rise, from a microsecond to ten milliseconds. Their bounds are the
/// powers of ten, their halves and their quarters, as far as those are whole.
pub proof fn lemma_latency_classes_rise(bounds: Vec<u64>, bound: u64)
    requires
        call_ensures(crate::latency::latency_buckets, (), bounds),
    ensures
        forall|i: int, j: int|
            0 <= i < j < bounds@.len() ==> #[trigger] bounds@[i] < #[trigger] bounds@[j],
        bounds@.contains(bound) <==> is_power_of_ten(bound as int) || is_power_of_ten(2 * bound)
            || is_power_of_ten(4 * bound),
{
    assert(bounds@[0] == 1 && bounds@[1] == 5 && bounds@[2] == 10 && bounds@[3] == 25);
    assert(bounds@[4] == 50 && bounds@[5] == 100 && bounds@[6] == 250 && bounds@[7] == 500);
    assert(bounds@[8] == 1_000 && bounds@[9] == 2_500 && bounds@[10] == 5_000);
    assert(bounds@[11] == 10_000);
}

/// Numbers are minted one after the other from one on, and numbers that are set aside for
/// another user are minted by nobody else: those from one above the last up to as many as were
/// asked for. They are refused only where there are not as many left.
pub proof fn lemma_numbers_are_minted()
    ensures
        forall|fresh: MessageId| #[trigger]
            call_ensures(MessageId::new, (), fresh) ==> fresh.last() == 0,
        forall|source: &mut MessageId, id: u64| #[trigger]
            call_ensures(MessageId::next, (source,), id) ==> {
                &&& id == (*source).last() + 1
                &&& final(source).last() == id
            },
        forall|source: &MessageId, id: u64| #[trigger]
            call_ensures(MessageId::last_id, (source,), id) ==> id == source.last(),
        forall|source: &mut MessageId, count: u128, reserved: Option<MessageId>| #[trigger]
            call_ensures(MessageId::reserve, (source, count), reserved) ==> match reserved {
                Some(other) => {
                    &&& other.last() == (*source).last()
                    &&& final(source).last() - other.last() == count
                },
                None => {
                    &&& u64::MAX - (*source).last() < count
                    &&& final(source).last() == (*source).last()
                },
            },
{
}

/// A disconnect is counted under a label of its own.
pub proof fn lemma_disconnects_are_labelled(reason: DisconnectReason, label: &'static str)
    requires
        call_ensures(DisconnectReason::label, (reason,), label),
    ensures
        reason is Unknown ==> label@ == "unknown"@,
        reason is ServerShutdown ==> label@ == "server_shutdown"@,
        reason is ClientClosed ==> label@ == "client_closed"@,
        reason is FromSlotUnsupported ==> label@ == "from_slot_unsupported"@,
        reason is ReplayError ==> label@ == "replay_error"@,
        reason is SlotUnavailable ==> label@ == "slot_unavailable"@,
        reason is ClientDisconnect ==> label@ == "client_disconnect"@,
        reason is BroadcastClosed ==> label@ == "broadcast_closed"@,
        reason is ClientBroadcastLag ==> label@ == "client_broadcast_lag"@,
        reason is ClientChannelFull ==> label@ == "client_channel_full"@,
{
}

/// A finding is counted under a label that says what it is: for a message that came too late,
/// what it was about; for a block that could not be put together, what was missing or
/// miscounted.
pub proof fn lemma_findings_are_labelled(finding: &InvalidBlock, label: String)
    requires
        call_ensures(InvalidBlock::reason, (finding,), label),
    ensures
        finding is DuplicateBlockMeta ==> label@ == "unexpected message: BlockMeta (duplicate)"@,
        finding matches InvalidBlock::UnexpectedMessage(kind) ==> label@ == "unexpected message "@
            + match *kind {
            MessageKind::Slot => "Slot"@,
            MessageKind::Account => "Account"@,
            MessageKind::Transaction => "Transaction"@,
            MessageKind::Entry => "Entry"@,
            MessageKind::BlockMeta => "BlockMeta"@,
            MessageKind::Block => "Block"@,
        },
        finding matches InvalidBlock::FailedReconstruct { slot, reason } ==> label@
            == "failed reconstruct "@ + match *reason {
            FailureReason::NoBlockMeta => "NoBlockMeta"@,
            FailureReason::InvalidCounts { transactions, entries } => if transactions is Some
                && entries is Some {
                "InvalidTxnCount,InvalidEntriesCount"@
            } else if transactions is Some {
                "InvalidTxnCount"@
            } else if entries is Some {
                "InvalidEntriesCount"@
            } else {
                ""@
            },
        },
{
}

/// A message is about one slot, and of one kind.
pub proof fn lemma_messages_are_told_apart(message: &Message, kind: MessageKind, slot: u64)
    requires
        call_ensures(Message::get_kind, (message,), kind),
        call_ensures(Message::get_slot, (message,), slot),
    ensures
        kind == crate::state_laws::kind_of(*message),
        slot == crate::arrivals::slot_of(*message),
{
}

} // verus!
