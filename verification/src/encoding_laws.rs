//! What encoding does, seen by a reader of the encoded forms.
use crate::decoding::{Field, FieldValue};
use crate::encoder::{AccountEncoder, TransactionEncoder};
use crate::message::{Message, MessageAccountInfo, MessageTransactionInfo, Numbered};
use crate::parallel::{ParallelEncoder, PoolError};
use bytes::Bytes;
use vstd::prelude::*;

verus! {

/// Two images say the same, field by field; only the encoded forms may differ.
pub open spec fn same_image(a: MessageAccountInfo, b: MessageAccountInfo) -> bool {
    &&& a.pubkey.bytes@ == b.pubkey.bytes@
    &&& a.lamports == b.lamports
    &&& a.owner.bytes@ == b.owner.bytes@
    &&& a.executable == b.executable
    &&& a.rent_epoch == b.rent_epoch
    &&& crate::buffer::bytes_content(a.data) == crate::buffer::bytes_content(b.data)
    &&& a.write_version == b.write_version
    &&& match (a.txn_signature, b.txn_signature) {
        (Some(one), Some(other)) => one@ == other@,
        (None, None) => true,
        _ => false,
    }
}

/// Two transactions say the same, field by field; only the encoded forms may differ.
pub open spec fn same_transaction(a: MessageTransactionInfo, b: MessageTransactionInfo) -> bool {
    &&& a.signature@ == b.signature@
    &&& a.is_vote == b.is_vote
    &&& crate::buffer::bytes_content(a.transaction) == crate::buffer::bytes_content(b.transaction)
    &&& crate::buffer::bytes_content(a.meta) == crate::buffer::bytes_content(b.meta)
    &&& a.index == b.index
    &&& a.account_keys == b.account_keys
}

/// Two messages say the same; only the encoded forms that they carry may differ.
pub open spec fn same_update(a: Message, b: Message) -> bool {
    match (a, b) {
        (Message::Account(one), Message::Account(other)) => {
            &&& same_image(*one.account, *other.account)
            &&& one.slot == other.slot
            &&& one.is_startup == other.is_startup
            &&& one.created_at == other.created_at
        },
        (Message::Transaction(one), Message::Transaction(other)) => {
            &&& same_transaction(*one.transaction, *other.transaction)
            &&& one.slot == other.slot
            &&& one.created_at == other.created_at
        },
        _ => a == b,
    }
}

/// Two sequences of messages say the same under the same numbers.
pub open spec fn same_updates(a: Seq<Numbered>, b: Seq<Numbered>) -> bool {
    &&& a.len() == b.len()
    &&& forall|i: int|
        #![trigger a[i]]
        #![trigger b[i]]
        0 <= i < a.len() ==> a[i].0 == b[i].0 && same_update(a[i].1, b[i].1)
}

/// The encoded form that a message carries.
pub open spec fn carried(message: Message) -> Option<Bytes> {
    match message {
        Message::Account(msg) => msg.account.pre_encoded,
        Message::Transaction(msg) => msg.transaction.pre_encoded,
        _ => None,
    }
}

/// Under a tag stands a number that is not zero, or nothing.
pub open spec fn holds_number(fields: Seq<Field>, tag: nat, number: nat) -> bool {
    crate::decoding::value_of(fields, tag) == if number == 0 {
        None
    } else {
        Some(FieldValue::Number(number))
    }
}

/// Under a tag stand these bytes.
pub open spec fn holds_bytes(fields: Seq<Field>, tag: nat, bytes: Seq<u8>) -> bool {
    crate::decoding::value_of(fields, tag) == Some(FieldValue::Content(bytes))
}

/// Under a tag stands nothing.
pub open spec fn holds_nothing(fields: Seq<Field>, tag: nat) -> bool {
    crate::decoding::value_of(fields, tag) is None
}

/// The bytes read as an image of an account.
pub open spec fn reads_as_image(bytes: Seq<u8>, image: MessageAccountInfo) -> bool {
    &&& crate::decoding::read_fields(bytes) matches Some(fields)
    &&& holds_bytes(fields, 1, image.pubkey.bytes@)
    &&& holds_number(fields, 2, image.lamports as nat)
    &&& holds_bytes(fields, 3, image.owner.bytes@)
    &&& holds_number(
        fields,
        4,
        if image.executable {
            1
        } else {
            0
        },
    )
    &&& holds_number(fields, 5, image.rent_epoch as nat)
    &&& if crate::buffer::bytes_content(image.data).len() == 0 {
        holds_nothing(fields, 6)
    } else {
        holds_bytes(fields, 6, crate::buffer::bytes_content(image.data))
    }
    &&& holds_number(fields, 7, image.write_version as nat)
    &&& match image.txn_signature {
        Some(signature) => holds_bytes(fields, 8, signature@),
        None => holds_nothing(fields, 8),
    }
    &&& forall|tag: nat| tag == 0 || tag > 8 ==> #[trigger] holds_nothing(fields, tag)
}

/// The bytes read as a transaction.
pub open spec fn reads_as_transaction(bytes: Seq<u8>, tx: MessageTransactionInfo) -> bool {
    &&& crate::decoding::read_fields(bytes) matches Some(fields)
    &&& holds_bytes(fields, 1, tx.signature@)
    &&& holds_number(
        fields,
        2,
        if tx.is_vote {
            1
        } else {
            0
        },
    )
    &&& holds_bytes(fields, 3, crate::buffer::bytes_content(tx.transaction))
    &&& holds_bytes(fields, 4, crate::buffer::bytes_content(tx.meta))
    &&& holds_number(fields, 5, tx.index as nat)
    &&& forall|tag: nat| tag == 0 || tag > 5 ==> #[trigger] holds_nothing(fields, tag)
}

/// The encoded form of an image reads as the image.
proof fn lemma_image_is_read(image: &MessageAccountInfo)
    ensures
        reads_as_image(image@.wire(), *image),
{
    image@.lemma_decodes();
}

/// The encoded form of a transaction reads as the transaction.
proof fn lemma_transaction_is_read(tx: &MessageTransactionInfo)
    ensures
        reads_as_transaction(tx@.wire(), *tx),
{
    tx@.lemma_decodes();
}

/// A field takes at most twenty bytes besides its content, and one that holds a number at most
/// as many.
proof fn lemma_field_room(tag: nat, number: nat, content: Seq<u8>)
    requires
        tag <= 8,
        number <= u64::MAX,
        content.len() <= u64::MAX,
    ensures
        crate::wire::number_field(tag, number).len() <= 20,
        crate::wire::bytes_field(tag, content).len() <= 20 + content.len(),
{
    crate::wire::lemma_varint_len(tag * 8);
    crate::wire::lemma_varint_len(tag * 8 + 2);
    crate::wire::lemma_varint_len(number);
    crate::wire::lemma_varint_len(content.len());
}

/// An image whose data leaves some room has an encoded form that fits in memory.
proof fn lemma_image_fits(image: &MessageAccountInfo)
    requires
        crate::buffer::bytes_content(image.data).len() + 300 <= usize::MAX,
    ensures
        image@.wire().len() <= usize::MAX,
{
    let data = crate::buffer::bytes_content(image.data);
    lemma_field_room(1, 0, image.pubkey.bytes@);
    lemma_field_room(2, image.lamports as nat, data);
    lemma_field_room(3, 0, image.owner.bytes@);
    lemma_field_room(4, 1, data);
    lemma_field_room(5, image.rent_epoch as nat, data);
    lemma_field_room(6, 0, data);
    lemma_field_room(7, image.write_version as nat, data);
    if let Some(signature) = image.txn_signature {
        lemma_field_room(8, 0, signature@);
    }
}

/// A transaction whose parts leave some room has an encoded form that fits in memory.
proof fn lemma_transaction_fits(tx: &MessageTransactionInfo)
    requires
        crate::buffer::bytes_content(tx.transaction).len() + crate::buffer::bytes_content(
            tx.meta,
        ).len() + 300 <= usize::MAX,
    ensures
        tx@.wire().len() <= usize::MAX,
{
    let transaction = crate::buffer::bytes_content(tx.transaction);
    let meta = crate::buffer::bytes_content(tx.meta);
    lemma_field_room(1, 0, tx.signature@);
    lemma_field_room(2, 1, meta);
    lemma_field_room(3, 0, transaction);
    lemma_field_room(4, 0, meta);
    lemma_field_room(5, tx.index as nat, meta);
}

/// The message has an encoded form, and its parts leave room enough for it in memory.
pub open spec fn has_room(message: Message) -> bool {
    match message {
        Message::Account(msg) => crate::buffer::bytes_content(msg.account.data).len() + 300
            <= usize::MAX,
        Message::Transaction(msg) => crate::buffer::bytes_content(
            msg.transaction.transaction,
        ).len() + crate::buffer::bytes_content(msg.transaction.meta).len() + 300 <= usize::MAX,
        _ => false,
    }
}

/// The bytes read as what the message says.
pub open spec fn reads_as(bytes: Seq<u8>, message: Message) -> bool {
    match message {
        Message::Account(msg) => reads_as_image(bytes, *msg.account),
        Message::Transaction(msg) => reads_as_transaction(bytes, *msg.transaction),
        _ => false,
    }
}

/// `after` is `before` once it was encoded: it says the same, a form that was carried is kept,
/// one that is carried now for the first time reads as what the message says, and one is carried
/// wherever there is room for it.
pub open spec fn comes_out_encoded(before: Message, after: Message) -> bool {
    &&& same_update(before, after)
    &&& carried(before) is Some ==> after == before
    &&& carried(before) is None ==> match carried(after) {
        Some(form) => reads_as(crate::buffer::bytes_content(form), before),
        None => after == before && !has_room(before),
    }
}

/// What the contracts say of an encoded message is what a reader of it sees.
pub(crate) proof fn lemma_comes_out_encoded(before: Message, after: Message)
    requires
        before.encoded_as(after),
    ensures
        comes_out_encoded(before, after),
{
    if before is Account {
        lemma_image_is_read(&*before->Account_0.account);
        if has_room(before) {
            lemma_image_fits(&*before->Account_0.account);
        }
    }
    if before is Transaction {
        lemma_transaction_is_read(&*before->Transaction_0.transaction);
        if has_room(before) {
            lemma_transaction_fits(&*before->Transaction_0.transaction);
        }
    }
}

/// A message that is encoded says what it said, keeps the form that it carried, or gets one that
/// reads as what it says wherever there is room for it.
pub proof fn lemma_message_is_encoded()
    ensures
        forall|message: &mut Message| #[trigger]
            call_ensures(crate::encoder::encode_message, (message,), ()) ==> comes_out_encoded(
                *message,
                *final(message),
            ),
{
    assert forall|message: &mut Message| #[trigger]
        call_ensures(
            crate::encoder::encode_message,
            (message,),
            (),
        ) implies comes_out_encoded(*message, *final(message)) by {
        lemma_comes_out_encoded(*message, *final(message));
    }
}

/// The same of a batch: every message is encoded, in its place and under its number.
pub proof fn lemma_batch_is_encoded()
    ensures
        forall|batch: &mut Vec<Numbered>| #[trigger]
            call_ensures(crate::encoder::encode_messages, (batch,), ()) ==> {
                &&& final(batch)@.len() == batch@.len()
                &&& forall|i: int|
                    0 <= i < batch@.len() ==> {
                        &&& (#[trigger] final(batch)@[i]).0 == batch@[i].0
                        &&& comes_out_encoded(batch@[i].1, final(batch)@[i].1)
                    }
            },
{
    assert forall|batch: &mut Vec<Numbered>, i: int| #[trigger]
        call_ensures(crate::encoder::encode_messages, (batch,), ()) && 0 <= i
            < batch@.len() implies (#[trigger] final(batch)@[i]).0 == batch@[i].0
        && comes_out_encoded(batch@[i].1, final(batch)@[i].1) by {
        lemma_comes_out_encoded(batch@[i].1, final(batch)@[i].1);
    }
}

/// The same of the encoder with worker threads, however many it has.
pub proof fn lemma_parallel_batch_is_encoded()
    ensures
        forall|encoder: &ParallelEncoder, batch: &mut Vec<Message>| #[trigger]
            call_ensures(ParallelEncoder::encode_blocking, (encoder, batch), ()) ==> {
                &&& final(batch)@.len() == batch@.len()
                &&& forall|i: int|
                    0 <= i < batch@.len() ==> comes_out_encoded(
                        batch@[i],
                        #[trigger] final(batch)@[i],
                    )
            },
{
    assert forall|encoder: &ParallelEncoder, batch: &mut Vec<Message>, i: int| #[trigger]
        call_ensures(ParallelEncoder::encode_blocking, (encoder, batch), ()) && 0 <= i
            < batch@.len() implies comes_out_encoded(batch@[i], #[trigger] final(batch)@[i]) by {
        lemma_comes_out_encoded(batch@[i], final(batch)@[i]);
    }
}

/// An encoder that starts has a worker thread at least, and as many as were asked for where
/// that is a number from one to 255.
pub proof fn lemma_threads_are_started(
    wanted: usize,
    made: Result<ParallelEncoder, PoolError>,
    encoder: ParallelEncoder,
    count: usize,
)
    requires
        call_ensures(ParallelEncoder::new, (wanted,), made),
        made == Ok::<ParallelEncoder, PoolError>(encoder),
        call_ensures(ParallelEncoder::num_threads, (&encoder,), count),
    ensures
        count >= 1,
        1 <= wanted <= 255 ==> count == wanted,
{
}

/// An image that is given its encoded form says what it said, and the form reads as the image
/// and has the length that is announced; a form that it carried is kept.
pub proof fn lemma_image_is_encoded()
    ensures
        forall|image: &mut MessageAccountInfo, len: usize|
            #[trigger] call_ensures(AccountEncoder::pre_encode, (image,), ())
                && #[trigger] call_ensures(AccountEncoder::encoded_len, (&*image,), len) ==> {
                &&& same_image(*image, *final(image))
                &&& image.pre_encoded is Some ==> *final(image) == *image
                &&& image.pre_encoded is None ==> {
                    &&& final(image).pre_encoded matches Some(form)
                    &&& reads_as_image(crate::buffer::bytes_content(form), *image)
                    &&& crate::buffer::bytes_content(form).len() == len
                }
            },
{
    assert forall|image: &mut MessageAccountInfo, len: usize|
        #[trigger] call_ensures(AccountEncoder::pre_encode, (image,), ())
            && #[trigger] call_ensures(AccountEncoder::encoded_len, (&*image,), len) implies ({
        &&& same_image(*image, *final(image))
        &&& image.pre_encoded is Some ==> *final(image) == *image
        &&& image.pre_encoded is None ==> {
            &&& final(image).pre_encoded matches Some(form)
            &&& reads_as_image(crate::buffer::bytes_content(form), *image)
            &&& crate::buffer::bytes_content(form).len() == len
        }
    }) by {
        lemma_image_is_read(&*image);
        assert(final(image)@ == image@);
    }
}

/// The same of a transaction; and the form that is appended to a buffer reads as the
/// transaction too.
pub proof fn lemma_transaction_is_encoded()
    ensures
        forall|tx: &mut MessageTransactionInfo, len: usize|
            #[trigger] call_ensures(TransactionEncoder::pre_encode, (tx,), ())
                && #[trigger] call_ensures(TransactionEncoder::encoded_len, (&*tx,), len) ==> {
                &&& same_transaction(*tx, *final(tx))
                &&& tx.pre_encoded is Some ==> *final(tx) == *tx
                &&& tx.pre_encoded is None ==> {
                    &&& final(tx).pre_encoded matches Some(form)
                    &&& reads_as_transaction(crate::buffer::bytes_content(form), *tx)
                    &&& crate::buffer::bytes_content(form).len() == len
                }
            },
        forall|tx: &MessageTransactionInfo, buf: &mut Vec<u8>| #[trigger]
            call_ensures(TransactionEncoder::encode_raw, (tx, buf), ()) ==> {
                let start = buf@.len() as int;
                &&& start <= final(buf)@.len()
                &&& final(buf)@.take(start) == buf@
                &&& reads_as_transaction(final(buf)@.skip(start), *tx)
            },
{
    assert forall|tx: &mut MessageTransactionInfo, len: usize|
        #[trigger] call_ensures(TransactionEncoder::pre_encode, (tx,), ())
            && #[trigger] call_ensures(TransactionEncoder::encoded_len, (&*tx,), len) implies ({
        &&& same_transaction(*tx, *final(tx))
        &&& tx.pre_encoded is Some ==> *final(tx) == *tx
        &&& tx.pre_encoded is None ==> {
            &&& final(tx).pre_encoded matches Some(form)
            &&& reads_as_transaction(crate::buffer::bytes_content(form), *tx)
            &&& crate::buffer::bytes_content(form).len() == len
        }
    }) by {
        lemma_transaction_is_read(&*tx);
        assert(final(tx)@ == tx@);
    }
    assert forall|tx: &MessageTransactionInfo, buf: &mut Vec<u8>| #[trigger]
        call_ensures(TransactionEncoder::encode_raw, (tx, buf), ()) implies ({
        let start = buf@.len() as int;
        &&& start <= final(buf)@.len()
        &&& final(buf)@.take(start) == buf@
        &&& reads_as_transaction(final(buf)@.skip(start), *tx)
    }) by {
        let start = buf@.len() as int;
        lemma_transaction_is_read(&*tx);
        assert(final(buf)@.take(start) =~= buf@);
        assert(final(buf)@.skip(start) =~= tx@.wire());
    }
}

/// The length that is announced where it may not fit in memory is the one that is announced
/// where it does, and it is announced wherever there is room.
pub proof fn lemma_checked_lengths(
    image: &MessageAccountInfo,
    image_len: Option<usize>,
    exact_image_len: usize,
    tx: &MessageTransactionInfo,
    tx_len: Option<usize>,
    exact_tx_len: usize,
)
    requires
        call_ensures(AccountEncoder::checked_len, (image,), image_len),
        call_ensures(AccountEncoder::encoded_len, (image,), exact_image_len),
        call_ensures(TransactionEncoder::checked_len, (tx,), tx_len),
        call_ensures(TransactionEncoder::encoded_len, (tx,), exact_tx_len),
    ensures
        image_len matches Some(len) ==> len == exact_image_len,
        tx_len matches Some(len) ==> len == exact_tx_len,
        crate::buffer::bytes_content(image.data).len() + 300 <= usize::MAX ==> image_len is Some,
        crate::buffer::bytes_content(tx.transaction).len() + crate::buffer::bytes_content(
            tx.meta,
        ).len() + 300 <= usize::MAX ==> tx_len is Some,
{
    if crate::buffer::bytes_content(image.data).len() + 300 <= usize::MAX {
        lemma_image_fits(&*image);
    }
    if crate::buffer::bytes_content(tx.transaction).len() + crate::buffer::bytes_content(
        tx.meta,
    ).len() + 300 <= usize::MAX {
        lemma_transaction_fits(&*tx);
    }
}

/// A field that is appended is read back, and takes as many bytes as is announced.
pub proof fn lemma_field_is_appended()
    ensures
        forall|tag: u32, value: &[u8], buf: &mut Vec<u8>, len: usize|
            #[trigger] call_ensures(crate::wire::prost_bytes_encode_raw, (tag, value, buf), ())
                && #[trigger] call_ensures(
                crate::wire::prost_bytes_encoded_len,
                (tag, value),
                len,
            ) ==> {
                let start = buf@.len() as int;
                &&& final(buf)@.len() == start + len
                &&& final(buf)@.take(start) == buf@
                &&& crate::decoding::read_field(final(buf)@.skip(start)) == Some(
                    (
                        Field { tag: tag as nat, value: FieldValue::Content(value@) },
                        len as nat,
                    ),
                )
            },
{
    assert forall|tag: u32, value: &[u8], buf: &mut Vec<u8>, len: usize|
        #[trigger] call_ensures(crate::wire::prost_bytes_encode_raw, (tag, value, buf), ())
            && #[trigger] call_ensures(
            crate::wire::prost_bytes_encoded_len,
            (tag, value),
            len,
        ) implies ({
        let start = buf@.len() as int;
        &&& final(buf)@.len() == start + len
        &&& final(buf)@.take(start) == buf@
        &&& crate::decoding::read_field(final(buf)@.skip(start)) == Some(
            (Field { tag: tag as nat, value: FieldValue::Content(value@) }, len as nat),
        )
    }) by {
        let start = buf@.len() as int;
        let field = Field { tag: tag as nat, value: FieldValue::Content(value@) };
        crate::decoding::lemma_field_is_read_back(field, Seq::empty());
        assert(final(buf)@.take(start) =~= buf@);
        assert(final(buf)@.skip(start) =~= field.wire() + Seq::<u8>::empty());
    }
}

/// A length is announced in full also where it does not fit in memory, and narrowed exactly
/// where it does.
pub proof fn lemma_lengths_are_narrowed(
    tag: u32,
    value: &[u8],
    wide: u128,
    exact: usize,
    narrowed: Option<usize>,
)
    requires
        call_ensures(crate::wire::wide_bytes_len, (tag, value), wide),
        call_ensures(crate::wire::prost_bytes_encoded_len, (tag, value), exact),
        call_ensures(crate::wire::narrow, (wide,), narrowed),
    ensures
        wide == exact,
        narrowed == Some(exact),
        forall|len: u128, other: Option<usize>| #[trigger]
            call_ensures(crate::wire::narrow, (len,), other) ==> match other {
                Some(fitting) => fitting == len,
                None => len > usize::MAX,
            },
{
}

} // verus!
