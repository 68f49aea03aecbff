//! How a reader takes encoded updates apart: what goes out decodes to what was put in.
use crate::content::{AccountContent, TransactionContent};
use vstd::prelude::*;

verus! {

/// What a field of a protobuf message holds.
pub enum FieldValue {
    Number(nat),
    Content(Seq<u8>),
}

/// A field of a protobuf message.
pub struct Field {
    pub tag: nat,
    pub value: FieldValue,
}

impl Field {
    /// The field as it is written.
    pub open spec fn wire(self) -> Seq<u8> {
        match self.value {
            FieldValue::Number(value) => crate::wire::number_field(self.tag, value),
            FieldValue::Content(content) => crate::wire::bytes_field(self.tag, content),
        }
    }
}

/// The number in base 128 that the bytes begin with, and how many bytes it takes: up to the
/// first byte without its high bit.
pub open spec fn read_varint(bytes: Seq<u8>) -> Option<(nat, nat)>
    decreases bytes.len(),
{
    if bytes.len() == 0 {
        None
    } else if bytes[0] < 128 {
        Some((bytes[0] as nat, 1))
    } else {
        match read_varint(bytes.drop_first()) {
            Some((rest, len)) => Some(((bytes[0] - 128) as nat + 128 * rest, 1 + len)),
            None => None,
        }
    }
}

/// The field that the bytes begin with, and how many bytes it takes. The key of a field is its
/// tag, shifted by three bits, and the kind of value that follows.
pub open spec fn read_field(bytes: Seq<u8>) -> Option<(Field, nat)> {
    match read_varint(bytes) {
        Some((key, key_len)) => match read_varint(bytes.skip(key_len as int)) {
            Some((number, len)) => if key % 8 == 0 {
                Some((Field { tag: key / 8, value: FieldValue::Number(number) }, key_len + len))
            } else if key % 8 == 2 && key_len + len + number <= bytes.len() {
                let start = (key_len + len) as int;
                let content = bytes.subrange(start, start + number);
                Some(
                    (
                        Field { tag: key / 8, value: FieldValue::Content(content) },
                        key_len + len + number,
                    ),
                )
            } else {
                None
            },
            None => None,
        },
        None => None,
    }
}

/// The fields that the bytes are made of.
pub open spec fn read_fields(bytes: Seq<u8>) -> Option<Seq<Field>>
    decreases bytes.len(),
{
    if bytes.len() == 0 {
        Some(Seq::empty())
    } else {
        match read_field(bytes) {
            Some((field, len)) => if 0 < len <= bytes.len() {
                match read_fields(bytes.skip(len as int)) {
                    Some(rest) => Some(seq![field] + rest),
                    None => None,
                }
            } else {
                None
            },
            None => None,
        }
    }
}

/// What a message holds under a tag: the last field with that tag counts.
pub open spec fn value_of(fields: Seq<Field>, tag: nat) -> Option<FieldValue>
    decreases fields.len(),
{
    if fields.len() == 0 {
        None
    } else if fields.last().tag == tag {
        Some(fields.last().value)
    } else {
        value_of(fields.drop_last(), tag)
    }
}

/// The bytes of several fields.
pub open spec fn wire_of(fields: Seq<Field>) -> Seq<u8>
    decreases fields.len(),
{
    if fields.len() == 0 {
        Seq::empty()
    } else {
        fields[0].wire() + wire_of(fields.drop_first())
    }
}

/// A number is read back as it was written, whatever follows it.
pub proof fn lemma_number_is_read_back(n: nat, rest: Seq<u8>)
    ensures
        read_varint(crate::wire::varint(n) + rest) == Some((n, crate::wire::varint(n).len())),
        crate::wire::varint(n).len() > 0,
    decreases n,
{
    let all = crate::wire::varint(n) + rest;
    if n >= 128 {
        let higher = n / 128;
        lemma_number_is_read_back(higher, rest);
        assert(all.drop_first() =~= crate::wire::varint(higher) + rest);
        assert(all[0] == (n % 128 + 128) as u8);
        assert(n == n % 128 + 128 * higher);
    }
}

/// A field that holds a number is read back as it was written, whatever follows it.
proof fn lemma_number_field_is_read_back(tag: nat, value: nat, rest: Seq<u8>)
    ensures
        read_field(crate::wire::number_field(tag, value) + rest) == Some(
            (
                Field { tag, value: FieldValue::Number(value) },
                crate::wire::number_field(tag, value).len(),
            ),
        ),
        crate::wire::number_field(tag, value).len() > 0,
{
    let all = crate::wire::number_field(tag, value) + rest;
    let key = crate::wire::varint(tag * 8);
    let number = crate::wire::varint(value);
    assert(all =~= key + (number + rest));
    assert(all.skip(key.len() as int) =~= number + rest);
    lemma_number_is_read_back(tag * 8, number + rest);
    lemma_number_is_read_back(value, rest);
    assert((tag * 8) % 8 == 0 && (tag * 8) / 8 == tag);
}

/// A field that holds bytes is read back as it was written, whatever follows it.
proof fn lemma_bytes_field_is_read_back(tag: nat, content: Seq<u8>, rest: Seq<u8>)
    ensures
        read_field(crate::wire::bytes_field(tag, content) + rest) == Some(
            (
                Field { tag, value: FieldValue::Content(content) },
                crate::wire::bytes_field(tag, content).len(),
            ),
        ),
        crate::wire::bytes_field(tag, content).len() > 0,
{
    let all = crate::wire::bytes_field(tag, content) + rest;
    let key = crate::wire::varint(tag * 8 + 2);
    let len = crate::wire::varint(content.len());
    let start = (key.len() + len.len()) as int;
    assert(all =~= key + (len + (content + rest)));
    assert(all.skip(key.len() as int) =~= len + (content + rest));
    assert(all.subrange(start, start + content.len()) =~= content);
    lemma_number_is_read_back(tag * 8 + 2, len + (content + rest));
    lemma_number_is_read_back(content.len(), content + rest);
    assert((tag * 8 + 2) % 8 == 2 && (tag * 8 + 2) / 8 == tag);
}

/// A field is read back as it was written, whatever follows it.
pub proof fn lemma_field_is_read_back(field: Field, rest: Seq<u8>)
    ensures
        read_field(field.wire() + rest) == Some((field, field.wire().len())),
        field.wire().len() > 0,
{
    match field.value {
        FieldValue::Number(value) => lemma_number_field_is_read_back(field.tag, value, rest),
        FieldValue::Content(content) => lemma_bytes_field_is_read_back(field.tag, content, rest),
    }
}

/// Whatever fields are written one after the other, those are read back.
pub proof fn lemma_fields_are_read_back(fields: Seq<Field>)
    ensures
        read_fields(wire_of(fields)) == Some(fields),
    decreases fields.len(),
{
    let bytes = wire_of(fields);
    if fields.len() == 0 {
        assert(fields =~= Seq::empty());
    } else {
        let rest = fields.drop_first();
        lemma_field_is_read_back(fields[0], wire_of(rest));
        lemma_fields_are_read_back(rest);
        assert(bytes.skip(fields[0].wire().len() as int) =~= wire_of(rest));
        assert(seq![fields[0]] + rest =~= fields);
    }
}

/// The bytes of fields that are written in two parts.
proof fn lemma_wire_of_parts(fields: Seq<Field>, more: Seq<Field>)
    ensures
        wire_of(fields + more) == wire_of(fields) + wire_of(more),
    decreases fields.len(),
{
    if fields.len() == 0 {
        assert(fields + more =~= more);
        assert(wire_of(fields) + wire_of(more) =~= wire_of(more));
    } else {
        lemma_wire_of_parts(fields.drop_first(), more);
        assert((fields + more).drop_first() =~= fields.drop_first() + more);
        assert(wire_of(fields + more) =~= wire_of(fields) + wire_of(more));
    }
}

/// What fields in two parts hold under a tag.
proof fn lemma_value_of_parts(fields: Seq<Field>, more: Seq<Field>, tag: nat)
    ensures
        value_of(fields + more, tag) == match value_of(more, tag) {
            Some(value) => Some(value),
            None => value_of(fields, tag),
        },
    decreases more.len(),
{
    if more.len() == 0 {
        assert(fields + more =~= fields);
    } else {
        assert((fields + more).drop_last() =~= fields + more.drop_last());
        lemma_value_of_parts(fields, more.drop_last(), tag);
    }
}

/// A field that is there or left out.
pub open spec fn optional(present: bool, tag: nat, value: FieldValue) -> Seq<Field> {
    if present {
        seq![Field { tag, value }]
    } else {
        Seq::empty()
    }
}

/// The bytes of a field that is there or left out, and what it holds.
proof fn lemma_optional(present: bool, tag: nat, value: FieldValue)
    ensures
        wire_of(optional(present, tag, value)) == crate::content::unless(
            !present,
            (Field { tag, value }).wire(),
        ),
        forall|other: nat| #[trigger]
            value_of(optional(present, tag, value), other) == if present && other == tag {
                Some(value)
            } else {
                None
            },
{
    let fields = optional(present, tag, value);
    if present {
        reveal_with_fuel(wire_of, 2);
        let field = Field { tag, value };
        assert(fields.drop_first() =~= Seq::empty());
        assert(fields.drop_last() =~= Seq::empty());
        assert(wire_of(fields) =~= field.wire());
    }
    assert forall|other: nat| #[trigger] value_of(fields, other) == if present && other == tag {
        Some(value)
    } else {
        None
    } by {
        reveal_with_fuel(value_of, 2);
    }
}

/// One more field behind others that hold nothing under its tag.
proof fn lemma_one_more(fields: Seq<Field>, present: bool, tag: nat, value: FieldValue)
    ensures
        wire_of(fields + optional(present, tag, value)) == wire_of(fields)
            + crate::content::unless(!present, (Field { tag, value }).wire()),
        forall|other: nat| #[trigger]
            value_of(fields + optional(present, tag, value), other) == if present && other == tag {
                Some(value)
            } else {
                value_of(fields, other)
            },
{
    let more = optional(present, tag, value);
    lemma_optional(present, tag, value);
    lemma_wire_of_parts(fields, more);
    assert forall|other: nat| #[trigger] value_of(fields + more, other) == if present && other
        == tag {
        Some(value)
    } else {
        value_of(fields, other)
    } by {
        lemma_value_of_parts(fields, more, other);
    }
}

impl AccountContent {
    /// The signature of the transaction that wrote the account, if it is known.
    spec fn signature(self) -> Seq<u8> {
        match self.txn_signature {
            Some(signature) => signature,
            None => Seq::empty(),
        }
    }

    /// What a reader finds under a tag of the encoded image.
    pub open spec fn under(self, tag: nat) -> Option<FieldValue> {
        if tag == 1 {
            Some(FieldValue::Content(self.pubkey))
        } else if tag == 2 && self.lamports != 0 {
            Some(FieldValue::Number(self.lamports as nat))
        } else if tag == 3 {
            Some(FieldValue::Content(self.owner))
        } else if tag == 4 && self.executable {
            Some(FieldValue::Number(1))
        } else if tag == 5 && self.rent_epoch != 0 {
            Some(FieldValue::Number(self.rent_epoch as nat))
        } else if tag == 6 && self.data.len() != 0 {
            Some(FieldValue::Content(self.data))
        } else if tag == 7 && self.write_version != 0 {
            Some(FieldValue::Number(self.write_version as nat))
        } else if tag == 8 {
            match self.txn_signature {
                Some(signature) => Some(FieldValue::Content(signature)),
                None => None,
            }
        } else {
            None
        }
    }

    /// The encoded image decodes to its fields: the address and the owner are always there, the
    /// signature exactly where it is known, and every other field exactly where it is not zero,
    /// not false and not empty.
    pub proof fn lemma_decodes(self)
        ensures
            read_fields(self.wire()) matches Some(fields) && forall|tag: nat| #[trigger]
                value_of(fields, tag) == self.under(tag),
    {
        let none = Seq::<Field>::empty();
        let pubkey = FieldValue::Content(self.pubkey);
        let lamports = FieldValue::Number(self.lamports as nat);
        let owner = FieldValue::Content(self.owner);
        let executable = FieldValue::Number(1);
        let rent_epoch = FieldValue::Number(self.rent_epoch as nat);
        let data = FieldValue::Content(self.data);
        let write_version = FieldValue::Number(self.write_version as nat);
        let signature = FieldValue::Content(self.signature());
        let upto1 = none + optional(true, 1, pubkey);
        let upto2 = upto1 + optional(self.lamports != 0, 2, lamports);
        let upto3 = upto2 + optional(true, 3, owner);
        let upto4 = upto3 + optional(self.executable, 4, executable);
        let upto5 = upto4 + optional(self.rent_epoch != 0, 5, rent_epoch);
        let upto6 = upto5 + optional(self.data.len() != 0, 6, data);
        let upto7 = upto6 + optional(self.write_version != 0, 7, write_version);
        let fields = upto7 + optional(self.txn_signature is Some, 8, signature);
        lemma_one_more(none, true, 1, pubkey);
        lemma_one_more(upto1, self.lamports != 0, 2, lamports);
        lemma_one_more(upto2, true, 3, owner);
        lemma_one_more(upto3, self.executable, 4, executable);
        lemma_one_more(upto4, self.rent_epoch != 0, 5, rent_epoch);
        lemma_one_more(upto5, self.data.len() != 0, 6, data);
        lemma_one_more(upto6, self.write_version != 0, 7, write_version);
        lemma_one_more(upto7, self.txn_signature is Some, 8, signature);
        assert(wire_of(fields) =~= self.wire());
        lemma_fields_are_read_back(fields);
        assert forall|tag: nat| #[trigger] value_of(fields, tag) == self.under(tag) by {
            assert(value_of(none, tag) is None);
        }
    }
}

impl TransactionContent {
    /// What a reader finds under a tag of the encoded transaction.
    pub open spec fn under(self, tag: nat) -> Option<FieldValue> {
        if tag == 1 {
            Some(FieldValue::Content(self.signature))
        } else if tag == 2 && self.is_vote {
            Some(FieldValue::Number(1))
        } else if tag == 3 {
            Some(FieldValue::Content(self.transaction))
        } else if tag == 4 {
            Some(FieldValue::Content(self.meta))
        } else if tag == 5 && self.index != 0 {
            Some(FieldValue::Number(self.index as nat))
        } else {
            None
        }
    }

    /// The encoded transaction decodes to its fields: the signature, the transaction and its
    /// meta are always there, the vote flag and the index exactly where they are not zero.
    pub proof fn lemma_decodes(self)
        ensures
            read_fields(self.wire()) matches Some(fields) && forall|tag: nat| #[trigger]
                value_of(fields, tag) == self.under(tag),
    {
        let none = Seq::<Field>::empty();
        let signature = FieldValue::Content(self.signature);
        let is_vote = FieldValue::Number(1);
        let transaction = FieldValue::Content(self.transaction);
        let meta = FieldValue::Content(self.meta);
        let index = FieldValue::Number(self.index as nat);
        let upto1 = none + optional(true, 1, signature);
        let upto2 = upto1 + optional(self.is_vote, 2, is_vote);
        let upto3 = upto2 + optional(true, 3, transaction);
        let upto4 = upto3 + optional(true, 4, meta);
        let fields = upto4 + optional(self.index != 0, 5, index);
        lemma_one_more(none, true, 1, signature);
        lemma_one_more(upto1, self.is_vote, 2, is_vote);
        lemma_one_more(upto2, true, 3, transaction);
        lemma_one_more(upto3, true, 4, meta);
        lemma_one_more(upto4, self.index != 0, 5, index);
        assert(wire_of(fields) =~= self.wire());
        lemma_fields_are_read_back(fields);
        assert forall|tag: nat| #[trigger] value_of(fields, tag) == self.under(tag) by {
            assert(value_of(none, tag) is None);
        }
    }
}

} // verus!
