//! The protobuf wire format, written with the `prost` and `bytes` crates.
use vstd::prelude::*;

verus! {

/// A number in base 128, least significant digit first; every digit but the last has its high
/// bit set.
pub open spec fn varint(n: nat) -> Seq<u8>
    decreases n,
{
    if n < 128 {
        seq![n as u8]
    } else {
        seq![(n % 128 + 128) as u8] + varint(n / 128)
    }
}

/// A field that holds a number.
pub open spec fn number_field(tag: nat, value: nat) -> Seq<u8> {
    varint(tag * 8) + varint(value)
}

/// A field that holds bytes: a string, or an encoded message.
pub open spec fn bytes_field(tag: nat, content: Seq<u8>) -> Seq<u8> {
    varint(tag * 8 + 2) + varint(content.len()) + content
}

/// The tags that a field may have.
pub open spec fn valid_tag(tag: u32) -> bool {
    1 <= tag <= 536_870_911
}

/// The two kinds of field keys of one tag have the same length.
pub proof fn lemma_key_len(tag: nat)
    ensures
        varint(tag * 8 + 2).len() == varint(tag * 8).len(),
{
    let n: nat = tag * 8;
    let rest: int = tag - 16 * (n / 128);
    assert(n % 128 == 8 * rest);
    assert((n + 2) / 128 == n / 128);
    assert(varint(n).len() == if n < 128 {
        1
    } else {
        1 + varint(n / 128).len()
    });
    assert(varint(n + 2).len() == if n + 2 < 128 {
        1
    } else {
        1 + varint((n + 2) / 128).len()
    });
}

/// A number has at most ten digits in base 128.
pub proof fn lemma_varint_len(n: nat)
    requires
        n <= u64::MAX,
    ensures
        1 <= varint(n).len() <= 10,
{
    reveal_with_fuel(varint, 11);
}

/// `prost::encoding::encode_varint`: appends a number in base 128.
#[verifier::external_body]
fn encode_varint(value: u64, buf: &mut Vec<u8>)
    ensures
        final(buf)@ == old(buf)@ + varint(value as nat),
{
    prost::encoding::encode_varint(value, buf)
}

/// `prost::encoding::encode_key` for a length-delimited field: appends the field's key, which is
/// the tag, shifted by three bits, with the wire type two.
#[verifier::external_body]
fn encode_bytes_key(tag: u32, buf: &mut Vec<u8>)
    requires
        valid_tag(tag),
    ensures
        final(buf)@ == old(buf)@ + varint(tag as nat * 8 + 2),
{
    prost::encoding::encode_key(tag, prost::encoding::WireType::LengthDelimited, buf)
}

/// `prost::encoding::uint64::encode`: appends a field that holds a number.
#[verifier::external_body]
pub(crate) fn encode_uint64(tag: u32, value: u64, buf: &mut Vec<u8>)
    requires
        valid_tag(tag),
    ensures
        final(buf)@ == old(buf)@ + number_field(tag as nat, value as nat),
{
    prost::encoding::uint64::encode(tag, &value, buf)
}

/// `prost::encoding::bool::encode`: appends a field that holds one for `true` and zero for
/// `false`.
#[verifier::external_body]
pub(crate) fn encode_bool(tag: u32, value: bool, buf: &mut Vec<u8>)
    requires
        valid_tag(tag),
    ensures
        final(buf)@ == old(buf)@ + number_field(
            tag as nat,
            if value {
                1
            } else {
                0
            },
        ),
{
    prost::encoding::bool::encode(tag, &value, buf)
}

/// `bytes::BufMut::put_slice` on a vector: appends the bytes.
#[verifier::external_body]
fn put_slice(content: &[u8], buf: &mut Vec<u8>)
    ensures
        final(buf)@ == old(buf)@ + content@,
{
    bytes::BufMut::put_slice(buf, content)
}

/// `prost::encoding::encoded_len_varint`: how many bytes a number takes.
#[verifier::external_body]
fn encoded_len_varint(value: u64) -> (len: usize)
    ensures
        len == varint(value as nat).len(),
{
    prost::encoding::encoded_len_varint(value)
}

/// `prost::encoding::key_len`: how many bytes the key of a field takes.
#[verifier::external_body]
fn key_len(tag: u32) -> (len: usize)
    requires
        valid_tag(tag),
    ensures
        len == varint(tag as nat * 8).len(),
{
    prost::encoding::key_len(tag)
}

/// `prost::encoding::uint64::encoded_len`: how many bytes a field takes that holds a number.
#[verifier::external_body]
pub(crate) fn encoded_len_uint64(tag: u32, value: u64) -> (len: usize)
    requires
        valid_tag(tag),
    ensures
        len == number_field(tag as nat, value as nat).len(),
{
    prost::encoding::uint64::encoded_len(tag, &value)
}

/// `prost::encoding::bool::encoded_len`: how many bytes a field takes that holds a flag.
#[verifier::external_body]
pub(crate) fn encoded_len_bool(tag: u32, value: bool) -> (len: usize)
    requires
        valid_tag(tag),
    ensures
        len == number_field(
            tag as nat,
            if value {
                1
            } else {
                0
            },
        ).len(),
{
    prost::encoding::bool::encoded_len(tag, &value)
}

/// Appends a field that holds bytes.
pub fn prost_bytes_encode_raw(tag: u32, value: &[u8], buf: &mut Vec<u8>)
    requires
        valid_tag(tag),
    ensures
        final(buf)@ == old(buf)@ + bytes_field(tag as nat, value@),
{
    encode_bytes_key(tag, buf);
    encode_varint(value.len() as u64, buf);
    put_slice(value, buf);
    assert(buf@ =~= old(buf)@ + bytes_field(tag as nat, value@));
}

/// How many bytes a field takes that holds bytes.
pub fn prost_bytes_encoded_len(tag: u32, value: &[u8]) -> (len: usize)
    requires
        valid_tag(tag),
        bytes_field(tag as nat, value@).len() <= usize::MAX,
    ensures
        len == bytes_field(tag as nat, value@).len(),
{
    proof {
        lemma_key_len(tag as nat);
    }
    let len: usize = value.len();
    key_len(tag) + encoded_len_varint(len as u64) + len
}

/// A length, if it fits in memory.
pub open spec fn fits(len: nat) -> Option<usize> {
    if len <= usize::MAX {
        Some(len as usize)
    } else {
        None
    }
}

/// A length, if it fits in memory.
pub fn narrow(len: u128) -> (narrowed: Option<usize>)
    ensures
        narrowed == fits(len as nat),
{
    if len <= usize::MAX as u128 {
        Some(len as usize)
    } else {
        None
    }
}

/// How many bytes a field takes that holds bytes.
pub fn wide_bytes_len(tag: u32, value: &[u8]) -> (len: u128)
    requires
        valid_tag(tag),
    ensures
        len == bytes_field(tag as nat, value@).len(),
        len <= usize::MAX + 20,
{
    let len: usize = value.len();
    proof {
        lemma_key_len(tag as nat);
        lemma_varint_len(tag as nat * 8);
        lemma_varint_len(len as nat);
    }
    (key_len(tag) + encoded_len_varint(len as u64)) as u128 + len as u128
}

} // verus!
