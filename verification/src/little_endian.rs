//! Numbers as a zip record writes them: least significant byte first.

use vstd::prelude::*;

verus! {

/// The number in two bytes, least significant first.
pub open spec fn le16(bytes: Seq<u8>) -> nat
    recommends
        bytes.len() == 2,
{
    (bytes[0] as nat) + 256 * (bytes[1] as nat)
}

/// The number in four bytes, least significant first.
pub open spec fn le32(bytes: Seq<u8>) -> nat
    recommends
        bytes.len() == 4,
{
    (bytes[0] as nat) + 256 * (bytes[1] as nat) + 65536 * (bytes[2] as nat) + 16777216 * (
    bytes[3] as nat)
}

/// The two bytes of a number, least significant first.
pub open spec fn le16_bytes(value: nat) -> Seq<u8> {
    seq![(value % 256) as u8, ((value / 256) % 256) as u8]
}

/// The four bytes of a number, least significant first.
pub open spec fn le32_bytes(value: nat) -> Seq<u8> {
    seq![
        (value % 256) as u8,
        ((value / 256) % 256) as u8,
        ((value / 65536) % 256) as u8,
        ((value / 16777216) % 256) as u8,
    ]
}

/// The two-byte number at `at`.
pub open spec fn field16(bytes: Seq<u8>, at: int) -> int {
    le16(bytes.subrange(at, at + 2)) as int
}

/// The four-byte number at `at`.
pub open spec fn field32(bytes: Seq<u8>, at: int) -> int {
    le32(bytes.subrange(at, at + 4)) as int
}

/// The record stands in the bytes at `pos`.
pub open spec fn stands_at(bytes: Seq<u8>, pos: int, record: Seq<u8>) -> bool {
    &&& 0 <= pos
    &&& pos + record.len() <= bytes.len()
    &&& bytes.subrange(pos, pos + record.len()) == record
}

/// A two-byte field of a record that stands in the bytes is read from
/// the bytes as from the record.
pub proof fn lemma_field16_within(bytes: Seq<u8>, pos: int, record: Seq<u8>, at: int)
    requires
        stands_at(bytes, pos, record),
        0 <= at,
        at + 2 <= record.len(),
    ensures
        field16(bytes, pos + at) == field16(record, at),
{
    assert(bytes.subrange(pos + at, pos + at + 2) =~= bytes.subrange(
        pos,
        pos + record.len(),
    ).subrange(at, at + 2));
}

/// A four-byte field of a record that stands in the bytes is read from
/// the bytes as from the record.
pub proof fn lemma_field32_within(bytes: Seq<u8>, pos: int, record: Seq<u8>, at: int)
    requires
        stands_at(bytes, pos, record),
        0 <= at,
        at + 4 <= record.len(),
    ensures
        field32(bytes, pos + at) == field32(record, at),
{
    assert(bytes.subrange(pos + at, pos + at + 4) =~= bytes.subrange(
        pos,
        pos + record.len(),
    ).subrange(at, at + 4));
}

/// A number below 2^16 is read back from its two bytes.
pub proof fn lemma_le16_round_trip(value: nat)
    requires
        value < 65536,
    ensures
        le16_bytes(value).len() == 2,
        le16(le16_bytes(value)) == value,
{
}

/// A number below 2^32 is read back from its four bytes.
pub proof fn lemma_le32_round_trip(value: nat)
    requires
        value < 4294967296,
    ensures
        le32_bytes(value).len() == 4,
        le32(le32_bytes(value)) == value,
{
}

/// Reads two bytes at `at`.
pub fn read_u16(bytes: &[u8], at: usize) -> (value: u16)
    requires
        at + 2 <= bytes@.len(),
    ensures
        value == le16(bytes@.subrange(at as int, at + 2)),
{
    let low: u16 = bytes[at] as u16;
    let high: u16 = bytes[at + 1] as u16;
    low + 256 * high
}

/// Reads four bytes at `at`.
pub fn read_u32(bytes: &[u8], at: usize) -> (value: u32)
    requires
        at + 4 <= bytes@.len(),
    ensures
        value == le32(bytes@.subrange(at as int, at + 4)),
{
    let b0: u32 = bytes[at] as u32;
    let b1: u32 = bytes[at + 1] as u32;
    let b2: u32 = bytes[at + 2] as u32;
    let b3: u32 = bytes[at + 3] as u32;
    b0 + 256 * b1 + 65536 * b2 + 16777216 * b3
}

/// Writes a number in two bytes.
pub fn push_u16(out: &mut Vec<u8>, value: u16)
    ensures
        final(out)@ == old(out)@ + le16_bytes(value as nat),
{
    out.push((value % 256) as u8);
    out.push(((value / 256) % 256) as u8);
    proof {
        assert(final(out)@ =~= old(out)@ + le16_bytes(value as nat));
    }
}

/// Writes a number in four bytes.
pub fn push_u32(out: &mut Vec<u8>, value: u32)
    ensures
        final(out)@ == old(out)@ + le32_bytes(value as nat),
{
    out.push((value % 256) as u8);
    out.push(((value / 256) % 256) as u8);
    out.push(((value / 65536) % 256) as u8);
    out.push(((value / 16777216) % 256) as u8);
    proof {
        assert(final(out)@ =~= old(out)@ + le32_bytes(value as nat));
    }
}

} // verus!
