//! What is written as zip is read back as it was.

use vstd::prelude::*;
use vstd::utf8::encode_utf8;
use vstd::utf8::encode_utf8_decode_utf8;
use vstd::utf8::encode_utf8_valid_utf8;
use crate::add::put;
use crate::archive::lemma_position;
use crate::archive::position;
use crate::archive::well_formed;
use crate::archive::MemberView;
use crate::dos_time::lemma_stamp_round_trip;
use crate::dos_time::stamp_of;
use crate::dos_time::DOS_END;
use crate::dos_time::DOS_FIRST;
use crate::error::ArchiveError;
use crate::little_endian::field16;
use crate::little_endian::field32;
use crate::little_endian::le16_bytes;
use crate::little_endian::le32_bytes;
use crate::little_endian::lemma_field16_within;
use crate::little_endian::lemma_field32_within;
use crate::little_endian::lemma_le16_round_trip;
use crate::little_endian::lemma_le32_round_trip;
use crate::little_endian::stands_at;
use crate::path::is_normalized;
use crate::path::lemma_normalized_fixed;
use crate::zip::central_from;
use crate::zip::central_record;
use crate::zip::centrals_of;
use crate::zip::decoded;
use crate::zip::encodable;
use crate::zip::encodable_member;
use crate::zip::encoded;
use crate::zip::end_record;
use crate::zip::end_record_at;
use crate::zip::entry_at;
use crate::zip::has_mark;
use crate::zip::is_end_record;
use crate::zip::lemma_locals_grow;
use crate::zip::local_record;
use crate::zip::locals_of;
use crate::zip::shared_fields;
use crate::zip::written_crc;

verus! {

/// A member that a zip file holds in full: it has a stored checksum, it
/// takes in the container the length of its content, and its time is one
/// that a stamp holds: an even second from 1980 to 2107.
pub open spec fn plain_member(member: MemberView) -> bool {
    &&& member.entry.checksum.is_some()
    &&& member.entry.compressed_size == member.entry.size
    &&& DOS_FIRST <= member.entry.modified < DOS_END
    &&& member.entry.modified % 2 == 0
}

/// Every member is one that a zip file holds in full.
pub open spec fn plain(members: Seq<MemberView>) -> bool {
    forall|i: int| 0 <= i < members.len() ==> plain_member(#[trigger] members[i])
}

/// The lengths of the records.
pub proof fn lemma_record_lens(member: MemberView, offset: nat)
    ensures
        shared_fields(member).len() == 24,
        local_record(member).len() == 30 + encode_utf8(member.entry.path).len()
            + member.content.len(),
        central_record(member, offset).len() == 46 + encode_utf8(member.entry.path).len(),
{
    reveal(local_record);
    reveal(central_record);
}

/// The record says of the member what a central directory record does.
pub open spec fn central_says(record: Seq<u8>, member: MemberView, offset: int) -> bool {
    let name = encode_utf8(member.entry.path);
    &&& record.len() == 46 + name.len()
    &&& has_mark(record, 0, 1, 2)
    &&& field16(record, 8) == 0x0800
    &&& field16(record, 10) == 0
    &&& field16(record, 12) == stamp_of(member.entry.modified) % 65536
    &&& field16(record, 14) == stamp_of(member.entry.modified) / 65536
    &&& field32(record, 16) == written_crc(member)
    &&& field32(record, 20) == member.content.len()
    &&& field32(record, 24) == member.content.len()
    &&& field16(record, 28) == name.len()
    &&& field16(record, 30) == 0
    &&& field16(record, 32) == 0
    &&& field32(record, 42) == offset
    &&& record.subrange(46, 46 + name.len() as int) == name
}

/// The record says of the member what a local record does.
pub open spec fn local_says(record: Seq<u8>, member: MemberView) -> bool {
    let name = encode_utf8(member.entry.path);
    &&& record.len() == 30 + name.len() + member.content.len()
    &&& has_mark(record, 0, 3, 4)
    &&& field16(record, 26) == name.len()
    &&& field16(record, 28) == 0
    &&& record.subrange(30 + name.len() as int, record.len() as int) == member.content
}

/// What the fields of a central directory record say.
#[verifier::rlimit(50)]
pub proof fn lemma_central_fields(member: MemberView, offset: nat)
    requires
        encodable_member(member),
        offset <= u32::MAX,
    ensures
        central_says(central_record(member, offset), member, offset as int),
{
    let record = central_record(member, offset);
    let name = encode_utf8(member.entry.path);
    let time = (stamp_of(member.entry.modified) % 65536) as nat;
    let date = (stamp_of(member.entry.modified) / 65536) as nat;
    reveal(central_record);
    lemma_record_lens(member, offset);
    lemma_le16_round_trip(0x0800);
    lemma_le16_round_trip(0);
    lemma_le16_round_trip(time);
    lemma_le16_round_trip(date);
    lemma_le16_round_trip(name.len());
    lemma_le32_round_trip(written_crc(member) as nat);
    lemma_le32_round_trip(member.content.len());
    lemma_le32_round_trip(offset);
    assert(record.subrange(8, 10) =~= le16_bytes(0x0800));
    assert(record.subrange(10, 12) =~= le16_bytes(0));
    assert(record.subrange(12, 14) =~= le16_bytes(time));
    assert(record.subrange(14, 16) =~= le16_bytes(date));
    assert(record.subrange(16, 20) =~= le32_bytes(written_crc(member) as nat));
    assert(record.subrange(20, 24) =~= le32_bytes(member.content.len()));
    assert(record.subrange(24, 28) =~= le32_bytes(member.content.len()));
    assert(record.subrange(28, 30) =~= le16_bytes(name.len()));
    assert(record.subrange(30, 32) =~= le16_bytes(0));
    assert(record.subrange(32, 34) =~= le16_bytes(0));
    assert(record.subrange(42, 46) =~= le32_bytes(offset));
    assert(record.subrange(46, 46 + name.len() as int) =~= name);
}

/// What the fields of a local record say.
#[verifier::rlimit(50)]
pub proof fn lemma_local_fields(member: MemberView)
    requires
        encodable_member(member),
    ensures
        local_says(local_record(member), member),
{
    let record = local_record(member);
    let name = encode_utf8(member.entry.path);
    reveal(local_record);
    lemma_record_lens(member, 0);
    lemma_le16_round_trip(name.len());
    lemma_le16_round_trip(0);
    assert(record.subrange(26, 28) =~= le16_bytes(name.len()));
    assert(record.subrange(28, 30) =~= le16_bytes(0));
    assert(record.subrange(30 + name.len() as int, record.len() as int) =~= member.content);
}

/// A mark at the front of a record that stands in the bytes is a mark
/// in the bytes.
pub proof fn lemma_mark_within(bytes: Seq<u8>, pos: int, record: Seq<u8>, third: u8, fourth: u8)
    requires
        stands_at(bytes, pos, record),
        has_mark(record, 0, third, fourth),
    ensures
        has_mark(bytes, pos, third, fourth),
{
    let within = bytes.subrange(pos, pos + record.len());
    assert(bytes[pos] == within[0]);
    assert(bytes[pos + 1] == within[1]);
    assert(bytes[pos + 2] == within[2]);
    assert(bytes[pos + 3] == within[3]);
}

/// A central directory record that stands in the bytes and points to
/// the member's local record is read as that member.
#[verifier::rlimit(50)]
pub proof fn lemma_entry_reads(
    bytes: Seq<u8>,
    limit: int,
    pos: int,
    central: Seq<u8>,
    local: Seq<u8>,
    offset: int,
    member: MemberView,
)
    requires
        stands_at(bytes, pos, central),
        stands_at(bytes, offset, local),
        central_says(central, member, offset),
        local_says(local, member),
        pos + central.len() <= limit <= bytes.len(),
        encodable_member(member),
        plain_member(member),
        is_normalized(member.entry.path),
        member.entry.size == member.content.len(),
    ensures
        entry_at(bytes, limit, pos) == Ok::<(Option<MemberView>, int), ArchiveError>(
            (Some(member), pos + central.len()),
        ),
{
    let name = encode_utf8(member.entry.path);
    let name_len = name.len() as int;
    let size = member.content.len() as int;
    lemma_field16_within(bytes, pos, central, 8);
    lemma_field16_within(bytes, pos, central, 10);
    lemma_field16_within(bytes, pos, central, 12);
    lemma_field16_within(bytes, pos, central, 14);
    lemma_field32_within(bytes, pos, central, 16);
    lemma_field32_within(bytes, pos, central, 20);
    lemma_field32_within(bytes, pos, central, 24);
    lemma_field16_within(bytes, pos, central, 28);
    lemma_field16_within(bytes, pos, central, 30);
    lemma_field16_within(bytes, pos, central, 32);
    lemma_field32_within(bytes, pos, central, 42);
    lemma_field16_within(bytes, offset, local, 26);
    lemma_field16_within(bytes, offset, local, 28);
    lemma_mark_within(bytes, pos, central, 1, 2);
    lemma_mark_within(bytes, offset, local, 3, 4);
    let read_name = bytes.subrange(pos + 46, pos + 46 + name_len);
    assert(read_name =~= name) by {
        assert(read_name =~= bytes.subrange(pos, pos + central.len()).subrange(
            46,
            46 + name_len,
        ));
    }
    let start = offset + 30 + name_len;
    let content = bytes.subrange(start, start + size);
    assert(content =~= member.content) by {
        assert(content =~= bytes.subrange(offset, offset + local.len()).subrange(
            30 + name_len,
            local.len() as int,
        ));
    }
    encode_utf8_valid_utf8(member.entry.path);
    encode_utf8_decode_utf8(member.entry.path);
    lemma_normalized_fixed(member.entry.path);
    let stamp = stamp_of(member.entry.modified);
    lemma_stamp_round_trip(member.entry.modified);
    assert(((stamp / 65536) * 65536 + stamp % 65536) as u32 == stamp);
}

/// Where the records of the member at `index` stand among the local
/// records and in the central directory.
#[verifier::rlimit(50)]
pub proof fn lemma_records_stand(members: Seq<MemberView>, index: int)
    requires
        0 <= index < members.len(),
    ensures
        stands_at(
            locals_of(members),
            locals_of(members.take(index)).len() as int,
            local_record(members[index]),
        ),
        stands_at(
            centrals_of(members),
            centrals_of(members.take(index)).len() as int,
            central_record(members[index], locals_of(members.take(index)).len()),
        ),
        locals_of(members.take(index + 1)) == locals_of(members.take(index)) + local_record(
            members[index],
        ),
        centrals_of(members.take(index + 1)) == centrals_of(members.take(index)) + central_record(
            members[index],
            locals_of(members.take(index)).len(),
        ),
    decreases members.len(),
{
    let front = members.drop_last();
    assert(members.take(index + 1).drop_last() =~= members.take(index));
    assert(members.take(index + 1).last() == members[index]);
    if index == members.len() - 1 {
        assert(members.take(index) =~= front);
        assert(members.last() == members[index]);
        let locals = locals_of(members);
        let centrals = centrals_of(members);
        assert(locals.subrange(locals_of(front).len() as int, locals.len() as int)
            =~= local_record(members[index]));
        assert(centrals.subrange(centrals_of(front).len() as int, centrals.len() as int)
            =~= central_record(members[index], locals_of(front).len()));
    } else {
        lemma_records_stand(front, index);
        assert(front.take(index) =~= members.take(index));
        assert(front[index] == members[index]);
        let at = locals_of(members.take(index)).len() as int;
        let record = local_record(members[index]);
        assert(locals_of(members).subrange(at, at + record.len()) =~= locals_of(front).subrange(
            at,
            at + record.len(),
        ));
        let cat = centrals_of(members.take(index)).len() as int;
        let crecord = central_record(members[index], locals_of(members.take(index)).len());
        assert(centrals_of(members).subrange(cat, cat + crecord.len()) =~= centrals_of(
            front,
        ).subrange(cat, cat + crecord.len()));
    }
}

/// In a written zip file, the central directory record of the member at
/// `index` is read as that member, and leads to the next record.
#[verifier::rlimit(50)]
pub proof fn lemma_entry_round_trip(members: Seq<MemberView>, index: int)
    requires
        0 <= index < members.len(),
        well_formed(members),
        encodable(members),
        plain(members),
    ensures
        entry_at(
            encoded(members),
            (locals_of(members).len() + centrals_of(members).len()) as int,
            (locals_of(members).len() + centrals_of(members.take(index)).len()) as int,
        ) == Ok::<(Option<MemberView>, int), ArchiveError>(
            (
                Some(members[index]),
                (locals_of(members).len() + centrals_of(members.take(index + 1)).len()) as int,
            ),
        ),
{
    let bytes = encoded(members);
    let locals = locals_of(members);
    let centrals = centrals_of(members);
    let member = members[index];
    let offset = locals_of(members.take(index)).len();
    let limit = (locals.len() + centrals.len()) as int;
    let pos = (locals.len() + centrals_of(members.take(index)).len()) as int;
    let central = central_record(member, offset);
    let local = local_record(member);
    let off = offset as int;
    assert(encodable_member(member));
    assert(plain_member(member));
    lemma_records_stand(members, index);
    lemma_locals_grow(members, index);
    lemma_locals_grow(members, index + 1);
    lemma_central_fields(member, offset);
    lemma_local_fields(member);
    assert(stands_at(bytes, pos, central)) by {
        assert(bytes.subrange(pos, pos + central.len()) =~= centrals.subrange(
            pos - locals.len(),
            pos - locals.len() + central.len(),
        ));
    }
    assert(stands_at(bytes, off, local)) by {
        assert(bytes.subrange(off, off + local.len()) =~= locals.subrange(
            off,
            off + local.len(),
        ));
    }
    lemma_entry_reads(bytes, limit, pos, central, local, off, member);
}

/// Reading the central directory of a written zip file from the record
/// of the member at `index` on gives all members, after those before it.
#[verifier::rlimit(50)]
pub proof fn lemma_central_round_trip(members: Seq<MemberView>, index: int)
    requires
        0 <= index <= members.len(),
        well_formed(members),
        encodable(members),
        plain(members),
    ensures
        central_from(
            encoded(members),
            (locals_of(members).len() + centrals_of(members).len()) as int,
            (locals_of(members).len() + centrals_of(members.take(index)).len()) as int,
            (members.len() - index) as nat,
            members.take(index),
        ) == Ok::<Seq<MemberView>, ArchiveError>(members),
    decreases members.len() - index,
{
    if index == members.len() {
        assert(members.take(index) =~= members);
    } else {
        lemma_entry_round_trip(members, index);
        let found = members.take(index);
        let member = members[index];
        lemma_position(found, member.entry.path);
        assert(position(found, member.entry.path).is_none()) by {
            if position(found, member.entry.path).is_some() {
                let at = position(found, member.entry.path).unwrap();
                assert(found[at] == members[at]);
                assert(members[at].entry.path != members[index].entry.path);
            }
        }
        assert(put(found, member) =~= members.take(index + 1));
        lemma_central_round_trip(members, index + 1);
    }
}

/// The record says what an end record does: no other part, `count`
/// records, a directory at `offset`, and no comment.
pub open spec fn end_says(record: Seq<u8>, count: int, offset: int) -> bool {
    &&& record.len() == 22
    &&& has_mark(record, 0, 5, 6)
    &&& field16(record, 4) == 0
    &&& field16(record, 6) == 0
    &&& field16(record, 8) == count
    &&& field16(record, 10) == count
    &&& field32(record, 16) == offset
    &&& field16(record, 20) == 0
}

/// What the fields of an end record say.
#[verifier::rlimit(50)]
pub proof fn lemma_end_fields(count: nat, length: nat, offset: nat)
    requires
        count <= 65535,
        length <= u32::MAX,
        offset <= u32::MAX,
    ensures
        end_says(end_record(count, length, offset), count as int, offset as int),
{
    let record = end_record(count, length, offset);
    reveal(end_record);
    lemma_le16_round_trip(0);
    lemma_le16_round_trip(count);
    lemma_le32_round_trip(length);
    lemma_le32_round_trip(offset);
    assert(record.subrange(4, 6) =~= le16_bytes(0));
    assert(record.subrange(6, 8) =~= le16_bytes(0));
    assert(record.subrange(8, 10) =~= le16_bytes(count));
    assert(record.subrange(10, 12) =~= le16_bytes(count));
    assert(record.subrange(16, 20) =~= le32_bytes(offset));
    assert(record.subrange(20, 22) =~= le16_bytes(0));
}

/// An end record that stands at the very end of the bytes is found, and
/// read as what it says.
#[verifier::rlimit(50)]
pub proof fn lemma_end_found(bytes: Seq<u8>, end: int, record: Seq<u8>, count: int, offset: int)
    requires
        stands_at(bytes, end, record),
        end_says(record, count, offset),
        bytes.len() == end + 22,
    ensures
        end_record_at(bytes, (bytes.len() - 22) as nat) == Some(end),
        field16(bytes, end + 4) == 0,
        field16(bytes, end + 6) == 0,
        field16(bytes, end + 8) == count,
        field16(bytes, end + 10) == count,
        field32(bytes, end + 16) == offset,
{
    lemma_field16_within(bytes, end, record, 4);
    lemma_field16_within(bytes, end, record, 6);
    lemma_field16_within(bytes, end, record, 8);
    lemma_field16_within(bytes, end, record, 10);
    lemma_field32_within(bytes, end, record, 16);
    lemma_field16_within(bytes, end, record, 20);
    lemma_mark_within(bytes, end, record, 5, 6);
    assert(is_end_record(bytes, end));
}

/// Round trip: the members of a well-formed container that zip holds in
/// full are read back from their zip file exactly as they were, in the
/// same order.
#[verifier::rlimit(50)]
pub proof fn lemma_encode_then_decode(members: Seq<MemberView>)
    requires
        well_formed(members),
        encodable(members),
        plain(members),
    ensures
        decoded(encoded(members)) == Ok::<Seq<MemberView>, ArchiveError>(members),
{
    let bytes = encoded(members);
    let locals = locals_of(members);
    let centrals = centrals_of(members);
    let end = (locals.len() + centrals.len()) as int;
    let record = end_record(members.len(), centrals.len(), locals.len());
    lemma_end_fields(members.len(), centrals.len(), locals.len());
    assert(stands_at(bytes, end, record)) by {
        assert(bytes.subrange(end, end + 22) =~= record);
    }
    lemma_end_found(bytes, end, record, members.len() as int, locals.len() as int);
    assert(members.take(0) =~= Seq::<MemberView>::empty());
    assert(centrals_of(members.take(0)).len() == 0);
    lemma_central_round_trip(members, 0);
}

} // verus!
