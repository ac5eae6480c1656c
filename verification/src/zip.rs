//! The zip codec: entries stored as they are, each behind a local record,
//! then the central directory, then the end record that says where the
//! directory stands.
//!
//! Read and written are stored entries. A compressed or encrypted entry,
//! and an archive in several parts, are features not covered. An entry is
//! read as the central directory describes it.

use vstd::prelude::*;
use vstd::slice::slice_subrange;
use vstd::utf8::decode_utf8;
use vstd::utf8::encode_utf8;
use vstd::utf8::valid_utf8;
use crate::add::put;
use crate::archive::Archive;
use crate::archive::Entry;
use crate::archive::EntryView;
use crate::archive::Member;
use crate::archive::MemberView;
use crate::bytes::append_bytes;
use crate::bytes::text_from_utf8;
use crate::dos_time::seconds_from_stamp;
use crate::dos_time::seconds_of;
use crate::dos_time::stamp_from_seconds;
use crate::dos_time::stamp_of;
use crate::error::ArchiveError;
use crate::format::CodecKind;
use crate::hasher::crc32;
use crate::hasher::crc32_of;
use crate::little_endian::field16;
use crate::little_endian::field32;
use crate::little_endian::le16_bytes;
use crate::little_endian::le32_bytes;
use crate::little_endian::push_u16;
use crate::little_endian::push_u32;
use crate::little_endian::read_u16;
use crate::little_endian::read_u32;
use crate::path::is_normalized;
use crate::path::normalize_path;
use crate::path::normalized;

verus! {

/// Length of a local record before its name.
pub const LOCAL_LEN: usize = 30;

/// Length of a central directory record before its name.
pub const CENTRAL_LEN: usize = 46;

/// Length of the end record before its comment.
pub const END_LEN: usize = 22;

/// Whether the mark `P K third fourth` stands at `at`.
pub open spec fn has_mark(bytes: Seq<u8>, at: int, third: u8, fourth: u8) -> bool {
    &&& 0 <= at
    &&& at + 4 <= bytes.len()
    &&& bytes[at] == 0x50
    &&& bytes[at + 1] == 0x4B
    &&& bytes[at + 2] == third
    &&& bytes[at + 3] == fourth
}

/// Whether an end record stands at `at`: its mark, and a comment that
/// reaches exactly to the end of the bytes.
pub open spec fn is_end_record(bytes: Seq<u8>, at: int) -> bool {
    &&& has_mark(bytes, at, 5, 6)
    &&& at + 22 <= bytes.len()
    &&& at + 22 + field16(bytes, at + 20) == bytes.len()
}

/// Where the end record stands: the last place at or before `from` that
/// holds one.
pub open spec fn end_record_at(bytes: Seq<u8>, from: nat) -> Option<int>
    decreases from,
{
    if is_end_record(bytes, from as int) {
        Some(from as int)
    } else if from == 0 {
        None
    } else {
        end_record_at(bytes, (from - 1) as nat)
    }
}

/// Whether the name is that of a directory: it ends in `/`.
pub open spec fn is_directory_name(name: Seq<u8>) -> bool {
    name.len() > 0 && name.last() == 0x2F
}

/// What the central directory record at `pos` describes, and where the
/// next record begins. The record, its name, the local record it points
/// to and the content behind that must all lie within the bytes, the
/// directory within `limit`; else the container is corrupt. An empty
/// entry whose name ends in `/` is a directory and gives no member.
pub open spec fn entry_at(bytes: Seq<u8>, limit: int, pos: int) -> Result<
    (Option<MemberView>, int),
    ArchiveError,
> {
    if pos < 0 || pos + 46 > limit || limit > bytes.len() || !has_mark(bytes, pos, 1, 2) {
        Err(ArchiveError::CorruptHeader)
    } else {
        let flags = field16(bytes, pos + 8);
        let method = field16(bytes, pos + 10);
        let time = field16(bytes, pos + 12);
        let date = field16(bytes, pos + 14);
        let crc = field32(bytes, pos + 16);
        let stored = field32(bytes, pos + 20);
        let size = field32(bytes, pos + 24);
        let name_len = field16(bytes, pos + 28);
        let extra_len = field16(bytes, pos + 30);
        let comment_len = field16(bytes, pos + 32);
        let offset = field32(bytes, pos + 42);
        let next = pos + 46 + name_len + extra_len + comment_len;
        if next > limit {
            Err(ArchiveError::CorruptHeader)
        } else if flags % 2 == 1 || method != 0 {
            Err(ArchiveError::UnsupportedFeature)
        } else if stored != size || offset + 30 > bytes.len() || !has_mark(bytes, offset, 3, 4) {
            Err(ArchiveError::CorruptHeader)
        } else {
            let start = offset + 30 + field16(bytes, offset + 26) + field16(bytes, offset + 28);
            let name = bytes.subrange(pos + 46, pos + 46 + name_len);
            if start + stored > bytes.len() || !valid_utf8(name) {
                Err(ArchiveError::CorruptHeader)
            } else if is_directory_name(name) && size == 0 {
                Ok((None, next))
            } else {
                Ok(
                    (
                        Some(
                            MemberView {
                                entry: EntryView {
                                    path: normalized(decode_utf8(name)),
                                    size: size as u64,
                                    compressed_size: stored as u64,
                                    modified: seconds_of((date * 65536 + time) as u32),
                                    checksum: Some(crc as u32),
                                },
                                content: bytes.subrange(start, start + stored),
                            },
                        ),
                        next,
                    ),
                )
            }
        }
    }
}

/// What `remaining` records of the central directory from `pos` on hold,
/// after the members `found` so far. A later entry of the same path takes
/// the place of an earlier one.
pub open spec fn central_from(
    bytes: Seq<u8>,
    limit: int,
    pos: int,
    remaining: nat,
    found: Seq<MemberView>,
) -> Result<Seq<MemberView>, ArchiveError>
    decreases remaining,
{
    if remaining == 0 {
        Ok(found)
    } else {
        match entry_at(bytes, limit, pos) {
            Err(e) => Err(e),
            Ok((member, next)) => central_from(
                bytes,
                limit,
                next,
                (remaining - 1) as nat,
                match member {
                    Some(m) => put(found, m),
                    None => found,
                },
            ),
        }
    }
}

/// The members that a zip file holds, or why it cannot be read.
pub open spec fn decoded(bytes: Seq<u8>) -> Result<Seq<MemberView>, ArchiveError> {
    if bytes.len() < 22 {
        Err(ArchiveError::CorruptHeader)
    } else {
        match end_record_at(bytes, (bytes.len() - 22) as nat) {
            None => Err(ArchiveError::CorruptHeader),
            Some(end) => if field16(bytes, end + 4) != 0 || field16(bytes, end + 6) != 0
                || field16(bytes, end + 8) != field16(bytes, end + 10) {
                Err(ArchiveError::UnsupportedFeature)
            } else if field32(bytes, end + 16) > end {
                Err(ArchiveError::CorruptHeader)
            } else {
                central_from(
                    bytes,
                    end,
                    field32(bytes, end + 16),
                    field16(bytes, end + 10) as nat,
                    Seq::empty(),
                )
            },
        }
    }
}

/// Whether the mark `P K third fourth` stands at `at`.
pub fn mark_at(bytes: &[u8], at: usize, third: u8, fourth: u8) -> (found: bool)
    ensures
        found == has_mark(bytes@, at as int, third, fourth),
{
    if bytes.len() < 4 || at > bytes.len() - 4 {
        return false;
    }
    bytes[at] == 0x50 && bytes[at + 1] == 0x4B && bytes[at + 2] == third && bytes[at + 3] == fourth
}

/// Where the end record stands.
pub fn find_end_record(bytes: &[u8]) -> (found: Option<usize>)
    requires
        bytes@.len() >= 22,
    ensures
        match found {
            Some(at) => end_record_at(bytes@, (bytes@.len() - 22) as nat) == Some(at as int) && at
                + 22 <= bytes@.len(),
            None => end_record_at(bytes@, (bytes@.len() - 22) as nat).is_none(),
        },
{
    let top: usize = bytes.len() - 22;
    let mut at: usize = top;
    loop
        invariant
            at <= top,
            top == bytes@.len() - 22,
            top + 22 <= usize::MAX,
            end_record_at(bytes@, top as nat) == end_record_at(bytes@, at as nat),
        decreases at,
    {
        if mark_at(bytes, at, 5, 6) {
            let comment: usize = read_u16(bytes, at + 20) as usize;
            if comment == top - at {
                return Some(at);
            }
        }
        if at == 0 {
            return None;
        }
        at -= 1;
    }
}

/// Reads the central directory record at `pos`.
#[verifier::rlimit(50)]
pub fn read_entry(bytes: &[u8], limit: usize, pos: usize) -> (result: Result<
    (Option<Member>, usize),
    ArchiveError,
>)
    requires
        limit <= bytes@.len(),
    ensures
        match result {
            Ok((member, next)) => {
                &&& entry_at(bytes@, limit as int, pos as int) == Ok::<
                    (Option<MemberView>, int),
                    ArchiveError,
                >(
                    (
                        (match member {
                            Some(m) => Some(m@),
                            None => None,
                        }),
                        next as int,
                    ),
                )
                &&& next <= limit
                &&& member.is_some() ==> is_normalized(
                    member.unwrap()@.entry.path,
                ) && member.unwrap()@.entry.size == member.unwrap()@.content.len()
            },
            Err(e) => entry_at(bytes@, limit as int, pos as int) == Err::<
                (Option<MemberView>, int),
                ArchiveError,
            >(e),
        },
{
    if pos > limit || limit - pos < 46 || !mark_at(bytes, pos, 1, 2) {
        return Err(ArchiveError::CorruptHeader);
    }
    let flags = read_u16(bytes, pos + 8);
    let method = read_u16(bytes, pos + 10);
    let time = read_u16(bytes, pos + 12);
    let date = read_u16(bytes, pos + 14);
    let crc = read_u32(bytes, pos + 16);
    let stored = read_u32(bytes, pos + 20);
    let size = read_u32(bytes, pos + 24);
    let name_len = read_u16(bytes, pos + 28);
    let extra_len = read_u16(bytes, pos + 30);
    let comment_len = read_u16(bytes, pos + 32);
    let offset = read_u32(bytes, pos + 42);
    let room: u64 = (limit - pos - 46) as u64;
    let tail: u64 = name_len as u64 + extra_len as u64 + comment_len as u64;
    if tail > room {
        return Err(ArchiveError::CorruptHeader);
    }
    let next: usize = pos + 46 + tail as usize;
    if flags % 2 == 1 || method != 0 {
        return Err(ArchiveError::UnsupportedFeature);
    }
    let total: u64 = bytes.len() as u64;
    if stored != size || offset as u64 + 30 > total {
        return Err(ArchiveError::CorruptHeader);
    }
    let local: usize = offset as usize;
    if !mark_at(bytes, local, 3, 4) {
        return Err(ArchiveError::CorruptHeader);
    }
    let start: u64 = offset as u64 + 30 + read_u16(bytes, local + 26) as u64 + read_u16(
        bytes,
        local + 28,
    ) as u64;
    if start + stored as u64 > total {
        return Err(ArchiveError::CorruptHeader);
    }
    let mut name: Vec<u8> = Vec::new();
    append_bytes(&mut name, slice_subrange(bytes, pos + 46, pos + 46 + name_len as usize));
    proof {
        assert(name@ =~= bytes@.subrange(pos + 46, pos + 46 + name_len as int));
    }
    let is_directory = name.len() > 0 && name[name.len() - 1] == 0x2F;
    let text = match text_from_utf8(name) {
        Some(text) => text,
        None => {
            return Err(ArchiveError::CorruptHeader);
        },
    };
    if is_directory && size == 0 {
        return Ok((None, next));
    }
    let from: usize = start as usize;
    let stamp: u32 = (date as u64 * 65536 + time as u64) as u32;
    let mut content: Vec<u8> = Vec::new();
    append_bytes(&mut content, slice_subrange(bytes, from, from + stored as usize));
    proof {
        assert(content@ =~= bytes@.subrange(start as int, start + stored));
    }
    let member = Member {
        entry: Entry {
            path: normalize_path(text.as_str()),
            size: size as u64,
            compressed_size: stored as u64,
            modified: seconds_from_stamp(stamp),
            checksum: Some(crc),
        },
        content,
    };
    Ok((Some(member), next))
}

/// Reads a zip file. The entries come in the order of the central
/// directory; a later entry of the same path takes the place of an
/// earlier one.
#[verifier::rlimit(50)]
pub fn decode(bytes: &[u8]) -> (result: Result<Archive, ArchiveError>)
    ensures
        match result {
            Ok(archive) => {
                &&& decoded(bytes@) == Ok::<Seq<MemberView>, ArchiveError>(archive@.members)
                &&& archive@.codec == CodecKind::Zip
                &&& archive.wf()
            },
            Err(e) => decoded(bytes@) == Err::<Seq<MemberView>, ArchiveError>(e),
        },
{
    if bytes.len() < 22 {
        return Err(ArchiveError::CorruptHeader);
    }
    let end = match find_end_record(bytes) {
        Some(end) => end,
        None => {
            return Err(ArchiveError::CorruptHeader);
        },
    };
    let count = read_u16(bytes, end + 10);
    if read_u16(bytes, end + 4) != 0 || read_u16(bytes, end + 6) != 0 || read_u16(bytes, end + 8)
        != count {
        return Err(ArchiveError::UnsupportedFeature);
    }
    let directory = read_u32(bytes, end + 16);
    if directory as u64 > end as u64 {
        return Err(ArchiveError::CorruptHeader);
    }
    let mut archive = Archive::new(CodecKind::Zip);
    let mut pos: usize = directory as usize;
    let mut left: u16 = count;
    while left > 0
        invariant
            end + 22 <= bytes@.len(),
            pos <= end,
            archive.wf(),
            archive@.codec == CodecKind::Zip,
            decoded(bytes@) == central_from(
                bytes@,
                end as int,
                pos as int,
                left as nat,
                archive@.members,
            ),
        decreases left,
    {
        match read_entry(bytes, end, pos) {
            Err(e) => {
                return Err(e);
            },
            Ok((member, next)) => {
                match member {
                    Some(m) => {
                        archive.put_member(m);
                    },
                    None => {},
                }
                pos = next;
            },
        }
        left -= 1;
    }
    Ok(archive)
}

/// The checksum that is written for a member: the one it came with, or
/// that of its content where it came with none.
pub open spec fn written_crc(member: MemberView) -> u32 {
    match member.entry.checksum {
        Some(crc) => crc,
        None => crc32_of(member.content),
    }
}

/// The fields that the local and the central record share: flags (names
/// are UTF-8), method (stored), the two halves of the time stamp,
/// checksum, both sizes, and the lengths of name and extra field.
pub open spec fn shared_fields(member: MemberView) -> Seq<u8> {
    le16_bytes(0x0800) + le16_bytes(0) + le16_bytes((stamp_of(member.entry.modified) % 65536) as nat)
        + le16_bytes((stamp_of(member.entry.modified) / 65536) as nat) + le32_bytes(
        written_crc(member) as nat,
    ) + le32_bytes(member.content.len()) + le32_bytes(member.content.len()) + le16_bytes(
        encode_utf8(member.entry.path).len(),
    ) + le16_bytes(0)
}

/// The local record of a member, with its name and content.
#[verifier::opaque]
pub open spec fn local_record(member: MemberView) -> Seq<u8> {
    seq![0x50u8, 0x4Bu8, 0x03u8, 0x04u8] + le16_bytes(20) + shared_fields(member) + encode_utf8(
        member.entry.path,
    ) + member.content
}

/// The central directory record of a member whose local record stands
/// at `offset`.
#[verifier::opaque]
pub open spec fn central_record(member: MemberView, offset: nat) -> Seq<u8> {
    seq![0x50u8, 0x4Bu8, 0x01u8, 0x02u8] + le16_bytes(20) + le16_bytes(20) + shared_fields(member)
        + le16_bytes(0) + le16_bytes(0) + le16_bytes(0) + le32_bytes(0) + le32_bytes(offset)
        + encode_utf8(member.entry.path)
}

/// The end record of a directory of `count` records that takes `length`
/// bytes from `offset` on.
#[verifier::opaque]
pub open spec fn end_record(count: nat, length: nat, offset: nat) -> Seq<u8> {
    seq![0x50u8, 0x4Bu8, 0x05u8, 0x06u8] + le16_bytes(0) + le16_bytes(0) + le16_bytes(count)
        + le16_bytes(count) + le32_bytes(length) + le32_bytes(offset) + le16_bytes(0)
}

/// The local records of the members, one after the other.
pub open spec fn locals_of(members: Seq<MemberView>) -> Seq<u8>
    decreases members.len(),
{
    if members.len() == 0 {
        Seq::empty()
    } else {
        locals_of(members.drop_last()) + local_record(members.last())
    }
}

/// The central directory of the members: each record points to where the
/// member's local record stands.
pub open spec fn centrals_of(members: Seq<MemberView>) -> Seq<u8>
    decreases members.len(),
{
    if members.len() == 0 {
        Seq::empty()
    } else {
        centrals_of(members.drop_last()) + central_record(
            members.last(),
            locals_of(members.drop_last()).len(),
        )
    }
}

/// The zip file of the members.
pub open spec fn encoded(members: Seq<MemberView>) -> Seq<u8> {
    locals_of(members) + centrals_of(members) + end_record(
        members.len(),
        centrals_of(members).len(),
        locals_of(members).len(),
    )
}

/// Whether a member can be written: its name takes 1 to 65535 bytes, its
/// content fits 32 bits, and it does not look like a directory.
pub open spec fn encodable_member(member: MemberView) -> bool {
    let name = encode_utf8(member.entry.path);
    &&& 1 <= name.len() <= 65535
    &&& member.content.len() <= u32::MAX
    &&& !(is_directory_name(name) && member.content.len() == 0)
}

/// Whether the members can be written: each of them can, there are at
/// most 65535, and all records together fit 32 bits.
pub open spec fn encodable(members: Seq<MemberView>) -> bool {
    &&& forall|i: int| 0 <= i < members.len() ==> encodable_member(#[trigger] members[i])
    &&& members.len() <= 65535
    &&& locals_of(members).len() + centrals_of(members).len() <= u32::MAX
}

/// The records of a front part are no longer than those of the whole.
pub proof fn lemma_locals_grow(members: Seq<MemberView>, upto: int)
    requires
        0 <= upto <= members.len(),
    ensures
        locals_of(members.take(upto)).len() <= locals_of(members).len(),
        centrals_of(members.take(upto)).len() <= centrals_of(members).len(),
    decreases members.len() - upto,
{
    if upto == members.len() {
        assert(members.take(upto) =~= members);
    } else {
        assert(members.drop_last().take(upto) =~= members.take(upto));
        lemma_locals_grow(members.drop_last(), upto);
    }
}

/// Whether a member can be written.
pub fn can_encode(member: &Member) -> (yes: bool)
    ensures
        yes == encodable_member(member@),
{
    let name = member.entry.path.as_str().as_bytes();
    if name.len() < 1 || name.len() > 65535 {
        return false;
    }
    if member.content.len() as u64 > 0xFFFF_FFFF {
        return false;
    }
    !(name[name.len() - 1] == 0x2F && member.content.len() == 0)
}

/// Writes the fields that the local and the central record share.
#[verifier::rlimit(50)]
pub fn push_shared(out: &mut Vec<u8>, member: &Member)
    requires
        encodable_member(member@),
    ensures
        final(out)@ == old(out)@ + shared_fields(member@),
{
    let crc: u32 = match member.entry.checksum {
        Some(crc) => crc,
        None => crc32(member.content.as_slice()),
    };
    let name = member.entry.path.as_str().as_bytes();
    push_u16(out, 0x0800);
    push_u16(out, 0);
    let stamp: u32 = stamp_from_seconds(member.entry.modified);
    push_u16(out, (stamp % 65536) as u16);
    push_u16(out, (stamp / 65536) as u16);
    push_u32(out, crc);
    push_u32(out, member.content.len() as u32);
    push_u32(out, member.content.len() as u32);
    push_u16(out, name.len() as u16);
    push_u16(out, 0);
    proof {
        assert(final(out)@ =~= old(out)@ + shared_fields(member@));
    }
}

/// Writes the local record of a member.
#[verifier::rlimit(50)]
pub fn push_local(out: &mut Vec<u8>, member: &Member)
    requires
        encodable_member(member@),
    ensures
        final(out)@ == old(out)@ + local_record(member@),
{
    out.push(0x50);
    out.push(0x4B);
    out.push(0x03);
    out.push(0x04);
    push_u16(out, 20);
    push_shared(out, member);
    append_bytes(out, member.entry.path.as_str().as_bytes());
    append_bytes(out, member.content.as_slice());
    proof {
        reveal(local_record);
        assert(final(out)@ =~= old(out)@ + local_record(member@));
    }
}

/// Writes the central directory record of a member.
#[verifier::rlimit(50)]
pub fn push_central(out: &mut Vec<u8>, member: &Member, offset: u32)
    requires
        encodable_member(member@),
    ensures
        final(out)@ == old(out)@ + central_record(member@, offset as nat),
{
    out.push(0x50);
    out.push(0x4B);
    out.push(0x01);
    out.push(0x02);
    push_u16(out, 20);
    push_u16(out, 20);
    push_shared(out, member);
    push_u16(out, 0);
    push_u16(out, 0);
    push_u16(out, 0);
    push_u32(out, 0);
    push_u32(out, offset);
    append_bytes(out, member.entry.path.as_str().as_bytes());
    proof {
        reveal(central_record);
        assert(final(out)@ =~= old(out)@ + central_record(member@, offset as nat));
    }
}

/// Writes the end record.
#[verifier::rlimit(50)]
pub fn push_end(out: &mut Vec<u8>, count: u16, length: u32, offset: u32)
    ensures
        final(out)@ == old(out)@ + end_record(count as nat, length as nat, offset as nat),
{
    out.push(0x50);
    out.push(0x4B);
    out.push(0x05);
    out.push(0x06);
    push_u16(out, 0);
    push_u16(out, 0);
    push_u16(out, count);
    push_u16(out, count);
    push_u32(out, length);
    push_u32(out, offset);
    push_u16(out, 0);
    proof {
        reveal(end_record);
        assert(final(out)@ =~= old(out)@ + end_record(
            count as nat,
            length as nat,
            offset as nat,
        ));
    }
}

/// Writes the local records of the members, and says where each begins.
fn push_locals(out: &mut Vec<u8>, archive: &Archive) -> (offsets: Option<Vec<u32>>)
    requires
        old(out)@.len() == 0,
    ensures
        match offsets {
            Some(starts) => {
                &&& forall|j: int|
                    0 <= j < archive@.members.len() ==> encodable_member(
                        #[trigger] archive@.members[j],
                    )
                &&& final(out)@ == locals_of(archive@.members)
                &&& starts@.len() == archive@.members.len()
                &&& forall|j: int|
                    0 <= j < starts@.len() ==> (#[trigger] starts@[j]) as nat == locals_of(
                        archive@.members.take(j),
                    ).len()
            },
            None => !encodable(archive@.members),
        },
{
    let ghost members = archive@.members;
    let count: usize = archive.members.len();
    let mut offsets: Vec<u32> = Vec::new();
    let mut i: usize = 0;
    proof {
        assert(out@ =~= locals_of(members.take(0)));
    }
    while i < count
        invariant
            i <= count,
            count == archive.members.len(),
            members == archive@.members,
            members.len() == count,
            forall|j: int| 0 <= j < i ==> encodable_member(#[trigger] members[j]),
            out@ == locals_of(members.take(i as int)),
            offsets@.len() == i,
            forall|j: int|
                0 <= j < i ==> (#[trigger] offsets@[j]) as nat == locals_of(members.take(j)).len(),
        decreases count - i,
    {
        let member = &archive.members[i];
        proof {
            assert(members[i as int] == member@);
            assert(members.take(i + 1).drop_last() =~= members.take(i as int));
            assert(members.take(i + 1).last() == member@);
            lemma_locals_grow(members, i as int);
        }
        if !can_encode(member) || out.len() as u64 > 0xFFFF_FFFF {
            return None;
        }
        offsets.push(out.len() as u32);
        push_local(out, member);
        i += 1;
    }
    proof {
        assert(members.take(count as int) =~= members);
    }
    Some(offsets)
}

/// Writes the central directory of the members.
fn push_centrals(out: &mut Vec<u8>, archive: &Archive, offsets: &Vec<u32>)
    requires
        forall|j: int|
            0 <= j < archive@.members.len() ==> encodable_member(#[trigger] archive@.members[j]),
        offsets@.len() == archive@.members.len(),
        forall|j: int|
            0 <= j < offsets@.len() ==> (#[trigger] offsets@[j]) as nat == locals_of(
                archive@.members.take(j),
            ).len(),
    ensures
        final(out)@ == old(out)@ + centrals_of(archive@.members),
{
    let ghost members = archive@.members;
    let ghost before = out@;
    let count: usize = archive.members.len();
    let mut k: usize = 0;
    proof {
        assert(out@ =~= before + centrals_of(members.take(0)));
    }
    while k < count
        invariant
            k <= count,
            count == archive.members.len(),
            members == archive@.members,
            members.len() == count,
            forall|j: int| 0 <= j < count ==> encodable_member(#[trigger] members[j]),
            out@ == before + centrals_of(members.take(k as int)),
            offsets@.len() == count,
            forall|j: int|
                0 <= j < count ==> (#[trigger] offsets@[j]) as nat == locals_of(
                    members.take(j),
                ).len(),
        decreases count - k,
    {
        let member = &archive.members[k];
        let ghost sofar = centrals_of(members.take(k as int));
        proof {
            assert(members[k as int] == member@);
            assert(members.take(k + 1).drop_last() =~= members.take(k as int));
            assert(members.take(k + 1).last() == member@);
        }
        push_central(out, member, offsets[k]);
        proof {
            let record = central_record(member@, offsets@[k as int] as nat);
            assert(centrals_of(members.take(k + 1)) == sofar + record);
            assert(out@ =~= before + (sofar + record));
        }
        k += 1;
    }
    proof {
        assert(members.take(count as int) =~= members);
    }
}

/// Writes the members as a zip file. Where they cannot be written (a
/// name empty, too long or that of a directory, a content or the whole
/// too large for 32 bits, more than 65535 members), nothing is written.
/// A time that a stamp cannot hold is written as the nearest that it can.
pub fn encode(archive: &Archive) -> (result: Result<Vec<u8>, ArchiveError>)
    ensures
        match result {
            Ok(bytes) => encodable(archive@.members) && bytes@ == encoded(archive@.members),
            Err(e) => e == ArchiveError::UnsupportedFeature && !encodable(archive@.members),
        },
{
    let count: usize = archive.members.len();
    if count > 65535 {
        return Err(ArchiveError::UnsupportedFeature);
    }
    let mut out: Vec<u8> = Vec::new();
    let offsets = match push_locals(&mut out, archive) {
        Some(offsets) => offsets,
        None => {
            return Err(ArchiveError::UnsupportedFeature);
        },
    };
    let directory: usize = out.len();
    push_centrals(&mut out, archive, &offsets);
    if out.len() as u64 > 0xFFFF_FFFF {
        return Err(ArchiveError::UnsupportedFeature);
    }
    let length: usize = out.len() - directory;
    push_end(&mut out, count as u16, length as u32, directory as u32);
    Ok(out)
}

} // verus!
