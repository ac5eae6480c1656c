//! The gzip codec: one entry behind a ten-byte header and its name, as a
//! run of stored blocks, and a trailer with checksum and length.
//!
//! Read and written are stored blocks. Compressed blocks, and the header
//! extensions but the name, are features not covered.

use vstd::prelude::*;
use vstd::slice::slice_subrange;
use vstd::utf8::decode_utf8;
use vstd::utf8::encode_utf8;
use vstd::utf8::valid_utf8;
use crate::archive::Archive;
use crate::archive::Entry;
use crate::archive::EntryView;
use crate::archive::Member;
use crate::archive::MemberView;
use crate::bytes::append_bytes;
use crate::bytes::field_text;
use crate::bytes::lemma_text_len_bound;
use crate::bytes::text_in;
use crate::bytes::text_from_utf8;
use crate::error::ArchiveError;
use crate::format::CodecKind;
use crate::hasher::crc32;
use crate::hasher::crc32_of;
use crate::little_endian::field16;
use crate::little_endian::field32;
use crate::little_endian::le16_bytes;
use crate::little_endian::le32_bytes;
use crate::little_endian::push_u16;
use crate::little_endian::push_u32;
use crate::little_endian::read_u16;
use crate::little_endian::read_u32;
use crate::path::normalize_path;
use crate::path::normalized;

verus! {

/// The most that one stored block holds.
pub const BLOCK_MAX: usize = 65535;

/// Length of the header before the name.
pub const HEAD_LEN: usize = 10;

/// Length of the trailer.
pub const TRAILER_LEN: usize = 8;

/// What the header says: the name, where the blocks begin, and the time.
pub struct HeadView {
    pub name: Seq<u8>,
    pub start: int,
    pub modified: u64,
}

/// What the header of a gzip stream says. The mark, the method and the
/// flags must be those of gzip, and a name must end within the bytes;
/// else the header is corrupt. Of the extensions only the name is read;
/// a stream with another is a feature not covered.
pub open spec fn parsed_head(bytes: Seq<u8>) -> Result<HeadView, ArchiveError> {
    if bytes.len() < 10 || bytes[0] != 0x1F || bytes[1] != 0x8B || bytes[2] != 0x08 || bytes[3]
        >= 32 {
        Err(ArchiveError::CorruptHeader)
    } else if (bytes[3] / 2) % 2 == 1 || (bytes[3] / 4) % 2 == 1 || (bytes[3] / 16) % 2 == 1 {
        Err(ArchiveError::UnsupportedFeature)
    } else if (bytes[3] / 8) % 2 == 0 {
        Ok(HeadView { name: Seq::empty(), start: 10, modified: field32(bytes, 4) as u64 })
    } else {
        let name = text_in(bytes.skip(10));
        if 10 + name.len() >= bytes.len() {
            Err(ArchiveError::CorruptHeader)
        } else {
            Ok(HeadView { name, start: 11 + name.len() as int, modified: field32(bytes, 4) as u64 })
        }
    }
}

/// The content of the stored blocks from `pos` on, after the content
/// `sofar`, and where the last block ends. A block that is not stored is
/// a feature not covered; a block whose two length fields do not agree,
/// or that does not lie within the bytes, is corrupt.
pub open spec fn stored_from(bytes: Seq<u8>, pos: int, sofar: Seq<u8>) -> Result<
    (Seq<u8>, int),
    ArchiveError,
>
    decreases bytes.len() - pos,
{
    if pos < 0 || pos + 5 > bytes.len() {
        Err(ArchiveError::CorruptHeader)
    } else if (bytes[pos] / 2) % 4 != 0 {
        Err(ArchiveError::UnsupportedFeature)
    } else {
        let len = field16(bytes, pos + 1);
        let end = pos + 5 + len;
        if len + field16(bytes, pos + 3) != 65535 || end > bytes.len() {
            Err(ArchiveError::CorruptHeader)
        } else if bytes[pos] % 2 == 1 {
            Ok((sofar + bytes.subrange(pos + 5, end), end))
        } else {
            stored_from(bytes, end, sofar + bytes.subrange(pos + 5, end))
        }
    }
}

/// The one member that a gzip stream holds, or why it cannot be read.
/// The length in the trailer must be that of the content. The checksum
/// in the trailer is not held against the content here.
pub open spec fn decoded(bytes: Seq<u8>) -> Result<Seq<MemberView>, ArchiveError> {
    match parsed_head(bytes) {
        Err(e) => Err(e),
        Ok(head) => match stored_from(bytes, head.start, Seq::empty()) {
            Err(e) => Err(e),
            Ok((content, end)) => if end + 8 > bytes.len() || field32(bytes, end + 4)
                != content.len() % 0x1_0000_0000 || !valid_utf8(head.name) {
                Err(ArchiveError::CorruptHeader)
            } else {
                Ok(
                    seq![
                        MemberView {
                            entry: EntryView {
                                path: normalized(decode_utf8(head.name)),
                                size: content.len() as u64,
                                compressed_size: content.len() as u64,
                                modified: head.modified,
                                checksum: None,
                            },
                            content,
                        },
                    ],
                )
            },
        },
    }
}

/// The header of a stream: with the name and its closing zero where
/// there is a name, without both where there is none.
pub open spec fn head_of(name: Seq<u8>, modified: nat) -> Seq<u8> {
    if name.len() == 0 {
        seq![0x1Fu8, 0x8Bu8, 0x08u8, 0x00u8] + le32_bytes(modified) + seq![0x00u8, 0xFFu8]
    } else {
        seq![0x1Fu8, 0x8Bu8, 0x08u8, 0x08u8] + le32_bytes(modified) + seq![0x00u8, 0xFFu8] + name
            + seq![0x00u8]
    }
}

/// One stored block: whether it is the last, its length twice over, and
/// its bytes.
pub open spec fn block_of(chunk: Seq<u8>, last: bool) -> Seq<u8> {
    seq![if last {
        1u8
    } else {
        0u8
    }] + le16_bytes(chunk.len()) + le16_bytes((65535 - chunk.len()) as nat) + chunk
}

/// The content as stored blocks, each but the last one full.
pub open spec fn blocks_of(content: Seq<u8>) -> Seq<u8>
    decreases content.len(),
{
    if content.len() <= 65535 {
        block_of(content, true)
    } else {
        block_of(content.take(65535), false) + blocks_of(content.skip(65535))
    }
}

/// The trailer: the checksum of the content, and its length in 32 bits.
pub open spec fn trailer_of(content: Seq<u8>) -> Seq<u8> {
    le32_bytes(crc32_of(content) as nat) + le32_bytes(content.len() % 0x1_0000_0000)
}

/// The gzip stream of a member.
pub open spec fn encoded_member(member: MemberView) -> Seq<u8> {
    head_of(encode_utf8(member.entry.path), member.entry.modified as nat) + blocks_of(
        member.content,
    ) + trailer_of(member.content)
}

/// Whether the members can be written: there is exactly one, its name
/// holds no zero byte, and its time fits 32 bits.
pub open spec fn encodable(members: Seq<MemberView>) -> bool {
    &&& members.len() == 1
    &&& forall|i: int|
        0 <= i < encode_utf8(members[0].entry.path).len() ==> encode_utf8(
            members[0].entry.path,
        )[i] != 0
    &&& members[0].entry.modified <= u32::MAX
}

/// The gzip stream of the one member.
pub open spec fn encoded(members: Seq<MemberView>) -> Seq<u8>
    recommends
        members.len() == 1,
{
    encoded_member(members[0])
}

/// What the header says.
pub struct Head {
    pub name: Vec<u8>,
    pub start: usize,
    pub modified: u64,
}

impl View for Head {
    type V = HeadView;

    open spec fn view(&self) -> HeadView {
        HeadView { name: self.name@, start: self.start as int, modified: self.modified }
    }
}

/// Reads the header of a gzip stream.
#[verifier::rlimit(50)]
pub fn read_head(bytes: &[u8]) -> (result: Result<Head, ArchiveError>)
    ensures
        match result {
            Ok(head) => parsed_head(bytes@) == Ok::<HeadView, ArchiveError>(head@) && head.start
                <= bytes@.len(),
            Err(e) => parsed_head(bytes@) == Err::<HeadView, ArchiveError>(e),
        },
{
    if bytes.len() < 10 || bytes[0] != 0x1F || bytes[1] != 0x8B || bytes[2] != 0x08 || bytes[3]
        >= 32 {
        return Err(ArchiveError::CorruptHeader);
    }
    let flags: u8 = bytes[3];
    if (flags / 2) % 2 == 1 || (flags / 4) % 2 == 1 || (flags / 16) % 2 == 1 {
        return Err(ArchiveError::UnsupportedFeature);
    }
    let modified: u64 = read_u32(bytes, 4) as u64;
    if (flags / 8) % 2 == 0 {
        return Ok(Head { name: Vec::new(), start: 10, modified });
    }
    let name = field_text(slice_subrange(bytes, 10, bytes.len()));
    proof {
        assert(bytes@.subrange(10, bytes@.len() as int) =~= bytes@.skip(10));
        lemma_text_len_bound(bytes@.skip(10));
    }
    if name.len() >= bytes.len() - 10 {
        return Err(ArchiveError::CorruptHeader);
    }
    let start: usize = 11 + name.len();
    Ok(Head { name, start, modified })
}

/// Reads the stored blocks from `pos` on.
#[verifier::rlimit(50)]
pub fn read_stored(bytes: &[u8], pos: usize) -> (result: Result<(Vec<u8>, usize), ArchiveError>)
    requires
        pos <= bytes@.len(),
    ensures
        match result {
            Ok((content, end)) => stored_from(bytes@, pos as int, Seq::empty()) == Ok::<
                (Seq<u8>, int),
                ArchiveError,
            >((content@, end as int)) && end <= bytes@.len(),
            Err(e) => stored_from(bytes@, pos as int, Seq::empty()) == Err::<
                (Seq<u8>, int),
                ArchiveError,
            >(e),
        },
{
    let mut content: Vec<u8> = Vec::new();
    let mut at: usize = pos;
    loop
        invariant
            at <= bytes@.len(),
            stored_from(bytes@, pos as int, Seq::empty()) == stored_from(
                bytes@,
                at as int,
                content@,
            ),
        decreases bytes@.len() - at,
    {
        if bytes.len() - at < 5 {
            return Err(ArchiveError::CorruptHeader);
        }
        let kind: u8 = bytes[at];
        if (kind / 2) % 4 != 0 {
            return Err(ArchiveError::UnsupportedFeature);
        }
        let len: usize = read_u16(bytes, at + 1) as usize;
        let check: usize = read_u16(bytes, at + 3) as usize;
        if len + check != 65535 || len > bytes.len() - at - 5 {
            return Err(ArchiveError::CorruptHeader);
        }
        let end: usize = at + 5 + len;
        append_bytes(&mut content, slice_subrange(bytes, at + 5, end));
        if kind % 2 == 1 {
            return Ok((content, end));
        }
        at = end;
    }
}

/// Reads a gzip stream: its one entry.
#[verifier::rlimit(50)]
pub fn decode(bytes: &[u8]) -> (result: Result<Archive, ArchiveError>)
    ensures
        match result {
            Ok(archive) => {
                &&& decoded(bytes@) == Ok::<Seq<MemberView>, ArchiveError>(archive@.members)
                &&& archive@.codec == CodecKind::Gzip
                &&& archive.wf()
            },
            Err(e) => decoded(bytes@) == Err::<Seq<MemberView>, ArchiveError>(e),
        },
{
    let head = match read_head(bytes) {
        Ok(head) => head,
        Err(e) => {
            return Err(e);
        },
    };
    let (content, end) = match read_stored(bytes, head.start) {
        Ok(read) => read,
        Err(e) => {
            return Err(e);
        },
    };
    if bytes.len() - end < 8 {
        return Err(ArchiveError::CorruptHeader);
    }
    let said: u64 = read_u32(bytes, end + 4) as u64;
    if said != (content.len() as u64) % 0x1_0000_0000 {
        return Err(ArchiveError::CorruptHeader);
    }
    let modified = head.modified;
    let text = match text_from_utf8(head.name) {
        Some(text) => text,
        None => {
            return Err(ArchiveError::CorruptHeader);
        },
    };
    let size: u64 = content.len() as u64;
    let member = Member {
        entry: Entry {
            path: normalize_path(text.as_str()),
            size,
            compressed_size: size,
            modified,
            checksum: None,
        },
        content,
    };
    let mut archive = Archive::new(CodecKind::Gzip);
    archive.put_member(member);
    proof {
        assert(archive@.members =~= seq![member@]);
    }
    Ok(archive)
}

/// Writes the header.
#[verifier::rlimit(50)]
pub fn push_head(out: &mut Vec<u8>, name: &[u8], modified: u32)
    ensures
        final(out)@ == old(out)@ + head_of(name@, modified as nat),
{
    out.push(0x1F);
    out.push(0x8B);
    out.push(0x08);
    if name.len() == 0 {
        out.push(0x00);
        push_u32(out, modified);
        out.push(0x00);
        out.push(0xFF);
        proof {
            assert(final(out)@ =~= old(out)@ + head_of(name@, modified as nat));
        }
    } else {
        out.push(0x08);
        push_u32(out, modified);
        out.push(0x00);
        out.push(0xFF);
        append_bytes(out, name);
        out.push(0x00);
        proof {
            assert(final(out)@ =~= old(out)@ + head_of(name@, modified as nat));
        }
    }
}

/// Writes one stored block.
pub fn push_block(out: &mut Vec<u8>, chunk: &[u8], last: bool)
    requires
        chunk@.len() <= 65535,
    ensures
        final(out)@ == old(out)@ + block_of(chunk@, last),
{
    out.push(if last {
        1
    } else {
        0
    });
    push_u16(out, chunk.len() as u16);
    push_u16(out, (65535 - chunk.len()) as u16);
    append_bytes(out, chunk);
    proof {
        assert(final(out)@ =~= old(out)@ + block_of(chunk@, last));
    }
}

/// Writes the content as stored blocks.
#[verifier::rlimit(50)]
pub fn push_blocks(out: &mut Vec<u8>, content: &[u8])
    ensures
        final(out)@ == old(out)@ + blocks_of(content@),
{
    let ghost before = out@;
    let mut done: usize = 0;
    proof {
        assert(content@.skip(0) =~= content@);
    }
    while content.len() - done > 65535
        invariant
            done <= content.len(),
            out@ + blocks_of(content@.skip(done as int)) == before + blocks_of(content@),
        decreases content.len() - done,
    {
        let ghost rest = content@.skip(done as int);
        let ghost sofar = out@;
        push_block(out, slice_subrange(content, done, done + 65535), false);
        proof {
            assert(content@.subrange(done as int, done + 65535) =~= rest.take(65535));
            assert(content@.skip(done + 65535) =~= rest.skip(65535));
            assert(out@ + blocks_of(rest.skip(65535)) =~= sofar + blocks_of(rest));
        }
        done += 65535;
    }
    let ghost rest = content@.skip(done as int);
    let ghost sofar = out@;
    push_block(out, slice_subrange(content, done, content.len()), true);
    proof {
        assert(content@.subrange(done as int, content.len() as int) =~= rest);
        assert(out@ =~= sofar + blocks_of(rest));
    }
}

/// Whether the name holds no zero byte.
pub fn has_no_zero(name: &[u8]) -> (yes: bool)
    ensures
        yes == (forall|i: int| 0 <= i < name@.len() ==> name@[i] != 0),
{
    let mut i: usize = 0;
    while i < name.len()
        invariant
            i <= name.len(),
            forall|j: int| 0 <= j < i ==> name@[j] != 0,
        decreases name.len() - i,
    {
        if name[i] == 0 {
            return false;
        }
        i += 1;
    }
    true
}

/// Writes the one member as a gzip stream. Where there is not exactly
/// one member, or its name holds a zero byte, or its time does not fit
/// 32 bits, nothing is written.
pub fn encode(archive: &Archive) -> (result: Result<Vec<u8>, ArchiveError>)
    ensures
        match result {
            Ok(bytes) => encodable(archive@.members) && bytes@ == encoded(archive@.members),
            Err(e) => e == ArchiveError::UnsupportedFeature && !encodable(archive@.members),
        },
{
    if archive.members.len() != 1 {
        return Err(ArchiveError::UnsupportedFeature);
    }
    let member = &archive.members[0];
    proof {
        assert(archive@.members[0] == member@);
    }
    let name = member.entry.path.as_str().as_bytes();
    if !has_no_zero(name) || member.entry.modified > 0xFFFF_FFFF {
        return Err(ArchiveError::UnsupportedFeature);
    }
    let mut out: Vec<u8> = Vec::new();
    push_head(&mut out, name, member.entry.modified as u32);
    push_blocks(&mut out, member.content.as_slice());
    push_u32(&mut out, crc32(member.content.as_slice()));
    push_u32(&mut out, ((member.content.len() as u64) % 0x1_0000_0000) as u32);
    proof {
        assert(out@ =~= encoded(archive@.members));
    }
    Ok(out)
}

} // verus!
