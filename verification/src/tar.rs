//! The tar codec: a container as a run of 512-byte blocks. Each entry is
//! a header block and its content, filled up to whole blocks; a block of
//! zeros ends the run.
//!
//! Read and written are regular files with a name of up to 100 bytes.
//! Directories are passed over. Links, long names and the other header
//! extensions are not covered.

use vstd::prelude::*;
use vstd::slice::slice_subrange;
use vstd::utf8::decode_utf8;
use vstd::utf8::encode_utf8;
use vstd::utf8::valid_utf8;
use crate::add::put;
use crate::archive::Archive;
use crate::archive::Entry;
use crate::archive::EntryView;
use crate::archive::Member;
use crate::archive::MemberView;
use crate::bytes::append_bytes;
use crate::bytes::append_zeros;
use crate::bytes::field_text;
use crate::bytes::text_in;
use crate::bytes::text_from_utf8;
use crate::bytes::zeros;
use crate::error::ArchiveError;
use crate::format::CodecKind;
use crate::octal::byte_sum;
use crate::octal::lemma_octal_text_len;
use crate::octal::lemma_octal_value_bound;
use crate::octal::lemma_pow8_values;
use crate::octal::octal_text;
use crate::octal::octal_value;
use crate::octal::parse_octal;
use crate::octal::push_octal;
use crate::octal::sum_bytes;
use crate::path::normalize_path;
use crate::path::normalized;

verus! {

/// Length of a block.
pub const BLOCK: usize = 512;

/// Length of the name field.
pub const NAME_LEN: usize = 100;

/// The largest number that an eleven-digit field holds.
pub const FIELD_MAX: u64 = 8589934591;

/// What a header block says of its entry.
#[derive(Debug)]
pub struct Header {
    /// The name as it stands in the block, up to its first zero byte.
    pub name: Vec<u8>,
    pub size: u64,
    pub modified: u64,
    /// A regular file; else a directory.
    pub is_file: bool,
}

/// A header as contracts speak of it.
pub struct HeaderView {
    pub name: Seq<u8>,
    pub size: u64,
    pub modified: u64,
    pub is_file: bool,
}

impl View for Header {
    type V = HeaderView;

    open spec fn view(&self) -> HeaderView {
        HeaderView {
            name: self.name@,
            size: self.size,
            modified: self.modified,
            is_file: self.is_file,
        }
    }
}

/// Every byte is zero.
pub open spec fn is_zero_block(block: Seq<u8>) -> bool {
    forall|i: int| 0 <= i < block.len() ==> block[i] == 0
}

/// The sum of a header block's bytes, the checksum field counted as eight
/// spaces.
pub open spec fn block_sum(block: Seq<u8>) -> nat {
    byte_sum(block.subrange(0, 148)) + 256 + byte_sum(block.subrange(156, 512))
}

/// The content's length filled up to whole blocks.
pub open spec fn padded(size: nat) -> nat {
    ((size + 511) / 512) * 512
}

/// What a header block says. The checksum field must hold the block's
/// sum, and the size and time fields eleven octal digits each; else the
/// header is corrupt. A name prefix, and any type but regular file and
/// directory, is a feature not covered.
pub open spec fn parsed_header(block: Seq<u8>) -> Result<HeaderView, ArchiveError>
    recommends
        block.len() == 512,
{
    let stated = octal_value(block.subrange(148, 154));
    let size = octal_value(block.subrange(124, 135));
    let modified = octal_value(block.subrange(136, 147));
    if stated != Some(block_sum(block)) || size.is_none() || modified.is_none() {
        Err(ArchiveError::CorruptHeader)
    } else if block[345] != 0 || !(block[156] == 0x30 || block[156] == 0 || block[156] == 0x35) {
        Err(ArchiveError::UnsupportedFeature)
    } else {
        Ok(
            HeaderView {
                name: text_in(block.subrange(0, 100)),
                size: size.unwrap() as u64,
                modified: modified.unwrap() as u64,
                is_file: block[156] != 0x35,
            },
        )
    }
}

/// The member that a header and its content make.
pub open spec fn member_of(header: HeaderView, content: Seq<u8>) -> MemberView {
    MemberView {
        entry: EntryView {
            path: normalized(decode_utf8(header.name)),
            size: header.size,
            compressed_size: header.size,
            modified: header.modified,
            checksum: None,
        },
        content,
    }
}

/// What the blocks from `pos` on hold, after the members `found` so far.
/// A later entry of the same path takes the place of an earlier one.
pub open spec fn decoded_from(bytes: Seq<u8>, pos: nat, found: Seq<MemberView>) -> Result<
    Seq<MemberView>,
    ArchiveError,
>
    decreases bytes.len() - pos,
{
    if pos >= bytes.len() {
        Ok(found)
    } else if pos + 512 > bytes.len() {
        Err(ArchiveError::CorruptHeader)
    } else {
        let block = bytes.subrange(pos as int, pos as int + 512);
        if is_zero_block(block) {
            Ok(found)
        } else {
            match parsed_header(block) {
                Err(e) => Err(e),
                Ok(header) => {
                    let start = pos + 512;
                    let next = start + padded(header.size as nat);
                    if next > bytes.len() {
                        Err(ArchiveError::CorruptHeader)
                    } else if !header.is_file {
                        decoded_from(bytes, next, found)
                    } else if !valid_utf8(header.name) {
                        Err(ArchiveError::CorruptHeader)
                    } else {
                        decoded_from(
                            bytes,
                            next,
                            put(
                                found,
                                member_of(
                                    header,
                                    bytes.subrange(start as int, start as int + header.size as int),
                                ),
                            ),
                        )
                    }
                },
            }
        }
    }
}

/// The members that a tar stream holds, or why it cannot be read.
pub open spec fn decoded(bytes: Seq<u8>) -> Result<Seq<MemberView>, ArchiveError> {
    decoded_from(bytes, 0, Seq::empty())
}

/// The first 148 bytes of a header: name, mode, owner, group, size, time.
pub open spec fn header_front(name: Seq<u8>, size: nat, modified: nat) -> Seq<u8> {
    name + zeros((100 - name.len()) as nat) + octal_text(420, 7).push(0) + octal_text(0, 7).push(0)
        + octal_text(0, 7).push(0) + octal_text(size, 11).push(0) + octal_text(modified, 11).push(
        0,
    )
}

/// The last 356 bytes of a header: the type of a regular file, no link,
/// the `ustar` mark and its version, and zeros.
pub open spec fn header_back() -> Seq<u8> {
    seq![0x30u8] + zeros(100) + seq![0x75u8, 0x73u8, 0x74u8, 0x61u8, 0x72u8, 0x00u8, 0x30u8, 0x30u8]
        + zeros(247)
}

/// The header block of a regular file.
pub open spec fn header_block(name: Seq<u8>, size: nat, modified: nat) -> Seq<u8> {
    let front = header_front(name, size, modified);
    let back = header_back();
    front + octal_text(byte_sum(front) + 256 + byte_sum(back), 6) + seq![0x00u8, 0x20u8] + back
}

/// Whether a member can be written: its name takes 1 to 100 bytes, none
/// of them zero, and its size and time fit eleven octal digits.
pub open spec fn encodable_member(member: MemberView) -> bool {
    let name = encode_utf8(member.entry.path);
    &&& 1 <= name.len() <= 100
    &&& forall|i: int| 0 <= i < name.len() ==> name[i] != 0
    &&& member.content.len() <= FIELD_MAX
    &&& member.entry.modified <= FIELD_MAX
}

/// Whether every member can be written.
pub open spec fn encodable(members: Seq<MemberView>) -> bool {
    forall|i: int| 0 <= i < members.len() ==> encodable_member(#[trigger] members[i])
}

/// The blocks of one member: header, content, and zeros up to a whole block.
pub open spec fn record_of(member: MemberView) -> Seq<u8> {
    header_block(
        encode_utf8(member.entry.path),
        member.content.len(),
        member.entry.modified as nat,
    ) + member.content + zeros((padded(member.content.len()) - member.content.len()) as nat)
}

/// The blocks of the members, one after the other.
pub open spec fn records_of(members: Seq<MemberView>) -> Seq<u8>
    decreases members.len(),
{
    if members.len() == 0 {
        Seq::empty()
    } else {
        records_of(members.drop_last()) + record_of(members.last())
    }
}

/// The tar stream of the members: their blocks and two blocks of zeros.
pub open spec fn encoded(members: Seq<MemberView>) -> Seq<u8> {
    records_of(members) + zeros(1024)
}

/// Whether every byte is zero.
pub fn all_zero(block: &[u8]) -> (yes: bool)
    ensures
        yes == is_zero_block(block@),
{
    let mut i: usize = 0;
    while i < block.len()
        invariant
            i <= block.len(),
            forall|j: int| 0 <= j < i ==> block@[j] == 0,
        decreases block.len() - i,
    {
        if block[i] != 0 {
            return false;
        }
        i += 1;
    }
    true
}

/// Reads a header block.
#[verifier::rlimit(50)]
pub fn read_header(block: &[u8]) -> (result: Result<Header, ArchiveError>)
    requires
        block@.len() == 512,
    ensures
        match result {
            Ok(header) => parsed_header(block@) == Ok::<HeaderView, ArchiveError>(header@),
            Err(e) => parsed_header(block@) == Err::<HeaderView, ArchiveError>(e),
        },
{
    let stated = parse_octal(slice_subrange(block, 148, 154));
    let size = parse_octal(slice_subrange(block, 124, 135));
    let modified = parse_octal(slice_subrange(block, 136, 147));
    let sum: u64 = sum_bytes(block, 0, 148) + 256 + sum_bytes(block, 156, 512);
    match (stated, size, modified) {
        (Some(stated), Some(size), Some(modified)) => {
            if stated != sum {
                return Err(ArchiveError::CorruptHeader);
            }
            let kind = block[156];
            if block[345] != 0 || !(kind == 0x30 || kind == 0 || kind == 0x35) {
                return Err(ArchiveError::UnsupportedFeature);
            }
            Ok(
                Header {
                    name: field_text(slice_subrange(block, 0, 100)),
                    size,
                    modified,
                    is_file: kind != 0x35,
                },
            )
        },
        _ => Err(ArchiveError::CorruptHeader),
    }
}

/// Writes the header block of a regular file.
#[verifier::rlimit(50)]
pub fn push_header(out: &mut Vec<u8>, name: &[u8], size: u64, modified: u64)
    requires
        name@.len() <= 100,
    ensures
        final(out)@ == old(out)@ + header_block(name@, size as nat, modified as nat),
{
    let mut front: Vec<u8> = Vec::new();
    append_bytes(&mut front, name);
    append_zeros(&mut front, 100 - name.len());
    push_octal(&mut front, 420, 7);
    front.push(0);
    push_octal(&mut front, 0, 7);
    front.push(0);
    push_octal(&mut front, 0, 7);
    front.push(0);
    push_octal(&mut front, size, 11);
    front.push(0);
    push_octal(&mut front, modified, 11);
    front.push(0);
    proof {
        lemma_octal_text_len(420, 7);
        lemma_octal_text_len(0, 7);
        lemma_octal_text_len(size as nat, 11);
        lemma_octal_text_len(modified as nat, 11);
        assert(front@ =~= header_front(name@, size as nat, modified as nat));
        assert(front@.len() == 148);
    }
    let mut back: Vec<u8> = Vec::new();
    back.push(0x30);
    append_zeros(&mut back, 100);
    back.push(0x75);
    back.push(0x73);
    back.push(0x74);
    back.push(0x61);
    back.push(0x72);
    back.push(0x00);
    back.push(0x30);
    back.push(0x30);
    append_zeros(&mut back, 247);
    proof {
        assert(back@ =~= header_back());
        assert(back@.len() == 356);
        assert(front@.subrange(0, 148) =~= front@);
        assert(back@.subrange(0, 356) =~= back@);
    }
    let sum: u64 = sum_bytes(front.as_slice(), 0, 148) + 256 + sum_bytes(back.as_slice(), 0, 356);
    append_bytes(out, front.as_slice());
    push_octal(out, sum, 6);
    out.push(0x00);
    out.push(0x20);
    append_bytes(out, back.as_slice());
    proof {
        assert(final(out)@ =~= old(out)@ + header_block(name@, size as nat, modified as nat));
    }
}

/// Reads a tar stream. The entries come in the order of the stream; a
/// later entry of the same path takes the place of an earlier one.
#[verifier::rlimit(50)]
pub fn decode(bytes: &[u8]) -> (result: Result<Archive, ArchiveError>)
    ensures
        match result {
            Ok(archive) => {
                &&& decoded(bytes@) == Ok::<Seq<MemberView>, ArchiveError>(archive@.members)
                &&& archive@.codec == CodecKind::Tar
                &&& archive.wf()
            },
            Err(e) => decoded(bytes@) == Err::<Seq<MemberView>, ArchiveError>(e),
        },
{
    let mut archive = Archive::new(CodecKind::Tar);
    let mut pos: usize = 0;
    while pos < bytes.len()
        invariant
            pos <= bytes.len(),
            archive.wf(),
            archive@.codec == CodecKind::Tar,
            decoded(bytes@) == decoded_from(bytes@, pos as nat, archive@.members),
        decreases bytes.len() - pos,
    {
        if bytes.len() - pos < 512 {
            return Err(ArchiveError::CorruptHeader);
        }
        let block = slice_subrange(bytes, pos, pos + 512);
        if all_zero(block) {
            return Ok(archive);
        }
        let header = match read_header(block) {
            Ok(header) => header,
            Err(e) => {
                return Err(e);
            },
        };
        let start: usize = pos + 512;
        let room: u64 = (bytes.len() - start) as u64;
        proof {
            lemma_octal_value_bound(block@.subrange(124, 135));
            lemma_pow8_values();
        }
        let filled: u64 = ((header.size + 511) / 512) * 512;
        if filled > room {
            return Err(ArchiveError::CorruptHeader);
        }
        let next: usize = start + filled as usize;
        if header.is_file {
            let ghost name = header.name@;
            let size: usize = header.size as usize;
            let text = match text_from_utf8(header.name) {
                Some(text) => text,
                None => {
                    return Err(ArchiveError::CorruptHeader);
                },
            };
            let mut content: Vec<u8> = Vec::new();
            append_bytes(&mut content, slice_subrange(bytes, start, start + size));
            let member = Member {
                entry: Entry {
                    path: normalize_path(text.as_str()),
                    size: header.size,
                    compressed_size: header.size,
                    modified: header.modified,
                    checksum: None,
                },
                content,
            };
            proof {
                assert(content@ =~= bytes@.subrange(start as int, start + size));
            }
            archive.put_member(member);
        }
        pos = next;
    }
    Ok(archive)
}

/// Whether a member can be written.
pub fn can_encode(member: &Member) -> (yes: bool)
    ensures
        yes == encodable_member(member@),
{
    let name = member.entry.path.as_str().as_bytes();
    if name.len() < 1 || name.len() > 100 {
        return false;
    }
    let mut i: usize = 0;
    while i < name.len()
        invariant
            i <= name.len(),
            name@ == encode_utf8(member@.entry.path),
            forall|j: int| 0 <= j < i ==> name@[j] != 0,
        decreases name.len() - i,
    {
        if name[i] == 0 {
            return false;
        }
        i += 1;
    }
    member.content.len() as u64 <= FIELD_MAX && member.entry.modified <= FIELD_MAX
}

/// Writes the members as a tar stream. Where a member cannot be written
/// (its name too long, empty or with a zero byte, its size or time too
/// large), nothing is written.
#[verifier::rlimit(50)]
pub fn encode(archive: &Archive) -> (result: Result<Vec<u8>, ArchiveError>)
    ensures
        match result {
            Ok(bytes) => encodable(archive@.members) && bytes@ == encoded(archive@.members),
            Err(e) => e == ArchiveError::UnsupportedFeature && !encodable(archive@.members),
        },
{
    let ghost members = archive@.members;
    let mut out: Vec<u8> = Vec::new();
    let mut i: usize = 0;
    while i < archive.members.len()
        invariant
            i <= archive.members.len(),
            members == archive@.members,
            members.len() == archive.members.len(),
            forall|j: int| 0 <= j < i ==> encodable_member(#[trigger] members[j]),
            out@ == records_of(members.take(i as int)),
        decreases archive.members.len() - i,
    {
        let member = &archive.members[i];
        proof {
            assert(members[i as int] == member@);
            assert(members.take(i + 1).drop_last() =~= members.take(i as int));
            assert(members.take(i + 1).last() == member@);
        }
        if !can_encode(member) {
            return Err(ArchiveError::UnsupportedFeature);
        }
        let size: usize = member.content.len();
        push_header(
            &mut out,
            member.entry.path.as_str().as_bytes(),
            size as u64,
            member.entry.modified,
        );
        append_bytes(&mut out, member.content.as_slice());
        append_zeros(&mut out, (512 - size % 512) % 512);
        proof {
            assert((512 - size % 512) % 512 == padded(size as nat) - size);
            assert(out@ =~= records_of(members.take(i as int)) + record_of(member@));
        }
        i += 1;
    }
    proof {
        assert(members.take(archive.members.len() as int) =~= members);
    }
    append_zeros(&mut out, 1024);
    Ok(out)
}

} // verus!
