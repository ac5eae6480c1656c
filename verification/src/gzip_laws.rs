//! What is written as gzip is read back as it was.

use vstd::prelude::*;
use vstd::utf8::encode_utf8;
use vstd::utf8::encode_utf8_decode_utf8;
use vstd::utf8::encode_utf8_valid_utf8;
use crate::archive::well_formed;
use crate::archive::MemberView;
use crate::bytes::lemma_text_len;
use crate::bytes::text_in;
use crate::error::ArchiveError;
use crate::gzip::block_of;
use crate::gzip::blocks_of;
use crate::gzip::decoded;
use crate::gzip::encodable;
use crate::gzip::encoded;
use crate::gzip::head_of;
use crate::gzip::parsed_head;
use crate::gzip::stored_from;
use crate::gzip::trailer_of;
use crate::gzip::HeadView;
use crate::little_endian::field16;
use crate::little_endian::field32;
use crate::little_endian::le16_bytes;
use crate::little_endian::le32_bytes;
use crate::little_endian::lemma_field16_within;
use crate::little_endian::lemma_field32_within;
use crate::little_endian::lemma_le16_round_trip;
use crate::little_endian::lemma_le32_round_trip;
use crate::little_endian::stands_at;
use crate::path::lemma_normalized_fixed;

verus! {

/// A member that a gzip stream holds in full: it has no stored checksum,
/// and takes in the container the length of its content.
pub open spec fn plain_member(member: MemberView) -> bool {
    &&& member.entry.checksum.is_none()
    &&& member.entry.compressed_size == member.entry.size
}

/// Every member is one that a gzip stream holds in full.
pub open spec fn plain(members: Seq<MemberView>) -> bool {
    forall|i: int| 0 <= i < members.len() ==> plain_member(#[trigger] members[i])
}

/// What a block says: its kind, its length twice over, and its bytes.
pub open spec fn block_says(block: Seq<u8>, chunk: Seq<u8>, last: bool) -> bool {
    &&& block.len() == 5 + chunk.len()
    &&& block[0] == if last {
        1u8
    } else {
        0u8
    }
    &&& field16(block, 1) == chunk.len()
    &&& field16(block, 3) == 65535 - chunk.len()
    &&& block.subrange(5, block.len() as int) == chunk
}

/// What the fields of a stored block say.
#[verifier::rlimit(50)]
pub proof fn lemma_block_fields(chunk: Seq<u8>, last: bool)
    requires
        chunk.len() <= 65535,
    ensures
        block_says(block_of(chunk, last), chunk, last),
{
    let block = block_of(chunk, last);
    lemma_le16_round_trip(chunk.len());
    lemma_le16_round_trip((65535 - chunk.len()) as nat);
    assert(block.subrange(1, 3) =~= le16_bytes(chunk.len()));
    assert(block.subrange(3, 5) =~= le16_bytes((65535 - chunk.len()) as nat));
    assert(block.subrange(5, block.len() as int) =~= chunk);
}

/// A block that stands in the bytes is read as what it says.
pub proof fn lemma_block_reads(
    bytes: Seq<u8>,
    pos: int,
    block: Seq<u8>,
    chunk: Seq<u8>,
    last: bool,
)
    requires
        stands_at(bytes, pos, block),
        block_says(block, chunk, last),
        chunk.len() <= 65535,
    ensures
        bytes[pos] == block[0],
        field16(bytes, pos + 1) == chunk.len(),
        field16(bytes, pos + 3) == 65535 - chunk.len(),
        bytes.subrange(pos + 5, pos + 5 + chunk.len()) == chunk,
{
    lemma_field16_within(bytes, pos, block, 1);
    lemma_field16_within(bytes, pos, block, 3);
    let within = bytes.subrange(pos, pos + block.len());
    assert(bytes[pos] == within[0]);
    assert(bytes.subrange(pos + 5, pos + 5 + chunk.len()) =~= within.subrange(
        5,
        block.len() as int,
    ));
}

/// The length of the blocks of a content.
pub proof fn lemma_blocks_len(content: Seq<u8>)
    ensures
        blocks_of(content).len() >= 5 + content.len(),
    decreases content.len(),
{
    if content.len() > 65535 {
        lemma_blocks_len(content.skip(65535));
    }
}

/// Stored blocks that stand in the bytes are read as the content that
/// they were made of, after the content so far.
#[verifier::rlimit(50)]
pub proof fn lemma_blocks_round_trip(bytes: Seq<u8>, pos: int, sofar: Seq<u8>, content: Seq<u8>)
    requires
        stands_at(bytes, pos, blocks_of(content)),
    ensures
        stored_from(bytes, pos, sofar) == Ok::<(Seq<u8>, int), ArchiveError>(
            (sofar + content, pos + blocks_of(content).len()),
        ),
    decreases content.len(),
{
    let blocks = blocks_of(content);
    lemma_blocks_len(content);
    if content.len() <= 65535 {
        lemma_block_fields(content, true);
        lemma_block_reads(bytes, pos, blocks, content, true);
    } else {
        let chunk = content.take(65535);
        let rest = content.skip(65535);
        let block = block_of(chunk, false);
        lemma_block_fields(chunk, false);
        lemma_blocks_len(rest);
        assert(blocks == block + blocks_of(rest));
        let whole = bytes.subrange(pos, pos + blocks.len());
        assert(whole == blocks);
        assert(blocks.subrange(0, block.len() as int) =~= block);
        assert(blocks.subrange(block.len() as int, blocks.len() as int) =~= blocks_of(rest));
        assert(bytes.subrange(pos, pos + block.len()) =~= whole.subrange(0, block.len() as int));
        assert(stands_at(bytes, pos, block));
        lemma_block_reads(bytes, pos, block, chunk, false);
        let end = pos + 5 + 65535;
        assert(bytes.subrange(end, end + blocks_of(rest).len()) =~= whole.subrange(
            block.len() as int,
            blocks.len() as int,
        ));
        assert(stands_at(bytes, end, blocks_of(rest)));
        lemma_blocks_round_trip(bytes, end, sofar + chunk, rest);
        assert(sofar + chunk + rest =~= sofar + content);
    }
}

/// A header that stands at the front of the bytes, with more behind it,
/// is read as the name and time it was written with.
#[verifier::rlimit(50)]
pub proof fn lemma_head_round_trip(bytes: Seq<u8>, name: Seq<u8>, modified: nat)
    requires
        stands_at(bytes, 0, head_of(name, modified)),
        bytes.len() > head_of(name, modified).len(),
        forall|i: int| 0 <= i < name.len() ==> name[i] != 0,
        modified <= u32::MAX,
    ensures
        parsed_head(bytes) == Ok::<HeadView, ArchiveError>(
            HeadView {
                name,
                start: head_of(name, modified).len() as int,
                modified: modified as u64,
            },
        ),
{
    let head = head_of(name, modified);
    let within = bytes.subrange(0, head.len() as int);
    lemma_le32_round_trip(modified);
    assert(head.subrange(4, 8) =~= le32_bytes(modified));
    lemma_field32_within(bytes, 0, head, 4);
    assert(bytes[0] == within[0]);
    assert(bytes[1] == within[1]);
    assert(bytes[2] == within[2]);
    assert(bytes[3] == within[3]);
    assert(bytes[0] == 0x1F && bytes[1] == 0x8B && bytes[2] == 0x08);
    if name.len() == 0 {
        assert(head.len() == 10);
        assert(bytes[3] == 0);
    } else {
        assert(head.len() == 11 + name.len());
        assert(bytes[3] == 8);
    }
    assert(field32(bytes, 4) == modified);
    if name.len() > 0 {
        let field = bytes.skip(10);
        assert forall|i: int| 0 <= i < name.len() implies field[i] != 0 by {
            assert(field[i] == within[10 + i]);
            assert(within[10 + i] == name[i]);
        }
        assert(field[name.len() as int] == within[10 + name.len() as int]);
        lemma_text_len(field, name.len());
        assert(text_in(field) =~= name) by {
            assert forall|i: int| 0 <= i < name.len() implies field[i] == name[i] by {
                assert(field[i] == within[10 + i]);
            }
        }
    } else {
        assert(name =~= Seq::<u8>::empty());
    }
}

/// Round trip: the one member of a well-formed container that gzip holds
/// in full is read back from its gzip stream exactly as it was.
#[verifier::rlimit(50)]
pub proof fn lemma_encode_then_decode(members: Seq<MemberView>)
    requires
        well_formed(members),
        encodable(members),
        plain(members),
    ensures
        decoded(encoded(members)) == Ok::<Seq<MemberView>, ArchiveError>(members),
{
    let member = members[0];
    let name = encode_utf8(member.entry.path);
    let head = head_of(name, member.entry.modified as nat);
    let blocks = blocks_of(member.content);
    let trailer = trailer_of(member.content);
    let bytes = encoded(members);
    assert(plain_member(member));
    lemma_blocks_len(member.content);
    assert(bytes == head + blocks + trailer);
    assert(stands_at(bytes, 0, head)) by {
        assert(bytes.subrange(0, head.len() as int) =~= head);
    }
    lemma_head_round_trip(bytes, name, member.entry.modified as nat);
    let start = head.len() as int;
    assert(stands_at(bytes, start, blocks)) by {
        assert(bytes.subrange(start, start + blocks.len()) =~= blocks);
    }
    lemma_blocks_round_trip(bytes, start, Seq::empty(), member.content);
    assert(Seq::<u8>::empty() + member.content =~= member.content);
    let end = start + blocks.len();
    assert(trailer.len() == 8);
    assert(stands_at(bytes, end, trailer)) by {
        assert(bytes.subrange(end, end + 8) =~= trailer);
    }
    lemma_le32_round_trip(member.content.len() % 0x1_0000_0000);
    assert(trailer.subrange(4, 8) =~= le32_bytes(member.content.len() % 0x1_0000_0000));
    lemma_field32_within(bytes, end, trailer, 4);
    encode_utf8_valid_utf8(member.entry.path);
    encode_utf8_decode_utf8(member.entry.path);
    lemma_normalized_fixed(member.entry.path);
    assert(member.entry.size == member.content.len());
    assert(members =~= seq![member]);
}

} // verus!
