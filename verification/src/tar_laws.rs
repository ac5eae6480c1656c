//! What is written as tar is read back as it was.

use vstd::prelude::*;
use vstd::utf8::encode_utf8;
use vstd::utf8::encode_utf8_decode_utf8;
use vstd::utf8::encode_utf8_valid_utf8;
use crate::add::put;
use crate::archive::lemma_position;
use crate::archive::position;
use crate::archive::well_formed;
use crate::archive::MemberView;
use crate::bytes::lemma_text_len;
use crate::bytes::text_in;
use crate::bytes::zeros;
use crate::error::ArchiveError;
use crate::octal::byte_sum;
use crate::octal::lemma_byte_sum_bound;
use crate::octal::lemma_octal_round_trip;
use crate::octal::lemma_octal_text_len;
use crate::octal::lemma_pow8_values;
use crate::octal::octal_text;
use crate::octal::pow8;
use crate::path::lemma_normalized_fixed;
use crate::tar::block_sum;
use crate::tar::decoded;
use crate::tar::decoded_from;
use crate::tar::encodable;
use crate::tar::encodable_member;
use crate::tar::encoded;
use crate::tar::header_back;
use crate::tar::header_block;
use crate::tar::header_front;
use crate::tar::is_zero_block;
use crate::tar::member_of;
use crate::tar::padded;
use crate::tar::parsed_header;
use crate::tar::record_of;
use crate::tar::records_of;
use crate::tar::FIELD_MAX;
use crate::tar::HeaderView;

verus! {

/// A member that a tar stream can hold in full: it has no stored
/// checksum, and takes in the container the length of its content.
pub open spec fn plain_member(member: MemberView) -> bool {
    &&& member.entry.checksum.is_none()
    &&& member.entry.compressed_size == member.entry.size
}

/// Every member is one that a tar stream can hold in full.
pub open spec fn plain(members: Seq<MemberView>) -> bool {
    forall|i: int| 0 <= i < members.len() ==> plain_member(#[trigger] members[i])
}

/// A header that was written is read back: it is a whole block, not the
/// block of zeros, and says the name, size and time it was written with.
#[verifier::rlimit(50)]
pub proof fn lemma_header_round_trip(name: Seq<u8>, size: nat, modified: nat)
    requires
        name.len() <= 100,
        forall|i: int| 0 <= i < name.len() ==> name[i] != 0,
        size <= FIELD_MAX,
        modified <= FIELD_MAX,
    ensures
        header_block(name, size, modified).len() == 512,
        !is_zero_block(header_block(name, size, modified)),
        parsed_header(header_block(name, size, modified)) == Ok::<HeaderView, ArchiveError>(
            HeaderView { name, size: size as u64, modified: modified as u64, is_file: true },
        ),
{
    let front = header_front(name, size, modified);
    let back = header_back();
    let total = byte_sum(front) + 256 + byte_sum(back);
    let block = header_block(name, size, modified);
    lemma_pow8_values();
    lemma_octal_text_len(420, 7);
    lemma_octal_text_len(0, 7);
    lemma_octal_text_len(size, 11);
    lemma_octal_text_len(modified, 11);
    lemma_octal_text_len(total, 6);
    assert(front.len() == 148);
    assert(back.len() == 356);
    lemma_byte_sum_bound(front);
    lemma_byte_sum_bound(back);
    assert(total < pow8(6));
    lemma_octal_round_trip(total, 6);
    lemma_octal_round_trip(size, 11);
    lemma_octal_round_trip(modified, 11);
    assert(block.len() == 512);
    assert(block.subrange(0, 148) =~= front);
    assert(block.subrange(156, 512) =~= back);
    assert(block.subrange(148, 154) =~= octal_text(total, 6));
    assert(block.subrange(124, 135) =~= octal_text(size, 11));
    assert(block.subrange(136, 147) =~= octal_text(modified, 11));
    assert(block_sum(block) == total);
    assert(block[156] == back[0]);
    assert(block[156] == 0x30);
    assert(block[345] == back[189]);
    assert(block[345] == 0);
    let field = block.subrange(0, 100);
    assert(field =~= name + zeros((100 - name.len()) as nat));
    lemma_text_len(field, name.len());
    assert(text_in(field) =~= name);
}

/// The blocks of a run of members begin with the blocks of the first.
pub proof fn lemma_records_front(members: Seq<MemberView>)
    requires
        members.len() > 0,
    ensures
        records_of(members) == record_of(members[0]) + records_of(members.skip(1)),
    decreases members.len(),
{
    let front = members.drop_last();
    if front.len() == 0 {
        assert(members.skip(1) =~= Seq::<MemberView>::empty());
        assert(records_of(front) =~= Seq::<u8>::empty());
        assert(members.last() == members[0]);
        assert(records_of(members) =~= record_of(members[0]) + records_of(members.skip(1)));
    } else {
        lemma_records_front(front);
        assert(front[0] == members[0]);
        assert(front.skip(1) =~= members.skip(1).drop_last());
        assert(members.skip(1).last() == members.last());
        assert(records_of(members.skip(1)) == records_of(front.skip(1)) + record_of(
            members.last(),
        ));
        assert(records_of(members) =~= record_of(members[0]) + records_of(members.skip(1)));
    }
}

/// The blocks of one member are whole blocks.
pub proof fn lemma_record_len(member: MemberView)
    requires
        encodable_member(member),
    ensures
        record_of(member).len() == 512 + padded(member.content.len()),
        padded(member.content.len()) >= member.content.len(),
{
    lemma_header_round_trip(
        encode_utf8(member.entry.path),
        member.content.len(),
        member.entry.modified as nat,
    );
}

/// Reading from a position where the blocks of some members and the
/// closing zeros stand gives those members, after the ones found so far.
#[verifier::rlimit(50)]
pub proof fn lemma_decode_records(
    bytes: Seq<u8>,
    pos: nat,
    found: Seq<MemberView>,
    members: Seq<MemberView>,
)
    requires
        pos <= bytes.len(),
        bytes.subrange(pos as int, bytes.len() as int) == records_of(members) + zeros(1024),
        well_formed(found + members),
        encodable(members),
        plain(members),
    ensures
        decoded_from(bytes, pos, found) == Ok::<Seq<MemberView>, ArchiveError>(found + members),
    decreases members.len(),
{
    let rest = bytes.subrange(pos as int, bytes.len() as int);
    if members.len() == 0 {
        assert(records_of(members) =~= Seq::<u8>::empty());
        assert(rest =~= zeros(1024));
        assert(bytes.len() - pos == 1024);
        let block = bytes.subrange(pos as int, pos as int + 512);
        assert forall|i: int| 0 <= i < block.len() implies block[i] == 0 by {
            assert(block[i] == rest[i]);
        }
        assert(found + members =~= found);
    } else {
        let first = members[0];
        let others = members.skip(1);
        let name = encode_utf8(first.entry.path);
        let size = first.content.len();
        let record = record_of(first);
        let head = header_block(name, size, first.entry.modified as nat);
        assert(encodable_member(first));
        assert(plain_member(first));
        lemma_records_front(members);
        lemma_record_len(first);
        lemma_header_round_trip(name, size, first.entry.modified as nat);
        assert(rest == record + records_of(others) + zeros(1024));
        assert(rest.len() >= record.len() + 1024);
        let block = bytes.subrange(pos as int, pos as int + 512);
        assert(block =~= head) by {
            assert forall|i: int| 0 <= i < 512 implies block[i] == head[i] by {
                assert(block[i] == rest[i]);
                assert(rest[i] == record[i]);
            }
        }
        let header = HeaderView {
            name,
            size: size as u64,
            modified: first.entry.modified,
            is_file: true,
        };
        assert(parsed_header(block) == Ok::<HeaderView, ArchiveError>(header));
        let start = pos + 512;
        let next = start + padded(size);
        assert(next == pos + record.len());
        assert(next <= bytes.len());
        let content = bytes.subrange(start as int, start as int + size as int);
        assert(content =~= first.content) by {
            assert forall|i: int| 0 <= i < size implies content[i] == first.content[i] by {
                assert(content[i] == rest[512 + i]);
                assert(rest[512 + i] == record[512 + i]);
            }
        }
        encode_utf8_valid_utf8(first.entry.path);
        encode_utf8_decode_utf8(first.entry.path);
        assert((found + members)[found.len() as int] == first);
        lemma_normalized_fixed(first.entry.path);
        assert(first.entry.size == size);
        let read = member_of(header, content);
        assert(read == first);
        lemma_position(found, first.entry.path);
        assert(position(found, first.entry.path).is_none()) by {
            if position(found, first.entry.path).is_some() {
                let at = position(found, first.entry.path).unwrap();
                assert((found + members)[at] == found[at]);
                assert((found + members)[at].entry.path != (found + members)[found.len()
                    as int].entry.path);
            }
        }
        assert(put(found, first) == found.push(first));
        assert(found.push(first) + others =~= found + members);
        assert(bytes.subrange(next as int, bytes.len() as int) =~= records_of(others) + zeros(
            1024,
        )) by {
            let tail = bytes.subrange(next as int, bytes.len() as int);
            let goal = records_of(others) + zeros(1024);
            assert(tail.len() == goal.len());
            assert forall|i: int| 0 <= i < tail.len() implies tail[i] == goal[i] by {
                assert(tail[i] == rest[record.len() + i]);
            }
        }
        assert(encodable(others)) by {
            assert forall|i: int| 0 <= i < others.len() implies encodable_member(
                #[trigger] others[i],
            ) by {
                assert(others[i] == members[i + 1]);
            }
        }
        assert(plain(others)) by {
            assert forall|i: int| 0 <= i < others.len() implies plain_member(
                #[trigger] others[i],
            ) by {
                assert(others[i] == members[i + 1]);
            }
        }
        lemma_decode_records(bytes, next, found.push(first), others);
    }
}

/// Round trip: the members of a well-formed container that tar can hold
/// in full are read back from their tar stream exactly as they were, in
/// the same order.
pub proof fn lemma_encode_then_decode(members: Seq<MemberView>)
    requires
        well_formed(members),
        encodable(members),
        plain(members),
    ensures
        decoded(encoded(members)) == Ok::<Seq<MemberView>, ArchiveError>(members),
{
    let bytes = encoded(members);
    assert(bytes.subrange(0, bytes.len() as int) =~= bytes);
    assert(Seq::<MemberView>::empty() + members =~= members);
    lemma_decode_records(bytes, 0, Seq::empty(), members);
}

} // verus!
