//! Opening a container from its bytes and staging it as bytes again.
//!
//! The caller reads and writes the files. To change an archive it opens
//! the bytes, changes the container in memory, stages the new bytes, writes
//! them beside the old file and swaps them in: the archive is never seen
//! half written, and what is swapped in is known to read back.

use vstd::prelude::*;
use crate::add::added;
use crate::add::all_present;
use crate::add::member_from;
use crate::add::put;
use crate::add::SourceView;
use crate::archive::lemma_position;
use crate::archive::well_formed;
use crate::archive::Archive;
use crate::archive::ArchiveView;
use crate::archive::MemberView;
use crate::dos_time::DOS_END;
use crate::dos_time::DOS_FIRST;
use crate::error::ArchiveError;
use crate::format::CodecKind;

verus! {

/// What opening gives: no bytes means that the archive is absent. Of the
/// formats, tar, zip and gzip are read; for the others reading is a
/// feature not covered.
pub open spec fn opened(codec: CodecKind, bytes: Option<Seq<u8>>) -> Result<
    Seq<MemberView>,
    ArchiveError,
> {
    match bytes {
        None => Err(ArchiveError::NotFound),
        Some(stream) => match codec {
            CodecKind::Tar => crate::tar::decoded(stream),
            CodecKind::Zip => crate::zip::decoded(stream),
            CodecKind::Gzip => crate::gzip::decoded(stream),
            _ => Err(ArchiveError::UnsupportedFeature),
        },
    }
}

/// What staging gives: the bytes of the container in its format. A
/// read-only format is never written; a format whose writing is not
/// covered, and a member that the format cannot hold, fail it as well.
pub open spec fn staged(archive: ArchiveView) -> Result<Seq<u8>, ArchiveError> {
    match archive.codec {
        CodecKind::Tar => if crate::tar::encodable(archive.members) {
            Ok(crate::tar::encoded(archive.members))
        } else {
            Err(ArchiveError::UnsupportedFeature)
        },
        CodecKind::Zip => if crate::zip::encodable(archive.members) {
            Ok(crate::zip::encoded(archive.members))
        } else {
            Err(ArchiveError::UnsupportedFeature)
        },
        CodecKind::Gzip => if crate::gzip::encodable(archive.members) {
            Ok(crate::gzip::encoded(archive.members))
        } else {
            Err(ArchiveError::UnsupportedFeature)
        },
        _ => Err(ArchiveError::UnsupportedFeature),
    }
}

/// Whether the format holds every member in full: tar and gzip store
/// no checksum with an entry, zip stores one and the time only as an even
/// second from 1980 to 2107, and all three store an entry in the length
/// of its content.
pub open spec fn held_in_full(archive: ArchiveView) -> bool {
    match archive.codec {
        CodecKind::Tar => crate::tar_laws::plain(archive.members),
        CodecKind::Zip => crate::zip_laws::plain(archive.members),
        CodecKind::Gzip => crate::gzip_laws::plain(archive.members),
        _ => false,
    }
}

/// What was staged reads back: opening the staged bytes of a well-formed
/// container gives its members again, where the format holds them in full.
pub proof fn lemma_staged_opens(archive: ArchiveView)
    requires
        well_formed(archive.members),
        staged(archive).is_ok(),
        held_in_full(archive),
    ensures
        opened(archive.codec, Some(staged(archive).unwrap())) == Ok::<
            Seq<MemberView>,
            ArchiveError,
        >(archive.members),
{
    match archive.codec {
        CodecKind::Tar => crate::tar_laws::lemma_encode_then_decode(archive.members),
        CodecKind::Zip => crate::zip_laws::lemma_encode_then_decode(archive.members),
        CodecKind::Gzip => crate::gzip_laws::lemma_encode_then_decode(archive.members),
        _ => {},
    }
}

/// Whether the format holds the source file's time as it is: zip holds
/// only an even second from 1980 to 2107.
pub open spec fn time_held(codec: CodecKind, source: SourceView) -> bool {
    codec == CodecKind::Zip ==> DOS_FIRST <= source.modified < DOS_END && source.modified % 2 == 0
}

/// A member whose place is taken by one that the format holds in full,
/// or that is put behind the others, leaves a container that is held in
/// full as one.
pub proof fn lemma_put_held_in_full(archive: ArchiveView, member: MemberView)
    requires
        held_in_full(archive),
        held_in_full(ArchiveView { codec: archive.codec, members: seq![member] }),
    ensures
        held_in_full(ArchiveView { codec: archive.codec, members: put(archive.members, member) }),
{
    let after = put(archive.members, member);
    let alone = seq![member];
    assert(alone[0] == member);
    lemma_position(archive.members, member.entry.path);
    match archive.codec {
        CodecKind::Tar => {
            assert forall|i: int| 0 <= i < after.len() implies crate::tar_laws::plain_member(
                #[trigger] after[i],
            ) by {
                if after[i] != member {
                    assert(after[i] == archive.members[i]);
                }
            }
        },
        CodecKind::Zip => {
            assert forall|i: int| 0 <= i < after.len() implies crate::zip_laws::plain_member(
                #[trigger] after[i],
            ) by {
                if after[i] != member {
                    assert(after[i] == archive.members[i]);
                }
            }
        },
        CodecKind::Gzip => {
            assert forall|i: int| 0 <= i < after.len() implies crate::gzip_laws::plain_member(
                #[trigger] after[i],
            ) by {
                if after[i] != member {
                    assert(after[i] == archive.members[i]);
                }
            }
        },
        _ => {},
    }
}

/// Files that are added to a container held in full leave it held in
/// full, where the format holds their times: what was added can be staged
/// and opened again without loss.
pub proof fn lemma_added_held_in_full(archive: ArchiveView, sources: Seq<SourceView>)
    requires
        held_in_full(archive),
        all_present(sources),
        forall|i: int| 0 <= i < sources.len() ==> time_held(archive.codec, #[trigger] sources[i]),
        forall|i: int|
            0 <= i < sources.len() ==> (#[trigger] sources[i]).content.unwrap().len() <= u64::MAX,
    ensures
        held_in_full(
            ArchiveView {
                codec: archive.codec,
                members: added(archive.members, archive.codec, sources),
            },
        ),
    decreases sources.len(),
{
    if sources.len() > 0 {
        let front = sources.drop_last();
        let last = sources.last();
        assert forall|i: int| 0 <= i < front.len() implies (#[trigger] front[i]).content.is_some()
            && time_held(archive.codec, front[i]) && front[i].content.unwrap().len()
            <= u64::MAX by {
            assert(front[i] == sources[i]);
        }
        lemma_added_held_in_full(archive, front);
        let before = ArchiveView {
            codec: archive.codec,
            members: added(archive.members, archive.codec, front),
        };
        let member = member_from(archive.codec, last);
        assert(sources[sources.len() - 1] == last);
        let alone = seq![member];
        assert(held_in_full(ArchiveView { codec: archive.codec, members: alone })) by {
            assert(alone[0] == member);
        }
        lemma_put_held_in_full(before, member);
    }
}

/// Opens a container of the given format from the bytes of its file;
/// `None` where there is no file.
pub fn open(codec: CodecKind, bytes: Option<&[u8]>) -> (result: Result<Archive, ArchiveError>)
    ensures
        match result {
            Ok(archive) => {
                &&& opened(
                    codec,
                    (match bytes {
                        Some(stream) => Some(stream@),
                        None => None,
                    }),
                ) == Ok::<Seq<MemberView>, ArchiveError>(archive@.members)
                &&& archive@.codec == codec
                &&& archive.wf()
            },
            Err(e) => opened(
                codec,
                (match bytes {
                    Some(stream) => Some(stream@),
                    None => None,
                }),
            ) == Err::<Seq<MemberView>, ArchiveError>(e),
        },
{
    match bytes {
        None => Err(ArchiveError::NotFound),
        Some(stream) => match codec {
            CodecKind::Tar => crate::tar::decode(stream),
            CodecKind::Zip => crate::zip::decode(stream),
            CodecKind::Gzip => crate::gzip::decode(stream),
            _ => Err(ArchiveError::UnsupportedFeature),
        },
    }
}

/// Stages the container as the bytes of its file.
pub fn stage(archive: &Archive) -> (result: Result<Vec<u8>, ArchiveError>)
    ensures
        match result {
            Ok(bytes) => staged(archive@) == Ok::<Seq<u8>, ArchiveError>(bytes@),
            Err(e) => staged(archive@) == Err::<Seq<u8>, ArchiveError>(e),
        },
{
    match archive.codec {
        CodecKind::Tar => crate::tar::encode(archive),
        CodecKind::Zip => crate::zip::encode(archive),
        CodecKind::Gzip => crate::gzip::encode(archive),
        _ => Err(ArchiveError::UnsupportedFeature),
    }
}

} // verus!
