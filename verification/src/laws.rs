//! What holds across the operations on a container.

use vstd::prelude::*;
use crate::add::add_outcome;
use crate::add::added;
use crate::add::all_present;
use crate::add::lemma_put_well_formed;
use crate::add::member_from;
use crate::add::put;
use crate::add::SourceView;
use crate::archive::directory;
use crate::archive::holds;
use crate::archive::lemma_position;
use crate::archive::paths_of;
use crate::archive::position;
use crate::archive::well_formed;
use crate::archive::ArchiveView;
use crate::archive::EntryView;
use crate::archive::Integrity;
use crate::archive::MemberView;
use crate::delete::all_held;
use crate::delete::delete_outcome;
use crate::delete::lemma_deleted_is_gone;
use crate::error::ArchiveError;
use crate::extract::extract_outcome;
use crate::extract::files_of;
use crate::extract::selected;
use crate::extract::FileView;
use crate::format::CodecKind;
use crate::hasher::crc32_of;
use crate::integrity::integrity_report;
use crate::path::base_name_of;
use crate::path::lemma_normalized_is_normalized;
use crate::path::normalized;
use crate::rename::lemma_rename_shows_new_only;
use crate::rename::lemma_renamed_single;
use crate::rename::rename_outcome;
use crate::rename::RenameView;

verus! {

/// A listing shows a path exactly if an entry has it.
pub proof fn lemma_listed_iff_held(members: Seq<MemberView>, path: Seq<char>)
    ensures
        paths_of(members).contains(path) == holds(members, path),
{
    let listed = paths_of(members);
    if listed.contains(path) {
        let i = choose|i: int| 0 <= i < listed.len() && listed[i] == path;
        assert(members[i].entry.path == path);
    }
    if holds(members, path) {
        let i = choose|i: int| 0 <= i < members.len() && #[trigger] members[i].entry.path == path;
        assert(listed[i] == path);
    }
}

/// Listing is repeatable: two listings of one unchanged container are the
/// same sequence of entries.
pub proof fn lemma_list_repeatable(
    archive: ArchiveView,
    first: Seq<EntryView>,
    second: Seq<EntryView>,
)
    requires
        first == directory(archive.members),
        second == directory(archive.members),
    ensures
        first == second,
        first.len() == archive.members.len(),
{
}

/// After a delete that succeeded, a listing shows none of the deleted
/// paths, and every other path exactly if it was shown before.
pub proof fn lemma_delete_then_list(
    archive: ArchiveView,
    paths: Seq<Seq<char>>,
    path: Seq<char>,
)
    requires
        delete_outcome(archive, paths).is_ok(),
    ensures
        paths.contains(path) ==> !paths_of(delete_outcome(archive, paths).unwrap()).contains(path),
        !paths.contains(path) ==> paths_of(delete_outcome(archive, paths).unwrap()).contains(path)
            == paths_of(archive.members).contains(path),
{
    let after = delete_outcome(archive, paths).unwrap();
    lemma_deleted_is_gone(archive.members, paths, path);
    lemma_listed_iff_held(after, path);
    lemma_listed_iff_held(archive.members, path);
}

/// After a rename of one entry to another path that succeeded, a listing
/// shows the new path and never the old one.
pub proof fn lemma_rename_then_list(archive: ArchiveView, pair: RenameView)
    requires
        well_formed(archive.members),
        rename_outcome(archive, seq![pair]).is_ok(),
        pair.from != normalized(pair.to),
    ensures
        paths_of(rename_outcome(archive, seq![pair]).unwrap()).contains(normalized(pair.to)),
        !paths_of(rename_outcome(archive, seq![pair]).unwrap()).contains(pair.from),
{
    lemma_renamed_single(archive.members, pair);
    lemma_rename_shows_new_only(archive.members, pair);
    let after = rename_outcome(archive, seq![pair]).unwrap();
    lemma_listed_iff_held(after, normalized(pair.to));
    lemma_listed_iff_held(after, pair.from);
}

/// No two of the source files have the same path in normal form.
pub open spec fn distinct_targets(sources: Seq<SourceView>) -> bool {
    forall|i: int, j: int|
        0 <= i < j < sources.len() ==> normalized(#[trigger] sources[i].path) != normalized(
            #[trigger] sources[j].path,
        )
}

/// The content of a source file has a length that a size can hold.
pub open spec fn sizes_fit(sources: Seq<SourceView>) -> bool {
    forall|i: int|
        0 <= i < sources.len() ==> (#[trigger] sources[i]).content.is_some() ==> sources[i].content.unwrap().len()
            <= u64::MAX
}

/// Adding keeps a container well formed, and afterwards every added file
/// is held under its path in normal form, with the content it came with.
pub proof fn lemma_added_holds_sources(
    members: Seq<MemberView>,
    codec: CodecKind,
    sources: Seq<SourceView>,
)
    requires
        well_formed(members),
        all_present(sources),
        sizes_fit(sources),
        distinct_targets(sources),
    ensures
        well_formed(added(members, codec, sources)),
        forall|k: int|
            0 <= k < sources.len() ==> {
                let at = position(
                    added(members, codec, sources),
                    normalized((#[trigger] sources[k]).path),
                );
                at.is_some() && added(members, codec, sources)[at.unwrap()] == member_from(
                    codec,
                    sources[k],
                )
            },
    decreases sources.len(),
{
    if sources.len() > 0 {
        let front = sources.drop_last();
        let last = sources.last();
        assert(all_present(front)) by {
            assert forall|i: int| 0 <= i < front.len() implies (#[trigger] front[i]).content.is_some() by {
                assert(front[i] == sources[i]);
            }
        }
        assert(sizes_fit(front)) by {
            assert forall|i: int|
                0 <= i < front.len() && (#[trigger] front[i]).content.is_some() implies front[i].content.unwrap().len()
                <= u64::MAX by {
                assert(front[i] == sources[i]);
            }
        }
        assert(distinct_targets(front)) by {
            assert forall|i: int, j: int| 0 <= i < j < front.len() implies normalized(
                #[trigger] front[i].path,
            ) != normalized(#[trigger] front[j].path) by {
                assert(front[i] == sources[i]);
                assert(front[j] == sources[j]);
            }
        }
        lemma_added_holds_sources(members, codec, front);
        let before = added(members, codec, front);
        let member = member_from(codec, last);
        let after = put(before, member);
        assert(sources[sources.len() - 1] == last);
        lemma_normalized_is_normalized(last.path);
        lemma_put_well_formed(before, member);
        lemma_position(before, member.entry.path);
        assert forall|k: int| 0 <= k < sources.len() implies {
            let at = position(after, normalized((#[trigger] sources[k]).path));
            at.is_some() && after[at.unwrap()] == member_from(codec, sources[k])
        } by {
            if k < front.len() {
                assert(front[k] == sources[k]);
                let path = normalized(sources[k].path);
                assert(path != member.entry.path);
                let at = position(before, path).unwrap();
                lemma_position(before, path);
                lemma_position(after, path);
                assert(after[at] == before[at]);
                assert(after[at].entry.path == path);
                let now = position(after, path).unwrap();
                if now != at {
                    if now < at {
                        assert(after[now].entry.path != after[at].entry.path);
                    } else {
                        assert(after[at].entry.path != after[now].entry.path);
                    }
                }
            }
        }
    }
}

/// The files of a run of sources as they come back out: each under its
/// path in normal form, with its content.
pub open spec fn files_of_sources(sources: Seq<SourceView>) -> Seq<FileView> {
    Seq::new(
        sources.len(),
        |k: int| FileView { target: normalized(sources[k].path), content: sources[k].content.unwrap() },
    )
}

/// Into an empty container, adding files of distinct paths puts them in
/// the order given.
pub proof fn lemma_added_to_empty(codec: CodecKind, sources: Seq<SourceView>)
    requires
        all_present(sources),
        distinct_targets(sources),
    ensures
        added(Seq::empty(), codec, sources) == Seq::new(
            sources.len(),
            |k: int| member_from(codec, sources[k]),
        ),
    decreases sources.len(),
{
    let goal = Seq::new(sources.len(), |k: int| member_from(codec, sources[k]));
    if sources.len() == 0 {
        assert(goal =~= Seq::<MemberView>::empty());
    } else {
        let front = sources.drop_last();
        let last = sources.last();
        assert(all_present(front)) by {
            assert forall|i: int| 0 <= i < front.len() implies (#[trigger] front[i]).content.is_some() by {
                assert(front[i] == sources[i]);
            }
        }
        assert(distinct_targets(front)) by {
            assert forall|i: int, j: int| 0 <= i < j < front.len() implies normalized(
                #[trigger] front[i].path,
            ) != normalized(#[trigger] front[j].path) by {
                assert(front[i] == sources[i]);
                assert(front[j] == sources[j]);
            }
        }
        lemma_added_to_empty(codec, front);
        let before = added(Seq::empty(), codec, front);
        let member = member_from(codec, last);
        lemma_position(before, member.entry.path);
        assert(sources[sources.len() - 1] == last);
        if position(before, member.entry.path).is_some() {
            let at = position(before, member.entry.path).unwrap();
            assert(before[at] == member_from(codec, front[at]));
            assert(front[at] == sources[at]);
            assert(normalized(sources[at].path) != normalized(sources[sources.len() - 1].path));
        }
        assert(put(before, member) =~= goal) by {
            assert forall|k: int| 0 <= k < goal.len() implies put(before, member)[k] == goal[k] by {
                if k < front.len() {
                    assert(front[k] == sources[k]);
                }
            }
        }
    }
}

/// Round trip: files of distinct paths, added to a new container and then
/// extracted with their paths kept, come back with the same content under
/// the same relative paths, in the same order.
pub proof fn lemma_add_then_extract(codec: CodecKind, sources: Seq<SourceView>)
    requires
        codec.writable(),
        all_present(sources),
        distinct_targets(sources),
    ensures
        add_outcome(ArchiveView { codec, members: Seq::empty() }, sources).is_ok(),
        extract_outcome(
            add_outcome(ArchiveView { codec, members: Seq::empty() }, sources).unwrap(),
            None,
            true,
        ) == Ok::<Seq<FileView>, ArchiveError>(files_of_sources(sources)),
{
    lemma_added_to_empty(codec, sources);
    let members = added(Seq::empty(), codec, sources);
    assert(files_of(members, true) =~= files_of_sources(sources));
}

/// Extracting without paths fails with a name collision as soon as two
/// of the selected entries share a last part, and then hands out no file.
pub proof fn lemma_flat_extract_collides(
    members: Seq<MemberView>,
    selection: Option<Seq<Seq<char>>>,
    i: int,
    j: int,
)
    requires
        selection.is_some() ==> all_held(members, selection.unwrap()),
        0 <= i < j < selected(members, selection).len(),
        base_name_of(selected(members, selection)[i].entry.path) == base_name_of(
            selected(members, selection)[j].entry.path,
        ),
    ensures
        extract_outcome(members, selection, false) == Err::<Seq<FileView>, ArchiveError>(
            ArchiveError::NameCollision,
        ),
{
    let files = files_of(selected(members, selection), false);
    assert(files[i].target == files[j].target);
}

/// With paths kept, extracting everything from a well-formed container
/// never collides: it hands out one file for each entry, under the
/// entry's path and with its content.
pub proof fn lemma_full_extract_gives_all(members: Seq<MemberView>)
    ensures
        extract_outcome(members, None, true) == Ok::<Seq<FileView>, ArchiveError>(
            files_of(members, true),
        ),
        files_of(members, true).len() == members.len(),
        forall|k: int|
            0 <= k < members.len() ==> (#[trigger] files_of(members, true)[k]).target
                == members[k].entry.path && files_of(members, true)[k].content
                == members[k].content,
{
}

/// The member with other content, its record as it was.
pub open spec fn with_content(member: MemberView, content: Seq<u8>) -> MemberView {
    MemberView { entry: member.entry, content }
}

/// Damage to one entry shows in that entry's line alone: where the new
/// content no longer has the stored checksum, the entry is reported as
/// failed, and every other line of the report is what it was.
pub proof fn lemma_damage_is_local(archive: ArchiveView, at: int, damaged: Seq<u8>)
    requires
        0 <= at < archive.members.len(),
        archive.codec.stores_checksums(),
        archive.members[at].entry.checksum.is_some(),
        archive.members[at].entry.checksum != Some(crc32_of(damaged)),
    ensures
        ({
            let broken = ArchiveView {
                codec: archive.codec,
                members: archive.members.update(at, with_content(archive.members[at], damaged)),
            };
            &&& integrity_report(broken).len() == integrity_report(archive).len()
            &&& integrity_report(broken)[at].status == Integrity::Failed
            &&& forall|k: int|
                0 <= k < archive.members.len() && k != at ==> integrity_report(broken)[k]
                    == integrity_report(archive)[k]
        }),
{
}

} // verus!
