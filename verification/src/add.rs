//! Adding files to a container.

use vstd::prelude::*;
use crate::archive::lemma_position;
use crate::archive::member_views;
use crate::archive::position;
use crate::archive::well_formed;
use crate::archive::Archive;
use crate::archive::ArchiveView;
use crate::archive::Entry;
use crate::archive::EntryView;
use crate::archive::Member;
use crate::archive::MemberView;
use crate::bytes::copy_bytes;
use crate::error::ArchiveError;
use crate::format::CodecKind;
use crate::hasher::crc32;
use crate::hasher::crc32_of;
use crate::path::is_normalized;
use crate::path::normalize_path;
use crate::path::normalized;

verus! {

/// A file offered for adding: where it was looked for, and what was found
/// there. `content` is `None` where the file does not exist.
#[derive(Debug)]
pub struct SourceFile {
    pub path: String,
    pub modified: u64,
    pub content: Option<Vec<u8>>,
}

/// A source file as contracts speak of it.
pub struct SourceView {
    pub path: Seq<char>,
    pub modified: u64,
    pub content: Option<Seq<u8>>,
}

impl View for SourceFile {
    type V = SourceView;

    open spec fn view(&self) -> SourceView {
        SourceView {
            path: self.path@,
            modified: self.modified,
            content: match self.content {
                Some(bytes) => Some(bytes@),
                None => None,
            },
        }
    }
}

/// The views of a run of source files, in order.
pub open spec fn source_views(sources: Seq<SourceFile>) -> Seq<SourceView> {
    sources.map_values(|s: SourceFile| s@)
}

/// Every source file was found.
pub open spec fn all_present(sources: Seq<SourceView>) -> bool {
    forall|i: int| 0 <= i < sources.len() ==> (#[trigger] sources[i]).content.is_some()
}

/// The member that a source file becomes: its path in normal form, its
/// content stored as it is, and the checksum where the format keeps one.
pub open spec fn member_from(codec: CodecKind, source: SourceView) -> MemberView
    recommends
        source.content.is_some(),
{
    let content = source.content.unwrap();
    MemberView {
        entry: EntryView {
            path: normalized(source.path),
            size: content.len() as u64,
            compressed_size: content.len() as u64,
            modified: source.modified,
            checksum: if codec.stores_checksums() {
                Some(crc32_of(content))
            } else {
                None
            },
        },
        content,
    }
}

/// The members with one more: it takes the place of the member that has
/// its path, or goes to the end where none has.
pub open spec fn put(members: Seq<MemberView>, member: MemberView) -> Seq<MemberView> {
    match position(members, member.entry.path) {
        Some(i) => members.update(i, member),
        None => members.push(member),
    }
}

/// The members after every source file was put, first to last.
pub open spec fn added(members: Seq<MemberView>, codec: CodecKind, sources: Seq<SourceView>) -> Seq<
    MemberView,
>
    decreases sources.len(),
{
    if sources.len() == 0 {
        members
    } else {
        put(added(members, codec, sources.drop_last()), member_from(codec, sources.last()))
    }
}

/// How adding ends: refused at once on a read-only format, refused where
/// a source file is missing, and else with every file put.
pub open spec fn add_outcome(archive: ArchiveView, sources: Seq<SourceView>) -> Result<
    Seq<MemberView>,
    ArchiveError,
> {
    if !archive.codec.writable() {
        Err(ArchiveError::UnsupportedFeature)
    } else if !all_present(sources) {
        Err(ArchiveError::TargetMissing)
    } else {
        Ok(added(archive.members, archive.codec, sources))
    }
}

/// Putting a member keeps a container well formed.
pub proof fn lemma_put_well_formed(members: Seq<MemberView>, member: MemberView)
    requires
        well_formed(members),
        is_normalized(member.entry.path),
        member.entry.size == member.content.len(),
    ensures
        well_formed(put(members, member)),
        position(put(members, member), member.entry.path).is_some(),
        put(members, member)[position(put(members, member), member.entry.path).unwrap()]
            == member,
{
    lemma_position(members, member.entry.path);
    let after = put(members, member);
    lemma_position(after, member.entry.path);
    match position(members, member.entry.path) {
        Some(i) => {
            assert(after[i] == member);
            assert forall|a: int, b: int| 0 <= a < b < after.len() implies after[a].entry.path
                != after[b].entry.path by {
                if a == i {
                    assert(members[b].entry.path != members[i].entry.path);
                } else if b == i {
                    assert(members[a].entry.path != members[i].entry.path);
                } else {
                    assert(members[a].entry.path != members[b].entry.path);
                }
            }
        },
        None => {
            assert(after[members.len() as int] == member);
            assert forall|a: int, b: int| 0 <= a < b < after.len() implies after[a].entry.path
                != after[b].entry.path by {
                if b < members.len() {
                    assert(members[a].entry.path != members[b].entry.path);
                }
            }
        },
    }
}

impl SourceFile {
    /// The member that this file becomes in a container of the codec.
    pub fn into_member(&self, codec: CodecKind) -> (member: Member)
        requires
            self@.content.is_some(),
        ensures
            member@ == member_from(codec, self@),
            is_normalized(member@.entry.path),
            member@.entry.size == member@.content.len(),
    {
        let content = match &self.content {
            Some(bytes) => copy_bytes(bytes),
            None => Vec::new(),
        };
        let size: u64 = content.len() as u64;
        let checksum = if codec.has_checksums() {
            Some(crc32(content.as_slice()))
        } else {
            None
        };
        Member {
            entry: Entry {
                path: normalize_path(self.path.as_str()),
                size,
                compressed_size: size,
                modified: self.modified,
                checksum,
            },
            content,
        }
    }
}

impl Archive {
    /// Puts one member: in the place of the member that has its path, or at
    /// the end.
    pub(crate) fn put_member(&mut self, member: Member)
        requires
            old(self).wf(),
            is_normalized(member@.entry.path),
            member@.entry.size == member@.content.len(),
        ensures
            final(self).wf(),
            final(self)@.codec == old(self)@.codec,
            final(self)@.members == put(old(self)@.members, member@),
    {
        proof {
            lemma_put_well_formed(self@.members, member@);
        }
        let ghost before = self.members@;
        match self.find(&member.entry.path) {
            Some(i) => {
                self.members.set(i, member);
                proof {
                    assert(member_views(self.members@) =~= member_views(before).update(
                        i as int,
                        member@,
                    ));
                }
            },
            None => {
                self.members.push(member);
                proof {
                    assert(member_views(self.members@) =~= member_views(before).push(member@));
                }
            },
        }
    }

    /// Adds the files. On a read-only format nothing is tried; where a file
    /// is missing nothing is added. Else each file is put under its path in
    /// normal form, in the place of an entry that already has that path or
    /// at the end.
    pub fn add(&mut self, sources: &Vec<SourceFile>) -> (result: Result<(), ArchiveError>)
        requires
            old(self).wf(),
        ensures
            final(self).wf(),
            match result {
                Ok(_) => add_outcome(old(self)@, source_views(sources@)) == Ok::<
                    Seq<MemberView>,
                    ArchiveError,
                >(final(self)@.members) && final(self)@.codec == old(self)@.codec,
                Err(e) => add_outcome(old(self)@, source_views(sources@)) == Err::<
                    Seq<MemberView>,
                    ArchiveError,
                >(e) && final(self)@ == old(self)@,
            },
    {
        if !self.codec.is_writable() {
            return Err(ArchiveError::UnsupportedFeature);
        }
        let ghost views = source_views(sources@);
        let ghost entered = self@;
        let mut i: usize = 0;
        while i < sources.len()
            invariant
                i <= sources.len(),
                views == source_views(sources@),
                self.wf(),
                self@ == entered,
                entered == old(self)@,
                entered.codec.writable(),
                forall|j: int| 0 <= j < i ==> (#[trigger] views[j]).content.is_some(),
            decreases sources.len() - i,
        {
            if sources[i].content.is_none() {
                proof {
                    assert(views[i as int] == sources@[i as int]@);
                    assert(views[i as int].content.is_none());
                }
                return Err(ArchiveError::TargetMissing);
            }
            proof {
                assert(views[i as int] == sources@[i as int]@);
            }
            i += 1;
        }
        proof {
            assert(all_present(views));
        }
        let ghost start = self@.members;
        let codec = self.codec;
        let mut k: usize = 0;
        while k < sources.len()
            invariant
                k <= sources.len(),
                views == source_views(sources@),
                all_present(views),
                self.wf(),
                self@.codec == codec,
                self@.members == added(start, codec, views.take(k as int)),
                start == old(self)@.members,
                codec == old(self)@.codec,
                codec.writable(),
            decreases sources.len() - k,
        {
            proof {
                assert(views[k as int] == sources@[k as int]@);
                assert(views.take(k + 1).drop_last() =~= views.take(k as int));
                assert(views.take(k + 1).last() == views[k as int]);
            }
            let member = sources[k].into_member(codec);
            self.put_member(member);
            k += 1;
        }
        proof {
            assert(views.take(sources.len() as int) =~= views);
        }
        Ok(())
    }
}

} // verus!
