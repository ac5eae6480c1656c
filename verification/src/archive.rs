//! A container held in memory: its entries in directory order, each with
//! its content, and the operations that every codec offers on them.

use vstd::prelude::*;
use crate::bytes::copy_bytes;
use crate::format::CodecKind;
use crate::hasher::crc32;
use crate::hasher::crc32_of;
use crate::path::is_normalized;

verus! {

/// One item's record in a container's directory.
#[derive(Debug)]
pub struct Entry {
    /// Relative path, `/` between its parts.
    pub path: String,
    /// Length of the content.
    pub size: u64,
    /// Length that the content takes inside the container.
    pub compressed_size: u64,
    /// Time of the last change, in seconds since 1970.
    pub modified: u64,
    /// The checksum that the container stores for the content, if any.
    pub checksum: Option<u32>,
}

/// An entry's record as contracts speak of it.
pub struct EntryView {
    pub path: Seq<char>,
    pub size: u64,
    pub compressed_size: u64,
    pub modified: u64,
    pub checksum: Option<u32>,
}

impl View for Entry {
    type V = EntryView;

    open spec fn view(&self) -> EntryView {
        EntryView {
            path: self.path@,
            size: self.size,
            compressed_size: self.compressed_size,
            modified: self.modified,
            checksum: self.checksum,
        }
    }
}

/// An entry together with its content.
#[derive(Debug)]
pub struct Member {
    pub entry: Entry,
    pub content: Vec<u8>,
}

/// A member as contracts speak of it: its record and its content.
pub struct MemberView {
    pub entry: EntryView,
    pub content: Seq<u8>,
}

impl View for Member {
    type V = MemberView;

    open spec fn view(&self) -> MemberView {
        MemberView { entry: self.entry@, content: self.content@ }
    }
}

/// The views of a run of members, in order.
pub open spec fn member_views(members: Seq<Member>) -> Seq<MemberView> {
    members.map_values(|m: Member| m@)
}

/// The views of a run of entries, in order.
pub open spec fn entry_views(entries: Seq<Entry>) -> Seq<EntryView> {
    entries.map_values(|e: Entry| e@)
}

/// The texts of a run of strings, in order.
pub open spec fn texts(strings: Seq<String>) -> Seq<Seq<char>> {
    strings.map_values(|s: String| s@)
}

/// The directory of a run of members: their entries, in order.
pub open spec fn directory(members: Seq<MemberView>) -> Seq<EntryView> {
    members.map_values(|m: MemberView| m.entry)
}

/// The paths of a run of members, in order.
pub open spec fn paths_of(members: Seq<MemberView>) -> Seq<Seq<char>> {
    members.map_values(|m: MemberView| m.entry.path)
}

/// Whether some member has the path.
pub open spec fn holds(members: Seq<MemberView>, path: Seq<char>) -> bool {
    exists|i: int| 0 <= i < members.len() && #[trigger] members[i].entry.path == path
}

/// Where the first member with the path stands, if there is one.
pub open spec fn position(members: Seq<MemberView>, path: Seq<char>) -> Option<int>
    decreases members.len(),
{
    if members.len() == 0 {
        None
    } else {
        match position(members.drop_last(), path) {
            Some(i) => Some(i),
            None => if members.last().entry.path == path {
                Some(members.len() - 1)
            } else {
                None
            },
        }
    }
}

/// No two members share a path, and every path is in normal form.
pub open spec fn well_formed(members: Seq<MemberView>) -> bool {
    &&& forall|i: int| 0 <= i < members.len() ==> is_normalized(#[trigger] members[i].entry.path)
    &&& forall|i: int|
        0 <= i < members.len() ==> (#[trigger] members[i]).entry.size == members[i].content.len()
    &&& forall|i: int, j: int|
        0 <= i < j < members.len() ==> #[trigger] members[i].entry.path
            != #[trigger] members[j].entry.path
}

/// `position` gives the first index that holds the path, and `None` exactly
/// where no member holds it.
pub proof fn lemma_position(members: Seq<MemberView>, path: Seq<char>)
    ensures
        match position(members, path) {
            Some(i) => {
                &&& 0 <= i < members.len()
                &&& members[i].entry.path == path
                &&& forall|j: int| 0 <= j < i ==> members[j].entry.path != path
            },
            None => forall|j: int| 0 <= j < members.len() ==> members[j].entry.path != path,
        },
        position(members, path).is_some() == holds(members, path),
    decreases members.len(),
{
    if members.len() > 0 {
        let front = members.drop_last();
        lemma_position(front, path);
        match position(front, path) {
            Some(i) => {
                assert(front[i] == members[i]);
                assert forall|j: int| 0 <= j < i implies members[j].entry.path != path by {
                    assert(front[j] == members[j]);
                }
            },
            None => {
                assert forall|j: int| 0 <= j < members.len() - 1 implies members[j].entry.path
                    != path by {
                    assert(front[j] == members[j]);
                }
            },
        }
    }
}

/// An index that meets what `lemma_position` states is the position.
pub proof fn lemma_position_is(members: Seq<MemberView>, path: Seq<char>, at: int)
    requires
        0 <= at < members.len(),
        members[at].entry.path == path,
        forall|j: int| 0 <= j < at ==> members[j].entry.path != path,
    ensures
        position(members, path) == Some(at),
{
    lemma_position(members, path);
}

/// What the integrity test says of one entry.
#[derive(Clone, Copy, Debug, PartialEq, Eq, Structural)]
pub enum Integrity {
    /// The content has the stored checksum.
    Passed,
    /// The content does not have the stored checksum.
    Failed,
    /// The container stores no checksum for the entry.
    Unverifiable,
}

/// The verdict on one member in a container of the given codec.
pub open spec fn integrity_of(codec: CodecKind, member: MemberView) -> Integrity {
    if !codec.stores_checksums() {
        Integrity::Unverifiable
    } else {
        match member.entry.checksum {
            None => Integrity::Unverifiable,
            Some(stored) => if stored == crc32_of(member.content) {
                Integrity::Passed
            } else {
                Integrity::Failed
            },
        }
    }
}

/// One line of an integrity report.
#[derive(Debug)]
pub struct EntryReport {
    pub path: String,
    pub status: Integrity,
    /// The digest of the content as it is now.
    pub digest: u32,
}

/// A line of an integrity report as contracts speak of it.
pub struct EntryReportView {
    pub path: Seq<char>,
    pub status: Integrity,
    pub digest: u32,
}

impl View for EntryReport {
    type V = EntryReportView;

    open spec fn view(&self) -> EntryReportView {
        EntryReportView { path: self.path@, status: self.status, digest: self.digest }
    }
}

/// The report line for one member.
pub open spec fn report_of(codec: CodecKind, member: MemberView) -> EntryReportView {
    EntryReportView {
        path: member.entry.path,
        status: integrity_of(codec, member),
        digest: crc32_of(member.content),
    }
}

impl Entry {
    /// A copy of the record.
    pub fn duplicate(&self) -> (copy: Entry)
        ensures
            copy@ == self@,
    {
        Entry {
            path: self.path.clone(),
            size: self.size,
            compressed_size: self.compressed_size,
            modified: self.modified,
            checksum: self.checksum,
        }
    }
}

impl Member {
    /// A copy of the entry and its content.
    pub fn duplicate(&self) -> (copy: Member)
        ensures
            copy@ == self@,
    {
        Member { entry: self.entry.duplicate(), content: copy_bytes(&self.content) }
    }

    /// The verdict of the integrity test on this member.
    pub fn check(&self, codec: CodecKind) -> (line: EntryReport)
        ensures
            line@ == report_of(codec, self@),
    {
        let digest: u32 = crc32(self.content.as_slice());
        let status = if !codec.has_checksums() {
            Integrity::Unverifiable
        } else {
            match self.entry.checksum {
                None => Integrity::Unverifiable,
                Some(stored) => if stored == digest {
                    Integrity::Passed
                } else {
                    Integrity::Failed
                },
            }
        };
        EntryReport { path: self.entry.path.clone(), status, digest }
    }
}

/// An opened container: the codec it is bound to and its members in
/// directory order.
#[derive(Debug)]
pub struct Archive {
    pub codec: CodecKind,
    pub members: Vec<Member>,
}

/// A container as contracts speak of it: its codec and its members.
pub struct ArchiveView {
    pub codec: CodecKind,
    pub members: Seq<MemberView>,
}

impl View for Archive {
    type V = ArchiveView;

    open spec fn view(&self) -> ArchiveView {
        ArchiveView { codec: self.codec, members: member_views(self.members@) }
    }
}

impl Archive {
    /// The invariant of an opened container.
    pub open spec fn wf(&self) -> bool {
        well_formed(self@.members)
    }

    /// A container of the given format with no entry yet.
    pub fn new(codec: CodecKind) -> (archive: Archive)
        ensures
            archive@.codec == codec,
            archive@.members == Seq::<MemberView>::empty(),
            archive.wf(),
    {
        let archive = Archive { codec, members: Vec::new() };
        proof {
            assert(archive@.members =~= Seq::<MemberView>::empty());
        }
        archive
    }

    /// A copy of the container, to work on while this one stays as it is.
    pub fn duplicate(&self) -> (copy: Archive)
        ensures
            copy@ == self@,
    {
        let mut members: Vec<Member> = Vec::new();
        let mut i: usize = 0;
        while i < self.members.len()
            invariant
                i <= self.members.len(),
                members@.len() == i,
                forall|k: int| 0 <= k < i ==> members@[k]@ == self.members@[k]@,
            decreases self.members.len() - i,
        {
            members.push(self.members[i].duplicate());
            i += 1;
        }
        let copy = Archive { codec: self.codec, members };
        proof {
            assert(copy@.members =~= self@.members);
        }
        copy
    }

    /// Number of entries.
    pub fn len(&self) -> (count: usize)
        ensures
            count == self@.members.len(),
    {
        self.members.len()
    }

    /// Where the entry with the path stands in the directory.
    pub fn find(&self, path: &String) -> (found: Option<usize>)
        ensures
            match found {
                Some(i) => {
                    &&& i < self@.members.len()
                    &&& self@.members[i as int].entry.path == path@
                    &&& position(self@.members, path@) == Some(i as int)
                },
                None => position(self@.members, path@).is_none(),
            },
    {
        let ghost views = self@.members;
        let mut i: usize = 0;
        while i < self.members.len()
            invariant
                i <= self.members.len(),
                views == self@.members,
                views.len() == self.members.len(),
                forall|j: int| 0 <= j < i ==> views[j].entry.path != path@,
            decreases self.members.len() - i,
        {
            if self.members[i].entry.path == *path {
                proof {
                    lemma_position_is(views, path@, i as int);
                }
                return Some(i);
            }
            i += 1;
        }
        proof {
            lemma_position(views, path@);
        }
        None
    }

    /// The directory: every entry's record, in the container's own order.
    pub fn list(&self) -> (entries: Vec<Entry>)
        ensures
            entry_views(entries@) == directory(self@.members),
    {
        let mut entries: Vec<Entry> = Vec::new();
        let mut i: usize = 0;
        while i < self.members.len()
            invariant
                i <= self.members.len(),
                entries@.len() == i,
                self@.members.len() == self.members.len(),
                entry_views(entries@) == directory(self@.members.take(i as int)),
            decreases self.members.len() - i,
        {
            let ghost before = entries@;
            entries.push(self.members[i].entry.duplicate());
            proof {
                let now = entry_views(entries@);
                let goal = directory(self@.members.take(i + 1));
                assert(entry_views(before) == directory(self@.members.take(i as int)));
                assert forall|k: int| 0 <= k < now.len() implies now[k] == goal[k] by {
                    if k < i {
                        assert(entries@[k] == before[k]);
                        assert(entry_views(before)[k] == before[k]@);
                        assert(directory(self@.members.take(i as int))[k] == self@.members[k].entry);
                    }
                }
                assert(now =~= goal);
            }
            i += 1;
        }
        proof {
            assert(self@.members.take(self.members.len() as int) =~= self@.members);
        }
        entries
    }

    /// The paths of the entries, in the container's own order.
    pub fn names(&self) -> (paths: Vec<String>)
        ensures
            texts(paths@) == paths_of(self@.members),
    {
        let mut paths: Vec<String> = Vec::new();
        let mut i: usize = 0;
        while i < self.members.len()
            invariant
                i <= self.members.len(),
                paths@.len() == i,
                self@.members.len() == self.members.len(),
                texts(paths@) == paths_of(self@.members.take(i as int)),
            decreases self.members.len() - i,
        {
            let ghost before = paths@;
            paths.push(self.members[i].entry.path.clone());
            proof {
                let now = texts(paths@);
                let goal = paths_of(self@.members.take(i + 1));
                assert(texts(before) == paths_of(self@.members.take(i as int)));
                assert forall|k: int| 0 <= k < now.len() implies now[k] == goal[k] by {
                    if k < i {
                        assert(paths@[k] == before[k]);
                        assert(texts(before)[k] == before[k]@);
                        assert(paths_of(self@.members.take(i as int))[k]
                            == self@.members[k].entry.path);
                    }
                }
                assert(now =~= goal);
            }
            i += 1;
        }
        proof {
            assert(self@.members.take(self.members.len() as int) =~= self@.members);
        }
        paths
    }
}

} // verus!
