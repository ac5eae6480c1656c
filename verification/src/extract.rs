//! Extracting entries: which files come out, under which names.

use vstd::prelude::*;
use crate::archive::holds;
use crate::archive::lemma_position;
use crate::archive::position;
use crate::archive::texts;
use crate::archive::Archive;
use crate::archive::MemberView;
use crate::bytes::copy_bytes;
use crate::delete::all_held;
use crate::error::ArchiveError;
use crate::path::base_name;
use crate::path::base_name_of;

verus! {

/// A file to write under the destination.
#[derive(Debug)]
pub struct ExtractedFile {
    /// Where it goes, relative to the destination.
    pub target: String,
    pub content: Vec<u8>,
}

/// A file to write as contracts speak of it.
pub struct FileView {
    pub target: Seq<char>,
    pub content: Seq<u8>,
}

impl View for ExtractedFile {
    type V = FileView;

    open spec fn view(&self) -> FileView {
        FileView { target: self.target@, content: self.content@ }
    }
}

/// The views of a run of files, in order.
pub open spec fn file_views(files: Seq<ExtractedFile>) -> Seq<FileView> {
    files.map_values(|f: ExtractedFile| f@)
}

/// The file that a member is written as: under its whole path, or, where
/// paths are not kept, under its last part.
pub open spec fn file_of(member: MemberView, preserve_paths: bool) -> FileView {
    FileView {
        target: if preserve_paths {
            member.entry.path
        } else {
            base_name_of(member.entry.path)
        },
        content: member.content,
    }
}

/// The members that the paths name, in the order of the paths.
pub open spec fn picked(members: Seq<MemberView>, wanted: Seq<Seq<char>>) -> Seq<MemberView> {
    Seq::new(wanted.len(), |k: int| members[position(members, wanted[k]).unwrap()])
}

/// The members to extract: all of them in directory order, or the named.
pub open spec fn selected(members: Seq<MemberView>, selection: Option<Seq<Seq<char>>>) -> Seq<
    MemberView,
> {
    match selection {
        None => members,
        Some(wanted) => picked(members, wanted),
    }
}

/// The files that the members are written as, in order.
pub open spec fn files_of(members: Seq<MemberView>, preserve_paths: bool) -> Seq<FileView> {
    Seq::new(members.len(), |k: int| file_of(members[k], preserve_paths))
}

/// Two of the files would be written to one name.
pub open spec fn collides(files: Seq<FileView>) -> bool {
    exists|i: int, j: int|
        0 <= i < j < files.len() && #[trigger] files[i].target == #[trigger] files[j].target
}

/// How extracting ends. A named path that no entry has fails it. Where
/// paths are not kept, two files under one name fail it, and then no file
/// is handed out. Else the files come in the order of the selection.
pub open spec fn extract_outcome(
    members: Seq<MemberView>,
    selection: Option<Seq<Seq<char>>>,
    preserve_paths: bool,
) -> Result<Seq<FileView>, ArchiveError> {
    if selection.is_some() && !all_held(members, selection.unwrap()) {
        Err(ArchiveError::EntryNotFound)
    } else {
        let files = files_of(selected(members, selection), preserve_paths);
        if !preserve_paths && collides(files) {
            Err(ArchiveError::NameCollision)
        } else {
            Ok(files)
        }
    }
}

/// The selection as texts.
pub open spec fn selection_texts(selection: Option<&Vec<String>>) -> Option<Seq<Seq<char>>> {
    match selection {
        None => None,
        Some(wanted) => Some(texts(wanted@)),
    }
}

/// Whether two of the files have one name.
pub fn has_collision(files: &Vec<ExtractedFile>) -> (found: bool)
    ensures
        found == collides(file_views(files@)),
{
    let ghost views = file_views(files@);
    let mut j: usize = 0;
    while j < files.len()
        invariant
            j <= files.len(),
            views == file_views(files@),
            views.len() == files.len(),
            forall|a: int, b: int| 0 <= a < b < j ==> views[a].target != views[b].target,
        decreases files.len() - j,
    {
        let mut i: usize = 0;
        while i < j
            invariant
                i <= j < files.len(),
                views == file_views(files@),
                views.len() == files.len(),
                forall|a: int| 0 <= a < i ==> views[a].target != views[j as int].target,
            decreases j - i,
        {
            proof {
                assert(views[i as int] == files@[i as int]@);
                assert(views[j as int] == files@[j as int]@);
            }
            if files[i].target == files[j].target {
                proof {
                    assert(views[i as int].target == views[j as int].target);
                }
                return true;
            }
            i += 1;
        }
        j += 1;
    }
    false
}

impl Archive {
    /// The file that the entry at `index` is written as.
    pub fn file_at(&self, index: usize, preserve_paths: bool) -> (file: ExtractedFile)
        requires
            index < self@.members.len(),
        ensures
            file@ == file_of(self@.members[index as int], preserve_paths),
    {
        let member = &self.members[index];
        let target = if preserve_paths {
            member.entry.path.clone()
        } else {
            base_name(member.entry.path.as_str())
        };
        ExtractedFile { target, content: copy_bytes(&member.content) }
    }

    /// The files to write for the selection: every entry where none is
    /// given, else the named entries in the order given. Where paths are
    /// kept each file goes under its entry's path; where not, under the
    /// path's last part, and two files under one name are refused before
    /// any is handed out.
    pub fn extract(&self, selection: Option<&Vec<String>>, preserve_paths: bool) -> (result: Result<
        Vec<ExtractedFile>,
        ArchiveError,
    >)
        ensures
            match result {
                Ok(files) => extract_outcome(
                    self@.members,
                    selection_texts(selection),
                    preserve_paths,
                ) == Ok::<Seq<FileView>, ArchiveError>(file_views(files@)),
                Err(e) => extract_outcome(self@.members, selection_texts(selection), preserve_paths)
                    == Err::<Seq<FileView>, ArchiveError>(e),
            },
    {
        let ghost members = self@.members;
        let mut files: Vec<ExtractedFile> = Vec::new();
        match selection {
            None => {
                let mut i: usize = 0;
                while i < self.members.len()
                    invariant
                        i <= self.members.len(),
                        members == self@.members,
                        members.len() == self.members.len(),
                        files@.len() == i,
                        forall|k: int|
                            0 <= k < i ==> (#[trigger] files@[k])@ == file_of(
                                members[k],
                                preserve_paths,
                            ),
                    decreases self.members.len() - i,
                {
                    files.push(self.file_at(i, preserve_paths));
                    i += 1;
                }
                proof {
                    assert(file_views(files@) =~= files_of(members, preserve_paths));
                }
            },
            Some(wanted) => {
                let ghost names = texts(wanted@);
                let mut k: usize = 0;
                while k < wanted.len()
                    invariant
                        k <= wanted.len(),
                        members == self@.members,
                        names == texts(wanted@),
                        names.len() == wanted.len(),
                        selection_texts(selection) == Some(names),
                        files@.len() == k,
                        forall|j: int| 0 <= j < k ==> holds(members, #[trigger] names[j]),
                        forall|j: int|
                            0 <= j < k ==> (#[trigger] files@[j])@ == file_of(
                                picked(members, names)[j],
                                preserve_paths,
                            ),
                    decreases wanted.len() - k,
                {
                    proof {
                        assert(names[k as int] == wanted@[k as int]@);
                        lemma_position(members, names[k as int]);
                    }
                    match self.find(&wanted[k]) {
                        None => {
                            proof {
                                assert(!holds(members, names[k as int]));
                                assert(selection_texts(selection) == Some(names));
                            }
                            return Err(ArchiveError::EntryNotFound);
                        },
                        Some(at) => {
                            files.push(self.file_at(at, preserve_paths));
                        },
                    }
                    k += 1;
                }
                proof {
                    assert(file_views(files@) =~= files_of(
                        picked(members, names),
                        preserve_paths,
                    ));
                }
            },
        }
        if !preserve_paths && has_collision(&files) {
            return Err(ArchiveError::NameCollision);
        }
        Ok(files)
    }
}

} // verus!
