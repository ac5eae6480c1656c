//! The one codec call that serves a request.

use vstd::prelude::*;
use crate::add::add_outcome;
use crate::add::source_views;
use crate::add::SourceFile;
use crate::add::SourceView;
use crate::archive::directory;
use crate::archive::entry_views;
use crate::archive::texts;
use crate::archive::Archive;
use crate::archive::ArchiveView;
use crate::archive::Entry;
use crate::archive::EntryReport;
use crate::archive::EntryReportView;
use crate::archive::EntryView;
use crate::archive::MemberView;
use crate::delete::delete_outcome;
use crate::error::ArchiveError;
use crate::extract::extract_outcome;
use crate::extract::file_views;
use crate::extract::ExtractedFile;
use crate::extract::FileView;
use crate::hasher::HashResult;
use crate::integrity::hash_outcome;
use crate::integrity::hash_views;
use crate::integrity::integrity_report;
use crate::integrity::report_views;
use crate::integrity::HashView;
use crate::rename::pair_views;
use crate::rename::rename_outcome;
use crate::rename::RenamePair;
use crate::rename::RenameView;
use crate::request::Operation;
use crate::request::OperationRequest;
use crate::request::RequestView;

verus! {

/// What a served request hands back.
#[derive(Debug)]
pub enum Outcome {
    /// The archive was changed as asked.
    Changed,
    /// The directory.
    Listed(Vec<Entry>),
    /// The files to write under the destination.
    Extracted(Vec<ExtractedFile>),
    /// The integrity report.
    Tested(Vec<EntryReport>),
    /// The digests.
    Hashed(Vec<HashResult>),
}

/// What a served request hands back, as contracts speak of it.
pub enum OutcomeView {
    Changed,
    Listed(Seq<EntryView>),
    Extracted(Seq<FileView>),
    Tested(Seq<EntryReportView>),
    Hashed(Seq<HashView>),
}

impl View for Outcome {
    type V = OutcomeView;

    open spec fn view(&self) -> OutcomeView {
        match self {
            Outcome::Changed => OutcomeView::Changed,
            Outcome::Listed(entries) => OutcomeView::Listed(entry_views(entries@)),
            Outcome::Extracted(files) => OutcomeView::Extracted(file_views(files@)),
            Outcome::Tested(lines) => OutcomeView::Tested(report_views(lines@)),
            Outcome::Hashed(digests) => OutcomeView::Hashed(hash_views(digests@)),
        }
    }
}

/// The names that a request gives, none where it gives no list.
pub open spec fn names_or_none(files: Option<Seq<Seq<char>>>) -> Seq<Seq<char>> {
    match files {
        Some(names) => names,
        None => Seq::empty(),
    }
}

/// The renamings that a request gives, none where it gives no list.
pub open spec fn pairs_or_none(renames: Option<Seq<RenameView>>) -> Seq<RenameView> {
    match renames {
        Some(pairs) => pairs,
        None => Seq::empty(),
    }
}

/// A change of the archive, or the error that left it as it was.
pub open spec fn changed_to(outcome: Result<Seq<MemberView>, ArchiveError>) -> Result<
    (Seq<MemberView>, OutcomeView),
    ArchiveError,
> {
    match outcome {
        Ok(members) => Ok((members, OutcomeView::Changed)),
        Err(e) => Err(e),
    }
}

/// The paths of a run of source files, in order.
pub open spec fn source_paths(sources: Seq<SourceView>) -> Seq<Seq<char>> {
    sources.map_values(|s: SourceView| s.path)
}

/// How an add ends that is served with `sources` for the files that the
/// request names. A file that the request names and that is not among
/// the sources, in its place, counts as missing.
pub open spec fn add_served(
    archive: ArchiveView,
    request: RequestView,
    sources: Seq<SourceView>,
) -> Result<Seq<MemberView>, ArchiveError> {
    if archive.codec.writable() && names_or_none(request.files) != source_paths(sources) {
        Err(ArchiveError::TargetMissing)
    } else {
        add_outcome(archive, sources)
    }
}

/// What serving a request comes to: the members afterwards and what is
/// handed back, or the codec's error. `sources` are the files that an add
/// names, as they were found; for every other operation they play no part.
pub open spec fn executed(
    archive: ArchiveView,
    request: RequestView,
    sources: Seq<SourceView>,
) -> Result<(Seq<MemberView>, OutcomeView), ArchiveError> {
    match request.operation {
        Operation::Add => changed_to(add_served(archive, request, sources)),
        Operation::Delete => changed_to(delete_outcome(archive, names_or_none(request.files))),
        Operation::Rename => changed_to(rename_outcome(archive, pairs_or_none(request.renames))),
        Operation::List => Ok((archive.members, OutcomeView::Listed(directory(archive.members)))),
        Operation::Test => Ok((archive.members, OutcomeView::Tested(integrity_report(archive)))),
        Operation::Extract => match extract_outcome(
            archive.members,
            request.files,
            request.full_paths,
        ) {
            Ok(files) => Ok((archive.members, OutcomeView::Extracted(files))),
            Err(e) => Err(e),
        },
        Operation::Hash => match hash_outcome(archive.members, names_or_none(request.files)) {
            Ok(digests) => Ok((archive.members, OutcomeView::Hashed(digests))),
            Err(e) => Err(e),
        },
    }
}

/// An operation that only reads leaves the archive as it was.
pub proof fn lemma_reading_changes_nothing(
    archive: ArchiveView,
    request: RequestView,
    sources: Seq<SourceView>,
)
    requires
        request.operation.reads_only(),
        executed(archive, request, sources).is_ok(),
    ensures
        executed(archive, request, sources).unwrap().0 == archive.members,
{
}

/// On a read-only format every changing operation is refused at once.
pub proof fn lemma_read_only_refuses(
    archive: ArchiveView,
    request: RequestView,
    sources: Seq<SourceView>,
)
    requires
        !archive.codec.writable(),
        !request.operation.reads_only(),
    ensures
        executed(archive, request, sources) == Err::<(Seq<MemberView>, OutcomeView), ArchiveError>(
            ArchiveError::UnsupportedFeature,
        ),
{
}

/// Whether the sources stand for the names, one for one and in order.
pub fn same_paths(names: &Vec<String>, sources: &Vec<SourceFile>) -> (same: bool)
    ensures
        same == (texts(names@) == source_paths(source_views(sources@))),
{
    let ghost wanted = texts(names@);
    let ghost given = source_paths(source_views(sources@));
    if names.len() != sources.len() {
        return false;
    }
    let mut i: usize = 0;
    while i < names.len()
        invariant
            i <= names.len(),
            names.len() == sources.len(),
            wanted == texts(names@),
            given == source_paths(source_views(sources@)),
            wanted.len() == given.len(),
            wanted.len() == names.len(),
            forall|j: int| 0 <= j < i ==> wanted[j] == given[j],
        decreases names.len() - i,
    {
        proof {
            assert(wanted[i as int] == names@[i as int]@);
            assert(given[i as int] == sources@[i as int]@.path);
        }
        if names[i] != sources[i].path {
            return false;
        }
        i += 1;
    }
    proof {
        assert(wanted =~= given);
    }
    true
}

/// Serves the request with the one method of the archive that its
/// operation names. An error comes back as the method gave it, and then
/// the archive is as it was.
pub fn execute(archive: &mut Archive, request: &OperationRequest, sources: &Vec<SourceFile>) -> (result:
    Result<Outcome, ArchiveError>)
    requires
        old(archive).wf(),
    ensures
        final(archive).wf(),
        final(archive)@.codec == old(archive)@.codec,
        match result {
            Ok(outcome) => executed(old(archive)@, request@, source_views(sources@)) == Ok::<
                (Seq<MemberView>, OutcomeView),
                ArchiveError,
            >((final(archive)@.members, outcome@)),
            Err(e) => executed(old(archive)@, request@, source_views(sources@)) == Err::<
                (Seq<MemberView>, OutcomeView),
                ArchiveError,
            >(e) && final(archive)@ == old(archive)@,
        },
{
    let no_names: Vec<String> = Vec::new();
    let no_pairs: Vec<RenamePair> = Vec::new();
    proof {
        assert(texts(no_names@) =~= Seq::<Seq<char>>::empty());
        assert(pair_views(no_pairs@) =~= Seq::<RenameView>::empty());
    }
    let names: &Vec<String> = match &request.files {
        Some(given) => given,
        None => &no_names,
    };
    let pairs: &Vec<RenamePair> = match &request.renames {
        Some(given) => given,
        None => &no_pairs,
    };
    match request.operation {
        Operation::Add => {
            if archive.codec.is_writable() && !same_paths(names, sources) {
                return Err(ArchiveError::TargetMissing);
            }
            match archive.add(sources) {
                Ok(_) => Ok(Outcome::Changed),
                Err(e) => Err(e),
            }
        },
        Operation::Delete => match archive.delete(names) {
            Ok(_) => Ok(Outcome::Changed),
            Err(e) => Err(e),
        },
        Operation::Rename => match archive.rename(pairs) {
            Ok(_) => Ok(Outcome::Changed),
            Err(e) => Err(e),
        },
        Operation::List => Ok(Outcome::Listed(archive.list())),
        Operation::Test => Ok(Outcome::Tested(archive.test())),
        Operation::Extract => {
            let selection: Option<&Vec<String>> = match &request.files {
                Some(given) => Some(given),
                None => None,
            };
            match archive.extract(selection, request.full_paths) {
                Ok(files) => Ok(Outcome::Extracted(files)),
                Err(e) => Err(e),
            }
        },
        Operation::Hash => match archive.hash(names) {
            Ok(digests) => Ok(Outcome::Hashed(digests)),
            Err(e) => Err(e),
        },
    }
}

} // verus!
