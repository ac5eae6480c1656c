//! Testing a container's integrity and hashing its entries.

use vstd::prelude::*;
use crate::archive::holds;
use crate::archive::lemma_position;
use crate::archive::position;
use crate::archive::report_of;
use crate::archive::texts;
use crate::archive::Archive;
use crate::archive::ArchiveView;
use crate::archive::EntryReport;
use crate::archive::EntryReportView;
use crate::archive::MemberView;
use crate::delete::all_held;
use crate::error::ArchiveError;
use crate::hasher::crc32_of;
use crate::hasher::digest_bytes;
use crate::hasher::hash_content;
use crate::hasher::HashAlgorithm;
use crate::hasher::HashResult;

verus! {

/// The views of a run of report lines, in order.
pub open spec fn report_views(lines: Seq<EntryReport>) -> Seq<EntryReportView> {
    lines.map_values(|l: EntryReport| l@)
}

/// The integrity report: one line for each entry, in directory order.
pub open spec fn integrity_report(archive: ArchiveView) -> Seq<EntryReportView> {
    Seq::new(archive.members.len(), |k: int| report_of(archive.codec, archive.members[k]))
}

/// A digest as contracts speak of it.
pub struct HashView {
    pub path: Seq<char>,
    pub algorithm: HashAlgorithm,
    pub digest: Seq<u8>,
}

impl View for HashResult {
    type V = HashView;

    open spec fn view(&self) -> HashView {
        HashView { path: self.path@, algorithm: self.algorithm, digest: self.digest@ }
    }
}

/// The views of a run of digests, in order.
pub open spec fn hash_views(results: Seq<HashResult>) -> Seq<HashView> {
    results.map_values(|r: HashResult| r@)
}

/// The digest of one member's content.
pub open spec fn hash_of(member: MemberView) -> HashView {
    HashView {
        path: member.entry.path,
        algorithm: HashAlgorithm::Crc32,
        digest: digest_bytes(crc32_of(member.content)),
    }
}

/// How hashing entries ends: a path that names no entry fails it; else
/// there is one digest for each path, in the order of the paths.
pub open spec fn hash_outcome(members: Seq<MemberView>, paths: Seq<Seq<char>>) -> Result<
    Seq<HashView>,
    ArchiveError,
> {
    if !all_held(members, paths) {
        Err(ArchiveError::EntryNotFound)
    } else {
        Ok(Seq::new(paths.len(), |k: int| hash_of(members[position(members, paths[k]).unwrap()])))
    }
}

impl Archive {
    /// Tests every entry against its stored checksum. A mismatch is a line
    /// of the report, never an error: each entry is judged by itself.
    pub fn test(&self) -> (report: Vec<EntryReport>)
        ensures
            report_views(report@) == integrity_report(self@),
    {
        let ghost members = self@.members;
        let mut report: Vec<EntryReport> = Vec::new();
        let mut i: usize = 0;
        while i < self.members.len()
            invariant
                i <= self.members.len(),
                members == self@.members,
                members.len() == self.members.len(),
                report@.len() == i,
                forall|k: int|
                    0 <= k < i ==> (#[trigger] report@[k])@ == report_of(self@.codec, members[k]),
            decreases self.members.len() - i,
        {
            report.push(self.members[i].check(self.codec));
            i += 1;
        }
        proof {
            assert(report_views(report@) =~= integrity_report(self@));
        }
        report
    }

    /// The digests of the named entries' contents.
    pub fn hash(&self, paths: &Vec<String>) -> (result: Result<Vec<HashResult>, ArchiveError>)
        ensures
            match result {
                Ok(digests) => hash_outcome(self@.members, texts(paths@)) == Ok::<
                    Seq<HashView>,
                    ArchiveError,
                >(hash_views(digests@)),
                Err(e) => hash_outcome(self@.members, texts(paths@)) == Err::<
                    Seq<HashView>,
                    ArchiveError,
                >(e),
            },
    {
        let ghost members = self@.members;
        let ghost names = texts(paths@);
        let mut digests: Vec<HashResult> = Vec::new();
        let mut k: usize = 0;
        while k < paths.len()
            invariant
                k <= paths.len(),
                members == self@.members,
                names == texts(paths@),
                names.len() == paths.len(),
                digests@.len() == k,
                forall|j: int| 0 <= j < k ==> holds(members, #[trigger] names[j]),
                forall|j: int|
                    0 <= j < k ==> (#[trigger] digests@[j])@ == hash_of(
                        members[position(members, names[j]).unwrap()],
                    ),
            decreases paths.len() - k,
        {
            proof {
                assert(names[k as int] == paths@[k as int]@);
                lemma_position(members, names[k as int]);
            }
            match self.find(&paths[k]) {
                None => {
                    proof {
                        assert(!holds(members, names[k as int]));
                    }
                    return Err(ArchiveError::EntryNotFound);
                },
                Some(at) => {
                    let member = &self.members[at];
                    digests.push(
                        hash_content(member.entry.path.as_str(), member.content.as_slice()),
                    );
                },
            }
            k += 1;
        }
        proof {
            assert(hash_views(digests@) =~= hash_outcome(members, names).unwrap());
        }
        Ok(digests)
    }
}

} // verus!
