//! Deleting entries from a container.

use vstd::prelude::*;
use crate::archive::holds;
use crate::archive::lemma_position;
use crate::archive::member_views;
use crate::archive::position;
use crate::archive::texts;
use crate::archive::well_formed;
use crate::archive::Archive;
use crate::archive::ArchiveView;
use crate::archive::Member;
use crate::archive::MemberView;
use crate::error::ArchiveError;
use crate::path::is_normalized;

verus! {

/// The members whose path is not among `paths`, in their old order.
pub open spec fn without(members: Seq<MemberView>, paths: Seq<Seq<char>>) -> Seq<MemberView>
    decreases members.len(),
{
    if members.len() == 0 {
        members
    } else if paths.contains(members.last().entry.path) {
        without(members.drop_last(), paths)
    } else {
        without(members.drop_last(), paths).push(members.last())
    }
}

/// Every path names a member.
pub open spec fn all_held(members: Seq<MemberView>, paths: Seq<Seq<char>>) -> bool {
    forall|k: int| 0 <= k < paths.len() ==> holds(members, #[trigger] paths[k])
}

/// How deleting ends: refused at once on a read-only format, refused where
/// a path names no entry, and else with the named entries gone.
pub open spec fn delete_outcome(archive: ArchiveView, paths: Seq<Seq<char>>) -> Result<
    Seq<MemberView>,
    ArchiveError,
> {
    if !archive.codec.writable() {
        Err(ArchiveError::UnsupportedFeature)
    } else if !all_held(archive.members, paths) {
        Err(ArchiveError::EntryNotFound)
    } else {
        Ok(without(archive.members, paths))
    }
}

/// A member is left after deleting exactly if it was a member and its
/// path was not named.
pub proof fn lemma_without_member(members: Seq<MemberView>, paths: Seq<Seq<char>>, m: MemberView)
    ensures
        without(members, paths).contains(m) <==> members.contains(m) && !paths.contains(
            m.entry.path,
        ),
    decreases members.len(),
{
    let rest = without(members, paths);
    if members.len() > 0 {
        let front = members.drop_last();
        let last = members.last();
        lemma_without_member(front, paths, m);
        let kept = without(front, paths);
        if rest.contains(m) {
            let i = choose|i: int| 0 <= i < rest.len() && rest[i] == m;
            if i < kept.len() {
                assert(kept[i] == m);
                assert(kept.contains(m));
                assert(front.contains(m));
                let j = choose|j: int| 0 <= j < front.len() && front[j] == m;
                assert(members[j] == m);
            } else {
                assert(m == last);
                assert(members[members.len() - 1] == m);
            }
        }
        if members.contains(m) && !paths.contains(m.entry.path) {
            let j = choose|j: int| 0 <= j < members.len() && members[j] == m;
            if j < front.len() {
                assert(front[j] == m);
                assert(front.contains(m));
                assert(kept.contains(m));
                let i = choose|i: int| 0 <= i < kept.len() && kept[i] == m;
                if paths.contains(last.entry.path) {
                    assert(rest[i] == m);
                } else {
                    assert(rest[i] == m);
                }
            } else {
                assert(m == last);
                assert(rest[rest.len() - 1] == m);
            }
        }
    }
}

/// Deleting keeps a container well formed and makes it no longer.
pub proof fn lemma_without_well_formed(members: Seq<MemberView>, paths: Seq<Seq<char>>)
    requires
        well_formed(members),
    ensures
        well_formed(without(members, paths)),
        without(members, paths).len() <= members.len(),
    decreases members.len(),
{
    let rest = without(members, paths);
    if members.len() > 0 {
        let front = members.drop_last();
        let last = members.last();
        assert(well_formed(front)) by {
            assert forall|i: int, j: int| 0 <= i < j < front.len() implies front[i].entry.path
                != front[j].entry.path by {
                assert(members[i].entry.path != members[j].entry.path);
            }
            assert forall|i: int| 0 <= i < front.len() implies is_normalized(
                #[trigger] front[i].entry.path,
            ) by {
                assert(front[i] == members[i]);
            }
            assert forall|i: int| 0 <= i < front.len() implies (#[trigger] front[i]).entry.size
                == front[i].content.len() by {
                assert(front[i] == members[i]);
            }
        }
        lemma_without_well_formed(front, paths);
        let kept = without(front, paths);
        if !paths.contains(last.entry.path) {
            assert forall|i: int, j: int| 0 <= i < j < rest.len() implies rest[i].entry.path
                != rest[j].entry.path by {
                if j == kept.len() {
                    assert(kept[i] == rest[i]);
                    assert(kept.contains(rest[i]));
                    lemma_without_member(front, paths, rest[i]);
                    let a = choose|a: int| 0 <= a < front.len() && front[a] == rest[i];
                    assert(members[a].entry.path != members[members.len() - 1].entry.path);
                } else {
                    assert(kept[i].entry.path != kept[j].entry.path);
                }
            }
            assert forall|i: int| 0 <= i < rest.len() implies is_normalized(
                #[trigger] rest[i].entry.path,
            ) by {
                if i < kept.len() {
                    assert(kept[i] == rest[i]);
                } else {
                    assert(rest[i] == members[members.len() - 1]);
                }
            }
            assert forall|i: int| 0 <= i < rest.len() implies (#[trigger] rest[i]).entry.size
                == rest[i].content.len() by {
                if i < kept.len() {
                    assert(kept[i] == rest[i]);
                } else {
                    assert(rest[i] == members[members.len() - 1]);
                }
            }
        }
    }
}

/// After deleting, no named path is held any more, and every other path
/// that was held still is.
pub proof fn lemma_deleted_is_gone(members: Seq<MemberView>, paths: Seq<Seq<char>>, path: Seq<char>)
    ensures
        paths.contains(path) ==> !holds(without(members, paths), path),
        paths.contains(path) ==> position(without(members, paths), path).is_none(),
        !paths.contains(path) ==> holds(without(members, paths), path) == holds(members, path),
{
    let rest = without(members, paths);
    lemma_position(rest, path);
    if holds(rest, path) {
        let i = choose|i: int| 0 <= i < rest.len() && #[trigger] rest[i].entry.path == path;
        assert(rest.contains(rest[i]));
        lemma_without_member(members, paths, rest[i]);
        let j = choose|j: int| 0 <= j < members.len() && members[j] == rest[i];
        assert(members[j].entry.path == path);
    }
    if !paths.contains(path) && holds(members, path) {
        let j = choose|j: int| 0 <= j < members.len() && #[trigger] members[j].entry.path == path;
        assert(members.contains(members[j]));
        lemma_without_member(members, paths, members[j]);
        let i = choose|i: int| 0 <= i < rest.len() && rest[i] == members[j];
        assert(rest[i].entry.path == path);
    }
}

/// Whether the text is among the strings.
pub fn list_holds(strings: &Vec<String>, text: &String) -> (found: bool)
    ensures
        found == texts(strings@).contains(text@),
{
    let ghost all = texts(strings@);
    let mut i: usize = 0;
    while i < strings.len()
        invariant
            i <= strings.len(),
            all == texts(strings@),
            all.len() == strings.len(),
            forall|j: int| 0 <= j < i ==> all[j] != text@,
        decreases strings.len() - i,
    {
        proof {
            assert(all[i as int] == strings@[i as int]@);
        }
        if strings[i] == *text {
            proof {
                assert(all[i as int] == text@);
            }
            return true;
        }
        i += 1;
    }
    false
}

impl Archive {
    /// Deletes the named entries. On a read-only format nothing is tried;
    /// where a path names no entry nothing is deleted. The entries that
    /// stay keep their order.
    pub fn delete(&mut self, paths: &Vec<String>) -> (result: Result<(), ArchiveError>)
        requires
            old(self).wf(),
        ensures
            final(self).wf(),
            match result {
                Ok(_) => delete_outcome(old(self)@, texts(paths@)) == Ok::<
                    Seq<MemberView>,
                    ArchiveError,
                >(final(self)@.members) && final(self)@.codec == old(self)@.codec,
                Err(e) => delete_outcome(old(self)@, texts(paths@)) == Err::<
                    Seq<MemberView>,
                    ArchiveError,
                >(e) && final(self)@ == old(self)@,
            },
    {
        if !self.codec.is_writable() {
            return Err(ArchiveError::UnsupportedFeature);
        }
        let ghost wanted = texts(paths@);
        let ghost entered = self@;
        let mut k: usize = 0;
        while k < paths.len()
            invariant
                k <= paths.len(),
                wanted == texts(paths@),
                wanted.len() == paths.len(),
                self.wf(),
                self@ == entered,
                entered == old(self)@,
                entered.codec.writable(),
                forall|j: int| 0 <= j < k ==> holds(entered.members, #[trigger] wanted[j]),
            decreases paths.len() - k,
        {
            proof {
                assert(wanted[k as int] == paths@[k as int]@);
                lemma_position(entered.members, wanted[k as int]);
            }
            if self.find(&paths[k]).is_none() {
                return Err(ArchiveError::EntryNotFound);
            }
            k += 1;
        }
        let mut kept: Vec<Member> = Vec::new();
        let mut i: usize = 0;
        while i < self.members.len()
            invariant
                i <= self.members.len(),
                wanted == texts(paths@),
                self@ == entered,
                entered.members.len() == self.members.len(),
                member_views(kept@) == without(entered.members.take(i as int), wanted),
            decreases self.members.len() - i,
        {
            let ghost before = kept@;
            proof {
                assert(entered.members.take(i + 1).drop_last() =~= entered.members.take(i as int));
                assert(entered.members.take(i + 1).last() == self.members@[i as int]@);
            }
            if !list_holds(paths, &self.members[i].entry.path) {
                kept.push(self.members[i].duplicate());
                proof {
                    assert(member_views(kept@) =~= member_views(before).push(
                        self.members@[i as int]@,
                    ));
                }
            }
            i += 1;
        }
        proof {
            assert(entered.members.take(self.members.len() as int) =~= entered.members);
            lemma_without_well_formed(entered.members, wanted);
        }
        self.members = kept;
        Ok(())
    }
}

} // verus!
