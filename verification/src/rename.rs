//! Renaming entries of a container.

use vstd::prelude::*;
use crate::archive::holds;
use crate::archive::lemma_position;
use crate::archive::member_views;
use crate::archive::position;
use crate::archive::well_formed;
use crate::archive::Archive;
use crate::archive::ArchiveView;
use crate::archive::EntryView;
use crate::archive::MemberView;
use crate::error::ArchiveError;
use crate::path::is_normalized;
use crate::path::lemma_normalized_is_normalized;
use crate::path::normalize_path;
use crate::path::normalized;

verus! {

/// One renaming: the entry now at `from` is to stand at `to`.
#[derive(Debug)]
pub struct RenamePair {
    pub from: String,
    pub to: String,
}

/// One renaming as contracts speak of it.
pub struct RenameView {
    pub from: Seq<char>,
    pub to: Seq<char>,
}

impl View for RenamePair {
    type V = RenameView;

    open spec fn view(&self) -> RenameView {
        RenameView { from: self.from@, to: self.to@ }
    }
}

/// The views of a run of pairs, in order.
pub open spec fn pair_views(pairs: Seq<RenamePair>) -> Seq<RenameView> {
    pairs.map_values(|p: RenamePair| p@)
}

/// The member under another path, all else as it was.
pub open spec fn with_path(member: MemberView, path: Seq<char>) -> MemberView {
    MemberView {
        entry: EntryView {
            path,
            size: member.entry.size,
            compressed_size: member.entry.compressed_size,
            modified: member.entry.modified,
            checksum: member.entry.checksum,
        },
        content: member.content,
    }
}

/// One renaming: it fails where no entry stands at `from`, and where
/// another entry already stands at the new path in normal form; else the
/// entry keeps its place and content and gets the new path.
pub open spec fn rename_one(members: Seq<MemberView>, pair: RenameView) -> Result<
    Seq<MemberView>,
    ArchiveError,
> {
    let target = normalized(pair.to);
    match position(members, pair.from) {
        None => Err(ArchiveError::EntryNotFound),
        Some(i) => if position(members, target).is_some() && position(members, target) != Some(
            i,
        ) {
            Err(ArchiveError::NameCollision)
        } else {
            Ok(members.update(i, with_path(members[i], target)))
        },
    }
}

/// The renamings one after the other, each on what the one before left.
/// The first that fails decides the error.
pub open spec fn renamed(members: Seq<MemberView>, pairs: Seq<RenameView>) -> Result<
    Seq<MemberView>,
    ArchiveError,
>
    decreases pairs.len(),
{
    if pairs.len() == 0 {
        Ok(members)
    } else {
        match renamed(members, pairs.drop_last()) {
            Err(e) => Err(e),
            Ok(current) => rename_one(current, pairs.last()),
        }
    }
}

/// How renaming ends: refused at once on a read-only format, else as the
/// renamings in their order end.
pub open spec fn rename_outcome(archive: ArchiveView, pairs: Seq<RenameView>) -> Result<
    Seq<MemberView>,
    ArchiveError,
> {
    if !archive.codec.writable() {
        Err(ArchiveError::UnsupportedFeature)
    } else {
        renamed(archive.members, pairs)
    }
}

/// One renaming keeps a container well formed and as long as it was.
pub proof fn lemma_rename_one_well_formed(members: Seq<MemberView>, pair: RenameView)
    requires
        well_formed(members),
        rename_one(members, pair).is_ok(),
    ensures
        well_formed(rename_one(members, pair).unwrap()),
        rename_one(members, pair).unwrap().len() == members.len(),
{
    let target = normalized(pair.to);
    let after = rename_one(members, pair).unwrap();
    lemma_position(members, pair.from);
    lemma_position(members, target);
    lemma_normalized_is_normalized(pair.to);
    let i = position(members, pair.from).unwrap();
    assert(after[i].entry.path == target);
    assert forall|a: int, b: int| 0 <= a < b < after.len() implies after[a].entry.path
        != after[b].entry.path by {
        if a == i {
            assert(after[b] == members[b]);
        } else if b == i {
            assert(after[a] == members[a]);
        } else {
            assert(members[a].entry.path != members[b].entry.path);
        }
    }
    assert forall|a: int| 0 <= a < after.len() implies is_normalized(
        #[trigger] after[a].entry.path,
    ) by {
        if a != i {
            assert(after[a] == members[a]);
        }
    }
    assert forall|a: int| 0 <= a < after.len() implies (#[trigger] after[a]).entry.size
        == after[a].content.len() by {
        if a != i {
            assert(after[a] == members[a]);
        } else {
            assert(members[i].entry.size == members[i].content.len());
        }
    }
}

/// Once a run of renamings has failed, no further pair changes the error.
pub proof fn lemma_renamed_error_stays(
    members: Seq<MemberView>,
    pairs: Seq<RenameView>,
    upto: int,
)
    requires
        0 <= upto <= pairs.len(),
        renamed(members, pairs.take(upto)).is_err(),
    ensures
        renamed(members, pairs) == renamed(members, pairs.take(upto)),
    decreases pairs.len() - upto,
{
    if upto == pairs.len() {
        assert(pairs.take(upto) =~= pairs);
    } else {
        let front = pairs.drop_last();
        assert(front.take(upto) =~= pairs.take(upto));
        lemma_renamed_error_stays(members, front, upto);
    }
}

/// A single renaming is the run of that one pair.
pub proof fn lemma_renamed_single(members: Seq<MemberView>, pair: RenameView)
    ensures
        renamed(members, seq![pair]) == rename_one(members, pair),
{
    let pairs = seq![pair];
    assert(pairs.drop_last() =~= Seq::<RenameView>::empty());
    assert(renamed(members, pairs.drop_last()) == Ok::<Seq<MemberView>, ArchiveError>(members));
    assert(pairs.last() == pair);
}

/// After an entry was renamed to another path, the directory shows the new
/// path and no longer the old one; every entry but that one is as before.
pub proof fn lemma_rename_shows_new_only(members: Seq<MemberView>, pair: RenameView)
    requires
        well_formed(members),
        rename_one(members, pair).is_ok(),
        pair.from != normalized(pair.to),
    ensures
        holds(rename_one(members, pair).unwrap(), normalized(pair.to)),
        !holds(rename_one(members, pair).unwrap(), pair.from),
        forall|k: int|
            0 <= k < members.len() && k != position(members, pair.from).unwrap() ==> rename_one(
                members,
                pair,
            ).unwrap()[k] == members[k],
{
    let target = normalized(pair.to);
    let after = rename_one(members, pair).unwrap();
    lemma_position(members, pair.from);
    let i = position(members, pair.from).unwrap();
    assert(after[i].entry.path == target);
    if holds(after, pair.from) {
        let k = choose|k: int| 0 <= k < after.len() && #[trigger] after[k].entry.path == pair.from;
        assert(k != i);
        assert(after[k] == members[k]);
        if k < i {
            assert(members[k].entry.path != members[i].entry.path);
        } else {
            assert(members[i].entry.path != members[k].entry.path);
        }
    }
}

impl Archive {
    /// Carries out one renaming.
    pub(crate) fn rename_entry(&mut self, pair: &RenamePair) -> (result: Result<(), ArchiveError>)
        requires
            old(self).wf(),
        ensures
            final(self).wf(),
            final(self)@.codec == old(self)@.codec,
            match result {
                Ok(_) => rename_one(old(self)@.members, pair@) == Ok::<
                    Seq<MemberView>,
                    ArchiveError,
                >(final(self)@.members),
                Err(e) => rename_one(old(self)@.members, pair@) == Err::<
                    Seq<MemberView>,
                    ArchiveError,
                >(e) && final(self)@ == old(self)@,
            },
    {
        let target = normalize_path(pair.to.as_str());
        let ghost before = self.members@;
        match self.find(&pair.from) {
            None => Err(ArchiveError::EntryNotFound),
            Some(i) => {
                match self.find(&target) {
                    Some(j) => {
                        if j != i {
                            return Err(ArchiveError::NameCollision);
                        }
                    },
                    None => {},
                }
                proof {
                    lemma_rename_one_well_formed(self@.members, pair@);
                }
                let mut member = self.members[i].duplicate();
                member.entry.path = target;
                self.members.set(i, member);
                proof {
                    assert(member_views(self.members@) =~= member_views(before).update(
                        i as int,
                        with_path(member_views(before)[i as int], target@),
                    ));
                }
                Ok(())
            },
        }
    }

    /// Renames entries, pair after pair. On a read-only format nothing is
    /// tried. Where a pair fails, the container is left as it was before the
    /// first pair.
    pub fn rename(&mut self, pairs: &Vec<RenamePair>) -> (result: Result<(), ArchiveError>)
        requires
            old(self).wf(),
        ensures
            final(self).wf(),
            match result {
                Ok(_) => rename_outcome(old(self)@, pair_views(pairs@)) == Ok::<
                    Seq<MemberView>,
                    ArchiveError,
                >(final(self)@.members) && final(self)@.codec == old(self)@.codec,
                Err(e) => rename_outcome(old(self)@, pair_views(pairs@)) == Err::<
                    Seq<MemberView>,
                    ArchiveError,
                >(e) && final(self)@ == old(self)@,
            },
    {
        if !self.codec.is_writable() {
            return Err(ArchiveError::UnsupportedFeature);
        }
        let ghost views = pair_views(pairs@);
        let ghost start = self@.members;
        let mut staged = self.duplicate();
        let mut k: usize = 0;
        while k < pairs.len()
            invariant
                k <= pairs.len(),
                views == pair_views(pairs@),
                views.len() == pairs.len(),
                self.wf(),
                self@ == old(self)@,
                start == old(self)@.members,
                self@.codec.writable(),
                staged.wf(),
                staged@.codec == self@.codec,
                renamed(start, views.take(k as int)) == Ok::<Seq<MemberView>, ArchiveError>(
                    staged@.members,
                ),
            decreases pairs.len() - k,
        {
            proof {
                assert(views[k as int] == pairs@[k as int]@);
                assert(views.take(k + 1).drop_last() =~= views.take(k as int));
                assert(views.take(k + 1).last() == views[k as int]);
            }
            match staged.rename_entry(&pairs[k]) {
                Ok(_) => {},
                Err(e) => {
                    proof {
                        lemma_renamed_error_stays(start, views, k + 1);
                    }
                    return Err(e);
                },
            }
            k += 1;
        }
        proof {
            assert(views.take(pairs.len() as int) =~= views);
        }
        *self = staged;
        Ok(())
    }
}

} // verus!
