//! The grouping table: paths gathered under their fingerprints.

use crate::grouping::{duplicates_of, recorded, well_grouped, GroupView, PathView};
use std::collections::HashMap;
use vstd::prelude::*;

verus! {

/// The paths of a sequence of strings.
pub open spec fn path_views(paths: Seq<String>) -> Seq<PathView> {
    paths.map_values(|path: String| path@)
}

/// A group of the table: a fingerprint and the paths recorded with it.
pub struct Group {
    pub fingerprint: u64,
    pub paths: Vec<String>,
}

impl View for Group {
    type V = GroupView;

    open spec fn view(&self) -> GroupView {
        GroupView { fingerprint: self.fingerprint, paths: path_views(self.paths@) }
    }
}

/// The groups of a sequence of stored groups.
pub open spec fn group_views(groups: Seq<Group>) -> Seq<GroupView> {
    groups.map_values(|group: Group| group@)
}

/// Copies a list of paths.
fn copy_paths(paths: &Vec<String>) -> (copy: Vec<String>)
    ensures
        copy@ == paths@,
{
    let mut copy: Vec<String> = Vec::new();
    let mut i: usize = 0;
    while i < paths.len()
        invariant
            0 <= i <= paths@.len(),
            copy@ == paths@.take(i as int),
        decreases paths@.len() - i,
    {
        copy.push(paths[i].clone());
        assert(copy@ =~= paths@.take(i + 1));
        i = i + 1;
    }
    assert(paths@.take(paths@.len() as int) =~= paths@);
    copy
}

/// A table from fingerprints to the paths recorded with them. The groups
/// stand in the order in which their fingerprints were first recorded, the
/// paths of a group in the order in which they were recorded.
pub struct GroupingTable {
    groups: Vec<Group>,
    index: HashMap<u64, usize>,
}

impl View for GroupingTable {
    type V = Seq<GroupView>;

    closed spec fn view(&self) -> Seq<GroupView> {
        group_views(self.groups@)
    }
}

impl GroupingTable {
    /// The index knows each group by its fingerprint and nothing else, and
    /// no group is empty.
    pub closed spec fn wf(&self) -> bool {
        &&& forall|i: int|
            0 <= i < self.groups@.len() ==> self.index@.contains_key(
                (#[trigger] self.groups@[i]).fingerprint,
            ) && self.index@[self.groups@[i].fingerprint] == i
        &&& forall|key: u64| #[trigger]
            self.index@.contains_key(key) ==> self.index@[key] < self.groups@.len()
                && self.groups@[self.index@[key] as int].fingerprint == key
        &&& forall|i: int| 0 <= i < self.groups@.len() ==> (#[trigger] self.groups@[i]).paths@.len() > 0
    }

    /// A table that is in order is well grouped: no fingerprint twice, no
    /// group empty.
    pub proof fn lemma_well_grouped(&self)
        requires
            self.wf(),
        ensures
            well_grouped(self@),
    {
        let groups = self@;
        assert forall|i: int, j: int| 0 <= i < j < groups.len() implies groups[i].fingerprint
            != groups[j].fingerprint by {
            assert(self.index@[self.groups@[i].fingerprint] == i);
            assert(self.index@[self.groups@[j].fingerprint] == j);
        }
        assert forall|i: int| 0 <= i < groups.len() implies (#[trigger] groups[i]).paths.len()
            > 0 by {
            assert(self.groups@[i].paths@.len() > 0);
        }
    }

    /// An empty table.
    pub fn new() -> (table: GroupingTable)
        ensures
            table.wf(),
            table@ == Seq::<GroupView>::empty(),
    {
        broadcast use vstd::std_specs::hash::group_hash_axioms;

        let table = GroupingTable { groups: Vec::new(), index: HashMap::new() };
        assert(table@ =~= Seq::<GroupView>::empty());
        table
    }

    /// Number of groups.
    pub fn group_count(&self) -> (count: usize)
        ensures
            count == self@.len(),
    {
        self.groups.len()
    }

    /// All groups, in the order in which their fingerprints were first
    /// recorded.
    pub fn groups(&self) -> (all: Vec<Group>)
        ensures
            group_views(all@) == self@,
    {
        let mut all: Vec<Group> = Vec::new();
        let mut i: usize = 0;
        while i < self.groups.len()
            invariant
                0 <= i <= self.groups@.len(),
                group_views(all@) == self@.take(i as int),
            decreases self.groups@.len() - i,
        {
            let group = &self.groups[i];
            let ghost before = group_views(all@);
            all.push(Group { fingerprint: group.fingerprint, paths: copy_paths(&group.paths) });
            assert(all@.last()@ == group@);
            assert(group_views(all@) =~= before.push(group@));
            assert(self@.take(i + 1) =~= self@.take(i as int).push(group@));
            i = i + 1;
        }
        assert(self@.take(self.groups@.len() as int) =~= self@);
        all
    }

    /// The groups that hold two paths or more, in the order in which their
    /// fingerprints were first recorded. A path that shares its fingerprint
    /// with no other is left out.
    pub fn groups_with_duplicates(&self) -> (found: Vec<Group>)
        ensures
            group_views(found@) == duplicates_of(self@),
    {
        let mut found: Vec<Group> = Vec::new();
        let mut i: usize = 0;
        proof {
            reveal(Seq::filter);
            assert(self@.take(0) =~= Seq::<GroupView>::empty());
            assert(group_views(found@) =~= duplicates_of(self@.take(0)));
        }
        while i < self.groups.len()
            invariant
                0 <= i <= self.groups@.len(),
                group_views(found@) == duplicates_of(self@.take(i as int)),
            decreases self.groups@.len() - i,
        {
            let group = &self.groups[i];
            proof {
                reveal(Seq::filter);
                assert(self@.take(i + 1).drop_last() =~= self@.take(i as int));
                assert(self@.take(i + 1).last() == group@);
                assert(group@.paths.len() == group.paths@.len());
            }
            if group.paths.len() >= 2 {
                let ghost before = group_views(found@);
                found.push(Group { fingerprint: group.fingerprint, paths: copy_paths(&group.paths) });
                assert(group_views(found@) =~= before.push(group@));
            }
            i = i + 1;
        }
        assert(self@.take(self.groups@.len() as int) =~= self@);
        found
    }

    /// Records a path under its fingerprint: at the end of the group of that
    /// fingerprint, or in a new group behind all others.
    pub fn record(&mut self, path: String, fingerprint: u64)
        requires
            old(self).wf(),
        ensures
            final(self).wf(),
            final(self)@ == recorded(old(self)@, path@, fingerprint),
    {
        broadcast use vstd::std_specs::hash::group_hash_axioms;

        proof {
            self.lemma_well_grouped();
            crate::grouping::lemma_position_of(self@, fingerprint);
        }
        let ghost before = self@;
        let ghost stored = self.groups@;
        let found: Option<usize> = match self.index.get(&fingerprint) {
            Some(at) => Some(*at),
            None => None,
        };
        match found {
            Some(at) => {
                proof {
                    assert(self.index@.contains_key(fingerprint) && self.index@[fingerprint] == at);
                    assert(before[at as int].fingerprint == fingerprint);
                    crate::grouping::lemma_position_of_member(before, at as int);
                }
                self.groups[at].paths.push(path);
                proof {
                    let grown = self.groups@[at as int];
                    assert(grown.fingerprint == fingerprint);
                    assert(grown.paths@ == stored[at as int].paths@.push(path));
                    assert(path_views(grown.paths@) =~= path_views(stored[at as int].paths@).push(
                        path@,
                    ));
                    assert forall|i: int| 0 <= i < stored.len() && i != at implies self.groups@[i]
                        == stored[i] by {}
                    assert(self@ =~= recorded(before, path@, fingerprint));
                }
            },
            None => {
                let at: usize = self.groups.len();
                let mut paths: Vec<String> = Vec::new();
                paths.push(path);
                proof {
                    assert(!self.index@.contains_key(fingerprint));
                    if crate::grouping::has_key(before, fingerprint) {
                        let there = crate::grouping::position_of(before, fingerprint);
                        assert(stored[there].fingerprint == fingerprint);
                    }
                    assert(path_views(paths@) =~= seq![path@]);
                }
                self.groups.push(Group { fingerprint, paths });
                self.index.insert(fingerprint, at);
                proof {
                    assert(self.groups@[at as int]@ == (GroupView {
                        fingerprint,
                        paths: seq![path@],
                    }));
                    assert(self@ =~= recorded(before, path@, fingerprint));
                    assert forall|i: int| 0 <= i < self.groups@.len() implies self.index@.contains_key(
                        (#[trigger] self.groups@[i]).fingerprint,
                    ) && self.index@[self.groups@[i].fingerprint] == i by {
                        if i < at {
                            assert(self.groups@[i] == stored[i]);
                        }
                    }
                }
            },
        }
    }
}

} // verus!
