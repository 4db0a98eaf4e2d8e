//! What a grouping table holds, as mathematics: groups of paths keyed by
//! fingerprint, in the order in which the fingerprints were first recorded,
//! and what holds of the table that a sequence of records leaves behind.

use vstd::prelude::*;

verus! {

/// A path, as the characters it is written with.
pub type PathView = Seq<char>;

/// One record: a path and the fingerprint computed for it.
pub struct Record {
    pub path: PathView,
    pub fingerprint: u64,
}

/// One group: a fingerprint and the paths recorded with it, in the order in
/// which they were recorded.
pub struct GroupView {
    pub fingerprint: u64,
    pub paths: Seq<PathView>,
}

/// Index of the first group with the given fingerprint, or the number of
/// groups where there is none.
pub open spec fn position_of(groups: Seq<GroupView>, fingerprint: u64) -> int
    decreases groups.len(),
{
    if groups.len() == 0 {
        0
    } else {
        let before = position_of(groups.drop_last(), fingerprint);
        if before < groups.len() - 1 {
            before
        } else if groups.last().fingerprint == fingerprint {
            groups.len() - 1
        } else {
            groups.len() as int
        }
    }
}

/// Whether some group has the given fingerprint.
pub open spec fn has_key(groups: Seq<GroupView>, fingerprint: u64) -> bool {
    position_of(groups, fingerprint) < groups.len()
}

/// The paths grouped under a fingerprint; none where no group has it.
pub open spec fn paths_of(groups: Seq<GroupView>, fingerprint: u64) -> Seq<PathView> {
    if has_key(groups, fingerprint) {
        groups[position_of(groups, fingerprint)].paths
    } else {
        Seq::empty()
    }
}

/// The groups after one more record: the path goes to the end of the group
/// of its fingerprint, or into a new group behind all others where there was
/// no such group.
pub open spec fn recorded(groups: Seq<GroupView>, path: PathView, fingerprint: u64) -> Seq<
    GroupView,
> {
    let at = position_of(groups, fingerprint);
    if at < groups.len() {
        groups.update(at, GroupView { fingerprint, paths: groups[at].paths.push(path) })
    } else {
        groups.push(GroupView { fingerprint, paths: seq![path] })
    }
}

/// The groups that a sequence of records leaves in a table that was empty.
pub open spec fn table_of(records: Seq<Record>) -> Seq<GroupView>
    decreases records.len(),
{
    if records.len() == 0 {
        Seq::empty()
    } else {
        recorded(
            table_of(records.drop_last()),
            records.last().path,
            records.last().fingerprint,
        )
    }
}

/// The paths of the records that have the given fingerprint, in the order
/// of the records.
pub open spec fn paths_with(records: Seq<Record>, fingerprint: u64) -> Seq<PathView>
    decreases records.len(),
{
    if records.len() == 0 {
        Seq::empty()
    } else if records.last().fingerprint == fingerprint {
        paths_with(records.drop_last(), fingerprint).push(records.last().path)
    } else {
        paths_with(records.drop_last(), fingerprint)
    }
}

/// No two groups have the same fingerprint, and no group is empty.
pub open spec fn well_grouped(groups: Seq<GroupView>) -> bool {
    &&& forall|i: int, j: int|
        0 <= i < j < groups.len() ==> groups[i].fingerprint != groups[j].fingerprint
    &&& forall|i: int| 0 <= i < groups.len() ==> (#[trigger] groups[i]).paths.len() > 0
}

/// Number of paths in all groups together.
pub open spec fn total_entries(groups: Seq<GroupView>) -> nat
    decreases groups.len(),
{
    if groups.len() == 0 {
        0
    } else {
        total_entries(groups.drop_last()) + groups.last().paths.len()
    }
}

/// The groups with two paths or more, in the order of the groups.
pub open spec fn duplicates_of(groups: Seq<GroupView>) -> Seq<GroupView> {
    groups.filter(|group: GroupView| group.paths.len() >= 2)
}

/// `position_of` finds the first group with the fingerprint, if there is
/// one.
pub proof fn lemma_position_of(groups: Seq<GroupView>, fingerprint: u64)
    ensures
        0 <= position_of(groups, fingerprint) <= groups.len(),
        has_key(groups, fingerprint) ==> groups[position_of(groups, fingerprint)].fingerprint
            == fingerprint,
        forall|i: int|
            0 <= i < position_of(groups, fingerprint) ==> (#[trigger] groups[i]).fingerprint
                != fingerprint,
    decreases groups.len(),
{
    if groups.len() > 0 {
        let rest = groups.drop_last();
        lemma_position_of(rest, fingerprint);
        assert forall|i: int| 0 <= i < position_of(groups, fingerprint) implies (
        #[trigger] groups[i]).fingerprint != fingerprint by {
            if i < rest.len() {
                assert(rest[i] == groups[i]);
            }
        }
    }
}

/// In well-grouped groups a fingerprint is found where it stands.
pub proof fn lemma_position_of_member(groups: Seq<GroupView>, i: int)
    requires
        well_grouped(groups),
        0 <= i < groups.len(),
    ensures
        position_of(groups, groups[i].fingerprint) == i,
{
    let at = position_of(groups, groups[i].fingerprint);
    lemma_position_of(groups, groups[i].fingerprint);
    if at > i {
        assert(groups[i].fingerprint != groups[i].fingerprint);
    }
}

/// Replacing one group changes the number of entries by the change in that
/// group.
proof fn lemma_total_entries_update(groups: Seq<GroupView>, at: int, group: GroupView)
    requires
        0 <= at < groups.len(),
    ensures
        total_entries(groups.update(at, group)) == total_entries(groups) - groups[at].paths.len()
            + group.paths.len(),
    decreases groups.len(),
{
    let updated = groups.update(at, group);
    if at == groups.len() - 1 {
        assert(updated.drop_last() =~= groups.drop_last());
    } else {
        assert(updated.drop_last() =~= groups.drop_last().update(at, group));
        lemma_total_entries_update(groups.drop_last(), at, group);
    }
}

/// What one record does to the groups under a given fingerprint `other`:
/// the group of the record's own fingerprint grows by the path at its end,
/// every other group stays as it is and where it is, and a new group stands
/// behind those that were there.
pub proof fn lemma_recorded(groups: Seq<GroupView>, path: PathView, fingerprint: u64, other: u64)
    requires
        well_grouped(groups),
    ensures
        well_grouped(recorded(groups, path, fingerprint)),
        total_entries(recorded(groups, path, fingerprint)) == total_entries(groups) + 1,
        has_key(recorded(groups, path, fingerprint), other) == (other == fingerprint || has_key(
            groups,
            other,
        )),
        paths_of(recorded(groups, path, fingerprint), other) == if other == fingerprint {
            paths_of(groups, other).push(path)
        } else {
            paths_of(groups, other)
        },
        has_key(groups, other) ==> position_of(recorded(groups, path, fingerprint), other)
            == position_of(groups, other),
        !has_key(groups, fingerprint) ==> position_of(
            recorded(groups, path, fingerprint),
            fingerprint,
        ) == groups.len(),
{
    let after = recorded(groups, path, fingerprint);
    let at = position_of(groups, fingerprint);
    lemma_position_of(groups, fingerprint);
    lemma_position_of(groups, other);
    if at < groups.len() {
        let grown = GroupView { fingerprint, paths: groups[at].paths.push(path) };
        assert(after == groups.update(at, grown));
        lemma_total_entries_update(groups, at, grown);
        assert(well_grouped(after));
        lemma_position_of_member(after, at);
        let there = position_of(groups, other);
        if there < groups.len() {
            lemma_position_of_member(after, there);
        } else {
            lemma_position_of(after, other);
            let found = position_of(after, other);
            if found < after.len() {
                assert(groups[found].fingerprint == other);
                lemma_position_of_member(groups, found);
            }
        }
    } else {
        let fresh = GroupView { fingerprint, paths: seq![path] };
        assert(after == groups.push(fresh));
        assert(after.drop_last() =~= groups);
        assert forall|i: int, j: int| 0 <= i < j < after.len() implies after[i].fingerprint
            != after[j].fingerprint by {
            if j == groups.len() {
                assert(groups[i].fingerprint != fingerprint);
            }
        }
        assert(well_grouped(after));
        lemma_position_of_member(after, groups.len() as int);
        assert(paths_of(groups, fingerprint) =~= Seq::<PathView>::empty());
        assert(seq![path] =~= Seq::<PathView>::empty().push(path));
    }
}

/// The table that a sequence of records leaves is well grouped and holds
/// every record once: as many entries as records, and under each fingerprint
/// the paths of the records that have it, in the order of the records.
pub proof fn lemma_table_of(records: Seq<Record>, fingerprint: u64)
    ensures
        well_grouped(table_of(records)),
        total_entries(table_of(records)) == records.len(),
        paths_of(table_of(records), fingerprint) == paths_with(records, fingerprint),
        has_key(table_of(records), fingerprint) == (paths_with(records, fingerprint).len() > 0),
    decreases records.len(),
{
    if records.len() > 0 {
        let rest = records.drop_last();
        let last = records.last();
        lemma_table_of(rest, fingerprint);
        lemma_recorded(table_of(rest), last.path, last.fingerprint, fingerprint);
    }
}

/// A record is found in the group of its fingerprint.
pub proof fn lemma_record_is_grouped(records: Seq<Record>, i: int)
    requires
        0 <= i < records.len(),
    ensures
        paths_of(table_of(records), records[i].fingerprint).contains(records[i].path),
    decreases records.len(),
{
    let key = records[i].fingerprint;
    lemma_table_of(records, key);
    let rest = records.drop_last();
    if i == records.len() - 1 {
        let grown = paths_with(records, key);
        assert(grown[grown.len() - 1] == records[i].path);
    } else {
        lemma_record_is_grouped(rest, i);
        lemma_table_of(rest, key);
        let before = paths_with(rest, key);
        let found = choose|n: int| 0 <= n < before.len() && before[n] == rest[i].path;
        assert(paths_with(records, key)[found] == records[i].path);
    }
}

/// No record is lost and none is doubled: a path stands in the group of a
/// fingerprint as often as the records hold it with that fingerprint, and
/// so once where the records hold it once.
pub proof fn lemma_each_record_once(records: Seq<Record>, fingerprint: u64, path: PathView)
    ensures
        paths_of(table_of(records), fingerprint).to_multiset().count(path)
            == records.to_multiset().count(Record { path, fingerprint }),
{
    lemma_table_of(records, fingerprint);
    lemma_paths_with_count(records, fingerprint, path);
}

/// How often a path stands among the paths of a fingerprint is how often
/// the records hold that path with that fingerprint.
proof fn lemma_paths_with_count(records: Seq<Record>, fingerprint: u64, path: PathView)
    ensures
        paths_with(records, fingerprint).to_multiset().count(path) == records.to_multiset().count(
            Record { path, fingerprint },
        ),
    decreases records.len(),
{
    broadcast use vstd::seq_lib::group_to_multiset_ensures;

    if records.len() == 0 {
        assert(paths_with(records, fingerprint).to_multiset().len() == 0);
        assert(records.to_multiset().len() == 0);
    } else {
        let rest = records.drop_last();
        let last = records.last();
        lemma_paths_with_count(rest, fingerprint, path);
        assert(records =~= rest.push(last));
        assert(records.to_multiset() =~= rest.to_multiset().insert(last));
        if last.fingerprint == fingerprint {
            assert(paths_with(records, fingerprint).to_multiset() =~= paths_with(
                rest,
                fingerprint,
            ).to_multiset().insert(last.path));
        }
    }
}

/// The order in which records arrive decides nothing but the order inside
/// the groups and among them: two sequences that hold the same records, in
/// whatever order, leave tables with the same fingerprints and, under each,
/// the same paths as often.
pub proof fn lemma_arrival_order_irrelevant(first: Seq<Record>, second: Seq<Record>, fingerprint: u64)
    requires
        first.to_multiset() == second.to_multiset(),
    ensures
        has_key(table_of(first), fingerprint) == has_key(table_of(second), fingerprint),
        paths_of(table_of(first), fingerprint).to_multiset() == paths_of(
            table_of(second),
            fingerprint,
        ).to_multiset(),
        total_entries(table_of(first)) == total_entries(table_of(second)),
{
    broadcast use vstd::seq_lib::group_to_multiset_ensures;

    lemma_table_of(first, fingerprint);
    lemma_table_of(second, fingerprint);
    let left = paths_with(first, fingerprint).to_multiset();
    let right = paths_with(second, fingerprint).to_multiset();
    assert forall|path: PathView| left.count(path) == right.count(path) by {
        lemma_paths_with_count(first, fingerprint, path);
        lemma_paths_with_count(second, fingerprint, path);
    }
    assert(left =~= right);
    assert(paths_with(first, fingerprint).len() == left.len());
    assert(paths_with(second, fingerprint).len() == right.len());
    assert(first.len() == first.to_multiset().len());
    assert(second.len() == second.to_multiset().len());
}

} // verus!
