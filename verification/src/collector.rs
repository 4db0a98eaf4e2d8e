//! The collector: what becomes of each path once its image was decoded, or
//! was not, and the tally that is kept of it.

use crate::fingerprint::{fingerprint, image_fingerprint};
use crate::grouping::{
    has_key, paths_of, recorded, table_of, total_entries, well_grouped, GroupView, PathView, Record,
};
use crate::raster::DecodedImage;
use crate::table::GroupingTable;
use vstd::prelude::*;

verus! {

/// Why a file gave no image: it could not be read, or what was read is no
/// image of a supported kind.
pub struct DecodeError {
    pub reason: String,
}

/// What became of one path.
pub enum Outcome {
    /// The image was decoded and this is its fingerprint.
    Fingerprinted { path: String, fingerprint: u64 },
    /// The image could not be decoded.
    Failed { path: String, error: DecodeError },
}

/// An outcome, as mathematics.
pub enum OutcomeView {
    Fingerprinted { path: PathView, fingerprint: u64 },
    Failed { path: PathView, reason: Seq<char> },
}

impl View for Outcome {
    type V = OutcomeView;

    open spec fn view(&self) -> OutcomeView {
        match *self {
            Outcome::Fingerprinted { path, fingerprint } => OutcomeView::Fingerprinted {
                path: path@,
                fingerprint,
            },
            Outcome::Failed { path, error } => OutcomeView::Failed {
                path: path@,
                reason: error.reason@,
            },
        }
    }
}

/// A path that was skipped, with the reason.
pub struct Failure {
    pub path: String,
    pub reason: String,
}

/// A failure, as mathematics.
pub struct FailureView {
    pub path: PathView,
    pub reason: Seq<char>,
}

impl View for Failure {
    type V = FailureView;

    open spec fn view(&self) -> FailureView {
        FailureView { path: self.path@, reason: self.reason@ }
    }
}

/// The outcomes of a sequence of stored outcomes.
pub open spec fn outcome_views(outcomes: Seq<Outcome>) -> Seq<OutcomeView> {
    outcomes.map_values(|outcome: Outcome| outcome@)
}

/// The failures of a sequence of stored failures.
pub open spec fn failure_views(failures: Seq<Failure>) -> Seq<FailureView> {
    failures.map_values(|failure: Failure| failure@)
}

/// The records among a sequence of outcomes: one for each path that was
/// fingerprinted, in the order of the outcomes.
pub open spec fn records_of(outcomes: Seq<OutcomeView>) -> Seq<Record>
    decreases outcomes.len(),
{
    if outcomes.len() == 0 {
        Seq::empty()
    } else {
        match outcomes.last() {
            OutcomeView::Fingerprinted { path, fingerprint } => records_of(
                outcomes.drop_last(),
            ).push(Record { path, fingerprint }),
            OutcomeView::Failed { .. } => records_of(outcomes.drop_last()),
        }
    }
}

/// The failures among a sequence of outcomes, in the order of the outcomes.
pub open spec fn failures_of(outcomes: Seq<OutcomeView>) -> Seq<FailureView>
    decreases outcomes.len(),
{
    if outcomes.len() == 0 {
        Seq::empty()
    } else {
        match outcomes.last() {
            OutcomeView::Fingerprinted { .. } => failures_of(outcomes.drop_last()),
            OutcomeView::Failed { path, reason } => failures_of(outcomes.drop_last()).push(
                FailureView { path, reason },
            ),
        }
    }
}

/// What a collector holds: the groups of its table and the failures it was
/// told of.
pub struct Collected {
    pub groups: Seq<GroupView>,
    pub failures: Seq<FailureView>,
}

/// What a collector holds after one more outcome: a fingerprinted path is
/// recorded in the table, a failure goes to the end of the failures and
/// leaves the table as it was.
pub open spec fn published(state: Collected, outcome: OutcomeView) -> Collected {
    match outcome {
        OutcomeView::Fingerprinted { path, fingerprint } => Collected {
            groups: recorded(state.groups, path, fingerprint),
            failures: state.failures,
        },
        OutcomeView::Failed { path, reason } => Collected {
            groups: state.groups,
            failures: state.failures.push(FailureView { path, reason }),
        },
    }
}

/// What a collector that started empty holds after a sequence of outcomes.
pub open spec fn collected(outcomes: Seq<OutcomeView>) -> Collected {
    Collected { groups: table_of(records_of(outcomes)), failures: failures_of(outcomes) }
}

/// The outcome for one path: the fingerprint of its image where there is
/// one, else the failure. A failure yields no fingerprint of any kind.
pub fn outcome_of(path: String, decoded: Result<DecodedImage, DecodeError>) -> (outcome: Outcome)
    ensures
        outcome@ == match decoded {
            Ok(image) => OutcomeView::Fingerprinted {
                path: path@,
                fingerprint: image_fingerprint(image@),
            },
            Err(error) => OutcomeView::Failed { path: path@, reason: error.reason@ },
        },
{
    match decoded {
        Ok(image) => {
            let word: u64 = fingerprint(&image);
            Outcome::Fingerprinted { path, fingerprint: word }
        },
        Err(error) => Outcome::Failed { path, error },
    }
}

/// Gathers outcomes: fingerprinted paths into a grouping table, failures
/// into a list, with a count of each.
pub struct Collector {
    table: GroupingTable,
    failures: Vec<Failure>,
    succeeded: usize,
}

impl View for Collector {
    type V = Collected;

    closed spec fn view(&self) -> Collected {
        Collected { groups: self.table@, failures: failure_views(self.failures@) }
    }
}

impl Collector {
    /// The table is in order and the count of successes is the number of
    /// its entries.
    pub closed spec fn wf(&self) -> bool {
        &&& self.table.wf()
        &&& self.succeeded == total_entries(self.table@)
    }

    /// Number of outcomes that a collector holding `state` was given.
    pub open spec fn processed(state: Collected) -> nat {
        total_entries(state.groups) + state.failures.len()
    }

    /// A collector that was given nothing yet.
    pub fn new() -> (collector: Collector)
        ensures
            collector.wf(),
            collector@ == collected(Seq::empty()),
    {
        let collector = Collector { table: GroupingTable::new(), failures: Vec::new(), succeeded: 0 };
        assert(failure_views(collector.failures@) =~= Seq::<FailureView>::empty());
        collector
    }

    /// Takes one outcome in. A failure is isolated: it is listed and
    /// counted, and the table never sees it. The count of the entries must
    /// have room for one more.
    pub fn publish(&mut self, outcome: Outcome)
        requires
            old(self).wf(),
            total_entries(old(self)@.groups) < usize::MAX,
        ensures
            final(self).wf(),
            final(self)@ == published(old(self)@, outcome@),
            Self::processed(final(self)@) == Self::processed(old(self)@) + 1,
    {
        proof {
            self.table.lemma_well_grouped();
        }
        match outcome {
            Outcome::Fingerprinted { path, fingerprint } => {
                proof {
                    crate::grouping::lemma_recorded(self.table@, path@, fingerprint, fingerprint);
                }
                self.table.record(path, fingerprint);
                self.succeeded = self.succeeded + 1;
            },
            Outcome::Failed { path, error } => {
                let ghost before = failure_views(self.failures@);
                let failure = Failure { path, reason: error.reason };
                self.failures.push(failure);
                assert(failure_views(self.failures@) =~= before.push(failure@));
            },
        }
    }

    /// Number of paths that were fingerprinted and recorded.
    pub fn succeeded(&self) -> (count: usize)
        ensures
            self.wf() ==> count == total_entries(self@.groups),
    {
        self.succeeded
    }

    /// Number of paths that were skipped because their image could not be
    /// decoded.
    pub fn skipped(&self) -> (count: usize)
        ensures
            count == self@.failures.len(),
    {
        self.failures.len()
    }

    /// The failures, in the order in which they were published.
    pub fn failures(&self) -> (failures: &Vec<Failure>)
        ensures
            failure_views(failures@) == self@.failures,
    {
        &self.failures
    }

    /// The table of the paths that were fingerprinted.
    pub fn table(&self) -> (table: &GroupingTable)
        ensures
            table@ == self@.groups,
            self.wf() ==> table.wf(),
    {
        &self.table
    }
}

/// As many outcomes were taken in as there are records and failures: every
/// outcome is counted once, as the one or as the other.
pub proof fn lemma_every_outcome_counted(outcomes: Seq<OutcomeView>)
    ensures
        records_of(outcomes).len() + failures_of(outcomes).len() == outcomes.len(),
        Collector::processed(collected(outcomes)) == outcomes.len(),
    decreases outcomes.len(),
{
    crate::grouping::lemma_table_of(records_of(outcomes), 0);
    if outcomes.len() > 0 {
        lemma_every_outcome_counted(outcomes.drop_last());
    }
}

/// Gathering one more outcome is publishing it to what was gathered before.
pub proof fn lemma_collected_step(outcomes: Seq<OutcomeView>, outcome: OutcomeView)
    ensures
        collected(outcomes.push(outcome)) == published(collected(outcomes), outcome),
{
    let longer = outcomes.push(outcome);
    assert(longer.drop_last() =~= outcomes);
    assert(longer.last() == outcome);
    match outcome {
        OutcomeView::Fingerprinted { path, fingerprint } => {
            let records = records_of(outcomes);
            let record = Record { path, fingerprint };
            assert(records_of(longer) == records.push(record));
            assert(records.push(record).drop_last() =~= records);
            assert(records.push(record).last() == record);
        },
        OutcomeView::Failed { .. } => {},
    }
}

/// The records hold a path with a fingerprint as often as the outcomes do.
proof fn lemma_records_count(outcomes: Seq<OutcomeView>, record: Record)
    ensures
        records_of(outcomes).to_multiset().count(record) == outcomes.to_multiset().count(
            OutcomeView::Fingerprinted { path: record.path, fingerprint: record.fingerprint },
        ),
    decreases outcomes.len(),
{
    broadcast use vstd::seq_lib::group_to_multiset_ensures;

    if outcomes.len() == 0 {
        assert(records_of(outcomes).to_multiset().len() == 0);
        assert(outcomes.to_multiset().len() == 0);
    } else {
        let rest = outcomes.drop_last();
        let last = outcomes.last();
        lemma_records_count(rest, record);
        assert(outcomes =~= rest.push(last));
        assert(outcomes.to_multiset() =~= rest.to_multiset().insert(last));
        match last {
            OutcomeView::Fingerprinted { path, fingerprint } => {
                assert(records_of(outcomes).to_multiset() =~= records_of(
                    rest,
                ).to_multiset().insert(Record { path, fingerprint }));
            },
            OutcomeView::Failed { .. } => {},
        }
    }
}

/// The failures hold a path with a reason as often as the outcomes do.
proof fn lemma_failures_count(outcomes: Seq<OutcomeView>, failure: FailureView)
    ensures
        failures_of(outcomes).to_multiset().count(failure) == outcomes.to_multiset().count(
            OutcomeView::Failed { path: failure.path, reason: failure.reason },
        ),
    decreases outcomes.len(),
{
    broadcast use vstd::seq_lib::group_to_multiset_ensures;

    if outcomes.len() == 0 {
        assert(failures_of(outcomes).to_multiset().len() == 0);
        assert(outcomes.to_multiset().len() == 0);
    } else {
        let rest = outcomes.drop_last();
        let last = outcomes.last();
        lemma_failures_count(rest, failure);
        assert(outcomes =~= rest.push(last));
        assert(outcomes.to_multiset() =~= rest.to_multiset().insert(last));
        match last {
            OutcomeView::Fingerprinted { .. } => {},
            OutcomeView::Failed { path, reason } => {
                assert(failures_of(outcomes).to_multiset() =~= failures_of(
                    rest,
                ).to_multiset().insert(FailureView { path, reason }));
            },
        }
    }
}

/// Completeness. Where no outcome is a failure, the table holds as many
/// entries as there are outcomes, no fingerprint stands twice, and each path
/// stands under a fingerprint as often as it was fingerprinted with it: once
/// where the paths differ from one another. Nothing is left out and nothing
/// is doubled.
pub proof fn lemma_complete(outcomes: Seq<OutcomeView>, path: PathView, fingerprint: u64)
    requires
        failures_of(outcomes).len() == 0,
    ensures
        well_grouped(collected(outcomes).groups),
        total_entries(collected(outcomes).groups) == outcomes.len(),
        paths_of(collected(outcomes).groups, fingerprint).to_multiset().count(path)
            == outcomes.to_multiset().count(OutcomeView::Fingerprinted { path, fingerprint }),
{
    lemma_every_outcome_counted(outcomes);
    crate::grouping::lemma_table_of(records_of(outcomes), fingerprint);
    crate::grouping::lemma_each_record_once(records_of(outcomes), fingerprint, path);
    lemma_records_count(outcomes, Record { path, fingerprint });
}

/// Isolation. The table holds one entry for each outcome that is a
/// fingerprint and none for a failure, whose path stands under no
/// fingerprint on its account; the failures are as many as the outcomes that
/// are failures.
pub proof fn lemma_isolated(outcomes: Seq<OutcomeView>, path: PathView, fingerprint: u64)
    ensures
        total_entries(collected(outcomes).groups) == records_of(outcomes).len(),
        collected(outcomes).failures.len() == failures_of(outcomes).len(),
        total_entries(collected(outcomes).groups) + collected(outcomes).failures.len()
            == outcomes.len(),
        paths_of(collected(outcomes).groups, fingerprint).to_multiset().count(path)
            == outcomes.to_multiset().count(OutcomeView::Fingerprinted { path, fingerprint }),
{
    lemma_every_outcome_counted(outcomes);
    crate::grouping::lemma_table_of(records_of(outcomes), fingerprint);
    crate::grouping::lemma_each_record_once(records_of(outcomes), fingerprint, path);
    lemma_records_count(outcomes, Record { path, fingerprint });
}

/// A failure put anywhere among the outcomes leaves the table as it is and
/// makes the failures one more.
pub proof fn lemma_injected_failure(outcomes: Seq<OutcomeView>, at: int, failed: OutcomeView)
    requires
        0 <= at <= outcomes.len(),
        failed is Failed,
    ensures
        records_of(outcomes.insert(at, failed)) == records_of(outcomes),
        collected(outcomes.insert(at, failed)).groups == collected(outcomes).groups,
        collected(outcomes.insert(at, failed)).failures.len() == collected(outcomes).failures.len()
            + 1,
    decreases outcomes.len() - at,
{
    let mixed = outcomes.insert(at, failed);
    if at == outcomes.len() {
        assert(mixed =~= outcomes.push(failed));
        assert(mixed.drop_last() =~= outcomes);
    } else {
        assert(mixed.drop_last() =~= outcomes.drop_last().insert(at, failed));
        assert(mixed.last() == outcomes.last());
        lemma_injected_failure(outcomes.drop_last(), at, failed);
    }
}

/// The order in which the outcomes arrive, and so the number of workers
/// that they come from, decides nothing but the order inside the groups and
/// among them: the same outcomes in another order leave the same
/// fingerprints, under each the same paths as often, and the same failures.
/// Outcomes that arrive in the order of discovery leave each group in that
/// order: see `lemma_table_of`.
pub proof fn lemma_worker_order_irrelevant(
    first: Seq<OutcomeView>,
    second: Seq<OutcomeView>,
    fingerprint: u64,
)
    requires
        first.to_multiset() == second.to_multiset(),
    ensures
        has_key(collected(first).groups, fingerprint) == has_key(
            collected(second).groups,
            fingerprint,
        ),
        paths_of(collected(first).groups, fingerprint).to_multiset() == paths_of(
            collected(second).groups,
            fingerprint,
        ).to_multiset(),
        total_entries(collected(first).groups) == total_entries(collected(second).groups),
        collected(first).failures.to_multiset() == collected(second).failures.to_multiset(),
{
    let left = records_of(first).to_multiset();
    let right = records_of(second).to_multiset();
    assert forall|record: Record| left.count(record) == right.count(record) by {
        lemma_records_count(first, record);
        lemma_records_count(second, record);
    }
    assert(left =~= right);
    crate::grouping::lemma_arrival_order_irrelevant(
        records_of(first),
        records_of(second),
        fingerprint,
    );
    let lost = failures_of(first).to_multiset();
    let missed = failures_of(second).to_multiset();
    assert forall|failure: FailureView| lost.count(failure) == missed.count(failure) by {
        lemma_failures_count(first, failure);
        lemma_failures_count(second, failure);
    }
    assert(lost =~= missed);
}

/// Gathers a sequence of outcomes, in their order, into a collector that
/// started empty. However many of them are failures, the others are all
/// recorded.
pub fn collect(outcomes: Vec<Outcome>) -> (collector: Collector)
    ensures
        collector.wf(),
        collector@ == collected(outcome_views(outcomes@)),
{
    broadcast use vstd::std_specs::vec::axiom_spec_into_iter;

    let total: usize = outcomes.len();
    let ghost stored = outcomes@;
    let ghost all = outcome_views(outcomes@);
    let mut collector = Collector::new();
    assert(all.take(0) =~= Seq::<OutcomeView>::empty());
    for outcome in given: outcomes
        invariant
            collector.wf(),
            stored.len() == total,
            given.seq() == stored,
            all == outcome_views(stored),
            collector@ == collected(all.take(given.index() as int)),
    {
        let ghost before = collector@;
        proof {
            let done = all.take(given.index() as int);
            let next = all.take(given.index() + 1);
            assert(0 <= given.index() < stored.len());
            assert(outcome == stored[given.index()]);
            lemma_every_outcome_counted(done);
            assert(next =~= done.push(outcome@));
            lemma_collected_step(done, outcome@);
        }
        collector.publish(outcome);
    }
    assert(all.take(all.len() as int) =~= all);
    collector
}

} // verus!
