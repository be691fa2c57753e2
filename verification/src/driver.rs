//! The propagation driver: it holds back what comes in until its timestamp
//! is closed, then releases the closed timestamps in ascending order.

use crate::compact::lift;
use crate::error::EngineError;
use crate::frontier::{antichain_elements, FrontierTracker};
use crate::key::Edge;
use crate::compact::is_compacted;
use crate::phase::{
    lemma_release_ignores_arrival_order, release, release_spec, Batch, EdgeChange, RankChange,
};
use crate::stash::{ascending_times, times_after, views, Bucket, Stash, StashView};
use crate::store::{NodeStore, StoreView};
use timely::progress::frontier::Antichain;
use vstd::prelude::*;

verus! {

/// What came in for one timestamp.
pub struct Arrival {
    pub time: usize,
    pub edges: Seq<EdgeChange>,
    pub ranks: Seq<RankChange>,
}

/// The buckets of edge changes and of rank changes put together by
/// timestamp, in ascending order. A timestamp for which only one kind of
/// change came has none of the other.
pub open spec fn merged(
    edges: Seq<(usize, Seq<EdgeChange>)>,
    ranks: Seq<(usize, Seq<RankChange>)>,
) -> Seq<Arrival>
    decreases edges.len() + ranks.len(),
{
    if edges.len() == 0 && ranks.len() == 0 {
        Seq::empty()
    } else if ranks.len() == 0 || (edges.len() > 0 && edges[0].0 < ranks[0].0) {
        seq![Arrival { time: edges[0].0, edges: edges[0].1, ranks: Seq::empty() }] + merged(
            edges.skip(1),
            ranks,
        )
    } else if edges.len() == 0 || ranks[0].0 < edges[0].0 {
        seq![Arrival { time: ranks[0].0, edges: Seq::empty(), ranks: ranks[0].1 }] + merged(
            edges,
            ranks.skip(1),
        )
    } else {
        seq![Arrival { time: edges[0].0, edges: edges[0].1, ranks: ranks[0].1 }] + merged(
            edges.skip(1),
            ranks.skip(1),
        )
    }
}

/// The store after the timestamps of `arrivals` have been released one
/// after the other, and the batches handed out, each with its timestamp.
/// The first release that fails ends it.
pub open spec fn run(store: StoreView, arrivals: Seq<Arrival>) -> (
    StoreView,
    Result<Seq<(usize, Seq<(usize, int)>)>, EngineError>,
)
    decreases arrivals.len(),
{
    if arrivals.len() == 0 {
        (store, Ok(Seq::empty()))
    } else {
        let first = arrivals[0];
        let (after, handed) = release_spec(store, lift(first.edges), lift(first.ranks));
        match handed {
            Err(e) => (after, Err(e)),
            Ok(deltas) => behind(seq![(first.time, deltas)], run(after, arrivals.skip(1))),
        }
    }
}

/// An outcome with `done` put before the batches it hands out.
pub open spec fn behind(
    done: Seq<(usize, Seq<(usize, int)>)>,
    outcome: (StoreView, Result<Seq<(usize, Seq<(usize, int)>)>, EngineError>),
) -> (StoreView, Result<Seq<(usize, Seq<(usize, int)>)>, EngineError>) {
    match outcome.1 {
        Ok(batches) => (outcome.0, Ok(done + batches)),
        Err(e) => (outcome.0, Err(e)),
    }
}

/// The batches of a list as mathematical values.
pub open spec fn batch_views(batches: Seq<Batch>) -> Seq<(usize, Seq<(usize, int)>)> {
    batches.map_values(|b: Batch| b@)
}

/// The outcome of a pulse as mathematical values.
pub open spec fn pulsed(r: Result<Vec<Batch>, EngineError>) -> Result<
    Seq<(usize, Seq<(usize, int)>)>,
    EngineError,
> {
    match r {
        Ok(batches) => Ok(batch_views(batches@)),
        Err(e) => Err(e),
    }
}

/// The timestamp of the last bucket, if there is a bucket.
pub open spec fn last_time<R>(buckets: Seq<(usize, Seq<R>)>) -> Option<usize> {
    if buckets.len() > 0 {
        Some(buckets.last().0)
    } else {
        None
    }
}

/// The later of two timestamps, where there are any.
pub open spec fn later(a: Option<usize>, b: Option<usize>) -> Option<usize> {
    match (a, b) {
        (Some(x), Some(y)) => if x < y {
            Some(y)
        } else {
            Some(x)
        },
        (Some(x), None) => Some(x),
        (None, _) => b,
    }
}

/// A stash after a pulse: the closed buckets are gone, and the stash knows
/// of the last timestamp that the pulse released.
pub open spec fn after_pulse<R>(stash: StashView<R>, tracker: FrontierTracker, last: Option<usize>) -> StashView<
    R,
> {
    match last {
        Some(time) => stash.drained(tracker).sealed(time),
        None => stash.drained(tracker),
    }
}

/// The same timestamps in the same order, and for each of them the same
/// edge changes and the same rank changes, in whatever order they came.
pub open spec fn same_arrivals(a: Seq<Arrival>, b: Seq<Arrival>) -> bool {
    &&& a.len() == b.len()
    &&& forall|i: int|
        0 <= i < a.len() ==> {
            &&& (#[trigger] a[i]).time == b[i].time
            &&& a[i].edges.to_multiset() == b[i].edges.to_multiset()
            &&& a[i].ranks.to_multiset() == b[i].ranks.to_multiset()
        }
}

/// What the engine does with the records of closed timestamps does not
/// depend on the order in which the records of a timestamp came in: the
/// node states end up the same and the same batches are handed out.
pub proof fn lemma_run_ignores_arrival_order(store: StoreView, a: Seq<Arrival>, b: Seq<Arrival>)
    requires
        same_arrivals(a, b),
    ensures
        run(store, a) == run(store, b),
    decreases a.len(),
{
    if a.len() > 0 {
        assert(a[0].time == b[0].time);
        lemma_release_ignores_arrival_order(store, a[0].edges, a[0].ranks, b[0].edges, b[0].ranks);
        let after = release_spec(store, lift(a[0].edges), lift(a[0].ranks)).0;
        assert forall|i: int| 0 <= i < a.skip(1).len() implies {
            &&& (#[trigger] a.skip(1)[i]).time == b.skip(1)[i].time
            &&& a.skip(1)[i].edges.to_multiset() == b.skip(1)[i].edges.to_multiset()
            &&& a.skip(1)[i].ranks.to_multiset() == b.skip(1)[i].ranks.to_multiset()
        } by {
            assert(a.skip(1)[i] == a[i + 1]);
            assert(b.skip(1)[i] == b[i + 1]);
        }
        lemma_run_ignores_arrival_order(after, a.skip(1), b.skip(1));
    }
}

/// Timestamps stand in strictly ascending order.
pub open spec fn ascending_batches(batches: Seq<(usize, Seq<(usize, int)>)>) -> bool {
    forall|i: int, j: int|
        0 <= i < j < batches.len() ==> (#[trigger] batches[i]).0 < (#[trigger] batches[j]).0
}

/// The engine for one share of the nodes: their states, what is held back
/// for them, and the frontiers of the two inputs.
pub struct Driver {
    store: NodeStore,
    edge_stash: Stash<EdgeChange>,
    rank_stash: Stash<RankChange>,
    tracker: FrontierTracker,
}

/// The engine as mathematical values.
pub struct DriverView {
    /// The node states.
    pub store: StoreView,
    /// The edge changes that are held back.
    pub edges: StashView<EdgeChange>,
    /// The rank changes that are held back.
    pub ranks: StashView<RankChange>,
    /// The frontiers of the inputs.
    pub tracker: FrontierTracker,
}

impl DriverView {
    /// The invariant of the engine: that of its parts, and both stashes
    /// know of the same last released timestamp.
    pub open spec fn wf(self) -> bool {
        &&& self.store.wf()
        &&& self.edges.wf()
        &&& self.ranks.wf()
        &&& self.edges.released == self.ranks.released
    }

    /// What is held back for timestamps that are closed, by timestamp.
    pub open spec fn due(self) -> Seq<Arrival> {
        merged(self.edges.ready(self.tracker), self.ranks.ready(self.tracker))
    }

    /// The last of the timestamps that are due, if any is.
    pub open spec fn last_due(self) -> Option<usize> {
        later(last_time(self.edges.ready(self.tracker)), last_time(self.ranks.ready(self.tracker)))
    }
}

impl View for Driver {
    type V = DriverView;

    closed spec fn view(&self) -> DriverView {
        DriverView {
            store: self.store@,
            edges: self.edge_stash@,
            ranks: self.rank_stash@,
            tracker: self.tracker,
        }
    }
}

/// Moves the records out of the bucket at `index`.
fn take_records<R>(buckets: &mut Vec<Bucket<R>>, index: usize) -> (records: Vec<R>)
    requires
        index < old(buckets)@.len(),
    ensures
        records@ == old(buckets)@[index as int].records@,
        final(buckets)@.len() == old(buckets)@.len(),
        forall|i: int|
            0 <= i < old(buckets)@.len() && i != index ==> #[trigger] final(buckets)@[i] == old(
                buckets,
            )@[i],
        final(buckets)@[index as int].time == old(buckets)@[index as int].time,
{
    let mut records: Vec<R> = Vec::new();
    std::mem::swap(&mut buckets[index].records, &mut records);
    records
}

impl Driver {
    /// The invariant of the engine.
    pub open spec fn wf(&self) -> bool {
        self@.wf()
    }

    /// An engine that knows of no node and holds nothing back, for inputs
    /// that have not moved yet. Nodes start at `initial_rank`.
    pub fn new(initial_rank: i64) -> (driver: Driver)
        requires
            initial_rank >= 0,
        ensures
            driver.wf(),
            driver@.store == (StoreView { nodes: Seq::empty(), initial_rank: initial_rank as int }),
            driver@.edges == (StashView::<EdgeChange> { buckets: Seq::empty(), released: None }),
            driver@.ranks == (StashView::<RankChange> { buckets: Seq::empty(), released: None }),
            driver@.tracker.edge_bounds() == Set::<usize>::empty().insert(0),
            driver@.tracker.rank_bounds() == Set::<usize>::empty().insert(0),
            forall|time: usize| !driver@.tracker.closed(time),
    {
        Driver {
            store: NodeStore::new(initial_rank),
            edge_stash: Stash::new(),
            rank_stash: Stash::new(),
            tracker: FrontierTracker::starting(),
        }
    }

    /// The node states.
    pub fn store(&self) -> (store: &NodeStore)
        ensures
            store@ == self@.store,
    {
        &self.store
    }

    /// Holds back a change of `weight_delta` to the weight of the edge from
    /// `source` to `destination`, until `time` is closed. A change for a
    /// timestamp that was released is refused.
    pub fn stash_edge(
        &mut self,
        time: usize,
        source: usize,
        destination: usize,
        weight_delta: i64,
    ) -> (r: Result<(), EngineError>)
        requires
            old(self).wf(),
        ensures
            final(self).wf(),
            final(self)@.store == old(self)@.store,
            final(self)@.ranks == old(self)@.ranks,
            final(self)@.tracker == old(self)@.tracker,
            old(self)@.edges.refuses(time) ==> r == Err::<(), EngineError>(
                EngineError::TimestampReuse,
            ) && final(self)@.edges == old(self)@.edges,
            !old(self)@.edges.refuses(time) ==> r is Ok && final(self)@.edges == old(
                self,
            )@.edges.with_record(time, (Edge { source, destination }, weight_delta)),
    {
        self.edge_stash.stash(time, (Edge { source, destination }, weight_delta))
    }

    /// Holds back `delta_rank` of rank for `node`, until `time` is closed.
    /// A change for a timestamp that was released is refused.
    pub fn stash_rank(&mut self, time: usize, node: usize, delta_rank: i64) -> (r: Result<
        (),
        EngineError,
    >)
        requires
            old(self).wf(),
        ensures
            final(self).wf(),
            final(self)@.store == old(self)@.store,
            final(self)@.edges == old(self)@.edges,
            final(self)@.tracker == old(self)@.tracker,
            old(self)@.ranks.refuses(time) ==> r == Err::<(), EngineError>(
                EngineError::TimestampReuse,
            ) && final(self)@.ranks == old(self)@.ranks,
            !old(self)@.ranks.refuses(time) ==> r is Ok && final(self)@.ranks == old(
                self,
            )@.ranks.with_record(time, (node, delta_rank)),
    {
        self.rank_stash.stash(time, (node, delta_rank))
    }

    /// Takes note of the frontiers that the two inputs have reached.
    pub fn advance(&mut self, edge_frontier: Antichain<usize>, rank_frontier: Antichain<usize>)
        requires
            old(self).wf(),
        ensures
            final(self).wf(),
            final(self)@.store == old(self)@.store,
            final(self)@.edges == old(self)@.edges,
            final(self)@.ranks == old(self)@.ranks,
            final(self)@.tracker.edge_bounds() == antichain_elements(edge_frontier),
            final(self)@.tracker.rank_bounds() == antichain_elements(rank_frontier),
    {
        self.tracker.update(edge_frontier, rank_frontier);
    }

    /// Tells whether `time` is closed by the frontiers last taken note of.
    pub fn is_closed(&self, time: usize) -> (r: bool)
        ensures
            r == self@.tracker.closed(time),
    {
        self.tracker.is_closed(time)
    }

    /// Releases every timestamp that is closed and has something held
    /// back, in ascending order, and returns one batch for each. For each
    /// timestamp the edge changes are applied before the rank changes.
    pub fn pulse(&mut self) -> (r: Result<Vec<Batch>, EngineError>)
        requires
            old(self).wf(),
        ensures
            final(self).wf(),
            final(self)@.tracker == old(self)@.tracker,
            (final(self)@.store, pulsed(r)) == run(old(self)@.store, old(self)@.due()),
            final(self)@.edges == after_pulse(
                old(self)@.edges,
                old(self)@.tracker,
                old(self)@.last_due(),
            ),
            final(self)@.ranks == after_pulse(
                old(self)@.ranks,
                old(self)@.tracker,
                old(self)@.last_due(),
            ),
            r matches Ok(batches) ==> {
                &&& ascending_batches(batch_views(batches@))
                &&& forall|i: int|
                    0 <= i < batches@.len() ==> {
                        &&& old(self)@.tracker.closed((#[trigger] batches@[i]).time)
                        &&& is_compacted(batches@[i]@.1)
                        &&& old(self)@.edges.released matches Some(bound) ==> bound
                            < batches@[i].time
                    }
            },
    {
        let mut edge_ready = self.edge_stash.drain_ready(&self.tracker);
        let mut rank_ready = self.rank_stash.drain_ready(&self.tracker);
        let ghost edge_due = views(edge_ready@);
        let ghost rank_due = views(rank_ready@);
        let edge_count = edge_ready.len();
        let rank_count = rank_ready.len();
        let edge_last = if edge_count > 0 {
            Some(edge_ready[edge_count - 1].time)
        } else {
            None
        };
        let rank_last = if rank_count > 0 {
            Some(rank_ready[rank_count - 1].time)
        } else {
            None
        };
        let last = match (edge_last, rank_last) {
            (Some(x), Some(y)) => if x < y {
                Some(y)
            } else {
                Some(x)
            },
            (Some(x), None) => Some(x),
            (None, y) => y,
        };
        assert(last == old(self)@.last_due());
        match last {
            Some(time) => {
                proof {
                    assert(self.tracker.closed(time));
                    if edge_count > 0 {
                        assert(edge_due[edge_count - 1] == edge_ready@[edge_count - 1]@);
                    }
                    if rank_count > 0 {
                        assert(rank_due[rank_count - 1] == rank_ready@[rank_count - 1]@);
                    }
                    assert(old(self)@.edges.released matches Some(bound) ==> bound < time);
                    assert forall|i: int| 0 <= i < self.edge_stash@.buckets.len() implies (
                    #[trigger] self.edge_stash@.buckets[i]).0 > time by {
                        if self.edge_stash@.buckets[i].0 <= time {
                            self.tracker.lemma_closed_downward(
                                self.edge_stash@.buckets[i].0,
                                time,
                            );
                        }
                    }
                    assert forall|i: int| 0 <= i < self.rank_stash@.buckets.len() implies (
                    #[trigger] self.rank_stash@.buckets[i]).0 > time by {
                        if self.rank_stash@.buckets[i].0 <= time {
                            self.tracker.lemma_closed_downward(
                                self.rank_stash@.buckets[i].0,
                                time,
                            );
                        }
                    }
                }
                self.edge_stash.seal(time);
                self.rank_stash.seal(time);
            },
            None => {},
        }
        let mut batches: Vec<Batch> = Vec::new();
        let mut i: usize = 0;
        let mut j: usize = 0;
        assert(edge_due.skip(0) =~= edge_due);
        assert(rank_due.skip(0) =~= rank_due);
        assert(batch_views(batches@) =~= Seq::empty());
        while i < edge_count || j < rank_count
            invariant
                edge_count == edge_ready@.len(),
                rank_count == rank_ready@.len(),
                edge_count == edge_due.len(),
                rank_count == rank_due.len(),
                i <= edge_count,
                j <= rank_count,
                forall|k: int| i <= k < edge_count ==> (#[trigger] edge_ready@[k])@ == edge_due[k],
                forall|k: int| j <= k < rank_count ==> (#[trigger] rank_ready@[k])@ == rank_due[k],
                self.store.wf(),
                self.tracker == old(self).tracker,
                self.edge_stash@ == after_pulse(
                    old(self)@.edges,
                    old(self)@.tracker,
                    old(self)@.last_due(),
                ),
                self.rank_stash@ == after_pulse(
                    old(self)@.ranks,
                    old(self)@.tracker,
                    old(self)@.last_due(),
                ),
                self.edge_stash.wf(),
                self.rank_stash.wf(),
                self.edge_stash@.released == self.rank_stash@.released,
                edge_due == old(self)@.edges.ready(old(self)@.tracker),
                rank_due == old(self)@.ranks.ready(old(self)@.tracker),
                ascending_times(edge_due),
                ascending_times(rank_due),
                forall|k: int| 0 <= k < edge_count ==> self.tracker.closed((#[trigger] edge_due[k]).0),
                forall|k: int| 0 <= k < rank_count ==> self.tracker.closed((#[trigger] rank_due[k]).0),
                old(self)@.edges.released matches Some(bound) ==> times_after(edge_due, bound)
                    && times_after(rank_due, bound),
                ascending_batches(batch_views(batches@)),
                forall|k: int, m: int|
                    0 <= k < batches@.len() && i <= m < edge_count ==> (#[trigger] batches@[k]).time
                        < (#[trigger] edge_due[m]).0,
                forall|k: int, m: int|
                    0 <= k < batches@.len() && j <= m < rank_count ==> (#[trigger] batches@[k]).time
                        < (#[trigger] rank_due[m]).0,
                forall|k: int|
                    0 <= k < batches@.len() ==> {
                        &&& self.tracker.closed((#[trigger] batches@[k]).time)
                        &&& is_compacted(batches@[k]@.1)
                        &&& old(self)@.edges.released matches Some(bound) ==> bound
                            < batches@[k].time
                    },
                run(old(self).store@, merged(edge_due, rank_due)) == behind(
                    batch_views(batches@),
                    run(self.store@, merged(edge_due.skip(i as int), rank_due.skip(j as int))),
                ),
            decreases (edge_count - i) + (rank_count - j),
        {
            let take_edges = i < edge_count && (j >= rank_count || edge_ready[i].time
                <= rank_ready[j].time);
            let take_ranks = j < rank_count && (i >= edge_count || rank_ready[j].time
                <= edge_ready[i].time);
            let time = if take_edges {
                edge_ready[i].time
            } else {
                rank_ready[j].time
            };
            let ghost rest_edges = edge_due.skip(i as int);
            let ghost rest_ranks = rank_due.skip(j as int);
            let ghost before = self.store@;
            proof {
                if i < edge_count {
                    assert(rest_edges[0] == edge_due[i as int]);
                    assert(rest_edges.skip(1) =~= edge_due.skip(i + 1));
                }
                if j < rank_count {
                    assert(rest_ranks[0] == rank_due[j as int]);
                    assert(rest_ranks.skip(1) =~= rank_due.skip(j + 1));
                }
            }
            let edges = if take_edges {
                take_records(&mut edge_ready, i)
            } else {
                Vec::new()
            };
            let ranks = if take_ranks {
                take_records(&mut rank_ready, j)
            } else {
                Vec::new()
            };
            if take_edges {
                i += 1;
            }
            if take_ranks {
                j += 1;
            }
            let ghost next = merged(edge_due.skip(i as int), rank_due.skip(j as int));
            let ghost arrival = Arrival { time, edges: edges@, ranks: ranks@ };
            proof {
                assert(merged(rest_edges, rest_ranks) == seq![arrival] + next);
                assert((seq![arrival] + next)[0] == arrival);
                assert((seq![arrival] + next).skip(1) =~= next);
            }
            match release(&mut self.store, time, edges, ranks) {
                Ok(batch) => {
                    proof {
                        let done = batch_views(batches@);
                        assert(batch_views(batches@.push(batch)) =~= done + seq![batch@]);
                        let tail = run(self.store@, next);
                        match tail.1 {
                            Ok(more) => {
                                assert(done + (seq![batch@] + more) =~= (done + seq![batch@])
                                    + more);
                            },
                            Err(_) => {},
                        }
                    }
                    batches.push(batch);
                },
                Err(e) => {
                    return Err(e);
                },
            }
        }
        proof {
            assert(edge_due.skip(edge_count as int) =~= Seq::empty());
            assert(rank_due.skip(rank_count as int) =~= Seq::empty());
            assert(batch_views(batches@) + Seq::empty() =~= batch_views(batches@));
        }
        Ok(batches)
    }
}

} // verus!
