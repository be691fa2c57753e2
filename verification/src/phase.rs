//! The release of one timestamp, phase by phase: what came for it is
//! compacted, applied to the node states, and what that tells the
//! neighbours is compacted and handed out.

use crate::compact::{
    compacted, is_compacted, lemma_compacted, lemma_compacted_permutation, lemma_lift_concat, lift,
    nets_fit, try_compact,
};
use crate::error::EngineError;
use crate::key::Edge;
use crate::store::{told, NodeStore, StoreView};
use vstd::pervasive::unreached;
use vstd::prelude::*;

verus! {

/// A change to the weight of an edge: the edge and the amount.
pub type EdgeChange = (Edge, i64);

/// A change to the rank of a node: the node and the amount.
pub type RankChange = (usize, i64);

/// What is handed out for one timestamp: for each destination the change to
/// the rank it is sent, destinations ascending, none with a change of zero.
pub struct Batch {
    pub time: usize,
    pub deltas: Vec<(usize, i64)>,
}

impl View for Batch {
    type V = (usize, Seq<(usize, int)>);

    open spec fn view(&self) -> (usize, Seq<(usize, int)>) {
        (self.time, lift(self.deltas@))
    }
}

/// One change to the node states.
pub enum Change {
    /// The weight of `edge` changes by `weight_delta`.
    Edge { edge: Edge, weight_delta: int },
    /// Rank of the amount `delta` comes in for `node`.
    Rank { node: usize, delta: int },
}

/// Edge changes, then rank changes, as one list of changes.
pub open spec fn changes_of(edges: Seq<(Edge, int)>, ranks: Seq<(usize, int)>) -> Seq<Change> {
    edges.map_values(|e: (Edge, int)| Change::Edge { edge: e.0, weight_delta: e.1 })
        + ranks.map_values(|r: (usize, int)| Change::Rank { node: r.0, delta: r.1 })
}

/// The store after one change, and what the change tells the neighbours,
/// or why it is refused.
pub open spec fn changed(store: StoreView, change: Change) -> (
    StoreView,
    Result<Seq<(usize, int)>, EngineError>,
) {
    match change {
        Change::Edge { edge, weight_delta } => store.edge_change(edge, weight_delta),
        Change::Rank { node, delta } => store.rank_change(node, delta),
    }
}

/// The store after `changes` have been applied one after the other, and all
/// that they tell the neighbours, in that order. The first refusal ends it.
pub open spec fn apply_all(store: StoreView, changes: Seq<Change>) -> (
    StoreView,
    Result<Seq<(usize, int)>, EngineError>,
)
    decreases changes.len(),
{
    if changes.len() == 0 {
        (store, Ok(Seq::empty()))
    } else {
        let (reached, outgoing) = apply_all(store, changes.drop_last());
        match outgoing {
            Err(e) => (reached, Err(e)),
            Ok(so_far) => {
                let (next, said) = changed(reached, changes.last());
                match said {
                    Err(e) => (next, Err(e)),
                    Ok(deltas) => (next, Ok(so_far + deltas)),
                }
            },
        }
    }
}

/// Draining: the records that came for a timestamp become the changes to
/// apply, each edge and each node named once, edges first.
pub open spec fn drain_spec(edges: Seq<(Edge, int)>, ranks: Seq<(usize, int)>) -> Result<
    Seq<Change>,
    EngineError,
> {
    if nets_fit(edges) && nets_fit(ranks) {
        Ok(changes_of(compacted(edges), compacted(ranks)))
    } else {
        Err(EngineError::Overflow)
    }
}

/// Emitting: all that the changes told the neighbours becomes one compact
/// list.
pub open spec fn emit_spec(outgoing: Seq<(usize, int)>) -> Result<
    Seq<(usize, int)>,
    EngineError,
> {
    if nets_fit(outgoing) {
        Ok(compacted(outgoing))
    } else {
        Err(EngineError::Overflow)
    }
}

/// The release of one timestamp: the store afterwards, and what is handed
/// out, or why the release failed.
pub open spec fn release_spec(
    store: StoreView,
    edges: Seq<(Edge, int)>,
    ranks: Seq<(usize, int)>,
) -> (StoreView, Result<Seq<(usize, int)>, EngineError>) {
    match drain_spec(edges, ranks) {
        Err(e) => (store, Err(e)),
        Ok(changes) => {
            let (after, outgoing) = apply_all(store, changes);
            match outgoing {
                Err(e) => (after, Err(e)),
                Ok(deltas) => (after, emit_spec(deltas)),
            }
        },
    }
}

/// Where the release of a timestamp stands.
pub enum Phase {
    /// Nothing is being released.
    Idle,
    /// The records that came for `time` have been pulled and await
    /// compaction.
    Draining { time: usize, edges: Vec<EdgeChange>, ranks: Vec<RankChange> },
    /// The compacted changes of `time` await application, edges first.
    Applying { time: usize, edges: Vec<EdgeChange>, ranks: Vec<RankChange> },
    /// What the changes of `time` told the neighbours awaits compaction.
    Emitting { time: usize, outgoing: Vec<(usize, i64)> },
}

/// A phase as mathematical values.
pub enum PhaseView {
    Idle,
    Draining { time: usize, edges: Seq<(Edge, int)>, ranks: Seq<(usize, int)> },
    Applying { time: usize, changes: Seq<Change> },
    Emitting { time: usize, outgoing: Seq<(usize, int)> },
}

impl View for Phase {
    type V = PhaseView;

    open spec fn view(&self) -> PhaseView {
        match *self {
            Phase::Idle => PhaseView::Idle,
            Phase::Draining { time, edges, ranks } => PhaseView::Draining {
                time,
                edges: lift(edges@),
                ranks: lift(ranks@),
            },
            Phase::Applying { time, edges, ranks } => PhaseView::Applying {
                time,
                changes: changes_of(lift(edges@), lift(ranks@)),
            },
            Phase::Emitting { time, outgoing } => PhaseView::Emitting {
                time,
                outgoing: lift(outgoing@),
            },
        }
    }
}

/// One step of a release: the store afterwards, and the phase that follows
/// with the batch that is handed out, if one is, or why the step failed.
pub open spec fn step_spec(phase: PhaseView, store: StoreView) -> (
    StoreView,
    Result<(PhaseView, Option<(usize, Seq<(usize, int)>)>), EngineError>,
) {
    match phase {
        PhaseView::Idle => (store, Ok((PhaseView::Idle, None))),
        PhaseView::Draining { time, edges, ranks } => (
            store,
            match drain_spec(edges, ranks) {
                Ok(changes) => Ok((PhaseView::Applying { time, changes }, None)),
                Err(e) => Err(e),
            },
        ),
        PhaseView::Applying { time, changes } => {
            let (after, outgoing) = apply_all(store, changes);
            (
                after,
                match outgoing {
                    Ok(outgoing) => Ok((PhaseView::Emitting { time, outgoing }, None)),
                    Err(e) => Err(e),
                },
            )
        },
        PhaseView::Emitting { time, outgoing } => (
            store,
            match emit_spec(outgoing) {
                Ok(deltas) => Ok((PhaseView::Idle, Some((time, deltas)))),
                Err(e) => Err(e),
            },
        ),
    }
}

/// The outcome of a step as mathematical values.
pub open spec fn stepped(r: Result<(Phase, Option<Batch>), EngineError>) -> Result<
    (PhaseView, Option<(usize, Seq<(usize, int)>)>),
    EngineError,
> {
    match r {
        Ok((phase, Some(batch))) => Ok((phase@, Some(batch@))),
        Ok((phase, None)) => Ok((phase@, None)),
        Err(e) => Err(e),
    }
}

/// The outcome of a release as mathematical values.
pub open spec fn released(r: Result<Batch, EngineError>) -> Result<Seq<(usize, int)>, EngineError> {
    match r {
        Ok(batch) => Ok(batch@.1),
        Err(e) => Err(e),
    }
}

/// A release does not depend on the order in which the records of its
/// timestamp came in: the same edge changes and the same rank changes, in
/// whatever order each, leave the same node states and hand out the same
/// batch, edge changes being applied before rank changes.
pub proof fn lemma_release_ignores_arrival_order(
    store: StoreView,
    edges: Seq<EdgeChange>,
    ranks: Seq<RankChange>,
    other_edges: Seq<EdgeChange>,
    other_ranks: Seq<RankChange>,
)
    requires
        edges.to_multiset() == other_edges.to_multiset(),
        ranks.to_multiset() == other_ranks.to_multiset(),
    ensures
        release_spec(store, lift(edges), lift(ranks)) == release_spec(
            store,
            lift(other_edges),
            lift(other_ranks),
        ),
{
    lemma_compacted_permutation(edges, other_edges);
    lemma_compacted_permutation(ranks, other_ranks);
}

/// One more change is applied to what the changes before it have left.
proof fn lemma_apply_all_push(store: StoreView, changes: Seq<Change>, change: Change)
    ensures
        apply_all(store, changes.push(change)) == ({
            let (reached, outgoing) = apply_all(store, changes);
            match outgoing {
                Err(e) => (reached, Err(e)),
                Ok(so_far) => {
                    let (next, said) = changed(reached, change);
                    match said {
                        Err(e) => (next, Err(e)),
                        Ok(deltas) => (next, Ok(so_far + deltas)),
                    }
                },
            }
        }),
{
    assert(changes.push(change).drop_last() =~= changes);
}

/// Applies the changes to the edges, then those to the ranks, each list in
/// its order, and returns all that they tell the neighbours.
fn apply(store: &mut NodeStore, edges: &Vec<EdgeChange>, ranks: &Vec<RankChange>) -> (r: Result<
    Vec<(usize, i64)>,
    EngineError,
>)
    requires
        old(store).wf(),
    ensures
        final(store).wf(),
        (final(store)@, told(r)) == apply_all(
            old(store)@,
            changes_of(lift(edges@), lift(ranks@)),
        ),
{
    let ghost changes = changes_of(lift(edges@), lift(ranks@));
    let mut outgoing: Vec<(usize, i64)> = Vec::new();
    let edge_count = edges.len();
    let rank_count = ranks.len();
    let mut i: usize = 0;
    assert(changes.take(0) =~= Seq::<Change>::empty());
    assert(lift(outgoing@) =~= Seq::<(usize, int)>::empty());
    while i < edge_count
        invariant
            edge_count == edges@.len(),
            rank_count == ranks@.len(),
            i <= edge_count,
            changes == changes_of(lift(edges@), lift(ranks@)),
            changes.len() == edge_count + rank_count,
            store.wf(),
            apply_all(old(store)@, changes.take(i as int)) == (
                store@,
                Ok::<Seq<(usize, int)>, EngineError>(lift(outgoing@)),
            ),
        decreases edge_count - i,
    {
        let (edge, weight_delta) = edges[i];
        proof {
            assert(changes.take(i + 1) =~= changes.take(i as int).push(changes[i as int]));
            lemma_apply_all_push(old(store)@, changes.take(i as int), changes[i as int]);
            assert(changes[i as int] == Change::Edge { edge, weight_delta: weight_delta as int });
        }
        match store.apply_edge_change(edge.source, edge.destination, weight_delta) {
            Ok(mut deltas) => {
                proof {
                    lemma_lift_concat(outgoing@, deltas@);
                }
                outgoing.append(&mut deltas);
            },
            Err(e) => {
                proof {
                    lemma_apply_all_stops(old(store)@, changes, i + 1);
                }
                return Err(e);
            },
        }
        i += 1;
    }
    let mut j: usize = 0;
    while j < rank_count
        invariant
            edge_count == edges@.len(),
            rank_count == ranks@.len(),
            j <= rank_count,
            changes == changes_of(lift(edges@), lift(ranks@)),
            changes.len() == edge_count + rank_count,
            store.wf(),
            apply_all(old(store)@, changes.take(edge_count + j)) == (
                store@,
                Ok::<Seq<(usize, int)>, EngineError>(lift(outgoing@)),
            ),
        decreases rank_count - j,
    {
        let (node, delta) = ranks[j];
        proof {
            let at = edge_count + j;
            assert(changes.take(at + 1) =~= changes.take(at).push(changes[at]));
            lemma_apply_all_push(old(store)@, changes.take(at), changes[at]);
            assert(changes[at] == Change::Rank { node, delta: delta as int });
        }
        match store.apply_rank_delta(node, delta) {
            Ok(mut deltas) => {
                proof {
                    lemma_lift_concat(outgoing@, deltas@);
                }
                outgoing.append(&mut deltas);
            },
            Err(e) => {
                proof {
                    lemma_apply_all_stops(old(store)@, changes, edge_count + j + 1);
                }
                return Err(e);
            },
        }
        j += 1;
    }
    assert(changes.take(edge_count + rank_count) =~= changes);
    Ok(outgoing)
}

/// Takes the release of a timestamp one phase further. An idle release
/// stays idle; the step out of the last phase hands out the batch.
pub fn step(phase: Phase, store: &mut NodeStore) -> (r: Result<
    (Phase, Option<Batch>),
    EngineError,
>)
    requires
        old(store).wf(),
    ensures
        final(store).wf(),
        (final(store)@, stepped(r)) == step_spec(phase@, old(store)@),
{
    match phase {
        Phase::Idle => Ok((Phase::Idle, None)),
        Phase::Draining { time, edges, ranks } => {
            let mut edges = edges;
            let mut ranks = ranks;
            if !try_compact(&mut edges) {
                return Err(EngineError::Overflow);
            }
            if !try_compact(&mut ranks) {
                return Err(EngineError::Overflow);
            }
            Ok((Phase::Applying { time, edges, ranks }, None))
        },
        Phase::Applying { time, edges, ranks } => {
            match apply(store, &edges, &ranks) {
                Ok(outgoing) => Ok((Phase::Emitting { time, outgoing }, None)),
                Err(e) => Err(e),
            }
        },
        Phase::Emitting { time, outgoing } => {
            let mut deltas = outgoing;
            if !try_compact(&mut deltas) {
                return Err(EngineError::Overflow);
            }
            Ok((Phase::Idle, Some(Batch { time, deltas })))
        },
    }
}

/// Releases one timestamp: compacts the edge changes and the rank changes
/// that came for it, applies them to the node states, edges first, and
/// returns the compacted batch of what the neighbours must be told.
pub fn release(store: &mut NodeStore, time: usize, edges: Vec<EdgeChange>, ranks: Vec<RankChange>) -> (r:
    Result<Batch, EngineError>)
    requires
        old(store).wf(),
    ensures
        final(store).wf(),
        (final(store)@, released(r)) == release_spec(old(store)@, lift(edges@), lift(ranks@)),
        r matches Ok(batch) ==> batch.time == time && is_compacted(batch@.1),
{
    let drained = match step(Phase::Draining { time, edges, ranks }, store) {
        Ok((phase, _)) => phase,
        Err(e) => {
            return Err(e);
        },
    };
    let applied = match step(drained, store) {
        Ok((phase, _)) => phase,
        Err(e) => {
            return Err(e);
        },
    };
    let ghost emitting = applied@;
    match step(applied, store) {
        Ok((_, Some(batch))) => {
            proof {
                lemma_compacted(emitting->Emitting_outgoing);
            }
            Ok(batch)
        },
        Ok((_, None)) => unreached(),
        Err(e) => Err(e),
    }
}

/// Once a change has been refused, the changes behind it are not applied.
proof fn lemma_apply_all_stops(store: StoreView, changes: Seq<Change>, count: int)
    requires
        0 <= count <= changes.len(),
        apply_all(store, changes.take(count)).1 is Err,
    ensures
        apply_all(store, changes) == apply_all(store, changes.take(count)),
    decreases changes.len() - count,
{
    if count == changes.len() {
        assert(changes.take(count) =~= changes);
    } else {
        assert(changes.take(count + 1).drop_last() =~= changes.take(count));
        lemma_apply_all_stops(store, changes, count + 1);
    }
}

} // verus!
