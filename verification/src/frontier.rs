//! The frontier tracker: the progress frontiers of the two inputs, and the
//! timestamps that they have closed.

use timely::progress::frontier::Antichain;
use vstd::prelude::*;

verus! {

/// The antichain of timely, a set of timestamps none of which is before
/// another, carried as an opaque value.
#[verifier::external_type_specification]
#[verifier::external_body]
#[verifier::reject_recursive_types(T)]
pub struct ExAntichain<T>(Antichain<T>);

/// The timestamps that an antichain holds.
pub uninterp spec fn antichain_elements(frontier: Antichain<usize>) -> Set<usize>;

/// Calls `Antichain::less_equal`, which tells whether any timestamp of the
/// antichain is less than or equal to `time`.
#[verifier::external_body]
pub(crate) fn antichain_less_equal(frontier: &Antichain<usize>, time: usize) -> (r: bool)
    ensures
        r == (exists|e: usize| #[trigger] antichain_elements(*frontier).contains(e) && e <= time),
{
    frontier.less_equal(&time)
}

/// Calls `Antichain::from_elem`, which makes the antichain that holds `time`
/// and nothing else.
#[verifier::external_body]
fn antichain_from_elem(time: usize) -> (frontier: Antichain<usize>)
    ensures
        antichain_elements(frontier) == Set::<usize>::empty().insert(time),
{
    Antichain::from_elem(time)
}

/// Whether an input whose frontier holds `bounds` may still bring a record
/// with timestamp `time`: it may, where some bound is at or before `time`.
pub open spec fn reachable(bounds: Set<usize>, time: usize) -> bool {
    exists|e: usize| #[trigger] bounds.contains(e) && e <= time
}

/// The frontiers that the two inputs were last seen at.
pub struct FrontierTracker {
    edge_frontier: Antichain<usize>,
    rank_frontier: Antichain<usize>,
}

impl FrontierTracker {
    /// The lower bounds of the timestamps that edge changes may still have.
    pub closed spec fn edge_bounds(&self) -> Set<usize> {
        antichain_elements(self.edge_frontier)
    }

    /// The lower bounds of the timestamps that rank changes may still have.
    pub closed spec fn rank_bounds(&self) -> Set<usize> {
        antichain_elements(self.rank_frontier)
    }

    /// A timestamp is closed when neither input can bring a record for it
    /// any more.
    pub open spec fn closed(&self, time: usize) -> bool {
        !reachable(self.edge_bounds(), time) && !reachable(self.rank_bounds(), time)
    }

    /// A tracker for two inputs that have not moved yet: both may still
    /// bring records for every timestamp, so none is closed.
    pub fn starting() -> (tracker: FrontierTracker)
        ensures
            tracker.edge_bounds() == Set::<usize>::empty().insert(0),
            tracker.rank_bounds() == Set::<usize>::empty().insert(0),
            forall|time: usize| !tracker.closed(time),
    {
        let tracker = FrontierTracker {
            edge_frontier: antichain_from_elem(0),
            rank_frontier: antichain_from_elem(0),
        };
        assert forall|time: usize| !tracker.closed(time) by {
            assert(tracker.edge_bounds().contains(0usize) && 0usize <= time);
        }
        tracker
    }

    /// A tracker that holds the given frontiers.
    pub fn new(edge_frontier: Antichain<usize>, rank_frontier: Antichain<usize>) -> (tracker:
        FrontierTracker)
        ensures
            tracker.edge_bounds() == antichain_elements(edge_frontier),
            tracker.rank_bounds() == antichain_elements(rank_frontier),
    {
        FrontierTracker { edge_frontier, rank_frontier }
    }

    /// Replaces the frontiers by the ones the inputs have reached now.
    pub fn update(&mut self, edge_frontier: Antichain<usize>, rank_frontier: Antichain<usize>)
        ensures
            final(self).edge_bounds() == antichain_elements(edge_frontier),
            final(self).rank_bounds() == antichain_elements(rank_frontier),
    {
        self.edge_frontier = edge_frontier;
        self.rank_frontier = rank_frontier;
    }

    /// Tells whether `time` is closed.
    pub fn is_closed(&self, time: usize) -> (r: bool)
        ensures
            r == self.closed(time),
    {
        !antichain_less_equal(&self.edge_frontier, time) && !antichain_less_equal(
            &self.rank_frontier,
            time,
        )
    }

    /// Every timestamp before a closed one is closed.
    pub proof fn lemma_closed_downward(&self, earlier: usize, later: usize)
        requires
            self.closed(later),
            earlier <= later,
        ensures
            self.closed(earlier),
    {
        if reachable(self.edge_bounds(), earlier) {
            let e = choose|e: usize| #[trigger] self.edge_bounds().contains(e) && e <= earlier;
            assert(self.edge_bounds().contains(e) && e <= later);
        }
        if reachable(self.rank_bounds(), earlier) {
            let e = choose|e: usize| #[trigger] self.rank_bounds().contains(e) && e <= earlier;
            assert(self.rank_bounds().contains(e) && e <= later);
        }
    }
}

} // verus!
