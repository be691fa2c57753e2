//! The state of one node, and the two changes it can undergo: a change to
//! one of its edges, and a change to its rank.

use crate::allocate::{
    allocatable, allocate, allocation, allocation_error, distribute, positive_weights, share,
    try_allocate,
};
use crate::compact::{
    ascending, compact, compacted, is_compacted, lemma_compacted, lemma_compacted_nets_fit,
    lemma_compaction_is_compacted, lemma_lift_push, lemma_net_concat,
    lemma_nets_fit_compacted_fits, lift, net, nets_fit, try_compact, values_fit,
};
use crate::error::EngineError;
use crate::key::Key;
use vstd::arithmetic::div_mod::lemma_mod_pos_bound;
use vstd::prelude::*;

verus! {

/// Rank that has come in for a node is held back until it amounts to this
/// much, one way or the other.
pub const COMMIT_THRESHOLD: i64 = 6;

/// What is known of one node.
pub struct NodeState {
    rank: i64,
    adjacency: Vec<(usize, i64)>,
    pending_diff: i64,
}

/// The state of a node as mathematical values.
pub struct NodeView {
    /// The rank the node has.
    pub rank: int,
    /// The edges that leave the node: destination and weight.
    pub adjacency: Seq<(usize, int)>,
    /// Rank that has come in and is not yet part of `rank`.
    pub pending: int,
}

/// The invariant of a node's state: the rank is not negative, the edges are
/// listed once each by ascending destination with positive weights, what is
/// held back is below the threshold, and what the node sends fits in 64 bits.
pub open spec fn node_wf(node: NodeView) -> bool {
    &&& 0 <= node.rank <= i64::MAX
    &&& is_compacted(node.adjacency)
    &&& values_fit(node.adjacency)
    &&& positive_weights(node.adjacency)
    &&& allocatable(node.rank, node.adjacency)
    &&& -COMMIT_THRESHOLD < node.pending < COMMIT_THRESHOLD
}

/// A node that nothing has been said about yet.
pub open spec fn fresh_node(rank: int) -> NodeView {
    NodeView { rank, adjacency: Seq::empty(), pending: 0 }
}

/// The records of `list` with their values negated.
pub open spec fn negated(list: Seq<(usize, int)>) -> Seq<(usize, int)> {
    list.map_values(|e: (usize, int)| (e.0, -e.1))
}

/// What the node sends to its neighbours.
pub open spec fn sent_by(node: NodeView) -> Seq<(usize, int)> {
    allocation(node.rank, node.adjacency)
}

/// What the neighbours must be told when a node goes from `before` to
/// `after`: what was sent taken back, what is sent now added, compacted.
pub open spec fn delta_between(before: NodeView, after: NodeView) -> Seq<(usize, int)> {
    compacted(negated(sent_by(before)) + sent_by(after))
}

/// The edges after the weight of the edge to `destination` has changed by
/// `weight_delta`. An edge whose weight becomes zero is gone.
pub open spec fn adjusted(adjacency: Seq<(usize, int)>, destination: usize, weight_delta: int) -> Seq<
    (usize, int),
> {
    compacted(adjacency.push((destination, weight_delta)))
}

/// The node after a change to one of its edges, or why the change is refused.
pub open spec fn edge_step(node: NodeView, destination: usize, weight_delta: int) -> Result<
    NodeView,
    EngineError,
> {
    let adjacency = adjusted(node.adjacency, destination, weight_delta);
    if !values_fit(adjacency) {
        Err(EngineError::Overflow)
    } else {
        match allocation_error(node.rank, adjacency) {
            Some(e) => Err(e),
            None => Ok(NodeView { adjacency, ..node }),
        }
    }
}

/// Whether rank held back to the amount of `pending` stays held back.
pub open spec fn below_threshold(pending: int) -> bool {
    -COMMIT_THRESHOLD < pending < COMMIT_THRESHOLD
}

/// The node after `amount` of rank that was held back has been added to its
/// rank, or why that is refused.
pub open spec fn commit(node: NodeView, amount: int) -> Result<NodeView, EngineError> {
    let rank = node.rank + amount;
    if rank < 0 {
        Err(EngineError::NegativeRank)
    } else if rank > i64::MAX {
        Err(EngineError::Overflow)
    } else {
        match allocation_error(rank, node.adjacency) {
            Some(e) => Err(e),
            None => Ok(NodeView { rank, pending: 0, ..node }),
        }
    }
}

/// The node after `delta` of rank has come in, or why it is refused. The
/// rank is held back while it stays below the threshold in magnitude; once
/// it reaches the threshold all of it is added to the node's rank.
pub open spec fn rank_step(node: NodeView, delta: int) -> Result<NodeView, EngineError> {
    let pending = node.pending + delta;
    if below_threshold(pending) {
        Ok(NodeView { pending, ..node })
    } else {
        commit(node, pending)
    }
}

/// The sum of `deltas`.
pub open spec fn sum(deltas: Seq<int>) -> int
    decreases deltas.len(),
{
    if deltas.len() == 0 {
        0
    } else {
        sum(deltas.drop_last()) + deltas.last()
    }
}

/// The node after the rank changes `deltas` have come in, one after the
/// other; the first refusal ends the run.
pub open spec fn rank_run(node: NodeView, deltas: Seq<int>) -> Result<NodeView, EngineError>
    decreases deltas.len(),
{
    if deltas.len() == 0 {
        Ok(node)
    } else {
        match rank_run(node, deltas.drop_last()) {
            Ok(reached) => rank_step(reached, deltas.last()),
            Err(e) => Err(e),
        }
    }
}

/// What the neighbours are told when the rank change at `index` of `deltas`
/// comes in.
pub open spec fn told_at(node: NodeView, deltas: Seq<int>, index: int) -> Seq<(usize, int)> {
    match (rank_run(node, deltas.take(index)), rank_run(node, deltas.take(index + 1))) {
        (Ok(before), Ok(after)) => delta_between(before, after),
        _ => Seq::empty(),
    }
}

/// The amount held back after the first `count` of `deltas` have come in,
/// where none of them was added to the rank.
pub open spec fn held_back(node: NodeView, deltas: Seq<int>, count: int) -> int {
    node.pending + sum(deltas.take(count))
}

/// The net of a key in a negated list is the negated net.
pub proof fn lemma_net_negated(list: Seq<(usize, int)>, key: usize)
    ensures
        net(negated(list), key) == -net(list, key),
    decreases list.len(),
{
    if list.len() > 0 {
        assert(negated(list).drop_last() =~= negated(list.drop_last()));
        lemma_net_negated(list.drop_last(), key);
    }
}

/// A change of state tells every destination the difference between what it
/// is sent now and what it was sent before, and tells it once: taking back
/// the old allocation and adding the new one, then compacting, is the same
/// as subtracting the two allocations.
pub proof fn lemma_delta_is_difference(before: NodeView, after: NodeView)
    ensures
        is_compacted(delta_between(before, after)),
        forall|destination: usize| #[trigger]
            net(delta_between(before, after), destination) == net(sent_by(after), destination)
                - net(sent_by(before), destination),
{
    let joined = negated(sent_by(before)) + sent_by(after);
    lemma_compacted(joined);
    assert forall|destination: usize| #[trigger]
        net(delta_between(before, after), destination) == net(sent_by(after), destination) - net(
            sent_by(before),
            destination,
        ) by {
        assert(net(compacted(joined), destination) == net(joined, destination));
        lemma_net_concat(negated(sent_by(before)), sent_by(after), destination);
        lemma_net_negated(sent_by(before), destination);
    }
}

/// A node whose rank and edges stay as they are has nothing to tell.
pub proof fn lemma_no_change_no_delta(before: NodeView, after: NodeView)
    requires
        before.rank == after.rank,
        before.adjacency == after.adjacency,
    ensures
        delta_between(before, after) == Seq::<(usize, int)>::empty(),
{
    lemma_delta_is_difference(before, after);
    let nothing = Seq::<(usize, int)>::empty();
    let joined = negated(sent_by(before)) + sent_by(after);
    lemma_compacted(joined);
    assert forall|destination: usize| #[trigger] net(nothing, destination) == net(
        joined,
        destination,
    ) by {
        assert(net(compacted(joined), destination) == net(joined, destination));
    }
    lemma_compaction_is_compacted(nothing, joined);
}

/// What a well-formed node sends: one record for each edge, in the order of
/// the edges, none of them negative, all of them within 64 bits.
pub proof fn lemma_sent_by_wf(node: NodeView)
    requires
        0 <= node.rank,
        ascending(node.adjacency),
        allocatable(node.rank, node.adjacency),
    ensures
        ascending(sent_by(node)),
        values_fit(sent_by(node)),
        forall|i: int| 0 <= i < sent_by(node).len() ==> (#[trigger] sent_by(node)[i]).1 >= 0,
{
    let sent = sent_by(node);
    let degree = node.adjacency.len() as int;
    assert forall|i: int, j: int| 0 <= i < j < sent.len() implies (#[trigger] sent[i]).0.position()
        < (#[trigger] sent[j]).0.position() by {
        assert(node.adjacency[i].0.position() < node.adjacency[j].0.position());
    }
    assert forall|i: int| 0 <= i < sent.len() implies (#[trigger] sent[i]).1 >= 0 by {
        let passed = distribute(node.rank);
        lemma_mod_pos_bound(passed, degree);
        assert(passed / degree >= 0) by (nonlinear_arith)
            requires
                passed >= 0,
                degree > 0,
        ;
        let portion = share(node.rank, degree, i);
        let weight = node.adjacency[i].1;
        assert(weight > 0);
        assert(weight * portion >= 0) by (nonlinear_arith)
            requires
                weight > 0,
                portion >= 0,
        ;
    }
}

/// The difference between what two well-formed nodes send fits in 64 bits.
pub proof fn lemma_difference_fits(before: NodeView, after: NodeView)
    requires
        0 <= before.rank,
        ascending(before.adjacency),
        allocatable(before.rank, before.adjacency),
        0 <= after.rank,
        ascending(after.adjacency),
        allocatable(after.rank, after.adjacency),
    ensures
        nets_fit(negated(sent_by(before)) + sent_by(after)),
        values_fit(delta_between(before, after)),
{
    let old_sent = sent_by(before);
    let new_sent = sent_by(after);
    lemma_sent_by_wf(before);
    lemma_sent_by_wf(after);
    lemma_compacted_nets_fit(old_sent);
    lemma_compacted_nets_fit(new_sent);
    assert forall|key: usize|
        i64::MIN <= #[trigger] net(negated(old_sent) + new_sent, key) <= i64::MAX by {
        lemma_net_concat(negated(old_sent), new_sent, key);
        lemma_net_negated(old_sent, key);
        lemma_listed_nets_not_negative(old_sent, key);
        lemma_listed_nets_not_negative(new_sent, key);
        assert(i64::MIN <= net(old_sent, key) <= i64::MAX);
        assert(i64::MIN <= net(new_sent, key) <= i64::MAX);
    }
    lemma_nets_fit_compacted_fits(negated(old_sent) + new_sent);
}

proof fn lemma_listed_nets_not_negative(list: Seq<(usize, int)>, key: usize)
    requires
        forall|i: int| 0 <= i < list.len() ==> (#[trigger] list[i]).1 >= 0,
    ensures
        net(list, key) >= 0,
    decreases list.len(),
{
    if list.len() > 0 {
        lemma_listed_nets_not_negative(list.drop_last(), key);
    }
}

/// Negates every value of `list`.
fn negate(list: &mut Vec<(usize, i64)>)
    requires
        forall|i: int| 0 <= i < old(list)@.len() ==> (#[trigger] old(list)@[i]).1 > i64::MIN,
    ensures
        lift(final(list)@) == negated(lift(old(list)@)),
{
    let n = list.len();
    let mut i: usize = 0;
    while i < n
        invariant
            n == list@.len(),
            n == old(list)@.len(),
            i <= n,
            forall|j: int| 0 <= j < i ==> (#[trigger] list@[j]) == (old(list)@[j].0, (-old(
                list,
            )@[j].1) as i64),
            forall|j: int| i <= j < n ==> (#[trigger] list@[j]) == old(list)@[j],
            forall|j: int| 0 <= j < n ==> (#[trigger] old(list)@[j]).1 > i64::MIN,
        decreases n - i,
    {
        let entry = list[i];
        list.set(i, (entry.0, -entry.1));
        i += 1;
    }
    assert(lift(list@) =~= negated(lift(old(list)@)));
}

/// A copy of `list`.
fn copy_list(list: &Vec<(usize, i64)>) -> (copy: Vec<(usize, i64)>)
    ensures
        copy@ == list@,
{
    let n = list.len();
    let mut copy: Vec<(usize, i64)> = Vec::with_capacity(n);
    let mut i: usize = 0;
    while i < n
        invariant
            n == list@.len(),
            i <= n,
            copy@ == list@.take(i as int),
        decreases n - i,
    {
        copy.push(list[i]);
        assert(list@.take(i + 1) =~= list@.take(i as int).push(list@[i as int]));
        i += 1;
    }
    assert(list@.take(n as int) =~= list@);
    copy
}

impl View for NodeState {
    type V = NodeView;

    closed spec fn view(&self) -> NodeView {
        NodeView {
            rank: self.rank as int,
            adjacency: lift(self.adjacency@),
            pending: self.pending_diff as int,
        }
    }
}

impl NodeState {
    /// The invariant of the state.
    pub open spec fn wf(&self) -> bool {
        node_wf(self@)
    }

    /// A node of rank `rank` without edges.
    pub fn new(rank: i64) -> (node: NodeState)
        requires
            rank >= 0,
        ensures
            node@ == fresh_node(rank as int),
            node.wf(),
    {
        let node = NodeState { rank, adjacency: Vec::new(), pending_diff: 0 };
        assert(lift(node.adjacency@) =~= Seq::<(usize, int)>::empty());
        node
    }

    /// The rank of the node.
    pub fn rank(&self) -> (rank: i64)
        ensures
            rank == self@.rank,
    {
        self.rank
    }

    /// Rank that has come in and is held back.
    pub fn pending_diff(&self) -> (pending: i64)
        ensures
            pending == self@.pending,
    {
        self.pending_diff
    }

    /// The edges that leave the node, by ascending destination.
    pub fn adjacency(&self) -> (edges: &Vec<(usize, i64)>)
        ensures
            lift(edges@) == self@.adjacency,
    {
        &self.adjacency
    }

    /// Changes the weight of the edge to `destination` by `weight_delta` and
    /// returns what the neighbours must be told. A refused change leaves
    /// the node as it was.
    pub fn apply_edge_change(&mut self, destination: usize, weight_delta: i64) -> (r: Result<
        Vec<(usize, i64)>,
        EngineError,
    >)
        requires
            old(self).wf(),
        ensures
            final(self).wf(),
            match edge_step(old(self)@, destination, weight_delta as int) {
                Ok(after) => r is Ok && final(self)@ == after && lift(r->Ok_0@) == delta_between(
                    old(self)@,
                    after,
                ),
                Err(e) => r == Err::<Vec<(usize, i64)>, EngineError>(e) && final(self)@ == old(
                    self,
                )@,
            },
    {
        let ghost before = self@;
        let ghost pushed = before.adjacency.push((destination, weight_delta as int));
        let mut delta: Vec<(usize, i64)> = Vec::new();
        proof {
            lemma_sent_by_wf(before);
            assert(lift(delta@) =~= Seq::<(usize, int)>::empty());
        }
        allocate(self.rank, self.adjacency.as_slice(), &mut delta);
        assert(lift(delta@) =~= sent_by(before));
        assert forall|i: int| 0 <= i < delta@.len() implies (#[trigger] delta@[i]).1 > i64::MIN by {
            assert(lift(delta@)[i].1 >= 0);
        }
        negate(&mut delta);
        let mut updated = copy_list(&self.adjacency);
        proof {
            lemma_lift_push(updated@, (destination, weight_delta));
            lemma_nets_fit_compacted_fits(pushed);
        }
        updated.push((destination, weight_delta));
        if !try_compact(&mut updated) {
            return Err(EngineError::Overflow);
        }
        proof {
            lemma_compacted(pushed);
            lemma_compacted_nets_fit(lift(updated@));
        }
        match try_allocate(self.rank, updated.as_slice(), &mut delta) {
            Err(e) => {
                return Err(e);
            },
            Ok(()) => {},
        }
        self.adjacency = updated;
        proof {
            lemma_difference_fits(before, self@);
        }
        compact(&mut delta);
        Ok(delta)
    }

    /// Takes in `delta` of rank and returns what the neighbours must be
    /// told. A refused change leaves the node as it was.
    pub fn apply_rank_delta(&mut self, delta: i64) -> (r: Result<Vec<(usize, i64)>, EngineError>)
        requires
            old(self).wf(),
        ensures
            final(self).wf(),
            match rank_step(old(self)@, delta as int) {
                Ok(after) => r is Ok && final(self)@ == after && lift(r->Ok_0@) == delta_between(
                    old(self)@,
                    after,
                ),
                Err(e) => r == Err::<Vec<(usize, i64)>, EngineError>(e) && final(self)@ == old(
                    self,
                )@,
            },
    {
        let ghost before = self@;
        let pending: i128 = self.pending_diff as i128 + delta as i128;
        if -(COMMIT_THRESHOLD as i128) < pending && pending < COMMIT_THRESHOLD as i128 {
            self.pending_diff = pending as i64;
            let nothing: Vec<(usize, i64)> = Vec::new();
            proof {
                lemma_no_change_no_delta(before, self@);
                assert(lift(nothing@) =~= Seq::<(usize, int)>::empty());
            }
            return Ok(nothing);
        }
        let rank: i128 = self.rank as i128 + pending;
        if rank < 0 {
            return Err(EngineError::NegativeRank);
        }
        if rank > i64::MAX as i128 {
            return Err(EngineError::Overflow);
        }
        let rank = rank as i64;
        let mut out: Vec<(usize, i64)> = Vec::new();
        proof {
            lemma_sent_by_wf(before);
            assert(lift(out@) =~= Seq::<(usize, int)>::empty());
        }
        allocate(self.rank, self.adjacency.as_slice(), &mut out);
        assert(lift(out@) =~= sent_by(before));
        assert forall|i: int| 0 <= i < out@.len() implies (#[trigger] out@[i]).1 > i64::MIN by {
            assert(lift(out@)[i].1 >= 0);
        }
        negate(&mut out);
        match try_allocate(rank, self.adjacency.as_slice(), &mut out) {
            Err(e) => {
                return Err(e);
            },
            Ok(()) => {},
        }
        self.rank = rank;
        self.pending_diff = 0;
        proof {
            lemma_difference_fits(before, self@);
        }
        compact(&mut out);
        Ok(out)
    }
}

/// Hysteresis, the quiet part: while the rank changes that come in for a
/// node add up to less than the threshold, the node's rank stays as it is,
/// the changes are held back, and the neighbours are told nothing.
pub proof fn lemma_hysteresis_holds_back(node: NodeView, deltas: Seq<int>)
    requires
        forall|count: int|
            0 < count <= deltas.len() ==> below_threshold(#[trigger] held_back(node, deltas, count)),
    ensures
        rank_run(node, deltas) == Ok::<NodeView, EngineError>(
            NodeView { pending: node.pending + sum(deltas), ..node },
        ),
        forall|index: int|
            0 <= index < deltas.len() ==> #[trigger] told_at(node, deltas, index) == Seq::<
                (usize, int),
            >::empty(),
    decreases deltas.len(),
{
    if deltas.len() > 0 {
        let front = deltas.drop_last();
        assert forall|count: int| 0 < count <= front.len() implies below_threshold(
            #[trigger] held_back(node, front, count),
        ) by {
            assert(front.take(count) =~= deltas.take(count));
            assert(below_threshold(held_back(node, deltas, count)));
        }
        lemma_hysteresis_holds_back(node, front);
        assert(deltas.take(deltas.len() as int) =~= deltas);
        assert(below_threshold(held_back(node, deltas, deltas.len() as int)));
        assert forall|index: int| 0 <= index < deltas.len() implies #[trigger] told_at(
            node,
            deltas,
            index,
        ) == Seq::<(usize, int)>::empty() by {
            if index < front.len() {
                assert(front.take(index) =~= deltas.take(index));
                assert(front.take(index + 1) =~= deltas.take(index + 1));
                assert(told_at(node, front, index) == Seq::<(usize, int)>::empty());
            } else {
                assert(deltas.take(index) =~= front);
                assert(deltas.take(index + 1) =~= deltas);
                let before = rank_run(node, front)->Ok_0;
                let after = rank_run(node, deltas)->Ok_0;
                lemma_no_change_no_delta(before, after);
            }
        }
    }
}

/// Hysteresis, the commit: when rank changes that were held back are
/// followed by one with which they reach the threshold, all of it is added
/// to the node's rank at that moment, once, and nothing remains held back.
pub proof fn lemma_hysteresis_commits(node: NodeView, deltas: Seq<int>, last: int)
    requires
        forall|count: int|
            0 < count <= deltas.len() ==> below_threshold(#[trigger] held_back(node, deltas, count)),
        !below_threshold(node.pending + sum(deltas) + last),
    ensures
        rank_run(node, deltas.push(last)) == commit(node, node.pending + sum(deltas) + last),
        rank_run(node, deltas.push(last)) matches Ok(after) ==> {
            &&& after.rank == node.rank + node.pending + sum(deltas) + last
            &&& after.pending == 0
            &&& after.adjacency == node.adjacency
        },
{
    lemma_hysteresis_holds_back(node, deltas);
    assert(deltas.push(last).drop_last() =~= deltas);
}

} // verus!
