//! The node state store: the state of every node, by node id.

use crate::compact::lift;
use crate::error::EngineError;
use crate::key::Edge;
use crate::node::{delta_between, edge_step, fresh_node, node_wf, rank_step, NodeState, NodeView};
use vstd::prelude::*;

verus! {

/// The state of all nodes. A node that has not been spoken of yet has the
/// initial rank and no edges; its state is made when it is first asked for.
pub struct NodeStore {
    nodes: Vec<NodeState>,
    initial_rank: i64,
}

/// The store as mathematical values.
pub struct StoreView {
    /// The states that have been made, by node id.
    pub nodes: Seq<NodeView>,
    /// The rank that a node starts with.
    pub initial_rank: int,
}

impl StoreView {
    /// The invariant of the store.
    pub open spec fn wf(self) -> bool {
        &&& 0 <= self.initial_rank <= i64::MAX
        &&& forall|id: int| 0 <= id < self.nodes.len() ==> node_wf(#[trigger] self.nodes[id])
    }

    /// The state of node `id`, made or not.
    pub open spec fn node(self, id: usize) -> NodeView {
        if id < self.nodes.len() {
            self.nodes[id as int]
        } else {
            fresh_node(self.initial_rank)
        }
    }

    /// The store once the states of all nodes up to `id` have been made.
    pub open spec fn reaching(self, id: usize) -> StoreView {
        if id < self.nodes.len() {
            self
        } else {
            StoreView {
                nodes: Seq::new((id + 1) as nat, |i: int| self.node(i as usize)),
                ..self
            }
        }
    }

    /// The store with `node` as the state of node `id`.
    pub open spec fn with_node(self, id: usize, node: NodeView) -> StoreView {
        StoreView { nodes: self.reaching(id).nodes.update(id as int, node), ..self }
    }

    /// The store after the weight of `edge` has changed by `weight_delta`,
    /// and what the neighbours of its source are told, or why the change is
    /// refused. The states of both ends of the edge are made; a refused
    /// change leaves every node as it was.
    pub open spec fn edge_change(self, edge: Edge, weight_delta: int) -> (
        StoreView,
        Result<Seq<(usize, int)>, EngineError>,
    ) {
        let made = self.reaching(edge.destination);
        let before = self.node(edge.source);
        match edge_step(before, edge.destination, weight_delta) {
            Ok(after) => (made.with_node(edge.source, after), Ok(delta_between(before, after))),
            Err(e) => (made.reaching(edge.source), Err(e)),
        }
    }

    /// The store after `delta` of rank has come in for node `id`, and what
    /// the node's neighbours are told, or why the change is refused. A
    /// refused change leaves every node as it was.
    pub open spec fn rank_change(self, id: usize, delta: int) -> (
        StoreView,
        Result<Seq<(usize, int)>, EngineError>,
    ) {
        let before = self.node(id);
        match rank_step(before, delta) {
            Ok(after) => (self.with_node(id, after), Ok(delta_between(before, after))),
            Err(e) => (self.reaching(id), Err(e)),
        }
    }
}

/// The outcome of a change with what is told as mathematical values.
pub open spec fn told(r: Result<Vec<(usize, i64)>, EngineError>) -> Result<
    Seq<(usize, int)>,
    EngineError,
> {
    match r {
        Ok(deltas) => Ok(lift(deltas@)),
        Err(e) => Err(e),
    }
}

/// Making the state of a node changes the state of no node, and keeps the
/// invariant.
pub proof fn lemma_reaching(store: StoreView, id: usize)
    requires
        store.wf(),
    ensures
        store.reaching(id).wf(),
        store.reaching(id).nodes.len() > id,
        store.reaching(id).nodes.len() >= store.nodes.len(),
        store.reaching(id).initial_rank == store.initial_rank,
        forall|other: usize| #[trigger] store.reaching(id).node(other) == store.node(other),
        store.with_node(id, store.node(id)) == store.reaching(id),
{
    assert(store.with_node(id, store.node(id)).nodes =~= store.reaching(id).nodes);
}

/// Giving node `id` a new state changes the state of no other node, and
/// keeps the invariant if the new state has its own.
pub proof fn lemma_with_node(store: StoreView, id: usize, node: NodeView)
    requires
        store.wf(),
        node_wf(node),
    ensures
        store.with_node(id, node).wf(),
        store.with_node(id, node).node(id) == node,
        forall|other: usize|
            other != id ==> #[trigger] store.with_node(id, node).node(other) == store.node(other),
{
    lemma_reaching(store, id);
}

impl View for NodeStore {
    type V = StoreView;

    closed spec fn view(&self) -> StoreView {
        StoreView {
            nodes: Seq::new(self.nodes@.len(), |i: int| self.nodes@[i]@),
            initial_rank: self.initial_rank as int,
        }
    }
}

impl NodeStore {
    /// The invariant of the store.
    pub open spec fn wf(&self) -> bool {
        self@.wf()
    }

    /// A store without any state, in which nodes start at `initial_rank`.
    pub fn new(initial_rank: i64) -> (store: NodeStore)
        requires
            initial_rank >= 0,
        ensures
            store.wf(),
            store@ == (StoreView { nodes: Seq::empty(), initial_rank: initial_rank as int }),
    {
        let store = NodeStore { nodes: Vec::new(), initial_rank };
        assert(store@.nodes =~= Seq::empty());
        store
    }

    /// The state of node `id`, made first if the node is new.
    pub fn get_or_create(&mut self, id: usize) -> (node: &mut NodeState)
        requires
            old(self).wf(),
        ensures
            node@ == old(self)@.node(id),
            node.wf(),
            final(self)@.initial_rank == old(self)@.initial_rank,
            final(self)@.nodes =~= old(self)@.reaching(id).nodes.update(id as int, final(node)@),
            final(node).wf() ==> final(self).wf(),
    {
        let ghost made = self.nodes@.len();
        assert forall|i: int| 0 <= i < self.nodes@.len() implies node_wf(
            #[trigger] self.nodes@[i]@,
        ) by {
            assert(self@.nodes[i] == self.nodes@[i]@);
        }
        while self.nodes.len() <= id
            invariant
                self.initial_rank == old(self).initial_rank,
                self.initial_rank >= 0,
                made == old(self).nodes@.len(),
                made <= self.nodes@.len(),
                made > id ==> self.nodes@.len() == made,
                made <= id ==> self.nodes@.len() <= id + 1,
                forall|i: int| 0 <= i < self.nodes@.len() ==> node_wf(#[trigger] self.nodes@[i]@),
                forall|i: int| 0 <= i < made ==> #[trigger] self.nodes@[i] == old(self).nodes@[i],
                forall|i: int|
                    made <= i < self.nodes@.len() ==> (#[trigger] self.nodes@[i])@ == fresh_node(
                        self.initial_rank as int,
                    ),
            decreases id + 1 - self.nodes.len(),
        {
            let fresh = NodeState::new(self.initial_rank);
            self.nodes.push(fresh);
        }
        proof {
            let reached = old(self)@.reaching(id);
            assert(self@.nodes.len() == reached.nodes.len());
            assert forall|i: int| 0 <= i < self@.nodes.len() implies self@.nodes[i]
                == reached.nodes[i] by {
                assert(self@.nodes[i] == self.nodes@[i]@);
                if i < made {
                    assert(old(self)@.nodes[i] == old(self).nodes@[i]@);
                }
            }
            assert(self@.nodes =~= reached.nodes);
            assert(self@.initial_rank == reached.initial_rank);
            assert(self@ == reached);
        }
        &mut self.nodes[id]
    }

    /// Changes the weight of the edge from `source` to `destination` by
    /// `weight_delta`, and returns what the neighbours of `source` must be
    /// told.
    pub fn apply_edge_change(&mut self, source: usize, destination: usize, weight_delta: i64) -> (r:
        Result<Vec<(usize, i64)>, EngineError>)
        requires
            old(self).wf(),
        ensures
            final(self).wf(),
            (final(self)@, told(r)) == old(self)@.edge_change(
                Edge { source, destination },
                weight_delta as int,
            ),
    {
        proof {
            lemma_reaching(self@, destination);
        }
        let _ = self.get_or_create(destination);
        let ghost made = self@;
        proof {
            lemma_reaching(made, source);
        }
        let ghost before = self@.node(source);
        let node = self.get_or_create(source);
        let r = node.apply_edge_change(destination, weight_delta);
        proof {
            match edge_step(before, destination, weight_delta as int) {
                Ok(after) => {
                    lemma_with_node(made, source, after);
                },
                Err(_) => {},
            }
        }
        r
    }

    /// Takes in `delta` of rank for node `id`, and returns what the
    /// neighbours of that node must be told.
    pub fn apply_rank_delta(&mut self, id: usize, delta: i64) -> (r: Result<
        Vec<(usize, i64)>,
        EngineError,
    >)
        requires
            old(self).wf(),
        ensures
            final(self).wf(),
            (final(self)@, told(r)) == old(self)@.rank_change(id, delta as int),
    {
        proof {
            lemma_reaching(self@, id);
        }
        let ghost before = self@.node(id);
        let node = self.get_or_create(id);
        let r = node.apply_rank_delta(delta);
        proof {
            match rank_step(before, delta as int) {
                Ok(after) => {
                    lemma_with_node(old(self)@, id, after);
                },
                Err(_) => {},
            }
        }
        r
    }

    /// The number of nodes whose state has been made.
    pub fn len(&self) -> (n: usize)
        ensures
            n == self@.nodes.len(),
    {
        self.nodes.len()
    }

    /// The rank that a node starts with.
    pub fn initial_rank(&self) -> (rank: i64)
        ensures
            rank == self@.initial_rank,
    {
        self.initial_rank
    }

    /// The state of node `id`, if it has been made.
    pub fn node(&self, id: usize) -> (node: Option<&NodeState>)
        ensures
            node is Some == (id < self@.nodes.len()),
            node matches Some(state) ==> state@ == self@.nodes[id as int],
    {
        if id < self.nodes.len() {
            Some(&self.nodes[id])
        } else {
            None
        }
    }
}

} // verus!
