//! What two kinds of streaming operators decide, apart from the dataflow
//! that carries their records: the incremental propagation of integer rank
//! through a graph that changes, and queries over the events of an auction
//! site.
//!
//! In the graph every node has a rank and passes five sixths of it on to
//! the nodes its edges lead to. When an edge or a rank changes, the engine
//! does not work the ranks out anew: it tells each neighbour by how much
//! what it is sent has changed. Changes come in tagged with a timestamp, in
//! any order, and are held back until the frontiers of the inputs show that
//! nothing more can come for their timestamp.
//!
//! - [`compact`]: merging delta records by key.
//! - [`allocate`]: dividing a node's rank among its edges.
//! - [`node`] and [`store`]: the state of a node, and of all nodes.
//! - [`stash`] and [`frontier`]: what is held back, and until when.
//! - [`phase`] and [`driver`]: the release of one timestamp, and of all
//!   that are closed.
//! - [`event`], [`config`] and [`queries`]: the events of an auction site,
//!   the layout of their stream, and queries over them.

pub mod allocate;
pub mod compact;
pub mod config;
pub mod driver;
pub mod error;
pub mod event;
pub mod frontier;
pub mod key;
pub mod node;
pub mod phase;
pub mod queries;
pub mod stash;
pub mod store;
