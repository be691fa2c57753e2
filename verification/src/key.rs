//! Keys of delta records, and the total order in which compaction lists them.

use std::cmp::Ordering;
use vstd::prelude::*;

verus! {

/// A key that delta records can be grouped and ordered by.
///
/// Every key has a position, an integer, and keys are ordered as their
/// positions are. Distinct keys have distinct positions, so the order is total.
pub trait Key: Copy {
    /// The place of this key in the order of all keys.
    spec fn position(self) -> int;

    /// Keys at the same position are the same key.
    proof fn lemma_position_injective(a: Self, b: Self)
        requires
            a.position() == b.position(),
        ensures
            a == b,
    ;

    /// Whether `self` comes strictly before `other`.
    fn precedes(&self, other: &Self) -> (r: bool)
        ensures
            r == (self.position() < other.position()),
    ;
}

/// Node ids are ordered by their value.
impl Key for usize {
    open spec fn position(self) -> int {
        self as int
    }

    proof fn lemma_position_injective(a: Self, b: Self) {
    }

    fn precedes(&self, other: &Self) -> (r: bool) {
        *self < *other
    }
}

/// More than any node id: the position of an edge is written in this radix.
pub open spec fn pair_radix() -> int {
    0x1_0000_0000_0000_0000
}

/// A directed edge, named by the nodes it leaves and enters.
#[derive(Clone, Copy, Debug, PartialEq, Eq, Structural)]
pub struct Edge {
    pub source: usize,
    pub destination: usize,
}

/// Edges are ordered by their source, then by their destination.
impl Key for Edge {
    open spec fn position(self) -> int {
        self.source * pair_radix() + self.destination
    }

    proof fn lemma_position_injective(a: Self, b: Self) {
    }

    fn precedes(&self, other: &Self) -> (r: bool) {
        self.source < other.source || (self.source == other.source && self.destination
            < other.destination)
    }
}

/// The three-way comparison of two keys by position.
pub fn key_ordering<K: Key>(a: &K, b: &K) -> (o: Ordering)
    ensures
        a.position() < b.position() ==> o == Ordering::Less,
        a.position() > b.position() ==> o == Ordering::Greater,
        a.position() == b.position() ==> o == Ordering::Equal,
{
    if a.precedes(b) {
        Ordering::Less
    } else if b.precedes(a) {
        Ordering::Greater
    } else {
        Ordering::Equal
    }
}

} // verus!
