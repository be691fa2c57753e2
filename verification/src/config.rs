//! How the stream of events is laid out.

use vstd::prelude::*;

verus! {

/// The stream of events runs in rounds of `proportion_denominator` events:
/// first `person_proportion` people, then `auction_proportion` auctions, and
/// bids for the rest of the round.
#[derive(Clone, Copy, Debug, PartialEq, Eq, Structural)]
pub struct NEXMarkConfig {
    pub person_proportion: usize,
    pub auction_proportion: usize,
    pub proportion_denominator: usize,
    /// How many of the latest people are active, and so may sell or bid.
    pub active_people: usize,
    /// How many people ahead of the latest one an event may name.
    pub person_id_lead: usize,
    /// How many of the latest auctions are in flight, and so may be bid on.
    pub in_flight_auctions: usize,
    /// How many auctions ahead of the latest one an event may name.
    pub auction_id_lead: usize,
}

impl NEXMarkConfig {
    /// A round holds at least one person and one auction, and is as long as
    /// both together at the least.
    pub open spec fn wf(&self) -> bool {
        &&& self.person_proportion >= 1
        &&& self.auction_proportion >= 1
        &&& self.person_proportion + self.auction_proportion <= self.proportion_denominator
    }
}

} // verus!
