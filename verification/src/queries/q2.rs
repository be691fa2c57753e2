//! The second query: the bids on a fixed selection of auctions.

use crate::event::{Bid, Id};
use vstd::prelude::*;

verus! {

/// The query looks at the auctions whose number is a multiple of this.
pub const AUCTION_SKIP: usize = 123;

/// Selects the bids on the auctions the query looks at, and gives for each
/// the auction and the price.
pub fn q2(bid: &Bid) -> (selected: Option<(Id, usize)>)
    ensures
        selected == if bid.auction % AUCTION_SKIP == 0 {
            Some((bid.auction, bid.price))
        } else {
            None
        },
{
    if bid.auction % AUCTION_SKIP == 0 {
        Some((bid.auction, bid.price))
    } else {
        None
    }
}

} // verus!
