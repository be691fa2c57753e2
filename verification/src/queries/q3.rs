//! The third query: who sells in a given category, out of the sellers in
//! a few states. Auctions and people come in in any order and are joined as
//! they come.

use crate::event::{Auction, Id, Person};
use crate::queries::{later, Stamp};
use std::collections::HashMap;
use vstd::prelude::*;

verus! {

broadcast use vstd::std_specs::hash::group_hash_axioms;

/// The category of the auctions that the query looks at.
pub const CATEGORY: Id = 10;

/// A seller found: the later of the stamps of the person and the auction,
/// the seller's name, city and state, and the auction.
pub type Row = (Stamp, String, String, String, Id);

/// What the query has seen so far.
pub struct Q3State {
    auctions: HashMap<Id, Vec<(Stamp, Auction)>>,
    people: HashMap<Id, (Stamp, Person)>,
}

/// What comes in for the query.
pub enum Q3Event {
    Auction(Stamp, Auction),
    Person(Stamp, Person),
}

/// What the query has seen so far, as mathematical values.
pub struct Q3View {
    /// The auctions looked at, by seller, in the order they came.
    pub auctions: Map<Id, Seq<(Stamp, Auction)>>,
    /// The people looked at, by their number.
    pub people: Map<Id, (Stamp, Person)>,
}

/// Whether the query looks at people of the state `state`.
pub open spec fn state_counts(state: Seq<char>) -> bool {
    state == "OR"@ || state == "ID"@ || state == "CA"@
}

/// The row for an auction of a seller.
pub open spec fn row(at: Stamp, person: Person, auction: Auction) -> Row {
    (at, person.name, person.city, person.state, auction.id)
}

impl Q3View {
    /// The auctions of `seller` that were looked at.
    pub open spec fn auctions_of(self, seller: Id) -> Seq<(Stamp, Auction)> {
        if self.auctions.contains_key(seller) {
            self.auctions[seller]
        } else {
            Seq::empty()
        }
    }

    /// What the query does with an event: what it has seen afterwards, and
    /// the rows it gives.
    pub open spec fn step(self, event: Q3Event) -> (Q3View, Seq<Row>) {
        match event {
            Q3Event::Auction(at, auction) => {
                if auction.category != CATEGORY {
                    (self, Seq::empty())
                } else {
                    (
                        Q3View {
                            auctions: self.auctions.insert(
                                auction.seller,
                                self.auctions_of(auction.seller).push((at, auction)),
                            ),
                            ..self
                        },
                        if self.people.contains_key(auction.seller) {
                            seq![
                                row(
                                    later(at, self.people[auction.seller].0),
                                    self.people[auction.seller].1,
                                    auction,
                                ),
                            ]
                        } else {
                            Seq::empty()
                        },
                    )
                }
            },
            Q3Event::Person(at, person) => {
                if !state_counts(person.state@) {
                    (self, Seq::empty())
                } else {
                    (
                        Q3View { people: self.people.insert(person.id, (at, person)), ..self },
                        self.auctions_of(person.id).map_values(
                            |seen: (Stamp, Auction)| row(later(at, seen.0), person, seen.1),
                        ),
                    )
                }
            },
        }
    }
}

impl View for Q3State {
    type V = Q3View;

    closed spec fn view(&self) -> Q3View {
        Q3View {
            auctions: self.auctions@.map_values(|list: Vec<(Stamp, Auction)>| list@),
            people: self.people@,
        }
    }
}

impl Q3State {
    /// A query that has seen nothing.
    pub fn new() -> (state: Q3State)
        ensures
            state@ == (Q3View { auctions: Map::empty(), people: Map::empty() }),
    {
        let state = Q3State { auctions: HashMap::new(), people: HashMap::new() };
        assert(state@.auctions =~= Map::empty());
        state
    }
}

/// Tells whether the query looks at people of the state `state`.
fn counts(state: &String) -> (r: bool)
    ensures
        r == state_counts(state@),
{
    let oregon = "OR".to_owned();
    let idaho = "ID".to_owned();
    let california = "CA".to_owned();
    state.eq(&oregon) || state.eq(&idaho) || state.eq(&california)
}

/// Takes in an event and gives the rows that it completes. An auction of
/// another category or a person of another state is passed over.
pub fn q3(state: &mut Q3State, event: Q3Event) -> (rows: Vec<Row>)
    ensures
        (final(state)@, rows@) == old(state)@.step(event),
{
    match event {
        Q3Event::Auction(at, auction) => {
            let mut rows: Vec<Row> = Vec::new();
            if auction.category != CATEGORY {
                return rows;
            }
            let seller = auction.seller;
            match state.people.get(&seller) {
                Some(seen) => {
                    let stamp = if at < seen.0 {
                        seen.0
                    } else {
                        at
                    };
                    rows.push(
                        (
                            stamp,
                            seen.1.name.clone(),
                            seen.1.city.clone(),
                            seen.1.state.clone(),
                            auction.id,
                        ),
                    );
                },
                None => {},
            }
            let mut list = match state.auctions.remove(&seller) {
                Some(list) => list,
                None => Vec::new(),
            };
            list.push((at, auction));
            state.auctions.insert(seller, list);
            proof {
                let expected = old(state)@.step(event);
                assert(state@.auctions =~= expected.0.auctions);
                assert(rows@ =~= expected.1);
            }
            rows
        },
        Q3Event::Person(at, person) => {
            let mut rows: Vec<Row> = Vec::new();
            if !counts(&person.state) {
                return rows;
            }
            match state.auctions.get(&person.id) {
                Some(list) => {
                    let n = list.len();
                    let mut i: usize = 0;
                    while i < n
                        invariant
                            n == list@.len(),
                            i <= n,
                            rows@ == list@.take(i as int).map_values(
                                |seen: (Stamp, Auction)| row(later(at, seen.0), person, seen.1),
                            ),
                        decreases n - i,
                    {
                        let stamp = if at < list[i].0 {
                            list[i].0
                        } else {
                            at
                        };
                        proof {
                            let f = |seen: (Stamp, Auction)|
                                row(later(at, seen.0), person, seen.1);
                            assert(list@.take(i + 1) =~= list@.take(i as int).push(list@[i as int]));
                            assert(list@.take(i + 1).map_values(f) =~= list@.take(
                                i as int,
                            ).map_values(f).push(f(list@[i as int])));
                        }
                        rows.push(
                            (
                                stamp,
                                person.name.clone(),
                                person.city.clone(),
                                person.state.clone(),
                                list[i].1.id,
                            ),
                        );
                        i += 1;
                    }
                },
                None => {},
            }
            proof {
                let seen = old(state)@.auctions_of(person.id);
                if old(state)@.auctions.contains_key(person.id) {
                    assert(seen.take(seen.len() as int) =~= seen);
                } else {
                    assert(rows@ =~= seen.map_values(
                        |seen: (Stamp, Auction)| row(later(at, seen.0), person, seen.1),
                    ));
                }
            }
            state.people.insert(person.id, (at, person));
            rows
        },
    }
}

} // verus!
