//! The events of an auction site: people who register, auctions that open,
//! and bids.

use crate::config::NEXMarkConfig;
use rand::rngs::SmallRng;
use rand::Rng;
use vstd::arithmetic::div_mod::lemma_fundamental_div_mod;
use vstd::arithmetic::mul::lemma_mul_is_commutative;
use vstd::prelude::*;

verus! {

/// The number by which a person, an auction or an event is known.
pub type Id = usize;

/// A point in time, or a span of it, in the unit of the event stream.
#[derive(Eq, PartialEq, Ord, PartialOrd, Clone, Debug, Hash, Copy, Default, Structural)]
pub struct Date(pub usize);

impl Date {
    /// The date that stands at `date_time`.
    pub fn new(date_time: usize) -> (date: Date)
        ensures
            date.0 == date_time,
    {
        Date(date_time)
    }

    /// The number that the date stands at.
    pub fn deref(&self) -> (value: &usize)
        ensures
            *value == self.0,
    {
        &self.0
    }

    /// The date that lies `other` after this one.
    pub fn add(self, other: Date) -> (sum: Date)
        requires
            self.0 + other.0 <= usize::MAX,
        ensures
            sum.0 == self.0 + other.0,
    {
        Date(self.0 + other.0)
    }

    /// The span from `other` to this date.
    pub fn sub(self, other: Date) -> (span: Date)
        requires
            other.0 <= self.0,
        ensures
            span.0 == self.0 - other.0,
    {
        Date(self.0 - other.0)
    }
}

/// Someone who has registered with the site.
#[derive(Eq, PartialEq, Ord, PartialOrd, Clone, Debug, Hash)]
pub struct Person {
    pub id: Id,
    pub name: String,
    pub email_address: String,
    pub credit_card: String,
    pub city: String,
    pub state: String,
    pub date_time: Date,
    pub extra: String,
}

/// An item put up for auction.
#[derive(Eq, PartialEq, Ord, PartialOrd, Clone, Debug, Hash)]
pub struct Auction {
    pub id: Id,
    pub item_name: String,
    pub description: String,
    pub initial_bid: usize,
    pub reserve: usize,
    pub date_time: Date,
    pub expires: Date,
    pub seller: Id,
    pub category: Id,
    pub extra: String,
}

/// A bid for an item.
#[derive(Eq, PartialEq, Ord, PartialOrd, Clone, Debug, Hash)]
pub struct Bid {
    /// The auction that the bid is for.
    pub auction: Id,
    /// The person who bids.
    pub bidder: Id,
    /// The price offered, in cents.
    pub price: usize,
    /// The channel through which the bid came.
    pub channel: String,
    /// The address from which the bid came.
    pub url: String,
    /// When the bid was made.
    pub date_time: Date,
    /// Filling.
    pub extra: String,
}

/// Something that happened on the site.
#[derive(Eq, PartialEq, Clone, Debug)]
pub enum Event {
    Person(Person),
    Auction(Auction),
    Bid(Bid),
}

impl Event {
    /// When the event happened.
    pub open spec fn spec_time(&self) -> Date {
        match *self {
            Event::Person(p) => p.date_time,
            Event::Auction(a) => a.date_time,
            Event::Bid(b) => b.date_time,
        }
    }

    /// What the event is about: the person, the auction, or for a bid the
    /// auction it is for.
    pub open spec fn spec_id(&self) -> Id {
        match *self {
            Event::Person(p) => p.id,
            Event::Auction(a) => a.id,
            Event::Bid(b) => b.auction,
        }
    }

    /// When the event happened.
    pub fn time(&self) -> (date: Date)
        ensures
            date == self.spec_time(),
    {
        match self {
            Event::Person(p) => p.date_time,
            Event::Auction(a) => a.date_time,
            Event::Bid(b) => b.date_time,
        }
    }

    /// What the event is about: the person, the auction, or for a bid the
    /// auction it is for, since a bid has no number of its own.
    pub fn id(&self) -> (id: Id)
        ensures
            id == self.spec_id(),
    {
        match self {
            Event::Person(p) => p.id,
            Event::Auction(a) => a.id,
            Event::Bid(b) => b.auction,
        }
    }
}

/// The small generator of random numbers of rand, carried as an opaque
/// value.
#[verifier::external_type_specification]
#[verifier::external_body]
pub struct ExSmallRng(SmallRng);

/// Calls `Rng::gen_range` with the range from zero up to `bound`, the bound
/// left out. It gives a number within the range, whichever the generator
/// comes up with.
#[verifier::external_body]
fn draw_below(rng: &mut SmallRng, bound: usize) -> (draw: usize)
    requires
        bound > 0,
    ensures
        draw < bound,
{
    rng.gen_range(0..bound)
}

/// The number of the round that the event `event_id` falls in.
pub open spec fn round(event_id: usize, nex: NEXMarkConfig) -> int {
    event_id as int / nex.proportion_denominator as int
}

/// The place of the event `event_id` in its round.
pub open spec fn place(event_id: usize, nex: NEXMarkConfig) -> int {
    event_id as int % nex.proportion_denominator as int
}

/// The number, counted from zero, of the last person in the stream up to
/// the event `event_id`: the person of that event, if it is one.
pub open spec fn last_person(event_id: usize, nex: NEXMarkConfig) -> int {
    round(event_id, nex) * nex.person_proportion + if place(event_id, nex)
        < nex.person_proportion {
        place(event_id, nex)
    } else {
        nex.person_proportion - 1
    }
}

/// The number, counted from zero, of the last auction in the stream up to
/// the event `id`: the auction of that event, if it is one. While the
/// people of a round come in, it is the last auction of the round before.
pub open spec fn last_auction(id: usize, nex: NEXMarkConfig) -> int {
    if place(id, nex) < nex.person_proportion {
        (round(id, nex) - 1) * nex.auction_proportion + nex.auction_proportion - 1
    } else if nex.person_proportion + nex.auction_proportion <= place(id, nex) {
        round(id, nex) * nex.auction_proportion + nex.auction_proportion - 1
    } else {
        round(id, nex) * nex.auction_proportion + place(id, nex) - nex.person_proportion
    }
}

/// How many of the people up to the event `event_id` are active.
pub open spec fn active_people(event_id: usize, nex: NEXMarkConfig) -> int {
    if last_person(event_id, nex) + 1 < nex.active_people {
        last_person(event_id, nex) + 1
    } else {
        nex.active_people as int
    }
}

/// The person that the draw `draw` picks at the event `event_id`: one of
/// the active people, or of those about to come.
pub open spec fn drawn_person(event_id: usize, draw: usize, nex: NEXMarkConfig) -> int {
    last_person(event_id, nex) + 1 - active_people(event_id, nex) + draw
}

/// The first of the auctions in flight at the event `id`.
pub open spec fn first_in_flight(id: usize, nex: NEXMarkConfig) -> int {
    if last_auction(id, nex) < nex.in_flight_auctions {
        0
    } else {
        last_auction(id, nex) - nex.in_flight_auctions
    }
}

/// The auction that the draw `draw` picks at the event `id`: one of the
/// auctions in flight, or of those about to come.
pub open spec fn drawn_auction(id: usize, draw: usize, nex: NEXMarkConfig) -> int {
    first_in_flight(id, nex) + draw
}

impl Person {
    /// A person picked at random for the event `event_id`, counted from
    /// zero: one of the active people, or of those about to come.
    pub fn next_id(event_id: usize, rng: &mut SmallRng, nex: &NEXMarkConfig) -> (id: Id)
        requires
            nex.wf(),
            nex.active_people + nex.person_id_lead > 0,
            event_id + 1 + nex.active_people + nex.person_id_lead <= usize::MAX,
        ensures
            exists|draw: usize|
                draw < active_people(event_id, *nex) + nex.person_id_lead && id == drawn_person(
                    event_id,
                    draw,
                    *nex,
                ),
    {
        let people = Self::last_id(event_id, nex) + 1;
        let active = if people < nex.active_people {
            people
        } else {
            nex.active_people
        };
        let draw = draw_below(rng, active + nex.person_id_lead);
        Self::drawn_id(event_id, draw, nex)
    }

    /// The person that the draw `draw` picks at the event `event_id`.
    pub fn drawn_id(event_id: usize, draw: usize, nex: &NEXMarkConfig) -> (id: Id)
        requires
            nex.wf(),
            draw < active_people(event_id, *nex) + nex.person_id_lead,
            event_id + 1 + nex.person_id_lead <= usize::MAX,
        ensures
            id == drawn_person(event_id, draw, *nex),
    {
        let people = Self::last_id(event_id, nex) + 1;
        let active = if people < nex.active_people {
            people
        } else {
            nex.active_people
        };
        people - active + draw
    }

    /// The number of the last person up to the event `event_id`, counted
    /// from zero.
    pub fn last_id(event_id: usize, nex: &NEXMarkConfig) -> (id: Id)
        requires
            nex.wf(),
        ensures
            id == last_person(event_id, *nex),
            id <= event_id,
    {
        let epoch = event_id / nex.proportion_denominator;
        let place = event_id % nex.proportion_denominator;
        let offset = if place < nex.person_proportion - 1 {
            place
        } else {
            nex.person_proportion - 1
        };
        proof {
            lemma_fundamental_div_mod(event_id as int, nex.proportion_denominator as int);
            lemma_mul_is_commutative(epoch as int, nex.proportion_denominator as int);
        }
        assert(epoch * nex.person_proportion + offset <= event_id) by (nonlinear_arith)
            requires
                event_id == epoch * nex.proportion_denominator + place,
                nex.person_proportion <= nex.proportion_denominator,
                offset <= place,
                epoch >= 0,
        ;
        epoch * nex.person_proportion + offset
    }

    /// The person that the event brings, if it brings one.
    pub fn from(event: Event) -> (person: Option<Person>)
        ensures
            person == match event {
                Event::Person(p) => Some(p),
                _ => None,
            },
    {
        match event {
            Event::Person(p) => Some(p),
            _ => None,
        }
    }
}

impl Auction {
    /// An auction picked at random for the event `id`, counted from zero:
    /// one of the auctions in flight, or of those about to come.
    pub fn next_id(id: usize, rng: &mut SmallRng, nex: &NEXMarkConfig) -> (next: Id)
        requires
            nex.wf(),
            id >= nex.person_proportion,
            id + 1 + nex.auction_id_lead <= usize::MAX,
        ensures
            exists|draw: usize|
                draw < last_auction(id, *nex) - first_in_flight(id, *nex) + 1
                    + nex.auction_id_lead && next == drawn_auction(id, draw, *nex),
    {
        let max_auction = Self::last_id(id, nex);
        let min_auction = if max_auction < nex.in_flight_auctions {
            0
        } else {
            max_auction - nex.in_flight_auctions
        };
        let draw = draw_below(rng, max_auction - min_auction + 1 + nex.auction_id_lead);
        Self::drawn_id(id, draw, nex)
    }

    /// The auction that the draw `draw` picks at the event `id`.
    pub fn drawn_id(id: usize, draw: usize, nex: &NEXMarkConfig) -> (next: Id)
        requires
            nex.wf(),
            id >= nex.person_proportion,
            draw < last_auction(id, *nex) - first_in_flight(id, *nex) + 1 + nex.auction_id_lead,
            id + 1 + nex.auction_id_lead <= usize::MAX,
        ensures
            next == drawn_auction(id, draw, *nex),
    {
        let max_auction = Self::last_id(id, nex);
        let min_auction = if max_auction < nex.in_flight_auctions {
            0
        } else {
            max_auction - nex.in_flight_auctions
        };
        min_auction + draw
    }

    /// The number of the last auction up to the event `id`, counted from
    /// zero. While the people of the first round come in there is none.
    pub fn last_id(id: usize, nex: &NEXMarkConfig) -> (last: Id)
        requires
            nex.wf(),
            id >= nex.person_proportion,
        ensures
            last == last_auction(id, *nex),
            last <= id,
    {
        let mut epoch = id / nex.proportion_denominator;
        let mut offset = id % nex.proportion_denominator;
        let ghost place = offset;
        let ghost rounds = epoch;
        proof {
            lemma_fundamental_div_mod(id as int, nex.proportion_denominator as int);
            lemma_mul_is_commutative(rounds as int, nex.proportion_denominator as int);
        }
        if offset < nex.person_proportion {
            assert(epoch >= 1) by (nonlinear_arith)
                requires
                    id == epoch * nex.proportion_denominator + offset,
                    offset < id,
                    epoch >= 0,
            ;
            epoch -= 1;
            offset = nex.auction_proportion - 1;
        } else if nex.person_proportion + nex.auction_proportion <= offset {
            offset = nex.auction_proportion - 1;
        } else {
            offset -= nex.person_proportion;
        }
        assert(epoch * nex.auction_proportion + offset <= id) by (nonlinear_arith)
            requires
                id == rounds * nex.proportion_denominator + place,
                nex.person_proportion + nex.auction_proportion <= nex.proportion_denominator,
                nex.person_proportion >= 1,
                epoch <= rounds,
                epoch == rounds ==> offset <= place,
                offset < nex.auction_proportion,
                epoch >= 0,
        ;
        epoch * nex.auction_proportion + offset
    }

    /// The auction that the event brings, if it brings one.
    pub fn from(event: Event) -> (auction: Option<Auction>)
        ensures
            auction == match event {
                Event::Auction(a) => Some(a),
                _ => None,
            },
    {
        match event {
            Event::Auction(a) => Some(a),
            _ => None,
        }
    }
}

impl Bid {
    /// The bid that the event brings, if it brings one.
    pub fn from(event: Event) -> (bid: Option<Bid>)
        ensures
            bid == match event {
                Event::Bid(b) => Some(b),
                _ => None,
            },
    {
        match event {
            Event::Bid(b) => Some(b),
            _ => None,
        }
    }
}

} // verus!
