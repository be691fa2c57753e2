use rank_propagation::event::{Auction, Bid, Date, Event, Person};
use rank_propagation::queries::NexmarkTimer;

fn person(id: usize, at: usize) -> Person {
    Person {
        id,
        name: String::from("Ada Moss"),
        email_address: String::from("ada@moss.com"),
        credit_card: String::from("0001 0002 0003 0004"),
        city: String::from("Boise"),
        state: String::from("ID"),
        date_time: Date::new(at),
        extra: String::new(),
    }
}

fn auction(id: usize, at: usize) -> Auction {
    Auction {
        id,
        item_name: String::from("lamp"),
        description: String::from("a lamp"),
        initial_bid: 100,
        reserve: 150,
        date_time: Date::new(at),
        expires: Date::new(at + 1000),
        seller: 3,
        category: 10,
        extra: String::new(),
    }
}

fn bid(auction: usize, at: usize) -> Bid {
    Bid {
        auction,
        bidder: 9,
        price: 120,
        channel: String::from("web"),
        url: String::from("https://example.com"),
        date_time: Date::new(at),
        extra: String::new(),
    }
}

#[test]
fn a_date_holds_its_number() {
    assert_eq!(*Date::new(77).deref(), 77);
    assert_eq!(Date::new(77), Date(77));
    assert_eq!(Date::default(), Date(0));
}

#[test]
fn dates_add_and_subtract() {
    assert_eq!(Date::new(40).add(Date::new(2)), Date::new(42));
    assert_eq!(Date::new(40).sub(Date::new(2)), Date::new(38));
    assert_eq!(Date::new(5).sub(Date::new(5)), Date::new(0));
}

#[test]
fn dates_are_ordered_by_their_number() {
    assert!(Date::new(3) < Date::new(4));
    assert!(Date::new(4) >= Date::new(4));
}

#[test]
fn an_event_has_the_time_of_what_it_brings() {
    assert_eq!(Event::Person(person(1, 10)).time(), Date::new(10));
    assert_eq!(Event::Auction(auction(2, 20)).time(), Date::new(20));
    assert_eq!(Event::Bid(bid(3, 30)).time(), Date::new(30));
}

#[test]
fn an_event_has_the_id_of_what_it_brings() {
    assert_eq!(Event::Person(person(1, 10)).id(), 1);
    assert_eq!(Event::Auction(auction(2, 20)).id(), 2);
    assert_eq!(Event::Bid(bid(3, 30)).id(), 3);
}

#[test]
fn from_picks_the_kind_it_is_asked_for() {
    assert_eq!(Person::from(Event::Person(person(1, 10))), Some(person(1, 10)));
    assert_eq!(Person::from(Event::Bid(bid(3, 30))), None);
    assert_eq!(Auction::from(Event::Auction(auction(2, 20))), Some(auction(2, 20)));
    assert_eq!(Auction::from(Event::Person(person(1, 10))), None);
    assert_eq!(Bid::from(Event::Bid(bid(3, 30))), Some(bid(3, 30)));
    assert_eq!(Bid::from(Event::Auction(auction(2, 20))), None);
}

#[test]
fn the_timer_divides_by_its_dilation() {
    let timer = NexmarkTimer { time_dilation: 10 };
    assert_eq!(timer.from_nexmark_time(Date::new(0)), 0);
    assert_eq!(timer.from_nexmark_time(Date::new(99)), 9);
    assert_eq!(timer.from_nexmark_time(Date::new(100)), 10);
    let plain = NexmarkTimer { time_dilation: 1 };
    assert_eq!(plain.from_nexmark_time(Date::new(12345)), 12345);
}
