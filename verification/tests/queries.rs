use rank_propagation::config::NEXMarkConfig;
use rank_propagation::event::{Auction, Bid, Date, Person};
use rank_propagation::queries::q2::AUCTION_SKIP;
use rank_propagation::queries::q3::{Q3Event, Q3State, CATEGORY};
use rank_propagation::queries::q5::{Q5Error, Q5Event, Q5Final, Q5State};
use rank_propagation::queries::{q2, q3, q5, NexmarkTimer};
use rand::rngs::SmallRng;
use rand::SeedableRng;
use timely::progress::frontier::Antichain;

fn seller(id: usize, name: &str, city: &str, state: &str) -> Person {
    Person {
        id,
        name: String::from(name),
        email_address: String::from("someone@example.com"),
        credit_card: String::from("0001 0002 0003 0004"),
        city: String::from(city),
        state: String::from(state),
        date_time: Date::new(0),
        extra: String::new(),
    }
}

fn item(id: usize, seller: usize, category: usize) -> Auction {
    Auction {
        id,
        item_name: String::from("lamp"),
        description: String::from("a lamp"),
        initial_bid: 100,
        reserve: 150,
        date_time: Date::new(0),
        expires: Date::new(1000),
        seller,
        category,
        extra: String::new(),
    }
}

fn offer(auction: usize, price: usize, at: usize) -> Bid {
    Bid {
        auction,
        bidder: 9,
        price,
        channel: String::from("web"),
        url: String::from("https://example.com"),
        date_time: Date::new(at),
        extra: String::new(),
    }
}

fn found(at: u128, name: &str, city: &str, state: &str, auction: usize) -> (u128, String, String, String, usize) {
    (at, String::from(name), String::from(city), String::from(state), auction)
}

fn layout() -> NEXMarkConfig {
    NEXMarkConfig {
        person_proportion: 1,
        auction_proportion: 3,
        proportion_denominator: 50,
        active_people: 1000,
        person_id_lead: 10,
        in_flight_auctions: 100,
        auction_id_lead: 10,
    }
}

fn wide_layout() -> NEXMarkConfig {
    NEXMarkConfig {
        person_proportion: 3,
        auction_proportion: 2,
        proportion_denominator: 10,
        active_people: 4,
        person_id_lead: 2,
        in_flight_auctions: 3,
        auction_id_lead: 1,
    }
}

#[test]
fn q2_selects_every_123rd_auction() {
    assert_eq!(AUCTION_SKIP, 123);
    assert_eq!(q2(&offer(0, 7, 1)), Some((0, 7)));
    assert_eq!(q2(&offer(123, 50, 1)), Some((123, 50)));
    assert_eq!(q2(&offer(246, 51, 1)), Some((246, 51)));
    assert_eq!(q2(&offer(1, 7, 1)), None);
    assert_eq!(q2(&offer(122, 7, 1)), None);
    assert_eq!(q2(&offer(124, 7, 1)), None);
}

#[test]
fn q3_joins_an_auction_to_its_seller() {
    let mut state = Q3State::new();
    assert!(q3(&mut state, Q3Event::Person(5, seller(3, "Ada Moss", "Boise", "ID"))).is_empty());
    let rows = q3(&mut state, Q3Event::Auction(9, item(40, 3, CATEGORY)));
    assert_eq!(rows, vec![found(9, "Ada Moss", "Boise", "ID", 40)]);
}

#[test]
fn q3_joins_a_seller_to_the_auctions_that_came_before() {
    let mut state = Q3State::new();
    assert!(q3(&mut state, Q3Event::Auction(9, item(40, 3, 10))).is_empty());
    assert!(q3(&mut state, Q3Event::Auction(2, item(41, 3, 10))).is_empty());
    assert!(q3(&mut state, Q3Event::Auction(4, item(42, 8, 10))).is_empty());
    let rows = q3(&mut state, Q3Event::Person(5, seller(3, "Ada Moss", "Salem", "OR")));
    assert_eq!(
        rows,
        vec![found(9, "Ada Moss", "Salem", "OR", 40), found(5, "Ada Moss", "Salem", "OR", 41)]
    );
    let rows = q3(&mut state, Q3Event::Auction(1, item(43, 3, 10)));
    assert_eq!(rows, vec![found(5, "Ada Moss", "Salem", "OR", 43)]);
}

#[test]
fn q3_passes_over_other_categories_and_states() {
    let mut state = Q3State::new();
    assert!(q3(&mut state, Q3Event::Auction(1, item(40, 3, 11))).is_empty());
    assert!(q3(&mut state, Q3Event::Person(2, seller(3, "Ada Moss", "Reno", "NV"))).is_empty());
    assert!(q3(&mut state, Q3Event::Auction(3, item(41, 3, 10))).is_empty());
    let rows = q3(&mut state, Q3Event::Person(4, seller(3, "Ada Moss", "Fresno", "CA")));
    assert_eq!(rows, vec![found(4, "Ada Moss", "Fresno", "CA", 41)]);
}

#[test]
fn q3_keeps_the_person_that_came_last() {
    let mut state = Q3State::new();
    q3(&mut state, Q3Event::Person(2, seller(3, "Ada Moss", "Boise", "ID")));
    q3(&mut state, Q3Event::Person(6, seller(3, "Ada Stone", "Salem", "OR")));
    let rows = q3(&mut state, Q3Event::Auction(4, item(41, 3, 10)));
    assert_eq!(rows, vec![found(6, "Ada Stone", "Salem", "OR", 41)]);
}

fn hot_items(slices: usize, slide: usize) -> Q5State {
    Q5State::new(NexmarkTimer { time_dilation: 1 }, slices, slide)
}

#[test]
fn q5_counts_a_bid_from_the_end_of_its_slide() {
    let mut state = hot_items(2, 10);
    assert_eq!(q5(&mut state, Q5Event::Bid(100, offer(7, 1, 3))), Ok(None));
    assert_eq!(q5(&mut state, Q5Event::Bid(101, offer(7, 1, 9))), Ok(None));
    assert_eq!(q5(&mut state, Q5Event::Bid(102, offer(8, 1, 10))), Ok(None));
    assert_eq!(q5(&mut state, Q5Event::Closed(0)), Ok(None));
    assert_eq!(q5(&mut state, Q5Event::Closed(10)), Ok(Some((101, 7, 2))));
    assert_eq!(q5(&mut state, Q5Event::Closed(20)), Ok(Some((101, 7, 2))));
    assert_eq!(q5(&mut state, Q5Event::Closed(30)), Ok(Some((102, 8, 1))));
    assert_eq!(q5(&mut state, Q5Event::Closed(40)), Ok(None));
}

#[test]
fn q5_prefers_the_greater_auction_among_equals() {
    let mut state = hot_items(1, 10);
    q5(&mut state, Q5Event::Bid(5, offer(3, 1, 0))).unwrap();
    q5(&mut state, Q5Event::Bid(9, offer(8, 1, 0))).unwrap();
    q5(&mut state, Q5Event::Bid(7, offer(5, 1, 0))).unwrap();
    assert_eq!(q5(&mut state, Q5Event::Closed(10)), Ok(Some((9, 8, 1))));
    q5(&mut state, Q5Event::Bid(1, offer(3, 1, 10))).unwrap();
    assert_eq!(q5(&mut state, Q5Event::Closed(20)), Ok(Some((5, 3, 1))));
}

#[test]
fn q5_keeps_the_latest_stamp_of_an_auction() {
    let mut state = hot_items(3, 10);
    q5(&mut state, Q5Event::Bid(50, offer(3, 1, 0))).unwrap();
    q5(&mut state, Q5Event::Bid(20, offer(3, 1, 1))).unwrap();
    assert_eq!(q5(&mut state, Q5Event::Closed(10)), Ok(Some((50, 3, 2))));
    q5(&mut state, Q5Event::Bid(70, offer(3, 1, 12))).unwrap();
    assert_eq!(q5(&mut state, Q5Event::Closed(20)), Ok(Some((70, 3, 3))));
    assert_eq!(q5(&mut state, Q5Event::Closed(40)), Ok(Some((70, 3, 1))));
}

#[test]
fn q5_divides_the_dates_by_the_dilation() {
    let mut state = Q5State::new(NexmarkTimer { time_dilation: 5 }, 2, 10);
    q5(&mut state, Q5Event::Bid(1, offer(3, 1, 17))).unwrap();
    assert_eq!(q5(&mut state, Q5Event::Closed(20)), Ok(None));
    assert_eq!(q5(&mut state, Q5Event::Closed(4)), Ok(Some((1, 3, 1))));
    assert_eq!(q5(&mut state, Q5Event::Closed(24)), Ok(None));
}

#[test]
fn q5_refuses_a_slide_that_ends_beyond_the_greatest_date() {
    let mut state = hot_items(1, 10);
    assert_eq!(q5(&mut state, Q5Event::Bid(1, offer(3, 1, usize::MAX))), Err(Q5Error::Overflow));
    let mut state = hot_items(1, 1);
    assert_eq!(q5(&mut state, Q5Event::Bid(1, offer(3, 1, usize::MAX))), Err(Q5Error::Overflow));
    assert_eq!(q5(&mut state, Q5Event::Bid(1, offer(3, 1, usize::MAX - 1))), Ok(None));
}

#[test]
fn q5_refuses_a_window_that_ends_beyond_the_greatest_timestamp() {
    let mut state = hot_items(2, 1);
    q5(&mut state, Q5Event::Bid(1, offer(3, 1, usize::MAX - 1))).unwrap();
    assert_eq!(q5(&mut state, Q5Event::Closed(usize::MAX)), Err(Q5Error::Overflow));
}

#[test]
fn q5_lists_the_closed_timestamps_in_order() {
    let mut state = hot_items(2, 10);
    q5(&mut state, Q5Event::Bid(1, offer(3, 1, 25))).unwrap();
    q5(&mut state, Q5Event::Bid(1, offer(3, 1, 5))).unwrap();
    q5(&mut state, Q5Event::Bid(1, offer(4, 1, 7))).unwrap();
    q5(&mut state, Q5Event::Bid(1, offer(3, 1, 15))).unwrap();
    assert_eq!(state.closed_times(&Antichain::from_elem(0)), Vec::<usize>::new());
    assert_eq!(state.closed_times(&Antichain::from_elem(10)), Vec::<usize>::new());
    assert_eq!(state.closed_times(&Antichain::from_elem(21)), vec![10, 20]);
    q5(&mut state, Q5Event::Closed(10)).unwrap();
    assert_eq!(state.closed_times(&Antichain::from_elem(31)), vec![20, 30]);
    q5(&mut state, Q5Event::Closed(20)).unwrap();
    assert_eq!(state.closed_times(&Antichain::new()), vec![30, 40]);
}

#[test]
fn q5_final_keeps_the_tally_with_the_most_bids() {
    let mut stage = Q5Final::new();
    stage.offer(10, (5, 3, 2));
    stage.offer(10, (6, 4, 2));
    stage.offer(10, (7, 5, 4));
    stage.offer(10, (8, 6, 3));
    stage.offer(20, (9, 1, 1));
    assert_eq!(stage.closed_times(&Antichain::from_elem(20)), vec![10]);
    assert_eq!(stage.closed_times(&Antichain::from_elem(21)), vec![10, 20]);
    assert_eq!(stage.close(10), Some((7, 5, 4)));
    assert_eq!(stage.close(10), None);
    assert_eq!(stage.closed_times(&Antichain::from_elem(21)), vec![20]);
    assert_eq!(stage.close(20), Some((9, 1, 1)));
}

#[test]
fn q5_final_keeps_the_first_of_equals() {
    let mut stage = Q5Final::new();
    stage.offer(10, (5, 3, 2));
    stage.offer(10, (6, 4, 2));
    assert_eq!(stage.close(10), Some((5, 3, 2)));
}

#[test]
fn the_last_person_is_the_first_event_of_the_round() {
    let nex = layout();
    assert_eq!(Person::last_id(0, &nex), 0);
    assert_eq!(Person::last_id(1, &nex), 0);
    assert_eq!(Person::last_id(49, &nex), 0);
    assert_eq!(Person::last_id(50, &nex), 1);
    assert_eq!(Person::last_id(149, &nex), 2);
    let wide = wide_layout();
    assert_eq!(Person::last_id(1, &wide), 1);
    assert_eq!(Person::last_id(2, &wide), 2);
    assert_eq!(Person::last_id(7, &wide), 2);
    assert_eq!(Person::last_id(11, &wide), 4);
}

#[test]
fn the_last_auction_follows_the_people_of_the_round() {
    let nex = layout();
    assert_eq!(Auction::last_id(1, &nex), 0);
    assert_eq!(Auction::last_id(2, &nex), 1);
    assert_eq!(Auction::last_id(3, &nex), 2);
    assert_eq!(Auction::last_id(4, &nex), 2);
    assert_eq!(Auction::last_id(49, &nex), 2);
    assert_eq!(Auction::last_id(50, &nex), 2);
    assert_eq!(Auction::last_id(51, &nex), 3);
    assert_eq!(Auction::last_id(53, &nex), 5);
    assert_eq!(Auction::last_id(99, &nex), 5);
}

#[test]
fn a_draw_picks_among_the_active_people_and_those_to_come() {
    let nex = wide_layout();
    assert_eq!(Person::drawn_id(1, 0, &nex), 0);
    assert_eq!(Person::drawn_id(1, 3, &nex), 3);
    assert_eq!(Person::drawn_id(25, 0, &nex), 5);
    assert_eq!(Person::drawn_id(25, 5, &nex), 10);
    let few = layout();
    assert_eq!(Person::drawn_id(120, 0, &few), 0);
    assert_eq!(Person::drawn_id(120, 12, &few), 12);
}

#[test]
fn a_draw_picks_among_the_auctions_in_flight_and_those_to_come() {
    let nex = wide_layout();
    assert_eq!(Auction::drawn_id(3, 0, &nex), 0);
    assert_eq!(Auction::drawn_id(3, 1, &nex), 1);
    assert_eq!(Auction::drawn_id(34, 0, &nex), 4);
    assert_eq!(Auction::drawn_id(34, 4, &nex), 8);
}

#[test]
fn a_random_person_is_active_or_about_to_come() {
    let nex = wide_layout();
    let mut rng = SmallRng::seed_from_u64(7);
    let mut seen = [false; 6];
    for _ in 0..400 {
        let id = Person::next_id(25, &mut rng, &nex);
        assert!((5..11).contains(&id));
        seen[id - 5] = true;
    }
    assert!(seen.iter().all(|s| *s));
}

#[test]
fn a_random_auction_is_in_flight_or_about_to_come() {
    let nex = wide_layout();
    let mut rng = SmallRng::seed_from_u64(7);
    let mut seen = [false; 5];
    for _ in 0..400 {
        let id = Auction::next_id(34, &mut rng, &nex);
        assert!((4..9).contains(&id));
        seen[id - 4] = true;
    }
    assert!(seen.iter().all(|s| *s));
}
