//! The fifth query: which auction has the most bids, over a window of time
//! that slides along. A bid counts from the end of the slide it falls in,
//! for the length of the window.

use crate::event::{Bid, Id};
use crate::frontier::{antichain_elements, antichain_less_equal, reachable};
use crate::queries::{later, NexmarkTimer, Stamp};
use std::collections::HashMap;
use timely::progress::frontier::Antichain;
use vstd::prelude::*;
use vstd::std_specs::iter::IteratorSpec;

verus! {

broadcast use vstd::std_specs::hash::group_hash_axioms;

/// A bid as the query keeps it: the stamp of the bid and its auction.
pub type Counted = (Stamp, Id);

/// The bids of an auction added up: the latest stamp among them, the
/// auction, and how many they are.
pub type Tally = (Stamp, Id, usize);

/// Why the query cannot go on.
#[derive(Clone, Copy, Debug, PartialEq, Eq, Structural)]
pub enum Q5Error {
    /// A timestamp or a count does not fit in the machine's integers.
    Overflow,
    /// A bid is to stop counting that never counted.
    MissingEntry,
}

/// What comes in for the query.
pub enum Q5Event {
    /// A bid, with the stamp of whoever made it.
    Bid(Stamp, Bid),
    /// The timestamp is closed: no bid can come for it any more.
    Closed(usize),
}

/// What the query keeps.
pub struct Q5State {
    timer: NexmarkTimer,
    window_slide_ns: usize,
    window: usize,
    additions: HashMap<usize, Vec<Counted>>,
    deletions: HashMap<usize, Vec<Counted>>,
    accumulations: HashMap<Id, (Stamp, usize)>,
}

/// What the query keeps, as mathematical values.
pub struct Q5View {
    /// By how much the timestamps of the computation run slower than the
    /// dates of the events.
    pub time_dilation: usize,
    /// The length of a slide, in the unit of the dates.
    pub window_slide_ns: usize,
    /// The length of the window, in timestamps.
    pub window: usize,
    /// The bids that start to count, by the timestamp at which they do.
    pub additions: Map<usize, Seq<Counted>>,
    /// The bids that stop counting, by the timestamp at which they do.
    pub deletions: Map<usize, Seq<Counted>>,
    /// For each auction with bids that count: the latest stamp among the
    /// bids that have counted, and how many count.
    pub counts: Map<Id, (Stamp, usize)>,
}

/// The end of the slide that `date` falls in.
pub open spec fn window_end(date: usize, slide: usize) -> int {
    (date / slide + 1) * slide
}

/// The counts after one more bid counts, and whether its count fits.
pub open spec fn count_one(counts: Map<Id, (Stamp, usize)>, bid: Counted) -> (
    Map<Id, (Stamp, usize)>,
    bool,
) {
    let (held, count) = if counts.contains_key(bid.1) {
        counts[bid.1]
    } else {
        (bid.0, 0usize)
    };
    if count == usize::MAX {
        (counts, false)
    } else {
        (counts.insert(bid.1, (later(bid.0, held), (count + 1) as usize)), true)
    }
}

/// The counts after `bids` count, one after the other, and whether all
/// counts fit. The first count that does not fit ends it.
pub open spec fn count_all(counts: Map<Id, (Stamp, usize)>, bids: Seq<Counted>) -> (
    Map<Id, (Stamp, usize)>,
    bool,
)
    decreases bids.len(),
{
    if bids.len() == 0 {
        (counts, true)
    } else {
        let (reached, fits) = count_all(counts, bids.drop_last());
        if fits {
            count_one(reached, bids.last())
        } else {
            (reached, false)
        }
    }
}

/// The counts after a bid on `auction` has stopped counting, and whether
/// it did count. An auction without bids that count is forgotten.
pub open spec fn discount_one(counts: Map<Id, (Stamp, usize)>, auction: Id) -> (
    Map<Id, (Stamp, usize)>,
    bool,
) {
    if !counts.contains_key(auction) {
        (counts, false)
    } else if counts[auction].1 <= 1 {
        (counts.remove(auction), true)
    } else {
        (counts.insert(auction, (counts[auction].0, (counts[auction].1 - 1) as usize)), true)
    }
}

/// The counts after `bids` have stopped counting, one after the other, and
/// whether all of them did count. The first that did not ends it.
pub open spec fn discount_all(counts: Map<Id, (Stamp, usize)>, bids: Seq<Counted>) -> (
    Map<Id, (Stamp, usize)>,
    bool,
)
    decreases bids.len(),
{
    if bids.len() == 0 {
        (counts, true)
    } else {
        let (reached, known) = discount_all(counts, bids.drop_last());
        if known {
            discount_one(reached, bids.last().1)
        } else {
            (reached, false)
        }
    }
}

/// Whether `count` bids on `auction` are at least as many as `other_count`
/// on `other`; among auctions with equally many bids the one with the
/// greater number is ahead.
pub open spec fn outdoes(count: usize, auction: Id, other_count: usize, other: Id) -> bool {
    other_count < count || (other_count == count && other <= auction)
}

/// Whether `auction` is the one with the most bids that count.
pub open spec fn is_hottest(counts: Map<Id, (Stamp, usize)>, auction: Id) -> bool {
    &&& counts.contains_key(auction)
    &&& forall|other: Id| #[trigger]
        counts.contains_key(other) ==> outdoes(counts[auction].1, auction, counts[other].1, other)
}

/// The tally of the auction with the most bids that count, if any bid
/// counts.
pub open spec fn hottest(counts: Map<Id, (Stamp, usize)>) -> Option<Tally> {
    if exists|auction: Id| is_hottest(counts, auction) {
        let auction = choose|auction: Id| is_hottest(counts, auction);
        Some((counts[auction].0, auction, counts[auction].1))
    } else {
        None
    }
}

/// Only one auction has the most bids.
pub proof fn lemma_hottest_is_one(counts: Map<Id, (Stamp, usize)>, auction: Id)
    requires
        is_hottest(counts, auction),
    ensures
        hottest(counts) == Some((counts[auction].0, auction, counts[auction].1)),
{
    let chosen = choose|auction: Id| is_hottest(counts, auction);
    assert(counts.contains_key(chosen));
    assert(counts.contains_key(auction));
    assert(outdoes(counts[auction].1, auction, counts[chosen].1, chosen));
    assert(outdoes(counts[chosen].1, chosen, counts[auction].1, auction));
}

impl Q5View {
    /// The invariant of the query: time can be divided as it asks, and an
    /// auction that is kept has a bid that counts.
    pub open spec fn wf(self) -> bool {
        &&& self.time_dilation > 0
        &&& self.window_slide_ns > 0
        &&& forall|auction: Id| #[trigger]
            self.counts.contains_key(auction) ==> self.counts[auction].1 >= 1
    }

    /// The bids that start to count at `time`.
    pub open spec fn additions_at(self, time: usize) -> Seq<Counted> {
        if self.additions.contains_key(time) {
            self.additions[time]
        } else {
            Seq::empty()
        }
    }

    /// A bid comes in: it will start to count at the end of its slide.
    pub open spec fn bid(self, stamp: Stamp, bid: Bid) -> (Q5View, Result<Option<Tally>, Q5Error>) {
        let end = window_end(bid.date_time.0, self.window_slide_ns);
        if end > usize::MAX {
            (self, Err(Q5Error::Overflow))
        } else {
            let time = (end / self.time_dilation as int) as usize;
            (
                Q5View {
                    additions: self.additions.insert(
                        time,
                        self.additions_at(time).push((stamp, bid.auction)),
                    ),
                    ..self
                },
                Ok(None),
            )
        }
    }

    /// The bids that start to count at `time` are counted, and set down to
    /// stop counting a window later.
    pub open spec fn added(self, time: usize) -> (Q5View, Result<(), Q5Error>) {
        if !self.additions.contains_key(time) {
            (self, Ok(()))
        } else {
            let bids = self.additions[time];
            let (counts, fits) = count_all(self.counts, bids);
            let taken = Q5View { additions: self.additions.remove(time), counts, ..self };
            if !fits || time + self.window > usize::MAX {
                (taken, Err(Q5Error::Overflow))
            } else {
                (
                    Q5View {
                        deletions: self.deletions.insert((time + self.window) as usize, bids),
                        ..taken
                    },
                    Ok(()),
                )
            }
        }
    }

    /// The bids that stop counting at `time` are taken off the counts.
    pub open spec fn deleted(self, time: usize) -> (Q5View, Result<(), Q5Error>) {
        if !self.deletions.contains_key(time) {
            (self, Ok(()))
        } else {
            let (counts, known) = discount_all(self.counts, self.deletions[time]);
            let taken = Q5View { deletions: self.deletions.remove(time), counts, ..self };
            if known {
                (taken, Ok(()))
            } else {
                (taken, Err(Q5Error::MissingEntry))
            }
        }
    }

    /// A timestamp is closed: the bids that start to count at it are
    /// counted, those that stop counting at it are taken off, and the tally
    /// of the auction with the most bids is given.
    pub open spec fn closed(self, time: usize) -> (Q5View, Result<Option<Tally>, Q5Error>) {
        let (counted, added) = self.added(time);
        match added {
            Err(e) => (counted, Err(e)),
            Ok(()) => {
                let (left, deleted) = counted.deleted(time);
                match deleted {
                    Err(e) => (left, Err(e)),
                    Ok(()) => (left, Ok(hottest(left.counts))),
                }
            },
        }
    }

    /// What the query does with an event: what it keeps afterwards, and
    /// the tally it gives, if it gives one, or why it cannot go on.
    pub open spec fn step(self, event: Q5Event) -> (Q5View, Result<Option<Tally>, Q5Error>) {
        match event {
            Q5Event::Bid(stamp, bid) => self.bid(stamp, bid),
            Q5Event::Closed(time) => self.closed(time),
        }
    }
}

/// The lists of a map as mathematical values.
pub open spec fn lists(map: Map<usize, Vec<Counted>>) -> Map<usize, Seq<Counted>> {
    map.map_values(|list: Vec<Counted>| list@)
}

impl View for Q5State {
    type V = Q5View;

    closed spec fn view(&self) -> Q5View {
        Q5View {
            time_dilation: self.timer.time_dilation,
            window_slide_ns: self.window_slide_ns,
            window: self.window,
            additions: lists(self.additions@),
            deletions: lists(self.deletions@),
            counts: self.accumulations@,
        }
    }
}

/// Counts `bids`, one after the other, and tells whether all counts fit.
fn count(accumulations: &mut HashMap<Id, (Stamp, usize)>, bids: &Vec<Counted>) -> (fits: bool)
    requires
        forall|auction: Id| #[trigger]
            old(accumulations)@.contains_key(auction) ==> old(accumulations)@[auction].1 >= 1,
    ensures
        (final(accumulations)@, fits) == count_all(old(accumulations)@, bids@),
        forall|auction: Id| #[trigger]
            final(accumulations)@.contains_key(auction) ==> final(accumulations)@[auction].1 >= 1,
{
    let n = bids.len();
    let mut i: usize = 0;
    assert(bids@.take(0) =~= Seq::<Counted>::empty());
    while i < n
        invariant
            n == bids@.len(),
            i <= n,
            (accumulations@, true) == count_all(old(accumulations)@, bids@.take(i as int)),
            forall|auction: Id| #[trigger]
                accumulations@.contains_key(auction) ==> accumulations@[auction].1 >= 1,
        decreases n - i,
    {
        let (stamp, auction) = bids[i];
        let (held, tally) = match accumulations.get(&auction) {
            Some(entry) => *entry,
            None => (stamp, 0),
        };
        proof {
            assert(bids@.take(i + 1).drop_last() =~= bids@.take(i as int));
        }
        if tally == usize::MAX {
            proof {
                lemma_count_all_stops(old(accumulations)@, bids@, i + 1);
            }
            return false;
        }
        let latest = if stamp < held {
            held
        } else {
            stamp
        };
        accumulations.insert(auction, (latest, tally + 1));
        i += 1;
    }
    assert(bids@.take(n as int) =~= bids@);
    true
}

/// Once a count does not fit, the bids behind it are not counted.
proof fn lemma_count_all_stops(counts: Map<Id, (Stamp, usize)>, bids: Seq<Counted>, count: int)
    requires
        0 <= count <= bids.len(),
        !count_all(counts, bids.take(count)).1,
    ensures
        count_all(counts, bids) == count_all(counts, bids.take(count)),
    decreases bids.len() - count,
{
    if count == bids.len() {
        assert(bids.take(count) =~= bids);
    } else {
        assert(bids.take(count + 1).drop_last() =~= bids.take(count));
        lemma_count_all_stops(counts, bids, count + 1);
    }
}

/// Takes `bids` off the counts, one after the other, and tells whether all
/// of them did count.
fn discount(accumulations: &mut HashMap<Id, (Stamp, usize)>, bids: &Vec<Counted>) -> (known: bool)
    requires
        forall|auction: Id| #[trigger]
            old(accumulations)@.contains_key(auction) ==> old(accumulations)@[auction].1 >= 1,
    ensures
        (final(accumulations)@, known) == discount_all(old(accumulations)@, bids@),
        forall|auction: Id| #[trigger]
            final(accumulations)@.contains_key(auction) ==> final(accumulations)@[auction].1 >= 1,
{
    let n = bids.len();
    let mut i: usize = 0;
    assert(bids@.take(0) =~= Seq::<Counted>::empty());
    while i < n
        invariant
            n == bids@.len(),
            i <= n,
            (accumulations@, true) == discount_all(old(accumulations)@, bids@.take(i as int)),
            forall|auction: Id| #[trigger]
                accumulations@.contains_key(auction) ==> accumulations@[auction].1 >= 1,
        decreases n - i,
    {
        let auction = bids[i].1;
        proof {
            assert(bids@.take(i + 1).drop_last() =~= bids@.take(i as int));
        }
        let entry = match accumulations.get(&auction) {
            Some(entry) => *entry,
            None => {
                proof {
                    lemma_discount_all_stops(old(accumulations)@, bids@, i + 1);
                }
                return false;
            },
        };
        if entry.1 - 1 == 0 {
            accumulations.remove(&auction);
        } else {
            accumulations.insert(auction, (entry.0, entry.1 - 1));
        }
        i += 1;
    }
    assert(bids@.take(n as int) =~= bids@);
    true
}

/// Once a bid did not count, the bids behind it are not taken off.
proof fn lemma_discount_all_stops(counts: Map<Id, (Stamp, usize)>, bids: Seq<Counted>, count: int)
    requires
        0 <= count <= bids.len(),
        !discount_all(counts, bids.take(count)).1,
    ensures
        discount_all(counts, bids) == discount_all(counts, bids.take(count)),
    decreases bids.len() - count,
{
    if count == bids.len() {
        assert(bids.take(count) =~= bids);
    } else {
        assert(bids.take(count + 1).drop_last() =~= bids.take(count));
        lemma_discount_all_stops(counts, bids, count + 1);
    }
}

/// Finds the auction with the most bids that count.
fn find_hottest(accumulations: &HashMap<Id, (Stamp, usize)>) -> (best: Option<Tally>)
    ensures
        best == hottest(accumulations@),
{
    let mut best: Option<Tally> = None;
    for entry in it: accumulations.iter()
        invariant
            best is None ==> it.index() == 0,
            best matches Some((stamp, auction, count)) ==> {
                &&& accumulations@.contains_key(auction)
                &&& accumulations@[auction] == (stamp, count)
                &&& forall|i: int|
                    0 <= i < it.index() ==> outdoes(
                        count,
                        auction,
                        (#[trigger] it.seq()[i]).1.1,
                        *it.seq()[i].0,
                    )
            },
    {
        let (auction, tally) = entry;
        let better = match best {
            None => true,
            Some((_, held, count)) => count < tally.1 || (count == tally.1 && held <= *auction),
        };
        if better {
            best = Some((tally.0, *auction, tally.1));
        }
    }
    proof {
        match best {
            Some((stamp, auction, count)) => {
                assert(is_hottest(accumulations@, auction));
                lemma_hottest_is_one(accumulations@, auction);
            },
            None => {
                assert(accumulations@.dom().len() == 0);
                accumulations@.dom().lemma_len0_is_empty();
                assert forall|auction: Id| !is_hottest(accumulations@, auction) by {
                    assert(!accumulations@.dom().contains(auction));
                }
            },
        }
    }
    best
}

impl Q5State {
    /// The invariant of the query.
    pub open spec fn wf(&self) -> bool {
        self@.wf()
    }

    /// A query that keeps nothing yet, over a window of
    /// `window_slice_count` slides of `window_slide_ns` each.
    pub fn new(timer: NexmarkTimer, window_slice_count: usize, window_slide_ns: usize) -> (state:
        Q5State)
        requires
            timer.time_dilation > 0,
            window_slide_ns > 0,
            window_slice_count * window_slide_ns <= usize::MAX,
        ensures
            state.wf(),
            state@ == (Q5View {
                time_dilation: timer.time_dilation,
                window_slide_ns,
                window: (window_slice_count * window_slide_ns) as usize,
                additions: Map::empty(),
                deletions: Map::empty(),
                counts: Map::empty(),
            }),
    {
        let state = Q5State {
            timer,
            window_slide_ns,
            window: window_slice_count * window_slide_ns,
            additions: HashMap::new(),
            deletions: HashMap::new(),
            accumulations: HashMap::new(),
        };
        assert(state@.additions =~= Map::empty());
        assert(state@.deletions =~= Map::empty());
        state
    }
}

/// Takes in an event: a bid is set down to count from the end of its
/// slide on; a closed timestamp brings the counts up to date and gives the
/// auction with the most bids.
pub fn q5(state: &mut Q5State, event: Q5Event) -> (r: Result<Option<Tally>, Q5Error>)
    requires
        old(state).wf(),
    ensures
        final(state).wf(),
        (final(state)@, r) == old(state)@.step(event),
{
    match event {
        Q5Event::Bid(stamp, bid) => {
            let slide = state.window_slide_ns;
            let before = bid.date_time.0 / slide;
            if before == usize::MAX {
                assert(window_end(bid.date_time.0, slide) > usize::MAX) by (nonlinear_arith)
                    requires
                        window_end(bid.date_time.0, slide) == (before + 1) * slide,
                        before == usize::MAX,
                        slide >= 1,
                ;
                return Err(Q5Error::Overflow);
            }
            let slides = before + 1;
            assert(window_end(bid.date_time.0, slide) == slides * slide);
            let end = match slides.checked_mul(slide) {
                Some(end) => end,
                None => {
                    return Err(Q5Error::Overflow);
                },
            };
            let time = state.timer.from_nexmark_time(crate::event::Date::new(end));
            let mut list = match state.additions.remove(&time) {
                Some(list) => list,
                None => Vec::new(),
            };
            list.push((stamp, bid.auction));
            state.additions.insert(time, list);
            proof {
                assert(state@.additions =~= old(state)@.bid(stamp, bid).0.additions);
            }
            Ok(None)
        },
        Q5Event::Closed(time) => {
            match state.additions.remove(&time) {
                Some(list) => {
                    proof {
                        assert(state@.additions =~= old(state)@.additions.remove(time));
                    }
                    assert(state.accumulations@ == old(state)@.counts);
                    let fits = count(&mut state.accumulations, &list);
                    if !fits || time > usize::MAX - state.window {
                        return Err(Q5Error::Overflow);
                    }
                    let ghost before = state@.deletions;
                    state.deletions.insert(time + state.window, list);
                    proof {
                        assert(state@.deletions =~= before.insert(
                            (time + state.window) as usize,
                            list@,
                        ));
                    }
                },
                None => {
                    proof {
                        assert(state@.additions =~= old(state)@.additions);
                    }
                },
            }
            let ghost counted = state@;
            match state.deletions.remove(&time) {
                Some(list) => {
                    proof {
                        assert(state@.deletions =~= counted.deletions.remove(time));
                    }
                    assert(state.accumulations@ == counted.counts);
                    let known = discount(&mut state.accumulations, &list);
                    if !known {
                        return Err(Q5Error::MissingEntry);
                    }
                },
                None => {
                    proof {
                        assert(state@.deletions =~= counted.deletions);
                    }
                },
            }
            Ok(find_hottest(&state.accumulations))
        },
    }
}

/// The timestamps of `times` stand in strictly ascending order.
pub open spec fn ascending(times: Seq<usize>) -> bool {
    forall|i: int, j: int| 0 <= i < j < times.len() ==> times[i] < times[j]
}

/// Puts `time` in its place among `times`, unless it is there.
fn insert_sorted(times: &mut Vec<usize>, time: usize)
    requires
        ascending(old(times)@),
    ensures
        ascending(final(times)@),
        forall|t: usize|
            #![trigger final(times)@.contains(t)]
            #![trigger old(times)@.contains(t)]
            final(times)@.contains(t) <==> old(times)@.contains(t) || t == time,
{
    let mut at = times.len();
    while at > 0 && times[at - 1] > time
        invariant
            at <= times@.len(),
            times@ == old(times)@,
            forall|j: int| at <= j < times@.len() ==> times@[j] > time,
        decreases at,
    {
        at -= 1;
    }
    if at > 0 && times[at - 1] == time {
        assert(times@.contains(time));
    } else {
        times.insert(at, time);
        assert(times@[at as int] == time);
        assert forall|t: usize| times@.contains(t) <==> old(times)@.contains(t) || t == time by {
            if old(times)@.contains(t) {
                let i = choose|i: int| 0 <= i < old(times)@.len() && old(times)@[i] == t;
                if i < at {
                    assert(times@[i] == t);
                } else {
                    assert(times@[i + 1] == t);
                }
            }
            if times@.contains(t) && t != time {
                let i = choose|i: int| 0 <= i < times@.len() && times@[i] == t;
                if i < at {
                    assert(old(times)@[i] == t);
                } else {
                    assert(old(times)@[i - 1] == t);
                }
            }
        }
    }
}

/// Adds to `times` the keys of `map` that `frontier` has passed.
fn add_closed_keys<V>(map: &HashMap<usize, V>, frontier: &Antichain<usize>, times: &mut Vec<usize>)
    requires
        ascending(old(times)@),
    ensures
        ascending(final(times)@),
        forall|t: usize|
            #![trigger final(times)@.contains(t)]
            #![trigger old(times)@.contains(t)]
            #![trigger map@.contains_key(t)]
            final(times)@.contains(t) <==> old(times)@.contains(t) || (map@.contains_key(t)
                && !reachable(antichain_elements(*frontier), t)),
{
    let ghost entries = vstd::std_specs::hash::spec_hash_map_iter(map).remaining();
    for entry in it: map.iter()
        invariant
            it.seq() == entries,
            ascending(times@),
            forall|i: int| 0 <= i < entries.len() ==> map@.contains_key(*(#[trigger] entries[i]).0),
            forall|t: usize|
                map@.contains_key(t) ==> exists|i: int|
                    0 <= i < entries.len() && *(#[trigger] entries[i]).0 == t,
            forall|t: usize| #[trigger]
                times@.contains(t) ==> old(times)@.contains(t) || (map@.contains_key(t)
                    && !reachable(antichain_elements(*frontier), t)),
            forall|t: usize| #[trigger] old(times)@.contains(t) ==> times@.contains(t),
            forall|i: int|
                0 <= i < it.index() && !reachable(
                    antichain_elements(*frontier),
                    *(#[trigger] entries[i]).0,
                ) ==> times@.contains(*entries[i].0),
    {
        let time = *entry.0;
        assert(map@.contains_key(time));
        let ghost before = times@;
        if !antichain_less_equal(frontier, time) {
            assert(!reachable(antichain_elements(*frontier), time));
            insert_sorted(times, time);
            assert forall|t: usize| #[trigger] times@.contains(t) implies old(times)@.contains(t) || (
            map@.contains_key(t) && !reachable(antichain_elements(*frontier), t)) by {
                if t != time {
                    assert(before.contains(t));
                }
            }
            assert forall|t: usize| #[trigger] before.contains(t) implies times@.contains(t) by {}
            assert(times@.contains(time));
        }
    }
    assert forall|t: usize|
        map@.contains_key(t) && !reachable(antichain_elements(*frontier), t) implies times@.contains(
        t,
    ) by {
        let i = choose|i: int| 0 <= i < entries.len() && *(#[trigger] entries[i]).0 == t;
        assert(times@.contains(*entries[i].0));
    }
}

impl Q5State {
    /// The timestamps for which bids start or stop counting and which
    /// `frontier` has passed, in ascending order, each once. These are the
    /// timestamps to close, in this order.
    pub fn closed_times(&self, frontier: &Antichain<usize>) -> (times: Vec<usize>)
        ensures
            ascending(times@),
            forall|t: usize| #[trigger]
                times@.contains(t) <==> (self@.additions.contains_key(t)
                    || self@.deletions.contains_key(t)) && !reachable(
                    antichain_elements(*frontier),
                    t,
                ),
    {
        let mut times: Vec<usize> = Vec::new();
        add_closed_keys(&self.additions, frontier, &mut times);
        let ghost first = times@;
        add_closed_keys(&self.deletions, frontier, &mut times);
        assert forall|t: usize| #[trigger]
            times@.contains(t) <==> (self@.additions.contains_key(t)
                || self@.deletions.contains_key(t)) && !reachable(
                antichain_elements(*frontier),
                t,
            ) by {
            assert(self@.additions.contains_key(t) == self.additions@.contains_key(t));
            assert(self@.deletions.contains_key(t) == self.deletions@.contains_key(t));
            assert(first.contains(t) <==> self.additions@.contains_key(t) && !reachable(
                antichain_elements(*frontier),
                t,
            ));
        }
        times
    }
}

/// The second stage of the query, which puts together what the first
/// stage found on each share of the auctions: for every timestamp, the
/// auction with the most bids overall.
pub struct Q5Final {
    best: HashMap<usize, Tally>,
}

/// The tally that is kept when `offered` comes in where `held` is kept:
/// the one with more bids, and of two with equally many the one that was
/// there.
pub open spec fn better_of(held: Option<Tally>, offered: Tally) -> Tally {
    match held {
        Some(tally) if offered.2 <= tally.2 => tally,
        _ => offered,
    }
}

impl View for Q5Final {
    type V = Map<usize, Tally>;

    closed spec fn view(&self) -> Map<usize, Tally> {
        self.best@
    }
}

impl Q5Final {
    /// A stage that keeps nothing yet.
    pub fn new() -> (stage: Q5Final)
        ensures
            stage@ == Map::<usize, Tally>::empty(),
    {
        Q5Final { best: HashMap::new() }
    }

    /// Takes in what a first stage found for `time`.
    pub fn offer(&mut self, time: usize, tally: Tally)
        ensures
            final(self)@ == old(self)@.insert(
                time,
                better_of(
                    if old(self)@.contains_key(time) {
                        Some(old(self)@[time])
                    } else {
                        None
                    },
                    tally,
                ),
            ),
    {
        let keep = match self.best.get(&time) {
            Some(held) => tally.2 > held.2,
            None => true,
        };
        if keep {
            self.best.insert(time, tally);
        } else {
            assert(self@ =~= old(self)@.insert(time, old(self)@[time]));
        }
    }

    /// Gives what is kept for `time`, and forgets it.
    pub fn close(&mut self, time: usize) -> (tally: Option<Tally>)
        ensures
            tally == if old(self)@.contains_key(time) {
                Some(old(self)@[time])
            } else {
                None
            },
            final(self)@ == old(self)@.remove(time),
    {
        self.best.remove(&time)
    }

    /// The timestamps for which something is kept and which `frontier`
    /// has passed, in ascending order, each once.
    pub fn closed_times(&self, frontier: &Antichain<usize>) -> (times: Vec<usize>)
        ensures
            ascending(times@),
            forall|t: usize| #[trigger]
                times@.contains(t) <==> self@.contains_key(t) && !reachable(
                    antichain_elements(*frontier),
                    t,
                ),
    {
        let mut times: Vec<usize> = Vec::new();
        add_closed_keys(&self.best, frontier, &mut times);
        assert forall|t: usize| #[trigger]
            times@.contains(t) <==> self@.contains_key(t) && !reachable(
                antichain_elements(*frontier),
                t,
            ) by {
            assert(self@.contains_key(t) == self.best@.contains_key(t));
        }
        times
    }
}

} // verus!
