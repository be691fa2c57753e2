//! The stash: records that came in before their timestamp was closed, kept
//! by timestamp until it is.

use crate::error::EngineError;
use crate::frontier::FrontierTracker;
use vstd::prelude::*;

verus! {

/// The records that have come in for one timestamp, in the order they came.
pub struct Bucket<R> {
    pub time: usize,
    pub records: Vec<R>,
}

impl<R> View for Bucket<R> {
    type V = (usize, Seq<R>);

    open spec fn view(&self) -> (usize, Seq<R>) {
        (self.time, self.records@)
    }
}

/// The buckets of a list as mathematical values.
pub open spec fn views<R>(buckets: Seq<Bucket<R>>) -> Seq<(usize, Seq<R>)> {
    buckets.map_values(|b: Bucket<R>| b@)
}

/// Records held back, by timestamp.
pub struct Stash<R> {
    buckets: Vec<Bucket<R>>,
    released: Option<usize>,
}

/// A stash as mathematical values.
pub struct StashView<R> {
    /// The timestamps for which records are held, each with its records.
    pub buckets: Seq<(usize, Seq<R>)>,
    /// The last timestamp that was let go, if any was.
    pub released: Option<usize>,
}

/// The buckets with a timestamp before `time`.
pub open spec fn is_before<R>(time: usize) -> spec_fn((usize, Seq<R>)) -> bool {
    |b: (usize, Seq<R>)| b.0 < time
}

/// The buckets whose timestamp is closed.
pub open spec fn is_ready<R>(tracker: FrontierTracker) -> spec_fn((usize, Seq<R>)) -> bool {
    |b: (usize, Seq<R>)| tracker.closed(b.0)
}

/// The buckets whose timestamp is not closed.
pub open spec fn is_waiting<R>(tracker: FrontierTracker) -> spec_fn((usize, Seq<R>)) -> bool {
    |b: (usize, Seq<R>)| !tracker.closed(b.0)
}

/// Timestamps stand in strictly ascending order.
pub open spec fn ascending_times<R>(buckets: Seq<(usize, Seq<R>)>) -> bool {
    forall|i: int, j: int|
        0 <= i < j < buckets.len() ==> (#[trigger] buckets[i]).0 < (#[trigger] buckets[j]).0
}

/// Every timestamp is after `bound`.
pub open spec fn times_after<R>(buckets: Seq<(usize, Seq<R>)>, bound: usize) -> bool {
    forall|i: int| 0 <= i < buckets.len() ==> (#[trigger] buckets[i]).0 > bound
}

impl<R> StashView<R> {
    /// The invariant of a stash: one bucket for each timestamp, in ascending
    /// order, none of them empty, all of them after the last timestamp that
    /// was let go.
    pub open spec fn wf(self) -> bool {
        &&& ascending_times(self.buckets)
        &&& forall|i: int| 0 <= i < self.buckets.len() ==> (#[trigger] self.buckets[i]).1.len() > 0
        &&& self.released matches Some(bound) ==> times_after(self.buckets, bound)
    }

    /// Whether a record for `time` comes too late: the stash has let go of
    /// that timestamp or of a later one.
    pub open spec fn refuses(self, time: usize) -> bool {
        self.released matches Some(bound) && time <= bound
    }

    /// The number of buckets before `time`, which is where the bucket of
    /// `time` stands.
    pub open spec fn slot(self, time: usize) -> int {
        self.buckets.filter(is_before(time)).len() as int
    }

    /// The stash with one more record for `time`, behind those that it
    /// holds for that timestamp.
    pub open spec fn with_record(self, time: usize, record: R) -> StashView<R> {
        let at = self.slot(time);
        if at < self.buckets.len() && self.buckets[at].0 == time {
            StashView {
                buckets: self.buckets.update(at, (time, self.buckets[at].1.push(record))),
                ..self
            }
        } else {
            StashView { buckets: self.buckets.insert(at, (time, seq![record])), ..self }
        }
    }

    /// The buckets that `tracker` has closed, in ascending order.
    pub open spec fn ready(self, tracker: FrontierTracker) -> Seq<(usize, Seq<R>)> {
        self.buckets.filter(is_ready(tracker))
    }

    /// The stash after the buckets that `tracker` has closed were let go.
    pub open spec fn drained(self, tracker: FrontierTracker) -> StashView<R> {
        StashView {
            buckets: self.buckets.filter(is_waiting(tracker)),
            released: if self.ready(tracker).len() > 0 {
                Some(self.ready(tracker).last().0)
            } else {
                self.released
            },
        }
    }

    /// The stash after it has been told that `time` was let go elsewhere.
    pub open spec fn sealed(self, time: usize) -> StashView<R> {
        StashView {
            released: match self.released {
                Some(bound) if bound >= time => Some(bound),
                _ => Some(time),
            },
            ..self
        }
    }
}

/// A filter keeps a leading part of a list when that part passes and the
/// rest does not.
pub proof fn lemma_filter_leading<A>(list: Seq<A>, pred: spec_fn(A) -> bool, count: int)
    requires
        0 <= count <= list.len(),
        forall|i: int| 0 <= i < count ==> pred(#[trigger] list[i]),
        forall|i: int| count <= i < list.len() ==> !pred(#[trigger] list[i]),
    ensures
        list.filter(pred) == list.take(count),
    decreases list.len(),
{
    reveal(Seq::filter);
    if list.len() == 0 {
        assert(list.take(count) =~= list);
    } else if count == list.len() {
        lemma_filter_leading(list.drop_last(), pred, count - 1);
        assert(list.drop_last().take(count - 1).push(list.last()) =~= list.take(count));
    } else {
        lemma_filter_leading(list.drop_last(), pred, count);
        assert(list.drop_last().take(count) =~= list.take(count));
    }
}

/// A filter keeps a trailing part of a list when that part passes and the
/// rest does not.
pub proof fn lemma_filter_trailing<A>(list: Seq<A>, pred: spec_fn(A) -> bool, count: int)
    requires
        0 <= count <= list.len(),
        forall|i: int| 0 <= i < count ==> !pred(#[trigger] list[i]),
        forall|i: int| count <= i < list.len() ==> pred(#[trigger] list[i]),
    ensures
        list.filter(pred) == list.skip(count),
    decreases list.len(),
{
    reveal(Seq::filter);
    if list.len() == 0 {
        assert(list.skip(count) =~= list);
    } else if count == list.len() {
        lemma_filter_trailing(list.drop_last(), pred, count - 1);
        assert(list.drop_last().skip(count - 1) =~= list.skip(count));
    } else {
        lemma_filter_trailing(list.drop_last(), pred, count);
        assert(list.drop_last().skip(count).push(list.last()) =~= list.skip(count));
    }
}

impl<R> View for Stash<R> {
    type V = StashView<R>;

    closed spec fn view(&self) -> StashView<R> {
        StashView { buckets: views(self.buckets@), released: self.released }
    }
}

impl<R> Stash<R> {
    /// The invariant of the stash.
    pub open spec fn wf(&self) -> bool {
        self@.wf()
    }

    /// A stash that holds nothing and has let go of nothing.
    pub fn new() -> (stash: Stash<R>)
        ensures
            stash.wf(),
            stash@ == (StashView::<R> { buckets: Seq::empty(), released: None }),
    {
        let stash = Stash { buckets: Vec::new(), released: None };
        assert(stash@.buckets =~= Seq::empty());
        stash
    }

    /// Whether the stash holds no record.
    pub fn is_empty(&self) -> (r: bool)
        ensures
            r == (self@.buckets.len() == 0),
    {
        self.buckets.len() == 0
    }

    /// The last timestamp that was let go, if any was.
    pub fn released(&self) -> (r: Option<usize>)
        ensures
            r == self@.released,
    {
        self.released
    }

    /// Keeps `record` for `time`. A record for a timestamp that the stash
    /// has let go of is refused, and the stash stays as it is.
    pub fn stash(&mut self, time: usize, record: R) -> (r: Result<(), EngineError>)
        requires
            old(self).wf(),
        ensures
            final(self).wf(),
            old(self)@.refuses(time) ==> r == Err::<(), EngineError>(EngineError::TimestampReuse)
                && final(self)@ == old(self)@,
            !old(self)@.refuses(time) ==> r is Ok && final(self)@ == old(self)@.with_record(
                time,
                record,
            ),
    {
        match self.released {
            Some(bound) => {
                if time <= bound {
                    return Err(EngineError::TimestampReuse);
                }
            },
            None => {},
        }
        let ghost held = self@.buckets;
        let mut i = self.buckets.len();
        while i > 0 && self.buckets[i - 1].time > time
            invariant
                i <= self.buckets@.len(),
                self.buckets@ == old(self).buckets@,
                forall|j: int| i <= j < self.buckets@.len() ==> (#[trigger] self.buckets@[j]).time > time,
            decreases i,
        {
            i -= 1;
        }
        if i > 0 && self.buckets[i - 1].time == time {
            proof {
                assert forall|j: int| 0 <= j < i - 1 implies is_before::<R>(time)(
                    #[trigger] held[j],
                ) by {
                    assert(held[j].0 < held[i - 1].0);
                }
                assert forall|j: int| i - 1 <= j < held.len() implies !is_before::<R>(time)(
                    #[trigger] held[j],
                ) by {
                    assert(held[j] == self.buckets@[j]@);
                }
                lemma_filter_leading(held, is_before::<R>(time), i - 1);
            }
            self.buckets[i - 1].records.push(record);
            assert(self@.buckets =~= held.update(i - 1, (time, held[i - 1].1.push(record))));
        } else {
            proof {
                assert forall|j: int| 0 <= j < i implies is_before::<R>(time)(#[trigger] held[j]) by {
                    assert(held[j].0 <= held[i - 1].0);
                    assert(held[i - 1] == self.buckets@[i - 1]@);
                }
                assert forall|j: int| i <= j < held.len() implies !is_before::<R>(time)(
                    #[trigger] held[j],
                ) by {
                    assert(held[j] == self.buckets@[j]@);
                }
                lemma_filter_leading(held, is_before::<R>(time), i as int);
            }
            let mut records: Vec<R> = Vec::new();
            records.push(record);
            self.buckets.insert(i, Bucket { time, records });
            assert(self@.buckets =~= held.insert(i as int, (time, seq![record])));
        }
        Ok(())
    }

    /// Lets go of the buckets whose timestamp `tracker` has closed, and
    /// returns them in ascending order of their timestamps.
    pub fn drain_ready(&mut self, tracker: &FrontierTracker) -> (ready: Vec<Bucket<R>>)
        requires
            old(self).wf(),
        ensures
            final(self).wf(),
            views(ready@) == old(self)@.ready(*tracker),
            final(self)@ == old(self)@.drained(*tracker),
            ascending_times(views(ready@)),
            old(self)@.released matches Some(bound) ==> times_after(views(ready@), bound),
            forall|i: int| 0 <= i < ready@.len() ==> tracker.closed((#[trigger] ready@[i]).time),
            forall|i: int|
                0 <= i < final(self)@.buckets.len() ==> !tracker.closed(
                    (#[trigger] final(self)@.buckets[i]).0,
                ),
    {
        let ghost held = self@.buckets;
        let mut count: usize = 0;
        while count < self.buckets.len() && tracker.is_closed(self.buckets[count].time)
            invariant
                count <= self.buckets@.len(),
                self.buckets@ == old(self).buckets@,
                forall|j: int| 0 <= j < count ==> tracker.closed((#[trigger] self.buckets@[j]).time),
            decreases self.buckets@.len() - count,
        {
            count += 1;
        }
        proof {
            assert forall|j: int| 0 <= j < count implies is_ready::<R>(*tracker)(
                #[trigger] held[j],
            ) by {
                assert(held[j] == self.buckets@[j]@);
            }
            assert forall|j: int| count <= j < held.len() implies !is_ready::<R>(*tracker)(
                #[trigger] held[j],
            ) by {
                assert(held[count as int] == self.buckets@[count as int]@);
                if tracker.closed(held[j].0) {
                    assert(held[count as int].0 <= held[j].0);
                    tracker.lemma_closed_downward(held[count as int].0, held[j].0);
                }
            }
            lemma_filter_leading(held, is_ready::<R>(*tracker), count as int);
            assert forall|j: int| 0 <= j < count implies !is_waiting::<R>(*tracker)(
                #[trigger] held[j],
            ) by {
                assert(is_ready::<R>(*tracker)(held[j]));
            }
            assert forall|j: int| count <= j < held.len() implies is_waiting::<R>(*tracker)(
                #[trigger] held[j],
            ) by {
                assert(!is_ready::<R>(*tracker)(held[j]));
            }
            lemma_filter_trailing(held, is_waiting::<R>(*tracker), count as int);
        }
        let mut rest = self.buckets.split_off(count);
        std::mem::swap(&mut self.buckets, &mut rest);
        if count > 0 {
            self.released = Some(rest[count - 1].time);
        }
        proof {
            assert(views(rest@) =~= held.take(count as int));
            assert(self@.buckets =~= held.skip(count as int));
            if count > 0 {
                let bound = held[count - 1].0;
                assert(tracker.closed(bound)) by {
                    assert(is_ready::<R>(*tracker)(held[count - 1]));
                }
                assert forall|j: int| 0 <= j < self@.buckets.len() implies (
                #[trigger] self@.buckets[j]).0 > bound by {
                    assert(self@.buckets[j] == held[count + j]);
                    assert(!is_ready::<R>(*tracker)(held[count + j]));
                    if held[count + j].0 <= bound {
                        tracker.lemma_closed_downward(held[count + j].0, bound);
                    }
                }
            }
        }
        rest
    }

    /// Tells the stash that `time` was let go elsewhere, so that it refuses
    /// what comes for that timestamp or an earlier one from now on.
    pub fn seal(&mut self, time: usize)
        requires
            old(self).wf(),
            times_after(old(self)@.buckets, time),
        ensures
            final(self).wf(),
            final(self)@ == old(self)@.sealed(time),
    {
        match self.released {
            Some(bound) => {
                if bound < time {
                    self.released = Some(time);
                }
            },
            None => {
                self.released = Some(time);
            },
        }
    }
}

} // verus!
