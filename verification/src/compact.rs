//! Compaction of delta records: one record per key, carrying the key's net
//! value, records of net zero dropped, keys in ascending order.

use crate::key::{key_ordering, Key};
use vstd::prelude::*;
use vstd::seq_lib::*;

verus! {

/// The records of a list with their values as unbounded integers.
pub open spec fn lift<K>(list: Seq<(K, i64)>) -> Seq<(K, int)> {
    list.map_values(|e: (K, i64)| (e.0, e.1 as int))
}

/// The sum of the values that `list` records under `key`.
pub open spec fn net<K>(list: Seq<(K, int)>, key: K) -> int
    decreases list.len(),
{
    if list.len() == 0 {
        0
    } else {
        net(list.drop_last(), key) + if list.last().0 == key {
            list.last().1
        } else {
            0
        }
    }
}

/// The sum of all values in `list`.
pub open spec fn total<K>(list: Seq<(K, int)>) -> int
    decreases list.len(),
{
    if list.len() == 0 {
        0
    } else {
        total(list.drop_last()) + list.last().1
    }
}

/// Keys stand in strictly ascending order, so no key occurs twice.
pub open spec fn ascending<K: Key>(list: Seq<(K, int)>) -> bool {
    forall|i: int, j: int|
        0 <= i < j < list.len() ==> (#[trigger] list[i]).0.position() < (#[trigger] list[j]).0.position()
}

/// Every key of the list stands before `bound`.
pub open spec fn keys_below<K: Key>(list: Seq<(K, int)>, bound: int) -> bool {
    forall|i: int| 0 <= i < list.len() ==> (#[trigger] list[i]).0.position() < bound
}

/// A list in compact form: ascending keys and no zero value.
pub open spec fn is_compacted<K: Key>(list: Seq<(K, int)>) -> bool {
    &&& ascending(list)
    &&& forall|i: int| 0 <= i < list.len() ==> (#[trigger] list[i]).1 != 0
}

/// `out` is in compact form and gives every key the net value that `input`
/// gives it.
pub open spec fn is_compaction_of<K: Key>(out: Seq<(K, int)>, input: Seq<(K, int)>) -> bool {
    &&& is_compacted(out)
    &&& forall|key: K| #[trigger] net(out, key) == net(input, key)
}

/// Every value of the list is a 64-bit signed integer.
pub open spec fn values_fit<K>(list: Seq<(K, int)>) -> bool {
    forall|i: int| 0 <= i < list.len() ==> i64::MIN <= (#[trigger] list[i]).1 <= i64::MAX
}

/// Every key's net value is a 64-bit signed integer.
pub open spec fn nets_fit<K>(list: Seq<(K, int)>) -> bool {
    forall|key: K| i64::MIN <= #[trigger] net(list, key) <= i64::MAX
}

/// A compact list with `value` added under `key`.
pub open spec fn absorb<K: Key>(list: Seq<(K, int)>, key: K, value: int) -> Seq<(K, int)>
    decreases list.len(),
{
    if list.len() == 0 || list.last().0.position() < key.position() {
        if value == 0 {
            list
        } else {
            list.push((key, value))
        }
    } else if list.last().0.position() == key.position() {
        if list.last().1 + value == 0 {
            list.drop_last()
        } else {
            list.drop_last().push((key, list.last().1 + value))
        }
    } else {
        absorb(list.drop_last(), key, value).push(list.last())
    }
}

/// The compact form of `list`.
pub open spec fn compacted<K: Key>(list: Seq<(K, int)>) -> Seq<(K, int)>
    decreases list.len(),
{
    if list.len() == 0 {
        list
    } else {
        absorb(compacted(list.drop_last()), list.last().0, list.last().1)
    }
}

/// Appending a record adds its value to the net of its key and to no other.
pub proof fn lemma_net_push<K>(list: Seq<(K, int)>, entry: (K, int), key: K)
    ensures
        net(list.push(entry), key) == net(list, key) + if entry.0 == key {
            entry.1
        } else {
            0
        },
{
    assert(list.push(entry).drop_last() =~= list);
}

/// Appending a record adds its value to the total.
pub proof fn lemma_total_push<K>(list: Seq<(K, int)>, entry: (K, int))
    ensures
        total(list.push(entry)) == total(list) + entry.1,
{
    assert(list.push(entry).drop_last() =~= list);
}

/// A key that no record carries has net zero.
pub proof fn lemma_net_absent<K>(list: Seq<(K, int)>, key: K)
    requires
        forall|i: int| 0 <= i < list.len() ==> (#[trigger] list[i]).0 != key,
    ensures
        net(list, key) == 0,
    decreases list.len(),
{
    if list.len() > 0 {
        lemma_net_absent(list.drop_last(), key);
    }
}

/// In an ascending list the net of a listed key is the value listed with it.
pub proof fn lemma_net_listed<K: Key>(list: Seq<(K, int)>, index: int)
    requires
        ascending(list),
        0 <= index < list.len(),
    ensures
        net(list, list[index].0) == list[index].1,
    decreases list.len(),
{
    let key = list[index].0;
    let front = list.drop_last();
    if index == list.len() - 1 {
        assert forall|i: int| 0 <= i < front.len() implies (#[trigger] front[i]).0 != key by {
            assert(list[i].0.position() < list[index].0.position());
        }
        lemma_net_absent(front, key);
    } else {
        assert(list[index].0.position() < list[list.len() - 1].0.position());
        lemma_net_listed(front, index);
    }
}

/// The net of a key over two lists joined is the sum of its nets over each.
pub proof fn lemma_net_concat<K>(a: Seq<(K, int)>, b: Seq<(K, int)>, key: K)
    ensures
        net(a + b, key) == net(a, key) + net(b, key),
    decreases b.len(),
{
    if b.len() == 0 {
        assert(a + b =~= a);
    } else {
        assert((a + b).drop_last() =~= a + b.drop_last());
        lemma_net_concat(a, b.drop_last(), key);
    }
}

/// What `absorb` does to a compact list: the result is compact, the net of
/// `key` grows by `value`, all other nets stay, and so does every bound on
/// the positions of the keys that also bounds `key`.
pub proof fn lemma_absorb<K: Key>(list: Seq<(K, int)>, key: K, value: int)
    requires
        is_compacted(list),
    ensures
        is_compacted(absorb(list, key, value)),
        forall|other: K| #[trigger]
            net(absorb(list, key, value), other) == net(list, other) + if other == key {
                value
            } else {
                0
            },
        total(absorb(list, key, value)) == total(list) + value,
        forall|bound: int|
            key.position() < bound && #[trigger] keys_below(list, bound) ==> keys_below(
                absorb(list, key, value),
                bound,
            ),
    decreases list.len(),
{
    let out = absorb(list, key, value);
    if list.len() == 0 || list.last().0.position() < key.position() {
        if value != 0 {
            assert forall|other: K| #[trigger]
                net(out, other) == net(list, other) + if other == key {
                    value
                } else {
                    0
                } by {
                lemma_net_push(list, (key, value), other);
            }
            lemma_total_push(list, (key, value));
        }
    } else if list.last().0.position() == key.position() {
        K::lemma_position_injective(list.last().0, key);
        let front = list.drop_last();
        let sum = list.last().1 + value;
        if sum != 0 {
            assert forall|other: K| #[trigger]
                net(out, other) == net(list, other) + if other == key {
                    value
                } else {
                    0
                } by {
                lemma_net_push(front, (key, sum), other);
            }
            lemma_total_push(front, (key, sum));
        }
    } else {
        let front = list.drop_last();
        let inner = absorb(front, key, value);
        lemma_absorb(front, key, value);
        let bound = list.last().0.position();
        assert(keys_below(front, bound));
        assert(keys_below(inner, bound));
        assert forall|other: K| #[trigger]
            net(out, other) == net(list, other) + if other == key {
                value
            } else {
                0
            } by {
            lemma_net_push(inner, list.last(), other);
        }
        lemma_total_push(inner, list.last());
    }
}

/// `compacted(list)` is the compaction of `list`, and has its total.
pub proof fn lemma_compacted<K: Key>(list: Seq<(K, int)>)
    ensures
        is_compaction_of(compacted(list), list),
        total(compacted(list)) == total(list),
    decreases list.len(),
{
    if list.len() > 0 {
        lemma_compacted(list.drop_last());
        lemma_absorb(compacted(list.drop_last()), list.last().0, list.last().1);
    }
}

/// Two compact lists that give every key the same net value are the same list.
pub proof fn lemma_compacted_unique<K: Key>(a: Seq<(K, int)>, b: Seq<(K, int)>)
    requires
        is_compacted(a),
        is_compacted(b),
        forall|key: K| #[trigger] net(a, key) == net(b, key),
    ensures
        a == b,
    decreases a.len() + b.len(),
{
    if a.len() == 0 && b.len() == 0 {
        assert(a =~= b);
    } else if a.len() == 0 {
        lemma_net_listed(b, 0);
        lemma_net_absent(a, b[0].0);
        assert(net(a, b[0].0) == net(b, b[0].0));
    } else if b.len() == 0 {
        lemma_net_listed(a, 0);
        lemma_net_absent(b, a[0].0);
        assert(net(a, a[0].0) == net(b, a[0].0));
    } else {
        let la = a.last();
        let lb = b.last();
        lemma_net_listed(a, a.len() - 1);
        lemma_net_listed(b, b.len() - 1);
        assert(net(a, la.0) == net(b, la.0));
        assert(net(a, lb.0) == net(b, lb.0));
        if la.0.position() < lb.0.position() {
            assert forall|i: int| 0 <= i < a.len() implies (#[trigger] a[i]).0 != lb.0 by {
                assert(a[i].0.position() <= la.0.position());
            }
            lemma_net_absent(a, lb.0);
        } else if lb.0.position() < la.0.position() {
            assert forall|i: int| 0 <= i < b.len() implies (#[trigger] b[i]).0 != la.0 by {
                assert(b[i].0.position() <= lb.0.position());
            }
            lemma_net_absent(b, la.0);
        } else {
            K::lemma_position_injective(la.0, lb.0);
            assert(la == lb);
            let fa = a.drop_last();
            let fb = b.drop_last();
            assert forall|key: K| #[trigger] net(fa, key) == net(fb, key) by {
                assert(net(a, key) == net(b, key));
            }
            lemma_compacted_unique(fa, fb);
            assert(a =~= fa.push(la));
            assert(b =~= fb.push(lb));
        }
    }
}

/// A list has one compaction only: `compacted(list)`.
pub proof fn lemma_compaction_is_compacted<K: Key>(out: Seq<(K, int)>, input: Seq<(K, int)>)
    requires
        is_compaction_of(out, input),
    ensures
        out == compacted(input),
{
    lemma_compacted(input);
    assert forall|key: K| #[trigger] net(out, key) == net(compacted(input), key) by {
        assert(net(out, key) == net(input, key));
        assert(net(compacted(input), key) == net(input, key));
    }
    lemma_compacted_unique(out, compacted(input));
}

/// Compaction is idempotent: a list in compact form is its own compaction,
/// so compacting a second time changes nothing.
pub proof fn lemma_compaction_idempotent<K: Key>(list: Seq<(K, int)>)
    ensures
        is_compacted(list) ==> compacted(list) == list,
        compacted(compacted(list)) == compacted(list),
{
    if is_compacted(list) {
        lemma_compaction_is_compacted(list, list);
    }
    lemma_compacted(list);
    lemma_compaction_is_compacted(compacted(list), compacted(list));
}

/// Compaction conserves the sum of all values.
pub proof fn lemma_compaction_conserves_total<K: Key>(out: Seq<(K, int)>, input: Seq<(K, int)>)
    requires
        is_compaction_of(out, input),
    ensures
        total(out) == total(input),
{
    lemma_compaction_is_compacted(out, input);
    lemma_compacted(input);
}

/// The step by which a left fold sums the values recorded under `key`.
pub open spec fn add_if_keyed<K>(key: K) -> spec_fn(int, (K, i64)) -> int {
    |sum: int, e: (K, i64)|
        if e.0 == key {
            sum + e.1
        } else {
            sum
        }
}

/// The step by which a left fold sums all values.
pub open spec fn add_value<K>() -> spec_fn(int, (K, i64)) -> int {
    |sum: int, e: (K, i64)| sum + e.1
}

/// Lifting commutes with appending a record.
pub proof fn lemma_lift_push<K>(list: Seq<(K, i64)>, entry: (K, i64))
    ensures
        lift(list.push(entry)) == lift(list).push((entry.0, entry.1 as int)),
{
    assert(lift(list.push(entry)) =~= lift(list).push((entry.0, entry.1 as int)));
}

/// Lifting commutes with joining two lists.
pub proof fn lemma_lift_concat<K>(a: Seq<(K, i64)>, b: Seq<(K, i64)>)
    ensures
        lift(a + b) == lift(a) + lift(b),
{
    assert(lift(a + b) =~= lift(a) + lift(b));
}

proof fn lemma_net_is_fold<K>(list: Seq<(K, i64)>, key: K)
    ensures
        net(lift(list), key) == list.fold_left(0int, add_if_keyed(key)),
    decreases list.len(),
{
    if list.len() > 0 {
        lemma_net_is_fold(list.drop_last(), key);
        assert(lift(list).drop_last() =~= lift(list.drop_last()));
    }
}

proof fn lemma_total_is_fold<K>(list: Seq<(K, i64)>)
    ensures
        total(lift(list)) == list.fold_left(0int, add_value::<K>()),
    decreases list.len(),
{
    if list.len() > 0 {
        lemma_total_is_fold(list.drop_last());
        assert(lift(list).drop_last() =~= lift(list.drop_last()));
    }
}

/// Nets and the total do not depend on the order of the records.
pub proof fn lemma_net_permutation<K>(a: Seq<(K, i64)>, b: Seq<(K, i64)>)
    requires
        a.to_multiset() == b.to_multiset(),
    ensures
        forall|key: K| #[trigger] net(lift(a), key) == net(lift(b), key),
        total(lift(a)) == total(lift(b)),
{
    assert forall|key: K| #[trigger] net(lift(a), key) == net(lift(b), key) by {
        lemma_net_is_fold(a, key);
        lemma_net_is_fold(b, key);
        lemma_fold_left_permutation(a, b, add_if_keyed(key), 0int);
    }
    lemma_total_is_fold(a);
    lemma_total_is_fold(b);
    lemma_fold_left_permutation(a, b, add_value::<K>(), 0int);
}

/// The compact form does not depend on the order of the records.
pub proof fn lemma_compacted_permutation<K: Key>(a: Seq<(K, i64)>, b: Seq<(K, i64)>)
    requires
        a.to_multiset() == b.to_multiset(),
    ensures
        compacted(lift(a)) == compacted(lift(b)),
        nets_fit(lift(a)) == nets_fit(lift(b)),
{
    lemma_net_permutation(a, b);
    lemma_compacted(lift(a));
    lemma_compacted(lift(b));
    assert forall|key: K| #[trigger]
        net(compacted(lift(a)), key) == net(compacted(lift(b)), key) by {
        assert(net(compacted(lift(a)), key) == net(lift(a), key));
        assert(net(compacted(lift(b)), key) == net(lift(b), key));
        assert(net(lift(a), key) == net(lift(b), key));
    }
    lemma_compacted_unique(compacted(lift(a)), compacted(lift(b)));
    if nets_fit(lift(a)) {
        assert forall|key: K| i64::MIN <= #[trigger] net(lift(b), key) <= i64::MAX by {
            assert(net(lift(a), key) == net(lift(b), key));
        }
    }
    if nets_fit(lift(b)) {
        assert forall|key: K| i64::MIN <= #[trigger] net(lift(a), key) <= i64::MAX by {
            assert(net(lift(a), key) == net(lift(b), key));
        }
    }
}

/// The net of a key in a compact list of 64-bit values is a 64-bit value.
pub proof fn lemma_compacted_nets_fit<K: Key>(list: Seq<(K, int)>)
    requires
        ascending(list),
        values_fit(list),
    ensures
        nets_fit(list),
{
    assert forall|key: K| i64::MIN <= #[trigger] net(list, key) <= i64::MAX by {
        if exists|i: int| 0 <= i < list.len() && (#[trigger] list[i]).0 == key {
            let i = choose|i: int| 0 <= i < list.len() && (#[trigger] list[i]).0 == key;
            lemma_net_listed(list, i);
        } else {
            lemma_net_absent(list, key);
        }
    }
}

/// The values of a list's compact form fit in 64 bits exactly where the
/// list's nets do.
pub proof fn lemma_nets_fit_compacted_fits<K: Key>(list: Seq<(K, int)>)
    ensures
        nets_fit(list) == values_fit(compacted(list)),
{
    let out = compacted(list);
    lemma_compacted(list);
    if nets_fit(list) {
        assert forall|i: int| 0 <= i < out.len() implies i64::MIN <= (#[trigger] out[i]).1
            <= i64::MAX by {
            lemma_net_listed(out, i);
            assert(net(out, out[i].0) == net(list, out[i].0));
        }
    }
    if values_fit(out) {
        lemma_compacted_nets_fit(out);
        assert forall|key: K| i64::MIN <= #[trigger] net(list, key) <= i64::MAX by {
            assert(net(out, key) == net(list, key));
        }
    }
}

/// The records of `list` that carry `key`, in the order they have there.
pub open spec fn records_under<K>(list: Seq<(K, i64)>, key: K) -> Seq<(K, i64)> {
    list.filter(|e: (K, i64)| e.0 == key)
}

/// `out` holds the records of `input` in ascending order of their keys,
/// those of one key in the order they have in `input`.
pub open spec fn is_stable_sort_of<K: Key>(out: Seq<(K, i64)>, input: Seq<(K, i64)>) -> bool {
    &&& out.to_multiset() == input.to_multiset()
    &&& forall|i: int, j: int|
        0 <= i < j < out.len() ==> (#[trigger] out[i]).0.position() <= (#[trigger] out[j]).0.position()
    &&& forall|key: K| #[trigger] records_under(out, key) == records_under(input, key)
}

/// Calls `sort_by` of slices with `key_ordering` on the keys as the
/// comparison. The standard library documents that sort as stable: it puts
/// the records in the order that the comparison gives, keeps every record,
/// and keeps records that compare equal in the order they had.
#[verifier::external_body]
fn sort_by_key<K: Key>(list: &mut Vec<(K, i64)>)
    ensures
        final(list)@.to_multiset() == old(list)@.to_multiset(),
        forall|i: int, j: int|
            0 <= i < j < final(list)@.len() ==> (#[trigger] final(list)@[i]).0.position() <= (
            #[trigger] final(list)@[j]).0.position(),
        forall|key: K| #[trigger] records_under(final(list)@, key) == records_under(old(list)@, key),
{
    list.sort_by(|x, y| key_ordering(&x.0, &y.0));
}

/// Compacts `list` in place where every net value is a 64-bit integer, and
/// reports whether that was so. Where it was not, the list keeps its records,
/// sorted by key.
pub fn try_compact<K: Key>(list: &mut Vec<(K, i64)>) -> (fits: bool)
    ensures
        fits == nets_fit(lift(old(list)@)),
        fits ==> is_compaction_of(lift(final(list)@), lift(old(list)@)),
        fits ==> lift(final(list)@) == compacted(lift(old(list)@)),
        fits ==> total(lift(final(list)@)) == total(lift(old(list)@)),
        !fits ==> is_stable_sort_of(final(list)@, old(list)@),
{
    sort_by_key(list);
    let ghost sorted = list@;
    proof {
        lemma_net_permutation(old(list)@, sorted);
    }
    let n = list.len();
    let mut out: Vec<(K, i64)> = Vec::new();
    let mut i: usize = 0;
    while i < n
        invariant
            list@ == sorted,
            n == sorted.len(),
            i <= n,
            forall|a: int, b: int|
                0 <= a < b < sorted.len() ==> (#[trigger] sorted[a]).0.position() <= (
                #[trigger] sorted[b]).0.position(),
            is_compacted(lift(out@)),
            forall|key: K| #[trigger]
                net(lift(out@), key) == net(lift(sorted.take(i as int)), key),
            total(lift(out@)) == total(lift(sorted.take(i as int))),
            i < n ==> keys_below(lift(out@), sorted[i as int].0.position()),
            i < n ==> keys_below(lift(sorted.take(i as int)), sorted[i as int].0.position()),
            forall|key: K| #[trigger] net(lift(old(list)@), key) == net(lift(sorted), key),
            total(lift(old(list)@)) == total(lift(sorted)),
            is_stable_sort_of(sorted, old(list)@),
        decreases n - i,
    {
        let key = list[i].0;
        let ghost start = i;
        let mut acc: i128 = 0;
        proof {
            assert forall|j: int| 0 <= j < lift(sorted.take(start as int)).len() implies (
            #[trigger] lift(sorted.take(start as int))[j]).0 != key by {
                assert(lift(sorted.take(start as int))[j].0.position() < key.position());
            }
            lemma_net_absent(lift(sorted.take(start as int)), key);
        }
        while i < n && !key.precedes(&list[i].0)
            invariant
                list@ == sorted,
                n == sorted.len(),
                start <= i <= n,
                start < n,
                key == sorted[start as int].0,
                forall|a: int, b: int|
                    0 <= a < b < sorted.len() ==> (#[trigger] sorted[a]).0.position() <= (
                    #[trigger] sorted[b]).0.position(),
                acc == net(lift(sorted.take(i as int)), key),
                -(i - start) * 0x8000_0000_0000_0000 <= acc <= (i - start)
                    * 0x8000_0000_0000_0000,
                forall|other: K|
                    other != key ==> #[trigger] net(lift(out@), other) == net(
                        lift(sorted.take(i as int)),
                        other,
                    ),
                total(lift(out@)) + acc == total(lift(sorted.take(i as int))),
                forall|j: int| 0 <= j < i ==> (#[trigger] sorted[j]).0.position() <= key.position(),
            decreases n - i,
        {
            proof {
                assert(sorted[start as int].0.position() <= sorted[i as int].0.position());
                K::lemma_position_injective(sorted[i as int].0, key);
                let entry = sorted[i as int];
                assert(sorted.take(i + 1) =~= sorted.take(i as int).push(entry));
                lemma_lift_push(sorted.take(i as int), entry);
                lemma_total_push(lift(sorted.take(i as int)), (entry.0, entry.1 as int));
                assert forall|other: K|
                    net(lift(sorted.take(i + 1)), other) == net(
                        lift(sorted.take(i as int)),
                        other,
                    ) + if other == key {
                        entry.1 as int
                    } else {
                        0
                    } by {
                    lemma_net_push(lift(sorted.take(i as int)), (entry.0, entry.1 as int), other);
                }
            }
            acc = acc + list[i].1 as i128;
            i += 1;
        }
        proof {
            if i < n {
                assert forall|j: int| 0 <= j < lift(sorted.take(i as int)).len() implies (
                #[trigger] lift(sorted.take(i as int))[j]).0.position()
                    < sorted[i as int].0.position() by {
                    assert(sorted[j].0.position() <= key.position());
                }
            }
        }
        if acc != 0 {
            if acc < -0x8000_0000_0000_0000 || acc > 0x7fff_ffff_ffff_ffff {
                proof {
                    let rest = sorted.skip(i as int);
                    assert(sorted =~= sorted.take(i as int) + rest);
                    lemma_lift_concat(sorted.take(i as int), rest);
                    lemma_net_concat(lift(sorted.take(i as int)), lift(rest), key);
                    assert forall|j: int| 0 <= j < lift(rest).len() implies (#[trigger] lift(
                        rest,
                    )[j]).0 != key by {
                        assert(rest[j] == sorted[i + j]);
                        assert(sorted[i as int].0.position() <= sorted[i + j].0.position());
                    }
                    lemma_net_absent(lift(rest), key);
                    assert(net(lift(old(list)@), key) == acc);
                }
                return false;
            }
            let value = acc as i64;
            proof {
                lemma_lift_push(out@, (key, value));
                lemma_total_push(lift(out@), (key, value as int));
                assert forall|other: K|
                    net(lift(out@.push((key, value))), other) == net(lift(out@), other)
                        + if other == key {
                        value as int
                    } else {
                        0
                    } by {
                    lemma_net_push(lift(out@), (key, value as int), other);
                }
                assert forall|j: int| 0 <= j < lift(out@).len() implies (#[trigger] lift(
                    out@,
                )[j]).0 != key by {
                    assert(lift(out@)[j].0.position() < key.position());
                }
                lemma_net_absent(lift(out@), key);
            }
            out.push((key, value));
        } else {
            proof {
                assert forall|j: int| 0 <= j < lift(out@).len() implies (#[trigger] lift(
                    out@,
                )[j]).0 != key by {
                    assert(lift(out@)[j].0.position() < key.position());
                }
                lemma_net_absent(lift(out@), key);
            }
        }
    }
    proof {
        assert(sorted.take(n as int) =~= sorted);
        lemma_compacted_nets_fit(lift(out@));
        assert forall|key: K| i64::MIN <= #[trigger] net(lift(old(list)@), key) <= i64::MAX by {
            assert(net(lift(out@), key) == net(lift(sorted), key));
        }
        assert forall|key: K| #[trigger]
            net(lift(out@), key) == net(lift(old(list)@), key) by {
            assert(net(lift(out@), key) == net(lift(sorted), key));
        }
        lemma_compaction_is_compacted(lift(out@), lift(old(list)@));
    }
    *list = out;
    true
}

/// Compacts `list` in place: afterwards it holds one record for every key of
/// nonzero net value, with that value, in ascending order of the keys.
pub fn compact<K: Key>(list: &mut Vec<(K, i64)>)
    requires
        nets_fit(lift(old(list)@)),
    ensures
        is_compaction_of(lift(final(list)@), lift(old(list)@)),
        lift(final(list)@) == compacted(lift(old(list)@)),
        total(lift(final(list)@)) == total(lift(old(list)@)),
{
    let _ = try_compact(list);
}

} // verus!
