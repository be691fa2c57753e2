//! The allocation function: how a node's rank is divided among its edges.

use crate::compact::{lemma_lift_push, lift, total, values_fit};
use crate::error::EngineError;
use vstd::arithmetic::div_mod::{lemma_fundamental_div_mod, lemma_mod_pos_bound};
use vstd::prelude::*;

verus! {

/// Of every six parts of rank, this many are passed on.
pub const DAMPING_NUMERATOR: i64 = 5;

/// The parts into which rank is divided before damping.
pub const DAMPING_DENOMINATOR: i64 = 6;

/// The part of `rank` that a node passes on to its neighbours.
pub open spec fn distribute(rank: int) -> int {
    rank * DAMPING_NUMERATOR as int / DAMPING_DENOMINATOR as int
}

/// The share of the edge at `index` among `degree` edges: an equal part of
/// what is distributed, and one more for each of the first edges until the
/// remainder is used up.
pub open spec fn share(rank: int, degree: int, index: int) -> int {
    distribute(rank) / degree + if index < distribute(rank) % degree {
        1int
    } else {
        0int
    }
}

/// What a node of rank `rank` sends along `edges`: to each edge's
/// destination, the edge's share times its weight.
pub open spec fn allocation(rank: int, edges: Seq<(usize, int)>) -> Seq<(usize, int)> {
    Seq::new(
        edges.len(),
        |i: int| (edges[i].0, edges[i].1 * share(rank, edges.len() as int, i)),
    )
}

/// Every edge has a positive weight.
pub open spec fn positive_weights(edges: Seq<(usize, int)>) -> bool {
    forall|i: int| 0 <= i < edges.len() ==> (#[trigger] edges[i]).1 > 0
}

/// Why `rank` cannot be allocated along `edges`, if it cannot. Without edges
/// there is nothing to allocate and nothing to refuse.
pub open spec fn allocation_error(rank: int, edges: Seq<(usize, int)>) -> Option<EngineError> {
    if edges.len() == 0 {
        None
    } else if rank < 0 {
        Some(EngineError::NegativeRank)
    } else if !positive_weights(edges) {
        Some(EngineError::NonPositiveWeight)
    } else if !values_fit(allocation(rank, edges)) {
        Some(EngineError::Overflow)
    } else {
        None
    }
}

/// `rank` can be allocated along `edges`.
pub open spec fn allocatable(rank: int, edges: Seq<(usize, int)>) -> bool {
    allocation_error(rank, edges) is None
}

/// The sum of the shares of the first `count` of `degree` edges.
pub open spec fn shares_sum(rank: int, degree: int, count: int) -> int
    decreases count,
{
    if count <= 0 {
        0
    } else {
        shares_sum(rank, degree, count - 1) + share(rank, degree, count - 1)
    }
}

proof fn lemma_shares_prefix(rank: int, degree: int, count: int)
    requires
        rank >= 0,
        degree > 0,
        0 <= count <= degree,
    ensures
        shares_sum(rank, degree, count) == count * (distribute(rank) / degree) + if count
            < distribute(rank) % degree {
            count
        } else {
            distribute(rank) % degree
        },
    decreases count,
{
    let q = distribute(rank) / degree;
    lemma_mod_pos_bound(distribute(rank), degree);
    if count > 0 {
        lemma_shares_prefix(rank, degree, count - 1);
        assert(count * q == (count - 1) * q + q) by (nonlinear_arith);
    } else {
        assert(count * q == 0) by (nonlinear_arith)
            requires
                count == 0,
        ;
    }
}

/// Allocation neither makes nor loses rank: the shares of all edges add up to
/// what is distributed, and each share is the equal part or one more.
pub proof fn lemma_shares_conserve(rank: int, degree: int)
    requires
        rank >= 0,
        degree > 0,
    ensures
        shares_sum(rank, degree, degree) == distribute(rank),
        forall|i: int|
            0 <= i < degree ==> #[trigger] share(rank, degree, i) == distribute(rank) / degree
                || share(rank, degree, i) == distribute(rank) / degree + 1,
{
    lemma_shares_prefix(rank, degree, degree);
    lemma_fundamental_div_mod(distribute(rank), degree);
    let q = distribute(rank) / degree;
    assert(degree * q == q * degree) by (nonlinear_arith);
}

proof fn lemma_unit_allocation_prefix(rank: int, edges: Seq<(usize, int)>, count: int)
    requires
        0 <= count <= edges.len(),
        forall|i: int| 0 <= i < edges.len() ==> (#[trigger] edges[i]).1 == 1,
    ensures
        total(allocation(rank, edges).take(count)) == shares_sum(
            rank,
            edges.len() as int,
            count,
        ),
    decreases count,
{
    if count > 0 {
        lemma_unit_allocation_prefix(rank, edges, count - 1);
        let sent = allocation(rank, edges);
        assert(sent.take(count).drop_last() =~= sent.take(count - 1));
        assert(edges[count - 1].1 == 1);
    }
}

/// Along edges of weight one, what is sent adds up to what is distributed.
pub proof fn lemma_unit_allocation_conserves(rank: int, edges: Seq<(usize, int)>)
    requires
        rank >= 0,
        edges.len() > 0,
        forall|i: int| 0 <= i < edges.len() ==> (#[trigger] edges[i]).1 == 1,
    ensures
        total(allocation(rank, edges)) == distribute(rank),
{
    lemma_unit_allocation_prefix(rank, edges, edges.len() as int);
    lemma_shares_conserve(rank, edges.len() as int);
    assert(allocation(rank, edges).take(edges.len() as int) =~= allocation(rank, edges));
}

/// Appends to `send` what a node of rank `rank` sends along `edges`, one
/// record for each edge, in the order of the edges.
pub fn allocate(rank: i64, edges: &[(usize, i64)], send: &mut Vec<(usize, i64)>)
    requires
        allocatable(rank as int, lift(edges@)),
    ensures
        lift(final(send)@) == lift(old(send)@) + allocation(rank as int, lift(edges@)),
        final(send)@.len() == old(send)@.len() + edges@.len(),
        forall|i: int|
            0 <= i < old(send)@.len() ==> #[trigger] final(send)@[i] == old(send)@[i],
        forall|i: int|
            old(send)@.len() <= i < final(send)@.len() ==> {
                &&& (#[trigger] final(send)@[i]).0 == edges@[i - old(send)@.len()].0
                &&& final(send)@[i].1 == edges@[i - old(send)@.len()].1 * share(
                    rank as int,
                    edges@.len() as int,
                    i - old(send)@.len(),
                )
            },
{
    let n = edges.len();
    let ghost sent = allocation(rank as int, lift(edges@));
    if n == 0 {
        assert(lift(send@) =~= lift(old(send)@) + sent);
        return ;
    }
    let passed: i128 = (rank as i128) * (DAMPING_NUMERATOR as i128) / (DAMPING_DENOMINATOR as i128);
    let degree: i128 = n as i128;
    let part = passed / degree;
    let remainder = passed % degree;
    let mut i: usize = 0;
    assert(lift(send@) =~= lift(old(send)@) + sent.take(0));
    while i < n
        invariant
            n == edges@.len(),
            i <= n,
            n > 0,
            degree == n,
            rank >= 0,
            passed == distribute(rank as int),
            part == passed / degree,
            remainder == passed % degree,
            sent == allocation(rank as int, lift(edges@)),
            values_fit(sent),
            lift(send@) == lift(old(send)@) + sent.take(i as int),
            send@.len() == old(send)@.len() + i,
            forall|j: int| 0 <= j < old(send)@.len() ==> #[trigger] send@[j] == old(send)@[j],
            forall|j: int|
                old(send)@.len() <= j < send@.len() ==> {
                    &&& (#[trigger] send@[j]).0 == edges@[j - old(send)@.len()].0
                    &&& send@[j].1 == edges@[j - old(send)@.len()].1 * share(
                        rank as int,
                        n as int,
                        j - old(send)@.len(),
                    )
                },
        decreases n - i,
    {
        let portion = if (i as i128) < remainder {
            part + 1
        } else {
            part
        };
        assert(portion == share(rank as int, n as int, i as int));
        assert(sent[i as int].1 == lift(edges@)[i as int].1 * portion);
        assert(i64::MIN <= sent[i as int].1 <= i64::MAX);
        let value = (edges[i].1 as i128) * portion;
        proof {
            lemma_lift_push(send@, (edges[i as int].0, value as i64));
            assert(sent.take(i + 1) =~= sent.take(i as int).push(sent[i as int]));
            assert(lift(old(send)@) + sent.take(i + 1) =~= (lift(old(send)@) + sent.take(
                i as int,
            )).push(sent[i as int]));
        }
        send.push((edges[i].0, value as i64));
        i += 1;
    }
    assert(sent.take(n as int) =~= sent);
}

/// Tells whether `rank` can be allocated along `edges`, and if not, why not.
pub fn check_allocation(rank: i64, edges: &[(usize, i64)]) -> (r: Result<(), EngineError>)
    ensures
        r == match allocation_error(rank as int, lift(edges@)) {
            Some(e) => Err::<(), EngineError>(e),
            None => Ok::<(), EngineError>(()),
        },
{
    let n = edges.len();
    if n == 0 {
        return Ok(());
    }
    if rank < 0 {
        return Err(EngineError::NegativeRank);
    }
    let ghost weighted = lift(edges@);
    let mut i: usize = 0;
    while i < n
        invariant
            n == edges@.len(),
            i <= n,
            n > 0,
            rank >= 0,
            weighted == lift(edges@),
            forall|j: int| 0 <= j < i ==> (#[trigger] weighted[j]).1 > 0,
        decreases n - i,
    {
        if edges[i].1 <= 0 {
            assert(weighted[i as int].1 == edges@[i as int].1);
            assert(!positive_weights(weighted));
            return Err(EngineError::NonPositiveWeight);
        }
        i += 1;
    }
    let ghost sent = allocation(rank as int, weighted);
    let passed: i128 = (rank as i128) * (DAMPING_NUMERATOR as i128) / (DAMPING_DENOMINATOR as i128);
    let degree: i128 = n as i128;
    let part = passed / degree;
    let remainder = passed % degree;
    assert(0 <= part <= passed) by (nonlinear_arith)
        requires
            part == passed / degree,
            degree >= 1,
            passed >= 0,
    ;
    let mut i: usize = 0;
    while i < n
        invariant
            n == edges@.len(),
            i <= n,
            n > 0,
            degree == n,
            rank >= 0,
            passed == distribute(rank as int),
            part == passed / degree,
            0 <= part <= passed,
            remainder == passed % degree,
            weighted == lift(edges@),
            positive_weights(weighted),
            sent == allocation(rank as int, weighted),
            forall|j: int| 0 <= j < i ==> i64::MIN <= (#[trigger] sent[j]).1 <= i64::MAX,
        decreases n - i,
    {
        let portion = if (i as i128) < remainder {
            part + 1
        } else {
            part
        };
        let weight = edges[i].1 as i128;
        assert(portion == share(rank as int, n as int, i as int));
        assert(weight == weighted[i as int].1);
        assert(0 <= weight * portion <= 0x7fff_ffff_ffff_ffff * 0x8000_0000_0000_0000)
            by (nonlinear_arith)
            requires
                0 < weight <= 0x7fff_ffff_ffff_ffff,
                0 <= portion <= 0x8000_0000_0000_0000,
        ;
        let value = weight * portion;
        assert(sent[i as int].1 == value);
        if value > 0x7fff_ffff_ffff_ffff {
            return Err(EngineError::Overflow);
        }
        i += 1;
    }
    Ok(())
}

/// Appends to `send` what a node of rank `rank` sends along `edges`, or
/// refuses, leaving `send` as it was, where the rank is negative, a weight is
/// not positive, or a value to send does not fit in 64 bits.
pub fn try_allocate(rank: i64, edges: &[(usize, i64)], send: &mut Vec<(usize, i64)>) -> (r:
    Result<(), EngineError>)
    ensures
        r == match allocation_error(rank as int, lift(edges@)) {
            Some(e) => Err::<(), EngineError>(e),
            None => Ok::<(), EngineError>(()),
        },
        r is Ok ==> lift(final(send)@) == lift(old(send)@) + allocation(
            rank as int,
            lift(edges@),
        ),
        r is Err ==> final(send)@ == old(send)@,
{
    match check_allocation(rank, edges) {
        Ok(()) => {
            allocate(rank, edges, send);
            Ok(())
        },
        Err(e) => Err(e),
    }
}

} // verus!
