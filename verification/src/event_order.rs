use vstd::prelude::*;

use crate::ordered_map::OrderedMap;
use crate::private_event_sourcing::SignedEvent;

verus! {

/// The timestamps of keyed events, in the order of the entries.
pub open spec fn event_timestamps<T>(s: Seq<(Seq<u8>, SignedEvent<T>)>) -> Seq<i64> {
    s.map_values(|e: (Seq<u8>, SignedEvent<T>)| e.1.event.timestamp)
}

/// In a stable sort by timestamp, the entry at position `i` comes before the
/// one at position `j`: it is older, or as old and stands earlier.
pub open spec fn precedes(ts: Seq<i64>, i: int, j: int) -> bool {
    ts[i] < ts[j] || (ts[i] == ts[j] && i < j)
}

/// Position `i` occurs in `order`.
pub open spec fn lists_position(order: Seq<usize>, i: int) -> bool {
    exists|x: int| 0 <= x < order.len() && #[trigger] order[x] == i
}

/// `order` lists every position of `ts` once, oldest first, positions with
/// equal timestamps in their own order: the order of a stable sort.
pub open spec fn is_timestamp_order(ts: Seq<i64>, order: Seq<usize>) -> bool {
    &&& order.len() == ts.len()
    &&& forall|x: int| 0 <= x < order.len() ==> #[trigger] order[x] < ts.len()
    &&& forall|x: int, y: int|
        0 <= x < y < order.len() ==> precedes(ts, #[trigger] order[x] as int, #[trigger] order[y] as int)
    &&& forall|i: int| 0 <= i < ts.len() ==> #[trigger] lists_position(order, i)
}

/// Two different positions are ordered one way or the other, never both.
pub proof fn lemma_precedes_strict_total(ts: Seq<i64>, i: int, j: int)
    requires
        i != j,
    ensures
        precedes(ts, i, j) || precedes(ts, j, i),
        !(precedes(ts, i, j) && precedes(ts, j, i)),
{
}

/// The positions of timestamps in the order of a stable sort by timestamp.
pub fn timestamp_order(ts: &Vec<i64>) -> (order: Vec<usize>)
    ensures
        is_timestamp_order(ts@, order@),
        order@.len() == ts@.len(),
        forall|x: int| 0 <= x < order@.len() ==> #[trigger] order@[x] < ts@.len(),
        forall|x: int, y: int|
            0 <= x < y < order@.len() ==> ts@[#[trigger] order@[x] as int] <= ts@[#[trigger] order@[y] as int],
        forall|x: int, y: int|
            0 <= x < y < order@.len() && ts@[#[trigger] order@[x] as int] == ts@[#[trigger] order@[y] as int]
                ==> order@[x] < order@[y],
        forall|x: int, y: int|
            0 <= x < y < order@.len() ==> #[trigger] order@[x] != #[trigger] order@[y],
{
    let n = ts.len();
    let mut order: Vec<usize> = Vec::new();
    for k in 0..n
        invariant
            n == ts@.len(),
            order@.len() == k,
            forall|x: int| 0 <= x < order@.len() ==> #[trigger] order@[x] < k,
            forall|x: int, y: int|
                0 <= x < y < order@.len() ==> precedes(
                    ts@,
                    #[trigger] order@[x] as int,
                    #[trigger] order@[y] as int,
                ),
            forall|i: int| 0 <= i < k ==> #[trigger] lists_position(order@, i),
    {
        let mut p: usize = 0;
        while p < order.len() && ts[order[p]] <= ts[k]
            invariant
                n == ts@.len(),
                k < n,
                order@.len() == k,
                p <= order@.len(),
                forall|x: int| 0 <= x < order@.len() ==> #[trigger] order@[x] < k,
                forall|x: int| 0 <= x < p ==> ts@[#[trigger] order@[x] as int] <= ts@[k as int],
            decreases order@.len() - p,
        {
            p = p + 1;
        }
        let ghost old_order = order@;
        proof {
            assert forall|x: int| p <= x < old_order.len() implies ts@[k as int] < ts@[
                #[trigger] old_order[x] as int] by {
                if x > p {
                    assert(precedes(ts@, old_order[p as int] as int, old_order[x] as int));
                }
            }
        }
        order.insert(p, k);
        proof {
            let o = order@;
            assert forall|x: int| 0 <= x < o.len() implies #[trigger] o[x] < k + 1 by {
                if x < p {
                    assert(o[x] == old_order[x]);
                } else if x > p {
                    assert(o[x] == old_order[x - 1]);
                }
            }
            assert forall|x: int, y: int| 0 <= x < y < o.len() implies precedes(
                ts@,
                #[trigger] o[x] as int,
                #[trigger] o[y] as int,
            ) by {
                if y < p {
                    assert(o[x] == old_order[x] && o[y] == old_order[y]);
                } else if y == p {
                    assert(o[x] == old_order[x]);
                    assert(old_order[x] < k);
                } else if x < p {
                    assert(o[x] == old_order[x] && o[y] == old_order[y - 1]);
                } else if x == p {
                    assert(o[y] == old_order[y - 1]);
                } else {
                    assert(o[x] == old_order[x - 1] && o[y] == old_order[y - 1]);
                }
            }
            assert forall|i: int| 0 <= i < k + 1 implies #[trigger] lists_position(o, i) by {
                if i == k {
                    assert(o[p as int] == i);
                } else {
                    assert(lists_position(old_order, i));
                    let x = choose|x: int| 0 <= x < old_order.len() && #[trigger] old_order[x] == i;
                    if x < p {
                        assert(o[x] == i);
                    } else {
                        assert(o[x + 1] == i);
                    }
                }
            }
        }
    }
    order
}

/// The positions of keyed events in the order of a stable sort by timestamp.
pub fn events_in_timestamp_order<T>(events: &OrderedMap<SignedEvent<T>>) -> (order: Vec<usize>)
    ensures
        is_timestamp_order(event_timestamps(events@), order@),
        order@.len() == events@.len(),
        forall|x: int| 0 <= x < order@.len() ==> #[trigger] order@[x] < events@.len(),
        forall|x: int, y: int|
            0 <= x < y < order@.len() ==> events@[#[trigger] order@[x] as int].1.event.timestamp
                <= events@[#[trigger] order@[y] as int].1.event.timestamp,
        forall|x: int, y: int|
            0 <= x < y < order@.len() && events@[#[trigger] order@[x] as int].1.event.timestamp
                == events@[#[trigger] order@[y] as int].1.event.timestamp ==> order@[x] < order@[y],
        forall|x: int, y: int|
            0 <= x < y < order@.len() ==> #[trigger] order@[x] != #[trigger] order@[y],
{
    let n = events.len();
    let mut ts: Vec<i64> = Vec::new();
    for i in 0..n
        invariant
            n == events@.len(),
            ts@ == event_timestamps(events@).take(i as int),
    {
        let e = events.entry(i);
        ts.push(e.1.event.timestamp);
        assert(ts@ =~= event_timestamps(events@).take(i + 1));
    }
    assert(ts@ =~= event_timestamps(events@));
    timestamp_order(&ts)
}

/// The order of a stable sort by timestamp is unique: any two such orders of
/// the same timestamps are the same.
pub proof fn law_timestamp_order_unique(ts: Seq<i64>, o1: Seq<usize>, o2: Seq<usize>)
    requires
        is_timestamp_order(ts, o1),
        is_timestamp_order(ts, o2),
    ensures
        o1 == o2,
{
    if o1.len() > 0 {
        lemma_orders_agree_upto(ts, o1, o2, o1.len() - 1);
    }
    assert(o1 =~= o2);
}

/// Two stable timestamp orders agree on their first `x + 1` positions.
proof fn lemma_orders_agree_upto(ts: Seq<i64>, o1: Seq<usize>, o2: Seq<usize>, x: int)
    requires
        is_timestamp_order(ts, o1),
        is_timestamp_order(ts, o2),
        0 <= x < o1.len(),
    ensures
        forall|y: int| 0 <= y <= x ==> o1[y] == o2[y],
    decreases x,
{
    if x > 0 {
        lemma_orders_agree_upto(ts, o1, o2, x - 1);
    }
    let a = o1[x] as int;
    let b = o2[x] as int;
    if a != b {
        assert(lists_position(o1, b));
        let x1 = choose|x1: int| 0 <= x1 < o1.len() && #[trigger] o1[x1] == b;
        assert(lists_position(o2, a));
        let x2 = choose|x2: int| 0 <= x2 < o2.len() && #[trigger] o2[x2] == a;
        if x1 < x {
            assert(o2[x1] == b);
            assert(precedes(ts, o2[x1] as int, o2[x] as int));
        }
        if x2 < x {
            assert(o1[x2] == a);
            assert(precedes(ts, o1[x2] as int, o1[x] as int));
        }
        assert(x1 != x && x2 != x);
        assert(precedes(ts, o1[x] as int, o1[x1] as int));
        assert(precedes(ts, o2[x] as int, o2[x2] as int));
    }
}

} // verus!
