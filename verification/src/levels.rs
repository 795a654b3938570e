//! One side of the book as price levels: an ordered map from price to the
//! queue of orders resting at that price, earliest first. The side's orders in
//! priority order are the levels joined from the best price to the worst.

use crate::order::{ranks_ahead, Order, OrderId, Price, Side};
use crate::priority::{
    distinct_ids, has_id, lemma_position_of, lemma_rest_index_is, position_of, rest_index,
    resting_ok,
};
use std::collections::{BTreeMap, VecDeque};
use vstd::prelude::*;
use vstd::std_specs::vecdeque::VecDequeAdditionalSpecFns;

verus! {

/// The orders that rest at one price, earliest first.
pub type Level = VecDeque<Order>;

/// The rank of a price on `side`: 0 for the most attractive price a side can
/// hold, growing as prices get worse.
pub open spec fn rank_of(side: Side, price: Price) -> int {
    match side {
        Side::Buy => u64::MAX - price,
        Side::Sell => price as int,
    }
}

/// The price that has rank `r` on `side`.
pub open spec fn price_at(side: Side, r: int) -> Price {
    match side {
        Side::Buy => (u64::MAX - r) as u64,
        Side::Sell => r as u64,
    }
}

/// One more than the worst rank.
pub open spec fn rank_end() -> int {
    u64::MAX + 1
}

/// The queue at rank `r`, empty where the map has no level there.
pub open spec fn level_at(m: Map<Price, Level>, side: Side, r: int) -> Seq<Order> {
    if 0 <= r < rank_end() && m.contains_key(price_at(side, r)) {
        m[price_at(side, r)]@
    } else {
        Seq::empty()
    }
}

/// The queues at ranks `lo` up to but not including `hi`, joined in rank
/// order.
pub open spec fn flatten(m: Map<Price, Level>, side: Side, lo: int, hi: int) -> Seq<Order>
    decreases hi - lo,
{
    if lo >= hi {
        Seq::empty()
    } else {
        flatten(m, side, lo, hi - 1) + level_at(m, side, hi - 1)
    }
}

/// All orders of one side, best first.
pub open spec fn queue_of(m: Map<Price, Level>, side: Side) -> Seq<Order> {
    flatten(m, side, 0, rank_end())
}

/// A level holds at least one order; its orders may rest on `side`, carry the
/// level's price, and stand in the order of their timestamps.
pub open spec fn level_ok(lvl: Seq<Order>, side: Side, price: Price) -> bool {
    &&& lvl.len() > 0
    &&& forall|i: int|
        0 <= i < lvl.len() ==> resting_ok(side, #[trigger] lvl[i]) && lvl[i].price == price
    &&& forall|i: int, j: int|
        0 <= i < j < lvl.len() ==> (#[trigger] lvl[i]).timestamp <= (#[trigger] lvl[j]).timestamp
}

/// Every level of the map is in order.
pub open spec fn levels_ok(m: Map<Price, Level>, side: Side) -> bool {
    forall|p: Price| m.contains_key(p) ==> level_ok(#[trigger] m[p]@, side, p)
}

/// Every price has a rank, and is the price at its rank.
pub proof fn lemma_rank_price(side: Side, p: Price)
    ensures
        0 <= rank_of(side, p) < rank_end(),
        price_at(side, rank_of(side, p)) == p,
{
}

/// Every rank is the rank of the price at it.
pub proof fn lemma_price_rank(side: Side, r: int)
    requires
        0 <= r < rank_end(),
    ensures
        rank_of(side, price_at(side, r)) == r,
{
}

/// A range of ranks flattens to what its two parts flatten to, joined.
pub proof fn lemma_flatten_split(m: Map<Price, Level>, side: Side, lo: int, mid: int, hi: int)
    requires
        lo <= mid <= hi,
    ensures
        flatten(m, side, lo, hi) == flatten(m, side, lo, mid) + flatten(m, side, mid, hi),
    decreases hi - mid,
{
    if mid == hi {
        assert(flatten(m, side, mid, hi) =~= Seq::empty());
        assert(flatten(m, side, lo, mid) + Seq::<Order>::empty() =~= flatten(m, side, lo, mid));
    } else {
        lemma_flatten_split(m, side, lo, mid, hi - 1);
        assert((flatten(m, side, lo, mid) + flatten(m, side, mid, hi - 1)) + level_at(
            m,
            side,
            hi - 1,
        ) =~= flatten(m, side, lo, mid) + (flatten(m, side, mid, hi - 1) + level_at(
            m,
            side,
            hi - 1,
        )));
    }
}

/// A single rank flattens to its level.
pub proof fn lemma_flatten_one(m: Map<Price, Level>, side: Side, r: int)
    ensures
        flatten(m, side, r, r + 1) == level_at(m, side, r),
{
    assert(flatten(m, side, r, r) =~= Seq::empty());
    assert(Seq::<Order>::empty() + level_at(m, side, r) =~= level_at(m, side, r));
}

/// Two maps with the same levels over a range of ranks flatten alike there.
pub proof fn lemma_flatten_frame(
    m1: Map<Price, Level>,
    m2: Map<Price, Level>,
    side: Side,
    lo: int,
    hi: int,
)
    requires
        forall|r: int| lo <= r < hi ==> level_at(m1, side, r) == level_at(m2, side, r),
    ensures
        flatten(m1, side, lo, hi) == flatten(m2, side, lo, hi),
    decreases hi - lo,
{
    if lo < hi {
        lemma_flatten_frame(m1, m2, side, lo, hi - 1);
    }
}

/// A range of ranks without a level flattens to nothing.
pub proof fn lemma_flatten_empty(m: Map<Price, Level>, side: Side, lo: int, hi: int)
    requires
        forall|r: int| lo <= r < hi ==> level_at(m, side, r).len() == 0,
    ensures
        flatten(m, side, lo, hi) == Seq::<Order>::empty(),
    decreases hi - lo,
{
    if lo < hi {
        lemma_flatten_empty(m, side, lo, hi - 1);
        assert(level_at(m, side, hi - 1) =~= Seq::empty());
        assert(Seq::<Order>::empty() + Seq::<Order>::empty() =~= Seq::<Order>::empty());
    }
}

/// Every order of a flattened range may rest on the side and has its rank
/// within the range.
pub proof fn lemma_flatten_members(m: Map<Price, Level>, side: Side, lo: int, hi: int)
    requires
        levels_ok(m, side),
    ensures
        forall|i: int|
            0 <= i < flatten(m, side, lo, hi).len() ==> {
                let o = #[trigger] flatten(m, side, lo, hi)[i];
                resting_ok(side, o) && lo <= rank_of(side, o.price) < hi
            },
    decreases hi - lo,
{
    if lo < hi {
        lemma_flatten_members(m, side, lo, hi - 1);
        let a = flatten(m, side, lo, hi - 1);
        let l = level_at(m, side, hi - 1);
        assert forall|i: int| 0 <= i < (a + l).len() implies {
            let o = #[trigger] (a + l)[i];
            resting_ok(side, o) && lo <= rank_of(side, o.price) < hi
        } by {
            if i < a.len() {
                assert((a + l)[i] == a[i]);
            } else {
                assert((a + l)[i] == l[i - a.len()]);
                let p = price_at(side, hi - 1);
                assert(level_ok(m[p]@, side, p));
                lemma_price_rank(side, hi - 1);
            }
        }
    }
}

/// The whole queue, cut around the level at rank `r`.
pub proof fn lemma_queue_around(m: Map<Price, Level>, side: Side, r: int)
    requires
        0 <= r < rank_end(),
    ensures
        queue_of(m, side) == flatten(m, side, 0, r) + level_at(m, side, r) + flatten(
            m,
            side,
            r + 1,
            rank_end(),
        ),
{
    lemma_flatten_split(m, side, 0, r + 1, rank_end());
    lemma_flatten_split(m, side, 0, r, r + 1);
    lemma_flatten_one(m, side, r);
}

/// `BTreeMap::first_key_value`: the smallest key of the map, or `None` for a
/// map without keys.
#[verifier::external_body]
fn lowest_key(levels: &BTreeMap<Price, Level>) -> (r: Option<Price>)
    ensures
        match r {
            Some(k) => levels@.contains_key(k) && forall|j: Price|
                levels@.contains_key(j) ==> k <= j,
            None => forall|j: Price| !levels@.contains_key(j),
        },
{
    match levels.first_key_value() {
        Some((k, _)) => Some(*k),
        None => None,
    }
}

/// `BTreeMap::last_key_value`: the largest key of the map, or `None` for a
/// map without keys.
#[verifier::external_body]
fn highest_key(levels: &BTreeMap<Price, Level>) -> (r: Option<Price>)
    ensures
        match r {
            Some(k) => levels@.contains_key(k) && forall|j: Price|
                levels@.contains_key(j) ==> j <= k,
            None => forall|j: Price| !levels@.contains_key(j),
        },
{
    match levels.last_key_value() {
        Some((k, _)) => Some(*k),
        None => None,
    }
}

/// The most attractive price that has a level: the highest for buys, the
/// lowest for sells.
pub fn best_price(levels: &BTreeMap<Price, Level>, side: Side) -> (r: Option<Price>)
    ensures
        match r {
            Some(p) => levels@.contains_key(p) && forall|q: Price|
                levels@.contains_key(q) ==> rank_of(side, p) <= rank_of(side, q),
            None => forall|q: Price| !levels@.contains_key(q),
        },
{
    match side {
        Side::Buy => highest_key(levels),
        Side::Sell => lowest_key(levels),
    }
}

/// Without a level below rank `r`, the queue starts with the level there.
pub proof fn lemma_queue_from_best(m: Map<Price, Level>, side: Side, p: Price)
    requires
        forall|q: Price| m.contains_key(q) ==> rank_of(side, p) <= rank_of(side, q),
    ensures
        queue_of(m, side) == level_at(m, side, rank_of(side, p)) + flatten(
            m,
            side,
            rank_of(side, p) + 1,
            rank_end(),
        ),
{
    let r = rank_of(side, p);
    assert forall|s: int| 0 <= s < r implies level_at(m, side, s).len() == 0 by {
        lemma_price_rank(side, s);
    }
    lemma_flatten_empty(m, side, 0, r);
    lemma_queue_around(m, side, r);
    assert(Seq::<Order>::empty() + level_at(m, side, r) =~= level_at(m, side, r));
}

/// A map without levels has an empty queue.
pub proof fn lemma_queue_of_nothing(m: Map<Price, Level>, side: Side)
    requires
        forall|q: Price| !m.contains_key(q),
    ensures
        queue_of(m, side) == Seq::<Order>::empty(),
{
    lemma_flatten_empty(m, side, 0, rank_end());
}

/// The first order of the side's queue, if there is one.
pub fn levels_peek(levels: &BTreeMap<Price, Level>, side: Side) -> (r: Option<Order>)
    requires
        levels_ok(levels@, side),
    ensures
        match r {
            Some(o) => queue_of(levels@, side).len() > 0 && o == queue_of(levels@, side)[0],
            None => queue_of(levels@, side).len() == 0,
        },
{
    match best_price(levels, side) {
        None => {
            proof {
                lemma_queue_of_nothing(levels@, side);
            }
            None
        },
        Some(p) => {
            proof {
                lemma_queue_from_best(levels@, side, p);
                lemma_rank_price(side, p);
                assert(level_ok(levels@[p]@, side, p));
            }
            match levels.get(&p) {
                Some(lvl) => Some(lvl[0]),
                None => None,
            }
        },
    }
}

/// Two maps that differ at most in the level at price `p` flatten alike on
/// both sides of that level.
pub proof fn lemma_flatten_beside(
    m1: Map<Price, Level>,
    m2: Map<Price, Level>,
    side: Side,
    p: Price,
)
    requires
        same_beside(m1, m2, p),
    ensures
        flatten(m1, side, 0, rank_of(side, p)) == flatten(m2, side, 0, rank_of(side, p)),
        flatten(m1, side, rank_of(side, p) + 1, rank_end()) == flatten(
            m2,
            side,
            rank_of(side, p) + 1,
            rank_end(),
        ),
{
    let r = rank_of(side, p);
    assert forall|s: int| s != r implies level_at(m1, side, s) == level_at(m2, side, s) by {
        if 0 <= s < rank_end() {
            lemma_price_rank(side, s);
        }
    }
    lemma_flatten_frame(m1, m2, side, 0, r);
    lemma_flatten_frame(m1, m2, side, r + 1, rank_end());
}

/// Takes the first order off the side's queue.
pub fn levels_pop(levels: &mut BTreeMap<Price, Level>, side: Side) -> (r: Option<Order>)
    requires
        levels_ok(old(levels)@, side),
    ensures
        levels_ok(final(levels)@, side),
        match r {
            Some(o) => {
                &&& queue_of(old(levels)@, side).len() > 0
                &&& o == queue_of(old(levels)@, side)[0]
                &&& queue_of(final(levels)@, side) == queue_of(old(levels)@, side).drop_first()
            },
            None => queue_of(old(levels)@, side).len() == 0 && final(levels)@ == old(levels)@,
        },
{
    match best_price(levels, side) {
        None => {
            proof {
                lemma_queue_of_nothing(levels@, side);
            }
            None
        },
        Some(p) => {
            proof {
                lemma_rank_price(side, p);
                assert(level_ok(levels@[p]@, side, p));
            }
            match levels.remove(&p) {
                Some(mut lvl) => {
                    let ghost before = lvl@;
                    let o = match lvl.pop_front() {
                        Some(o) => o,
                        None => {
                            return None;
                        },
                    };
                    if lvl.len() > 0 {
                        levels.insert(p, lvl);
                    }
                    proof {
                        assert(lvl@ =~= before.drop_first());
                        let m0 = old(levels)@;
                        let m1 = levels@;
                        let r = rank_of(side, p);
                        lemma_queue_from_best(m0, side, p);
                        lemma_queue_from_best(m1, side, p);
                        lemma_flatten_beside(m0, m1, side, p);
                        assert(level_at(m1, side, r) =~= before.drop_first());
                        let rest = flatten(m0, side, r + 1, rank_end());
                        assert(before.drop_first() + rest =~= (before + rest).drop_first());
                        assert forall|q: Price| m1.contains_key(q) implies level_ok(
                            #[trigger] m1[q]@,
                            side,
                            q,
                        ) by {
                            if q != p {
                                assert(level_ok(m0[q]@, side, q));
                            } else {
                                assert(m1[q]@ =~= before.drop_first());
                            }
                        }
                    }
                    Some(o)
                },
                None => None,
            }
        },
    }
}

/// Where in a level `order` goes: before the first order with a later
/// timestamp. The search starts at the end, where an order with the latest
/// timestamp belongs.
fn level_slot(lvl: &Level, order: &Order) -> (pos: usize)
    requires
        forall|i: int, j: int|
            0 <= i < j < lvl.len() ==> (#[trigger] lvl[i]).timestamp <= (#[trigger] lvl[j]).timestamp,
    ensures
        pos <= lvl.len(),
        forall|i: int| 0 <= i < pos ==> (#[trigger] lvl[i]).timestamp <= order.timestamp,
        pos < lvl.len() ==> lvl[pos as int].timestamp > order.timestamp,
{
    let mut pos: usize = lvl.len();
    while pos > 0 && lvl[pos - 1].timestamp > order.timestamp
        invariant
            pos <= lvl.len(),
            forall|i: int| pos <= i < lvl.len() ==> (#[trigger] lvl[i]).timestamp > order.timestamp,
        decreases pos,
    {
        pos -= 1;
    }
    proof {
        if pos > 0 {
            assert forall|i: int| 0 <= i < pos implies (#[trigger] lvl[i]).timestamp
                <= order.timestamp by {
                if i < pos - 1 {
                    assert(lvl[i].timestamp <= lvl[pos - 1].timestamp);
                }
            }
        }
    }
    pos
}

/// Two maps agree on every level but the one at price `p`.
pub open spec fn same_beside(m1: Map<Price, Level>, m2: Map<Price, Level>, p: Price) -> bool {
    forall|q: Price|
        #![trigger m1.contains_key(q)]
        #![trigger m2.contains_key(q)]
        q != p ==> m1.contains_key(q) == m2.contains_key(q) && (m1.contains_key(q) ==> m1[q]
            == m2[q])
}

/// Changing one level keeps the levels in order where the new level is.
pub proof fn lemma_levels_ok_beside(
    m0: Map<Price, Level>,
    m1: Map<Price, Level>,
    side: Side,
    p: Price,
)
    requires
        levels_ok(m0, side),
        same_beside(m0, m1, p),
        m1.contains_key(p) ==> level_ok(m1[p]@, side, p),
    ensures
        levels_ok(m1, side),
{
    assert forall|q: Price| m1.contains_key(q) implies level_ok(#[trigger] m1[q]@, side, q) by {
        if q != p {
            assert(level_ok(m0[q]@, side, q));
        }
    }
}

/// A level stays in order when an order is put in by its timestamp.
pub proof fn lemma_level_insert(before: Seq<Order>, order: Order, pos: int)
    requires
        before.len() > 0 ==> level_ok(before, order.side, order.price),
        resting_ok(order.side, order),
        0 <= pos <= before.len(),
        forall|i: int| 0 <= i < pos ==> (#[trigger] before[i]).timestamp <= order.timestamp,
        pos < before.len() ==> before[pos].timestamp >= order.timestamp,
    ensures
        level_ok(before.insert(pos, order), order.side, order.price),
{
    let l1 = before.insert(pos, order);
    assert forall|i: int| 0 <= i < l1.len() implies resting_ok(order.side, #[trigger] l1[i])
        && l1[i].price == order.price by {
        if i < pos {
            assert(l1[i] == before[i]);
        } else if i > pos {
            assert(l1[i] == before[i - 1]);
        }
    }
    assert forall|i: int, j: int| 0 <= i < j < l1.len() implies (#[trigger] l1[i]).timestamp <= (
    #[trigger] l1[j]).timestamp by {
        if j < pos {
            assert(l1[i] == before[i] && l1[j] == before[j]);
        } else if j == pos {
            assert(l1[i] == before[i]);
        } else if i == pos {
            assert(l1[j] == before[j - 1]);
            if j - 1 > pos {
                assert(before[pos].timestamp <= before[j - 1].timestamp);
            }
        } else if i < pos {
            assert(l1[i] == before[i] && l1[j] == before[j - 1]);
        } else {
            assert(l1[i] == before[i - 1] && l1[j] == before[j - 1]);
        }
    }
}

/// Putting an order into its level by timestamp rests it in the queue.
pub proof fn lemma_rest_in_level(
    m0: Map<Price, Level>,
    m1: Map<Price, Level>,
    order: Order,
    pos: int,
)
    requires
        levels_ok(m0, order.side),
        same_beside(m0, m1, order.price),
        m1.contains_key(order.price),
        ({
            let before = level_at(m0, order.side, rank_of(order.side, order.price));
            &&& 0 <= pos <= before.len()
            &&& m1[order.price]@ == before.insert(pos, order)
            &&& forall|i: int| 0 <= i < pos ==> (#[trigger] before[i]).timestamp <= order.timestamp
            &&& pos < before.len() ==> before[pos].timestamp > order.timestamp
        }),
    ensures
        queue_of(m1, order.side) == queue_of(m0, order.side).insert(
            rest_index(order.side, queue_of(m0, order.side), order),
            order,
        ),
{
    let side = order.side;
    let p = order.price;
    let r = rank_of(side, p);
    lemma_rank_price(side, p);
    let before = level_at(m0, side, r);
    let a = flatten(m0, side, 0, r);
    let b = flatten(m0, side, r + 1, rank_end());
    let q0 = queue_of(m0, side);
    let k = a.len() + pos;
    assert(q0 == a + before + b) by {
        lemma_queue_around(m0, side, r);
    }
    assert(queue_of(m1, side) == a + before.insert(pos, order) + b) by {
        lemma_queue_around(m1, side, r);
        lemma_flatten_beside(m0, m1, side, p);
    }
    assert(a + before.insert(pos, order) + b =~= (a + before + b).insert(k, order));
    assert(before.len() > 0 ==> level_ok(before, side, p));
    assert forall|i: int| 0 <= i < k implies !ranks_ahead(side, order, #[trigger] q0[i]) by {
        if i < a.len() {
            lemma_flatten_members(m0, side, 0, r);
            assert(q0[i] == a[i]);
        } else {
            assert(q0[i] == before[i - a.len()]);
        }
    }
    if k < q0.len() {
        if pos < before.len() {
            assert(q0[k] == before[pos]);
        } else {
            lemma_flatten_members(m0, side, r + 1, rank_end());
            assert(q0[k] == b[0]);
        }
    }
    lemma_rest_index_is(side, q0, order, k);
}

/// Rests `order` on its side: in the level of its price, behind the orders
/// whose timestamp is not later than its own.
pub fn levels_rest(levels: &mut BTreeMap<Price, Level>, order: Order)
    requires
        levels_ok(old(levels)@, order.side),
        resting_ok(order.side, order),
    ensures
        levels_ok(final(levels)@, order.side),
        queue_of(final(levels)@, order.side) == queue_of(old(levels)@, order.side).insert(
            rest_index(order.side, queue_of(old(levels)@, order.side), order),
            order,
        ),
{
    let p = order.price;
    let mut lvl = match levels.remove(&p) {
        Some(l) => l,
        None => VecDeque::new(),
    };
    let ghost before = lvl@;
    proof {
        if old(levels)@.contains_key(p) {
            assert(level_ok(old(levels)@[p]@, order.side, p));
        }
    }
    let pos = level_slot(&lvl, &order);
    lvl.insert(pos, order);
    levels.insert(p, lvl);
    proof {
        let m0 = old(levels)@;
        let m1 = levels@;
        lemma_rank_price(order.side, p);
        assert(level_at(m0, order.side, rank_of(order.side, p)) =~= before);
        if m0.contains_key(p) {
            assert(level_ok(m0[p]@, order.side, p));
        }
        lemma_level_insert(before, order, pos as int);
        lemma_levels_ok_beside(m0, m1, order.side, p);
        lemma_rest_in_level(m0, m1, order, pos as int);
    }
}

/// The first order of the queue has the best rank of all levels.
pub proof fn lemma_head_is_best(m: Map<Price, Level>, side: Side, q: Price)
    requires
        levels_ok(m, side),
        m.contains_key(q),
    ensures
        queue_of(m, side).len() > 0,
        rank_of(side, queue_of(m, side)[0].price) <= rank_of(side, q),
{
    let r = rank_of(side, q);
    lemma_rank_price(side, q);
    lemma_queue_around(m, side, r);
    lemma_flatten_members(m, side, 0, r);
    let a = flatten(m, side, 0, r);
    let l = level_at(m, side, r);
    let b = flatten(m, side, r + 1, rank_end());
    assert(level_ok(m[q]@, side, q));
    if a.len() > 0 {
        assert((a + l + b)[0] == a[0]);
    } else {
        assert((a + l + b)[0] == l[0]);
    }
}

/// Putting an order in front of its level, where no level is better, puts it
/// in front of the queue.
pub proof fn lemma_restore_in_level(
    m0: Map<Price, Level>,
    m1: Map<Price, Level>,
    order: Order,
)
    requires
        levels_ok(m0, order.side),
        resting_ok(order.side, order),
        queue_of(m0, order.side).len() > 0 ==> !ranks_ahead(
            order.side,
            queue_of(m0, order.side)[0],
            order,
        ),
        same_beside(m0, m1, order.price),
        m1.contains_key(order.price),
        m1[order.price]@ == level_at(m0, order.side, rank_of(order.side, order.price)).insert(
            0,
            order,
        ),
    ensures
        queue_of(m1, order.side) == seq![order] + queue_of(m0, order.side),
        levels_ok(m1, order.side),
{
    let side = order.side;
    let p = order.price;
    let r = rank_of(side, p);
    lemma_rank_price(side, p);
    let before = level_at(m0, side, r);
    assert forall|q: Price| m0.contains_key(q) implies r <= rank_of(side, q) by {
        lemma_head_is_best(m0, side, q);
    }
    assert forall|q: Price| m1.contains_key(q) implies r <= rank_of(side, q) by {
        if q != p {
            assert(m0.contains_key(q));
        }
    }
    lemma_queue_from_best(m0, side, p);
    lemma_queue_from_best(m1, side, p);
    lemma_flatten_beside(m0, m1, side, p);
    let b = flatten(m0, side, r + 1, rank_end());
    assert(before.insert(0, order) + b =~= seq![order] + (before + b));
    if before.len() > 0 {
        assert(level_ok(m0[p]@, side, p));
        assert((before + b)[0] == before[0]);
    }
    lemma_level_insert(before, order, 0);
    lemma_levels_ok_beside(m0, m1, side, p);
}

/// Puts `order` in front of its side's queue. It must not rank behind the
/// order that is first now.
pub fn levels_restore(levels: &mut BTreeMap<Price, Level>, order: Order)
    requires
        levels_ok(old(levels)@, order.side),
        resting_ok(order.side, order),
        queue_of(old(levels)@, order.side).len() > 0 ==> !ranks_ahead(
            order.side,
            queue_of(old(levels)@, order.side)[0],
            order,
        ),
    ensures
        levels_ok(final(levels)@, order.side),
        queue_of(final(levels)@, order.side) == seq![order] + queue_of(old(levels)@, order.side),
{
    let p = order.price;
    let mut lvl = match levels.remove(&p) {
        Some(l) => l,
        None => VecDeque::new(),
    };
    let ghost before = lvl@;
    lvl.push_front(order);
    levels.insert(p, lvl);
    proof {
        let m0 = old(levels)@;
        lemma_rank_price(order.side, p);
        assert(level_at(m0, order.side, rank_of(order.side, p)) =~= before);
        assert(seq![order] + before =~= before.insert(0, order));
        lemma_restore_in_level(m0, levels@, order);
    }
}

/// The place in a level of the first order that carries `id`.
fn level_find(lvl: &Level, id: OrderId) -> (r: Option<usize>)
    ensures
        match r {
            Some(j) => j < lvl.len() && lvl[j as int].id == id,
            None => forall|i: int| 0 <= i < lvl.len() ==> (#[trigger] lvl[i]).id != id,
        },
{
    let mut j: usize = 0;
    while j < lvl.len()
        invariant
            j <= lvl.len(),
            forall|i: int| 0 <= i < j ==> (#[trigger] lvl[i]).id != id,
        decreases lvl.len() - j,
    {
        if lvl[j].id == id {
            return Some(j);
        }
        j += 1;
    }
    None
}

/// Every order of the queue with price `p` stands in the level of `p`.
pub proof fn lemma_member_in_level(m: Map<Price, Level>, side: Side, i: int)
    requires
        levels_ok(m, side),
        0 <= i < queue_of(m, side).len(),
    ensures
        ({
            let o = queue_of(m, side)[i];
            let r = rank_of(side, o.price);
            let a = flatten(m, side, 0, r);
            &&& a.len() <= i < a.len() + level_at(m, side, r).len()
            &&& level_at(m, side, r)[i - a.len()] == o
            &&& m.contains_key(o.price)
        }),
{
    let o = queue_of(m, side)[i];
    let r = rank_of(side, o.price);
    lemma_rank_price(side, o.price);
    lemma_queue_around(m, side, r);
    lemma_flatten_members(m, side, 0, r);
    lemma_flatten_members(m, side, r + 1, rank_end());
    let a = flatten(m, side, 0, r);
    let l = level_at(m, side, r);
    let b = flatten(m, side, r + 1, rank_end());
    if i < a.len() {
        assert((a + l + b)[i] == a[i]);
    } else if i >= a.len() + l.len() {
        assert((a + l + b)[i] == b[i - a.len() - l.len()]);
    } else {
        assert((a + l + b)[i] == l[i - a.len()]);
    }
}

/// Taking the order at place `j` out of the level at price `p` takes it out
/// of the queue.
pub proof fn lemma_take_in_level(
    m0: Map<Price, Level>,
    m1: Map<Price, Level>,
    side: Side,
    p: Price,
    j: int,
)
    requires
        levels_ok(m0, side),
        distinct_ids(queue_of(m0, side)),
        same_beside(m0, m1, p),
        m0.contains_key(p),
        0 <= j < m0[p]@.len(),
        m0[p]@.len() == 1 ==> !m1.contains_key(p),
        m0[p]@.len() > 1 ==> m1.contains_key(p) && m1[p]@ == m0[p]@.remove(j),
    ensures
        levels_ok(m1, side),
        has_id(queue_of(m0, side), m0[p]@[j].id),
        ({
            let k = position_of(queue_of(m0, side), m0[p]@[j].id);
            &&& 0 <= k < queue_of(m0, side).len()
            &&& queue_of(m0, side)[k] == m0[p]@[j]
            &&& queue_of(m1, side) == queue_of(m0, side).remove(k)
        }),
{
    let r = rank_of(side, p);
    lemma_rank_price(side, p);
    let before = m0[p]@;
    assert(level_ok(before, side, p));
    let a = flatten(m0, side, 0, r);
    let b = flatten(m0, side, r + 1, rank_end());
    let q0 = queue_of(m0, side);
    let k = a.len() + j;
    assert(q0 == a + before + b) by {
        lemma_queue_around(m0, side, r);
    }
    assert(level_at(m1, side, r) =~= before.remove(j));
    assert(queue_of(m1, side) == a + before.remove(j) + b) by {
        lemma_queue_around(m1, side, r);
        lemma_flatten_beside(m0, m1, side, p);
    }
    assert(a + before.remove(j) + b =~= (a + before + b).remove(k));
    assert(q0[k] == before[j]);
    lemma_position_of(q0, k);
    if m1.contains_key(p) {
        let l1 = before.remove(j);
        assert forall|i: int| 0 <= i < l1.len() implies resting_ok(side, #[trigger] l1[i])
            && l1[i].price == p by {
            if i < j {
                assert(l1[i] == before[i]);
            } else {
                assert(l1[i] == before[i + 1]);
            }
        }
        assert forall|i: int, n: int| 0 <= i < n < l1.len() implies (#[trigger] l1[i]).timestamp
            <= (#[trigger] l1[n]).timestamp by {
            let si = if i < j { i } else { i + 1 };
            let sn = if n < j { n } else { n + 1 };
            assert(l1[i] == before[si] && l1[n] == before[sn]);
        }
    }
    lemma_levels_ok_beside(m0, m1, side, p);
}

/// Takes the order with `id` out of the level at `price`, if it is there.
pub fn levels_take(
    levels: &mut BTreeMap<Price, Level>,
    side: Side,
    price: Price,
    id: OrderId,
) -> (r: Option<Order>)
    requires
        levels_ok(old(levels)@, side),
        distinct_ids(queue_of(old(levels)@, side)),
    ensures
        levels_ok(final(levels)@, side),
        match r {
            Some(o) => {
                let q0 = queue_of(old(levels)@, side);
                &&& has_id(q0, id)
                &&& 0 <= position_of(q0, id) < q0.len()
                &&& o == q0[position_of(q0, id)]
                &&& queue_of(final(levels)@, side) == q0.remove(position_of(q0, id))
            },
            None => {
                &&& final(levels)@ == old(levels)@
                &&& forall|i: int|
                    0 <= i < queue_of(old(levels)@, side).len() && (#[trigger] queue_of(
                        old(levels)@,
                        side,
                    )[i]).price == price ==> queue_of(old(levels)@, side)[i].id != id
            },
        },
{
    let found = match levels.get(&price) {
        Some(lvl) => level_find(lvl, id),
        None => None,
    };
    match found {
        None => {
            proof {
                let q0 = queue_of(levels@, side);
                assert forall|i: int| 0 <= i < q0.len() && (#[trigger] q0[i]).price
                    == price implies q0[i].id != id by {
                    lemma_member_in_level(levels@, side, i);
                }
            }
            None
        },
        Some(j) => {
            match levels.remove(&price) {
                Some(mut lvl) => {
                    let o = match lvl.remove(j) {
                        Some(o) => o,
                        None => {
                            return None;
                        },
                    };
                    if lvl.len() > 0 {
                        levels.insert(price, lvl);
                    }
                    proof {
                        lemma_take_in_level(old(levels)@, levels@, side, price, j as int);
                    }
                    Some(o)
                },
                None => None,
            }
        },
    }
}

/// Removing the best level removes its orders from the front of the queue.
pub proof fn lemma_drop_best_level(
    m0: Map<Price, Level>,
    m1: Map<Price, Level>,
    side: Side,
    p: Price,
)
    requires
        levels_ok(m0, side),
        m0.contains_key(p),
        forall|q: Price| m0.contains_key(q) ==> rank_of(side, p) <= rank_of(side, q),
        m1 == m0.remove(p),
    ensures
        levels_ok(m1, side),
        queue_of(m0, side) == m0[p]@ + queue_of(m1, side),
        m0[p]@.len() > 0,
{
    lemma_rank_price(side, p);
    assert(level_ok(m0[p]@, side, p));
    assert forall|q: Price| m1.contains_key(q) implies rank_of(side, p) <= rank_of(side, q) by {
        assert(m0.contains_key(q));
    }
    lemma_queue_from_best(m0, side, p);
    lemma_queue_from_best(m1, side, p);
    lemma_flatten_beside(m0, m1, side, p);
    assert(level_at(m1, side, rank_of(side, p)) =~= Seq::empty());
    let rest = flatten(m0, side, rank_of(side, p) + 1, rank_end());
    assert(Seq::<Order>::empty() + rest =~= rest);
    lemma_levels_ok_beside(m0, m1, side, p);
}

/// All orders of the side, best first.
pub fn levels_collect(levels: &BTreeMap<Price, Level>, side: Side) -> (out: Vec<Order>)
    requires
        levels_ok(levels@, side),
    ensures
        out@ == queue_of(levels@, side),
{
    let mut rest = levels.clone();
    let mut out: Vec<Order> = Vec::new();
    assert(out@ + queue_of(rest@, side) =~= queue_of(levels@, side));
    loop
        invariant
            levels_ok(rest@, side),
            out@ + queue_of(rest@, side) == queue_of(levels@, side),
        ensures
            queue_of(rest@, side).len() == 0,
        decreases queue_of(rest@, side).len(),
    {
        match best_price(&rest, side) {
            None => {
                proof {
                    lemma_queue_of_nothing(rest@, side);
                }
                break ;
            },
            Some(p) => {
                let ghost m0 = rest@;
                let ghost before = out@;
                assert(before + Seq::<Order>::empty() =~= before);
                match rest.remove(&p) {
                    Some(lvl) => {
                        let mut i: usize = 0;
                        while i < lvl.len()
                            invariant
                                i <= lvl.len(),
                                out@ == before + lvl@.take(i as int),
                            decreases lvl.len() - i,
                        {
                            out.push(lvl[i]);
                            proof {
                                assert(lvl@.take(i as int).push(lvl@[i as int]) =~= lvl@.take(
                                    i + 1,
                                ));
                                assert((before + lvl@.take(i as int)).push(lvl@[i as int])
                                    =~= before + lvl@.take(i + 1));
                            }
                            i += 1;
                        }
                        assert(lvl@.take(i as int) =~= lvl@);
                    },
                    None => {},
                }
                proof {
                    lemma_drop_best_level(m0, rest@, side, p);
                    assert((before + m0[p]@) + queue_of(rest@, side) =~= before + (m0[p]@
                        + queue_of(rest@, side)));
                }
            },
        }
    }
    assert(out@ + queue_of(rest@, side) =~= out@);
    out
}

} // verus!
