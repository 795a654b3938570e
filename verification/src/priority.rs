//! Queues of resting orders as sequences, best order first, and what the
//! priority rules imply for them.

use crate::order::{ranks_ahead, Order, OrderId, Side};
use vstd::prelude::*;

verus! {

/// An order that may rest on `side`: a limit order of that side with
/// something left to trade.
pub open spec fn resting_ok(side: Side, o: Order) -> bool {
    &&& o.side == side
    &&& o.order_type is Limit
    &&& o.quantity > 0
}

/// Every order of `s` may rest on `side`.
pub open spec fn all_resting(side: Side, s: Seq<Order>) -> bool {
    forall|i: int| 0 <= i < s.len() ==> resting_ok(side, #[trigger] s[i])
}

/// `s` is in priority order for `side`: no order has strict priority over one
/// that stands before it.
pub open spec fn in_priority_order(side: Side, s: Seq<Order>) -> bool {
    forall|i: int, j: int| 0 <= i < j < s.len() ==> !ranks_ahead(side, #[trigger] s[j], #[trigger] s[i])
}

/// Where a new order `o` comes to rest in the queue `s`: before the first
/// order over which it has strict priority, and so behind every order with a
/// better price or with the same price and a timestamp that is not later.
pub open spec fn rest_index(side: Side, s: Seq<Order>, o: Order) -> int
    decreases s.len(),
{
    if s.len() == 0 || ranks_ahead(side, o, s[0]) {
        0
    } else {
        1 + rest_index(side, s.drop_first(), o)
    }
}

/// Some order of `s` carries `id`.
pub open spec fn has_id(s: Seq<Order>, id: OrderId) -> bool {
    exists|i: int| 0 <= i < s.len() && (#[trigger] s[i]).id == id
}

/// The place of an order with `id` in `s`, where there is one.
pub open spec fn position_of(s: Seq<Order>, id: OrderId) -> int {
    choose|i: int| 0 <= i < s.len() && (#[trigger] s[i]).id == id
}

/// No two orders of `s` share an id.
pub open spec fn distinct_ids(s: Seq<Order>) -> bool {
    forall|i: int, j: int| 0 <= i < j < s.len() ==> (#[trigger] s[i]).id != (#[trigger] s[j]).id
}

/// No order of `s` shares an id with an order of `t`.
pub open spec fn disjoint_ids(s: Seq<Order>, t: Seq<Order>) -> bool {
    forall|i: int, j: int|
        0 <= i < s.len() && 0 <= j < t.len() ==> (#[trigger] s[i]).id != (#[trigger] t[j]).id
}

/// `rest_index` is the first place whose order the new one outranks.
pub proof fn lemma_rest_index(side: Side, s: Seq<Order>, o: Order)
    ensures
        0 <= rest_index(side, s, o) <= s.len(),
        forall|i: int| 0 <= i < rest_index(side, s, o) ==> !ranks_ahead(side, o, #[trigger] s[i]),
        rest_index(side, s, o) < s.len() ==> ranks_ahead(side, o, s[rest_index(side, s, o)]),
    decreases s.len(),
{
    if s.len() == 0 || ranks_ahead(side, o, s[0]) {
    } else {
        let t = s.drop_first();
        lemma_rest_index(side, t, o);
        let r = rest_index(side, t, o);
        assert forall|i: int| 0 <= i < r + 1 implies !ranks_ahead(side, o, #[trigger] s[i]) by {
            if i > 0 {
                assert(s[i] == t[i - 1]);
            }
        }
        if r + 1 < s.len() {
            assert(s[r + 1] == t[r]);
        }
    }
}

/// A place with the two properties of `lemma_rest_index` is `rest_index`.
pub proof fn lemma_rest_index_is(side: Side, s: Seq<Order>, o: Order, p: int)
    requires
        0 <= p <= s.len(),
        forall|i: int| 0 <= i < p ==> !ranks_ahead(side, o, #[trigger] s[i]),
        p < s.len() ==> ranks_ahead(side, o, s[p]),
    ensures
        rest_index(side, s, o) == p,
    decreases s.len(),
{
    if s.len() == 0 {
    } else if ranks_ahead(side, o, s[0]) {
        if p > 0 {
            assert(!ranks_ahead(side, o, s[0]));
        }
    } else {
        let t = s.drop_first();
        assert(p > 0);
        assert forall|i: int| 0 <= i < p - 1 implies !ranks_ahead(side, o, #[trigger] t[i]) by {
            assert(t[i] == s[i + 1]);
        }
        if p - 1 < t.len() {
            assert(t[p - 1] == s[p]);
        }
        lemma_rest_index_is(side, t, o, p - 1);
    }
}

/// Resting a new order keeps a queue in priority order.
pub proof fn lemma_rest_keeps_order(side: Side, s: Seq<Order>, o: Order)
    requires
        in_priority_order(side, s),
    ensures
        in_priority_order(side, s.insert(rest_index(side, s, o), o)),
{
    lemma_rest_index(side, s, o);
    let p = rest_index(side, s, o);
    let t = s.insert(p, o);
    assert forall|i: int, j: int| 0 <= i < j < t.len() implies !ranks_ahead(
        side,
        #[trigger] t[j],
        #[trigger] t[i],
    ) by {
        if j < p {
            assert(t[i] == s[i] && t[j] == s[j]);
        } else if j == p {
            assert(t[i] == s[i]);
        } else if i == p {
            assert(t[j] == s[j - 1]);
            assert(ranks_ahead(side, o, s[p]));
            if j - 1 > p {
                assert(!ranks_ahead(side, s[j - 1], s[p]));
            }
        } else if i < p {
            assert(t[i] == s[i] && t[j] == s[j - 1]);
        } else {
            assert(t[i] == s[i - 1] && t[j] == s[j - 1]);
        }
    }
}

/// Taking an order out keeps a queue in priority order.
pub proof fn lemma_remove_keeps_order(side: Side, s: Seq<Order>, k: int)
    requires
        in_priority_order(side, s),
        0 <= k < s.len(),
    ensures
        in_priority_order(side, s.remove(k)),
{
    let t = s.remove(k);
    assert forall|i: int, j: int| 0 <= i < j < t.len() implies !ranks_ahead(
        side,
        #[trigger] t[j],
        #[trigger] t[i],
    ) by {
        let si = if i < k { i } else { i + 1 };
        let sj = if j < k { j } else { j + 1 };
        assert(t[i] == s[si] && t[j] == s[sj]);
    }
}

/// With distinct ids, the place of an id is the place of any order that
/// carries it.
pub proof fn lemma_position_of(s: Seq<Order>, k: int)
    requires
        distinct_ids(s),
        0 <= k < s.len(),
    ensures
        has_id(s, s[k].id),
        position_of(s, s[k].id) == k,
{
    let id = s[k].id;
    assert(0 <= k < s.len() && s[k].id == id);
    let p = position_of(s, id);
    assert(0 <= p < s.len() && s[p].id == id);
    if p < k {
        assert(s[p].id != s[k].id);
    } else if k < p {
        assert(s[k].id != s[p].id);
    }
}

} // verus!
