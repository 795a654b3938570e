//! The order book as a mathematical value: two queues of resting orders, best
//! first, and the ids whose cancellation succeeded.

use crate::order::{ranks_ahead, Order, OrderId, Side};
use crate::priority::{
    all_resting, disjoint_ids, distinct_ids, has_id, in_priority_order, lemma_remove_keeps_order,
    lemma_rest_index, lemma_rest_keeps_order, position_of, rest_index, resting_ok,
};
use vstd::prelude::*;

verus! {

/// What a cancellation came to.
#[derive(Debug, PartialEq, Eq, Clone, Copy, Structural)]
pub enum CancelResult {
    /// The order was resting and has been taken out; this is the order as it
    /// stood at that moment.
    Success(Order),
    /// No order with that id is resting, and none was cancelled before.
    NotFound,
    /// An earlier cancellation of that id succeeded.
    AlreadyCancelled,
}

impl CancelResult {
    /// Whether the cancellation took an order out.
    pub fn is_success(&self) -> (r: bool)
        ensures
            r == (*self is Success),
    {
        match self {
            CancelResult::Success(_) => true,
            _ => false,
        }
    }
}

/// The state of an order book.
pub struct BookView {
    /// Resting buy orders, best first.
    pub bids: Seq<Order>,
    /// Resting sell orders, best first.
    pub asks: Seq<Order>,
    /// Ids of the orders that were cancelled while resting.
    pub cancelled: Set<OrderId>,
}

impl BookView {
    /// The book in which nothing rests and nothing was cancelled.
    pub open spec fn empty() -> BookView {
        BookView { bids: Seq::empty(), asks: Seq::empty(), cancelled: Set::empty() }
    }

    /// The queue of `side`.
    pub open spec fn side(self, side: Side) -> Seq<Order> {
        match side {
            Side::Buy => self.bids,
            Side::Sell => self.asks,
        }
    }

    /// The book with `s` as the queue of `side`.
    pub open spec fn with_side(self, side: Side, s: Seq<Order>) -> BookView {
        match side {
            Side::Buy => BookView { bids: s, ..self },
            Side::Sell => BookView { asks: s, ..self },
        }
    }

    /// An order with `id` rests on one of the sides.
    pub open spec fn is_resting(self, id: OrderId) -> bool {
        has_id(self.bids, id) || has_id(self.asks, id)
    }

    /// `id` is in use: it rests in the book or was cancelled there.
    pub open spec fn knows(self, id: OrderId) -> bool {
        self.is_resting(id) || self.cancelled.contains(id)
    }

    /// Each side holds limit orders of that side with a positive quantity, in
    /// priority order; no id occurs twice; no cancelled id rests.
    pub open spec fn wf(self) -> bool {
        &&& all_resting(Side::Buy, self.bids)
        &&& all_resting(Side::Sell, self.asks)
        &&& in_priority_order(Side::Buy, self.bids)
        &&& in_priority_order(Side::Sell, self.asks)
        &&& distinct_ids(self.bids)
        &&& distinct_ids(self.asks)
        &&& disjoint_ids(self.bids, self.asks)
        &&& forall|id: OrderId| self.cancelled.contains(id) ==> !self.is_resting(id)
    }

    /// No resting buy bids as much as a resting sell asks.
    pub open spec fn uncrossed(self) -> bool {
        forall|i: int, j: int|
            0 <= i < self.bids.len() && 0 <= j < self.asks.len() ==> (#[trigger] self.bids[i]).price
                < (#[trigger] self.asks[j]).price
    }

    /// The order with the highest priority on `side`.
    pub open spec fn best(self, side: Side) -> Option<Order> {
        if self.side(side).len() > 0 {
            Some(self.side(side)[0])
        } else {
            None
        }
    }

    /// The book with `o` at rest on its side.
    pub open spec fn add(self, o: Order) -> BookView {
        let s = self.side(o.side);
        self.with_side(o.side, s.insert(rest_index(o.side, s, o), o))
    }

    /// The book without the best order of `side`.
    pub open spec fn pop(self, side: Side) -> BookView {
        if self.side(side).len() > 0 {
            self.with_side(side, self.side(side).drop_first())
        } else {
            self
        }
    }

    /// The book with `o` in front of its side.
    pub open spec fn restore(self, o: Order) -> BookView {
        self.with_side(o.side, seq![o] + self.side(o.side))
    }

    /// `o` may go in front of its side: it does not rank behind the order
    /// that is first there now.
    pub open spec fn takes_front(self, o: Order) -> bool {
        self.side(o.side).len() > 0 ==> !ranks_ahead(o.side, self.side(o.side)[0], o)
    }

    /// The resting order with `id`.
    pub open spec fn resting(self, id: OrderId) -> Option<Order> {
        if has_id(self.bids, id) {
            Some(self.bids[position_of(self.bids, id)])
        } else if has_id(self.asks, id) {
            Some(self.asks[position_of(self.asks, id)])
        } else {
            None
        }
    }

    /// What cancelling `id` returns.
    pub open spec fn cancel_result(self, id: OrderId) -> CancelResult {
        match self.resting(id) {
            Some(o) => CancelResult::Success(o),
            None => if self.cancelled.contains(id) {
                CancelResult::AlreadyCancelled
            } else {
                CancelResult::NotFound
            },
        }
    }

    /// The book after cancelling `id`: without the resting order that carries
    /// it, and with the id noted as cancelled; unchanged where none rests.
    pub open spec fn cancel(self, id: OrderId) -> BookView {
        if has_id(self.bids, id) {
            BookView {
                bids: self.bids.remove(position_of(self.bids, id)),
                cancelled: self.cancelled.insert(id),
                ..self
            }
        } else if has_id(self.asks, id) {
            BookView {
                asks: self.asks.remove(position_of(self.asks, id)),
                cancelled: self.cancelled.insert(id),
                ..self
            }
        } else {
            self
        }
    }
}

/// The ids of a queue with one more order are those of the queue and the
/// order's.
pub proof fn lemma_has_id_insert(s: Seq<Order>, k: int, o: Order, id: OrderId)
    requires
        0 <= k <= s.len(),
    ensures
        has_id(s.insert(k, o), id) <==> has_id(s, id) || o.id == id,
{
    let t = s.insert(k, o);
    if has_id(t, id) {
        let j = choose|j: int| 0 <= j < t.len() && (#[trigger] t[j]).id == id;
        if j < k {
            assert(s[j].id == id);
        } else if j > k {
            assert(s[j - 1].id == id);
        }
    }
    if has_id(s, id) {
        let j = choose|j: int| 0 <= j < s.len() && (#[trigger] s[j]).id == id;
        if j < k {
            assert(t[j].id == id);
        } else {
            assert(t[j + 1].id == id);
        }
    }
    if o.id == id {
        assert(t[k].id == id);
    }
}

/// The ids of a queue of distinct ids with one order less are those of the
/// queue but for that order's.
pub proof fn lemma_has_id_remove(s: Seq<Order>, k: int, id: OrderId)
    requires
        distinct_ids(s),
        0 <= k < s.len(),
    ensures
        has_id(s.remove(k), id) <==> has_id(s, id) && s[k].id != id,
{
    let t = s.remove(k);
    if has_id(t, id) {
        let j = choose|j: int| 0 <= j < t.len() && (#[trigger] t[j]).id == id;
        let sj = if j < k { j } else { j + 1 };
        assert(s[sj].id == id);
        if sj < k {
            assert(s[sj].id != s[k].id);
        } else {
            assert(s[k].id != s[sj].id);
        }
    }
    if has_id(s, id) && s[k].id != id {
        let j = choose|j: int| 0 <= j < s.len() && (#[trigger] s[j]).id == id;
        if j < k {
            assert(t[j].id == id);
        } else {
            assert(t[j - 1].id == id);
        }
    }
}

/// A queue of distinct ids keeps them distinct when an order with a new id
/// goes in.
pub proof fn lemma_distinct_insert(s: Seq<Order>, k: int, o: Order)
    requires
        distinct_ids(s),
        !has_id(s, o.id),
        0 <= k <= s.len(),
    ensures
        distinct_ids(s.insert(k, o)),
{
    let t = s.insert(k, o);
    assert forall|i: int, j: int| 0 <= i < j < t.len() implies (#[trigger] t[i]).id != (
    #[trigger] t[j]).id by {
        let si = if i < k { i } else { i - 1 };
        let sj = if j < k { j } else { j - 1 };
        if i == k {
            assert(s[sj].id != o.id);
        } else if j == k {
            assert(s[si].id != o.id);
        } else {
            assert(t[i] == s[si] && t[j] == s[sj]);
        }
    }
}

/// A queue of distinct ids keeps them distinct when an order leaves.
pub proof fn lemma_distinct_remove(s: Seq<Order>, k: int)
    requires
        distinct_ids(s),
        0 <= k < s.len(),
    ensures
        distinct_ids(s.remove(k)),
{
    let t = s.remove(k);
    assert forall|i: int, j: int| 0 <= i < j < t.len() implies (#[trigger] t[i]).id != (
    #[trigger] t[j]).id by {
        let si = if i < k { i } else { i + 1 };
        let sj = if j < k { j } else { j + 1 };
        assert(t[i] == s[si] && t[j] == s[sj]);
    }
}

/// A queue of orders that may rest stays one when such an order goes in.
pub proof fn lemma_all_resting_insert(side: Side, s: Seq<Order>, k: int, o: Order)
    requires
        all_resting(side, s),
        resting_ok(side, o),
        0 <= k <= s.len(),
    ensures
        all_resting(side, s.insert(k, o)),
{
    let t = s.insert(k, o);
    assert forall|i: int| 0 <= i < t.len() implies resting_ok(side, #[trigger] t[i]) by {
        if i < k {
            assert(t[i] == s[i]);
        } else if i > k {
            assert(t[i] == s[i - 1]);
        }
    }
}

/// A queue of orders that may rest stays one when an order leaves.
pub proof fn lemma_all_resting_remove(side: Side, s: Seq<Order>, k: int)
    requires
        all_resting(side, s),
        0 <= k < s.len(),
    ensures
        all_resting(side, s.remove(k)),
{
    let t = s.remove(k);
    assert forall|i: int| 0 <= i < t.len() implies resting_ok(side, #[trigger] t[i]) by {
        if i < k {
            assert(t[i] == s[i]);
        } else {
            assert(t[i] == s[i + 1]);
        }
    }
}

/// Two queues share no id exactly if no id of the first occurs in the second.
pub proof fn lemma_disjoint_ids(s: Seq<Order>, t: Seq<Order>)
    ensures
        disjoint_ids(s, t) <==> (forall|id: OrderId| !(has_id(s, id) && has_id(t, id))),
        disjoint_ids(s, t) <==> disjoint_ids(t, s),
{
    if disjoint_ids(s, t) {
        assert forall|id: OrderId| !(has_id(s, id) && has_id(t, id)) by {
            if has_id(s, id) && has_id(t, id) {
                let i = choose|i: int| 0 <= i < s.len() && (#[trigger] s[i]).id == id;
                let j = choose|j: int| 0 <= j < t.len() && (#[trigger] t[j]).id == id;
                assert(s[i].id != t[j].id);
            }
        }
    }
    if forall|id: OrderId| !(has_id(s, id) && has_id(t, id)) {
        assert forall|i: int, j: int| 0 <= i < s.len() && 0 <= j < t.len() implies (
        #[trigger] s[i]).id != (#[trigger] t[j]).id by {
            let id = s[i].id;
            assert(has_id(s, id));
            if t[j].id == id {
                assert(has_id(t, id));
            }
        }
    }
}

/// Resting an order with a fresh id keeps the book well-formed, and makes
/// that id, and no other, rest in addition.
pub proof fn lemma_add_wf(v: BookView, o: Order)
    requires
        v.wf(),
        resting_ok(o.side, o),
        !v.knows(o.id),
    ensures
        v.add(o).wf(),
        forall|id: OrderId| v.add(o).is_resting(id) <==> v.is_resting(id) || id == o.id,
{
    let s = v.side(o.side);
    let k = rest_index(o.side, s, o);
    let w = v.add(o);
    lemma_rest_index(o.side, s, o);
    lemma_rest_keeps_order(o.side, s, o);
    lemma_all_resting_insert(o.side, s, k, o);
    lemma_distinct_insert(s, k, o);
    assert forall|id: OrderId| w.is_resting(id) <==> v.is_resting(id) || id == o.id by {
        lemma_has_id_insert(s, k, o, id);
    }
    lemma_disjoint_ids(v.bids, v.asks);
    lemma_disjoint_ids(w.bids, w.asks);
    assert forall|id: OrderId| !(has_id(w.bids, id) && has_id(w.asks, id)) by {
        lemma_has_id_insert(s, k, o, id);
    }
}

/// Taking the best order off a side keeps the book well-formed; that
/// order's id, and no other, leaves.
pub proof fn lemma_pop_wf(v: BookView, side: Side)
    requires
        v.wf(),
        v.side(side).len() > 0,
    ensures
        v.pop(side).wf(),
        forall|id: OrderId|
            v.pop(side).is_resting(id) <==> v.is_resting(id) && id != v.side(side)[0].id,
{
    let s = v.side(side);
    let w = v.pop(side);
    assert(s.drop_first() =~= s.remove(0));
    lemma_remove_keeps_order(side, s, 0);
    lemma_all_resting_remove(side, s, 0);
    lemma_distinct_remove(s, 0);
    lemma_disjoint_ids(v.bids, v.asks);
    lemma_disjoint_ids(w.bids, w.asks);
    assert(has_id(s, s[0].id));
    assert forall|id: OrderId| w.is_resting(id) <==> v.is_resting(id) && id != s[0].id by {
        lemma_has_id_remove(s, 0, id);
    }
    assert forall|id: OrderId| !(has_id(w.bids, id) && has_id(w.asks, id)) by {
        lemma_has_id_remove(s, 0, id);
    }
}

/// Putting back in front an order with a fresh id that does not rank behind
/// the first keeps the book well-formed.
pub proof fn lemma_restore_wf(v: BookView, o: Order)
    requires
        v.wf(),
        resting_ok(o.side, o),
        !v.knows(o.id),
        v.takes_front(o),
    ensures
        v.restore(o).wf(),
        forall|id: OrderId| v.restore(o).is_resting(id) <==> v.is_resting(id) || id == o.id,
{
    let s = v.side(o.side);
    let w = v.restore(o);
    let t = seq![o] + s;
    assert(t =~= s.insert(0, o));
    lemma_all_resting_insert(o.side, s, 0, o);
    lemma_distinct_insert(s, 0, o);
    assert forall|i: int, j: int| 0 <= i < j < t.len() implies !ranks_ahead(
        o.side,
        #[trigger] t[j],
        #[trigger] t[i],
    ) by {
        assert(t[j] == s[j - 1]);
        if i > 0 {
            assert(t[i] == s[i - 1]);
        } else if j - 1 > 0 {
            assert(!ranks_ahead(o.side, s[j - 1], s[0]));
        }
    }
    assert forall|id: OrderId| w.is_resting(id) <==> v.is_resting(id) || id == o.id by {
        lemma_has_id_insert(s, 0, o, id);
    }
    lemma_disjoint_ids(v.bids, v.asks);
    lemma_disjoint_ids(w.bids, w.asks);
    assert forall|id: OrderId| !(has_id(w.bids, id) && has_id(w.asks, id)) by {
        lemma_has_id_insert(s, 0, o, id);
    }
}

/// Cancelling keeps the book well-formed. Afterwards the id does not rest,
/// and every other id rests exactly if it did before.
pub proof fn lemma_cancel_wf(v: BookView, id: OrderId)
    requires
        v.wf(),
    ensures
        v.cancel(id).wf(),
        !v.cancel(id).is_resting(id),
        forall|other: OrderId|
            v.cancel(id).is_resting(other) <==> v.is_resting(other) && other != id,
        v.cancel(id).cancelled == if v.is_resting(id) {
            v.cancelled.insert(id)
        } else {
            v.cancelled
        },
{
    let w = v.cancel(id);
    lemma_disjoint_ids(v.bids, v.asks);
    lemma_disjoint_ids(w.bids, w.asks);
    if has_id(v.bids, id) {
        let k = position_of(v.bids, id);
        lemma_remove_keeps_order(Side::Buy, v.bids, k);
        lemma_all_resting_remove(Side::Buy, v.bids, k);
        lemma_distinct_remove(v.bids, k);
        assert forall|other: OrderId|
            w.is_resting(other) <==> v.is_resting(other) && other != id by {
            lemma_has_id_remove(v.bids, k, other);
        }
    } else if has_id(v.asks, id) {
        let k = position_of(v.asks, id);
        lemma_remove_keeps_order(Side::Sell, v.asks, k);
        lemma_all_resting_remove(Side::Sell, v.asks, k);
        lemma_distinct_remove(v.asks, k);
        assert forall|other: OrderId|
            w.is_resting(other) <==> v.is_resting(other) && other != id by {
            lemma_has_id_remove(v.asks, k, other);
        }
    }
}

} // verus!
