//! The limit order book: the resting orders of both sides by price level,
//! an index from order id to side and price, and the ids that were
//! cancelled.

use crate::book_view::{
    lemma_add_wf, lemma_cancel_wf, lemma_disjoint_ids, lemma_pop_wf, lemma_restore_wf, BookView,
    CancelResult,
};
use crate::levels::{
    Level, levels_collect, levels_ok, levels_peek, levels_pop, levels_rest, levels_restore, levels_take,
    lemma_queue_of_nothing, queue_of,
};
use crate::order::{Order, OrderId, Price, Side};
use crate::priority::{
    distinct_ids, has_id, lemma_rest_index, position_of, rest_index, resting_ok,
};
use std::collections::{BTreeMap, HashMap, HashSet};
use vstd::prelude::*;

verus! {

/// The resting orders of both sides. Each side is an ordered map from price
/// to the queue of the orders at that price; `order_map` finds the side and
/// price of a resting order by its id; `cancelled` remembers the ids that
/// were cancelled.
pub struct OrderBook {
    bids: BTreeMap<Price, Level>,
    asks: BTreeMap<Price, Level>,
    order_map: HashMap<OrderId, (Side, Price)>,
    cancelled: HashSet<OrderId>,
}

/// The index has every order of the queue `s`, with the side and its price.
spec fn indexed(idx: Map<OrderId, (Side, Price)>, side: Side, s: Seq<Order>) -> bool {
    forall|i: int|
        0 <= i < s.len() ==> idx.contains_key((#[trigger] s[i]).id) && idx[s[i].id] == (
            side,
            s[i].price,
        )
}

/// The index covers a queue into which a new order goes, once it has that
/// order.
proof fn lemma_indexed_insert(idx: Map<OrderId, (Side, Price)>, s: Seq<Order>, k: int, o: Order)
    requires
        indexed(idx, o.side, s),
        !has_id(s, o.id),
        0 <= k <= s.len(),
    ensures
        indexed(idx.insert(o.id, (o.side, o.price)), o.side, s.insert(k, o)),
{
    let t = s.insert(k, o);
    let idx1 = idx.insert(o.id, (o.side, o.price));
    assert forall|i: int| 0 <= i < t.len() implies idx1.contains_key((#[trigger] t[i]).id)
        && idx1[t[i].id] == (o.side, t[i].price) by {
        if i < k {
            assert(t[i] == s[i]);
        } else if i > k {
            assert(t[i] == s[i - 1]);
        }
    }
}

/// The index covers a queue without the id `id` as before when the entry
/// of `id` is set or removed.
proof fn lemma_indexed_other(
    idx: Map<OrderId, (Side, Price)>,
    side: Side,
    t: Seq<Order>,
    id: OrderId,
    val: (Side, Price),
)
    requires
        indexed(idx, side, t),
        !has_id(t, id),
    ensures
        indexed(idx.insert(id, val), side, t),
        indexed(idx.remove(id), side, t),
{
}

/// The index covers a queue that an order leaves, also without that order's
/// entry.
proof fn lemma_indexed_remove(idx: Map<OrderId, (Side, Price)>, side: Side, s: Seq<Order>, k: int)
    requires
        indexed(idx, side, s),
        distinct_ids(s),
        0 <= k < s.len(),
    ensures
        indexed(idx.remove(s[k].id), side, s.remove(k)),
{
    let t = s.remove(k);
    let idx1 = idx.remove(s[k].id);
    assert forall|i: int| 0 <= i < t.len() implies idx1.contains_key((#[trigger] t[i]).id)
        && idx1[t[i].id] == (side, t[i].price) by {
        if i < k {
            assert(t[i] == s[i]);
            assert(s[i].id != s[k].id);
        } else {
            assert(t[i] == s[i + 1]);
            assert(s[k].id != s[i + 1].id);
        }
    }
}

/// `HashSet::clone`: a set with the same elements.
#[verifier::external_body]
fn clone_ids(ids: &HashSet<OrderId>) -> (r: HashSet<OrderId>)
    ensures
        r@ == ids@,
{
    ids.clone()
}

impl View for OrderBook {
    type V = BookView;

    closed spec fn view(&self) -> BookView {
        BookView {
            bids: queue_of(self.bids@, Side::Buy),
            asks: queue_of(self.asks@, Side::Sell),
            cancelled: self.cancelled@,
        }
    }
}

impl OrderBook {
    /// The book's invariant: its levels are in order, its view is
    /// well-formed, and the index holds exactly the resting orders.
    pub closed spec fn wf(&self) -> bool {
        &&& levels_ok(self.bids@, Side::Buy)
        &&& levels_ok(self.asks@, Side::Sell)
        &&& self@.wf()
        &&& indexed(self.order_map@, Side::Buy, self@.bids)
        &&& indexed(self.order_map@, Side::Sell, self@.asks)
        &&& forall|id: OrderId| self.order_map@.contains_key(id) ==> self@.is_resting(id)
    }

    /// A well-formed book has a well-formed view.
    pub proof fn lemma_wf(&self)
        requires
            self.wf(),
        ensures
            self@.wf(),
    {
    }

    /// A book in which nothing rests and nothing was cancelled.
    pub fn new() -> (book: Self)
        ensures
            book.wf(),
            book@ == BookView::empty(),
    {
        let book = OrderBook {
            bids: BTreeMap::new(),
            asks: BTreeMap::new(),
            order_map: HashMap::new(),
            cancelled: HashSet::new(),
        };
        proof {
            lemma_queue_of_nothing(book.bids@, Side::Buy);
            lemma_queue_of_nothing(book.asks@, Side::Sell);
        }
        book
    }

    /// Whether an order with `id` rests in the book.
    pub fn contains_order(&self, id: OrderId) -> (r: bool)
        requires
            self.wf(),
        ensures
            r == self@.is_resting(id),
    {
        let r = self.order_map.contains_key(&id);
        proof {
            if has_id(self@.bids, id) {
                assert(self@.bids[position_of(self@.bids, id)].id == id);
            }
            if has_id(self@.asks, id) {
                assert(self@.asks[position_of(self@.asks, id)].id == id);
            }
        }
        r
    }

    /// Whether an order with `id` was cancelled while it rested here.
    pub fn was_cancelled(&self, id: OrderId) -> (r: bool)
        ensures
            r == self@.cancelled.contains(id),
    {
        self.cancelled.contains(&id)
    }

    /// Rests a limit order: behind every resting order of its side that has
    /// a better price, or the same price and a timestamp that is not later.
    pub fn add_order(&mut self, order: Order)
        requires
            old(self).wf(),
            resting_ok(order.side, order),
            !old(self)@.knows(order.id),
        ensures
            final(self).wf(),
            final(self)@ == old(self)@.add(order),
    {
        self.order_map.insert(order.id, (order.side, order.price));
        match order.side {
            Side::Buy => levels_rest(&mut self.bids, order),
            Side::Sell => levels_rest(&mut self.asks, order),
        }
        proof {
            let v = old(self)@;
            let s = v.side(order.side);
            let idx = old(self).order_map@;
            lemma_add_wf(v, order);
            assert forall|id: OrderId| self.order_map@.contains_key(id) implies self@.is_resting(
                id,
            ) by {
                assert(v.add(order).is_resting(id) <==> v.is_resting(id) || id == order.id);
                if id != order.id {
                    assert(idx.contains_key(id));
                }
            }
            lemma_rest_index(order.side, s, order);
            lemma_indexed_insert(idx, s, rest_index(order.side, s, order), order);
            lemma_indexed_other(
                idx,
                order.side.opposite(),
                v.side(order.side.opposite()),
                order.id,
                (order.side, order.price),
            );
        }
    }

    /// Puts `order` in front of its side. It must not rank behind the order
    /// that is first there now; this is how an order that was popped and only
    /// partly filled goes back to its place.
    pub fn restore_order(&mut self, order: Order)
        requires
            old(self).wf(),
            resting_ok(order.side, order),
            !old(self)@.knows(order.id),
            old(self)@.takes_front(order),
        ensures
            final(self).wf(),
            final(self)@ == old(self)@.restore(order),
    {
        self.order_map.insert(order.id, (order.side, order.price));
        match order.side {
            Side::Buy => levels_restore(&mut self.bids, order),
            Side::Sell => levels_restore(&mut self.asks, order),
        }
        proof {
            let v = old(self)@;
            let s = v.side(order.side);
            let idx = old(self).order_map@;
            lemma_restore_wf(v, order);
            assert forall|id: OrderId| self.order_map@.contains_key(id) implies self@.is_resting(
                id,
            ) by {
                assert(v.restore(order).is_resting(id) <==> v.is_resting(id) || id == order.id);
                if id != order.id {
                    assert(idx.contains_key(id));
                }
            }
            assert(seq![order] + s =~= s.insert(0, order));
            lemma_indexed_insert(idx, s, 0, order);
            lemma_indexed_other(
                idx,
                order.side.opposite(),
                v.side(order.side.opposite()),
                order.id,
                (order.side, order.price),
            );
        }
    }

    /// The best order of `side`, if any.
    fn peek_best(&self, side: Side) -> (r: Option<Order>)
        requires
            self.wf(),
        ensures
            r == self@.best(side),
    {
        match side {
            Side::Buy => levels_peek(&self.bids, Side::Buy),
            Side::Sell => levels_peek(&self.asks, Side::Sell),
        }
    }

    /// Takes the best order of `side` out of its level and out of the index.
    fn pop_best(&mut self, side: Side) -> (r: Option<Order>)
        requires
            old(self).wf(),
        ensures
            final(self).wf(),
            r == old(self)@.best(side),
            final(self)@ == old(self)@.pop(side),
    {
        let r = match side {
            Side::Buy => levels_pop(&mut self.bids, Side::Buy),
            Side::Sell => levels_pop(&mut self.asks, Side::Sell),
        };
        match r {
            Some(o) => {
                self.order_map.remove(&o.id);
                proof {
                    let v = old(self)@;
                    let s = v.side(side);
                    let t = v.side(side.opposite());
                    let idx = old(self).order_map@;
                    lemma_pop_wf(v, side);
                    assert forall|id: OrderId|
                        self.order_map@.contains_key(id) implies self@.is_resting(id) by {
                        assert(v.pop(side).is_resting(id) <==> v.is_resting(id) && id != s[0].id);
                        assert(idx.contains_key(id));
                    }
                    assert(s.drop_first() =~= s.remove(0));
                    lemma_indexed_remove(idx, side, s, 0);
                    lemma_disjoint_ids(v.bids, v.asks);
                    assert(has_id(s, o.id));
                    lemma_indexed_other(idx, side.opposite(), t, o.id, (side, o.price));
                }
            },
            None => {},
        }
        r
    }

    /// The resting buy order with the highest priority, if any.
    pub fn peek_best_buy(&self) -> (r: Option<Order>)
        requires
            self.wf(),
        ensures
            r == self@.best(Side::Buy),
    {
        self.peek_best(Side::Buy)
    }

    /// The resting sell order with the highest priority, if any.
    pub fn peek_best_sell(&self) -> (r: Option<Order>)
        requires
            self.wf(),
        ensures
            r == self@.best(Side::Sell),
    {
        self.peek_best(Side::Sell)
    }

    /// Takes the resting buy order with the highest priority out of the book.
    pub fn pop_best_buy(&mut self) -> (r: Option<Order>)
        requires
            old(self).wf(),
        ensures
            final(self).wf(),
            r == old(self)@.best(Side::Buy),
            final(self)@ == old(self)@.pop(Side::Buy),
    {
        self.pop_best(Side::Buy)
    }

    /// Takes the resting sell order with the highest priority out of the
    /// book.
    pub fn pop_best_sell(&mut self) -> (r: Option<Order>)
        requires
            old(self).wf(),
        ensures
            final(self).wf(),
            r == old(self)@.best(Side::Sell),
            final(self)@ == old(self)@.pop(Side::Sell),
    {
        self.pop_best(Side::Sell)
    }

    /// Cancels the resting order with `order_id`: takes it out of its level,
    /// forgets it in the index and notes the id as cancelled.
    pub fn cancel_order(&mut self, order_id: OrderId) -> (r: CancelResult)
        requires
            old(self).wf(),
        ensures
            final(self).wf(),
            r == old(self)@.cancel_result(order_id),
            final(self)@ == old(self)@.cancel(order_id),
    {
        let entry = match self.order_map.get(&order_id) {
            Some(e) => Some(*e),
            None => None,
        };
        proof {
            let v = self@;
            lemma_disjoint_ids(v.bids, v.asks);
            if has_id(v.bids, order_id) {
                assert(v.bids[position_of(v.bids, order_id)].id == order_id);
            }
            if has_id(v.asks, order_id) {
                assert(v.asks[position_of(v.asks, order_id)].id == order_id);
            }
        }
        match entry {
            None => {
                if self.cancelled.contains(&order_id) {
                    CancelResult::AlreadyCancelled
                } else {
                    CancelResult::NotFound
                }
            },
            Some((side, price)) => {
                let taken = match side {
                    Side::Buy => levels_take(&mut self.bids, Side::Buy, price, order_id),
                    Side::Sell => levels_take(&mut self.asks, Side::Sell, price, order_id),
                };
                match taken {
                    Some(o) => {
                        self.order_map.remove(&order_id);
                        self.cancelled.insert(order_id);
                        proof {
                            let v = old(self)@;
                            let s = v.side(side);
                            let t = v.side(side.opposite());
                            let idx = old(self).order_map@;
                            let k = position_of(s, order_id);
                            lemma_cancel_wf(v, order_id);
                            assert forall|id: OrderId|
                                self.order_map@.contains_key(id) implies self@.is_resting(id) by {
                                assert(v.cancel(order_id).is_resting(id) <==> v.is_resting(id)
                                    && id != order_id);
                                assert(idx.contains_key(id));
                            }
                            lemma_indexed_remove(idx, side, s, k);
                            lemma_indexed_other(idx, side.opposite(), t, order_id, (side, price));
                        }
                        CancelResult::Success(o)
                    },
                    None => {
                        proof {
                            let s = old(self)@.side(side);
                            let t = old(self)@.side(side.opposite());
                            let idx = old(self).order_map@;
                            let k = position_of(s, order_id);
                            assert(idx.contains_key(order_id) && idx[order_id] == (side, price));
                            assert(old(self)@.is_resting(order_id));
                            if has_id(t, order_id) {
                                let j = position_of(t, order_id);
                                assert(idx[t[j].id] == (side.opposite(), t[j].price));
                            }
                            assert(has_id(s, order_id));
                            assert(s[k].id == order_id && s[k].price == price);
                            match side {
                                Side::Buy => {
                                    assert(queue_of(old(self).bids@, Side::Buy)[k].price == price);
                                },
                                Side::Sell => {
                                    assert(queue_of(old(self).asks@, Side::Sell)[k].price == price);
                                },
                            }
                        }
                        CancelResult::NotFound
                    },
                }
            },
        }
    }

    /// All resting buy orders, best first.
    pub fn get_buy_orders(&self) -> (orders: Vec<Order>)
        requires
            self.wf(),
        ensures
            orders@ == self@.bids,
    {
        levels_collect(&self.bids, Side::Buy)
    }

    /// All resting sell orders, best first.
    pub fn get_sell_orders(&self) -> (orders: Vec<Order>)
        requires
            self.wf(),
        ensures
            orders@ == self@.asks,
    {
        levels_collect(&self.asks, Side::Sell)
    }
}

impl Default for OrderBook {
    fn default() -> (book: Self)
        ensures
            book.wf(),
            book@ == BookView::empty(),
    {
        OrderBook::new()
    }
}

impl Clone for OrderBook {
    fn clone(&self) -> (book: Self)
        ensures
            book@ == self@,
            self.wf() ==> book.wf(),
    {
        OrderBook {
            bids: self.bids.clone(),
            asks: self.asks.clone(),
            order_map: self.order_map.clone(),
            cancelled: clone_ids(&self.cancelled),
        }
    }
}

} // verus!
