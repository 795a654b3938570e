//! The matching engine as a mathematical value, what each command does to
//! it, and the laws that hold of every run of commands.

use crate::book_view::{lemma_add_wf, lemma_disjoint_ids, BookView};
use crate::matching::{fills, filled_count, lemma_match_shape, makers_after, unfilled};
use crate::order::{ranks_ahead, Order, OrderId, Side, Timestamp, Trade};
use crate::priority::{
    all_resting, disjoint_ids, distinct_ids, has_id, in_priority_order, lemma_rest_index, rest_index,
    resting_ok,
};
use vstd::prelude::*;

verus! {

/// Why a submission was refused.
#[derive(Debug, PartialEq, Eq, Clone, Copy, Structural)]
pub enum SubmitError {
    /// The quantity is zero, or a market order names a price.
    InvalidOrder,
    /// The id belongs to an order that rests in the book or was cancelled.
    DuplicateId,
}

/// An order the engine accepts: it has a positive quantity, and a market
/// order carries the price 0.
pub open spec fn valid_order(o: Order) -> bool {
    o.quantity > 0 && (o.order_type is Market ==> o.price == 0)
}

/// The last `n` elements of `s`, or all of `s` where it has no more.
pub open spec fn tail<T>(s: Seq<T>, n: nat) -> Seq<T> {
    if s.len() <= n {
        s
    } else {
        s.subrange(s.len() - n, s.len() as int)
    }
}

/// Keeping the tail while appending loses nothing of the final tail.
pub proof fn lemma_tail_add<T>(s: Seq<T>, t: Seq<T>, n: nat)
    ensures
        tail(tail(s, n) + t, n) == tail(s + t, n),
{
    assert(tail(tail(s, n) + t, n) =~= tail(s + t, n));
}

/// The book after `o` has traded with the opposite side and before what is
/// left of it comes to rest.
pub open spec fn after_fills(v: BookView, o: Order) -> BookView {
    v.with_side(o.side.opposite(), makers_after(o, v.side(o.side.opposite())))
}

/// The book after `o` was matched against the opposite side: that side as
/// the matching leaves it, and what is left of a limit order at rest on its
/// own side.
pub open spec fn after_match(v: BookView, o: Order) -> BookView {
    let left = unfilled(o, v.side(o.side.opposite()));
    if left > 0 && o.order_type is Limit {
        after_fills(v, o).add(o.with_quantity(left))
    } else {
        after_fills(v, o)
    }
}

/// A queue `m` that holds the orders of `makers` from place `n` on, each with
/// a positive quantity of its own, is as well-formed as `makers`.
pub proof fn lemma_shrunk_queue(side: Side, makers: Seq<Order>, m: Seq<Order>, n: int)
    requires
        all_resting(side, makers),
        in_priority_order(side, makers),
        distinct_ids(makers),
        0 <= n,
        m.len() == makers.len() - n,
        forall|i: int|
            0 <= i < m.len() ==> (#[trigger] m[i]).quantity > 0 && m[i] == makers[n
                + i].with_quantity(m[i].quantity),
    ensures
        all_resting(side, m),
        in_priority_order(side, m),
        distinct_ids(m),
        forall|id: OrderId| has_id(m, id) ==> has_id(makers, id),
{
    assert forall|i: int| 0 <= i < m.len() implies resting_ok(side, #[trigger] m[i]) by {
        assert(resting_ok(side, makers[n + i]));
    }
    assert forall|i: int, j: int| 0 <= i < j < m.len() implies !ranks_ahead(
        side,
        #[trigger] m[j],
        #[trigger] m[i],
    ) by {
        assert(!ranks_ahead(side, makers[n + j], makers[n + i]));
    }
    assert forall|i: int, j: int| 0 <= i < j < m.len() implies (#[trigger] m[i]).id != (
    #[trigger] m[j]).id by {
        assert(makers[n + i].id != makers[n + j].id);
    }
    assert forall|id: OrderId| has_id(m, id) implies has_id(makers, id) by {
        let i = choose|i: int| 0 <= i < m.len() && (#[trigger] m[i]).id == id;
        assert(makers[n + i].id == id);
    }
}

/// Trading keeps a well-formed, uncrossed book well-formed and uncrossed,
/// makes no new id rest, and stops only where the incoming order is filled or
/// does not cross the best order that is left.
pub proof fn lemma_after_fills(v: BookView, o: Order)
    requires
        v.wf(),
        v.uncrossed(),
    ensures
        after_fills(v, o).wf(),
        after_fills(v, o).uncrossed(),
        after_fills(v, o).cancelled == v.cancelled,
        after_fills(v, o).side(o.side) == v.side(o.side),
        forall|id: OrderId| after_fills(v, o).is_resting(id) ==> v.is_resting(id),
        unfilled(o, v.side(o.side.opposite())) > 0 ==> {
            let m = after_fills(v, o).side(o.side.opposite());
            m.len() == 0 || !o.crosses(m[0])
        },
{
    let opp = o.side.opposite();
    let makers = v.side(opp);
    let m = makers_after(o, makers);
    let n = filled_count(o, makers) as int;
    let v1 = after_fills(v, o);
    assert forall|i: int| 0 <= i < makers.len() implies (#[trigger] makers[i]).quantity > 0 by {
        assert(resting_ok(opp, makers[i]));
    }
    lemma_match_shape(o, makers);
    assert forall|i: int| 0 <= i < m.len() implies (#[trigger] m[i]).quantity > 0 && m[i]
        == makers[n + i].with_quantity(m[i].quantity) by {
        if i > 0 {
            assert(m[i] == makers[n + i]);
            assert(resting_ok(opp, makers[n + i]));
        } else {
            assert(resting_ok(opp, makers[n]));
        }
    }
    lemma_shrunk_queue(opp, makers, m, n);
    assert forall|id: OrderId| v1.is_resting(id) implies v.is_resting(id) by {
        if has_id(m, id) {
            assert(has_id(makers, id));
        }
    }
    assert(disjoint_ids(v1.bids, v1.asks)) by {
        lemma_disjoint_ids(v.bids, v.asks);
        lemma_disjoint_ids(v1.bids, v1.asks);
    }
    assert forall|id: OrderId| v1.cancelled.contains(id) implies !v1.is_resting(id) by {
        assert(!v.is_resting(id));
    }
    assert forall|i: int, j: int|
        0 <= i < v1.bids.len() && 0 <= j < v1.asks.len() implies (#[trigger] v1.bids[i]).price < (
    #[trigger] v1.asks[j]).price by {
        match o.side {
            Side::Buy => {
                assert(v.bids[i].price < v.asks[n + j].price);
            },
            Side::Sell => {
                assert(v.bids[n + i].price < v.asks[j].price);
            },
        }
    }
}

/// A limit order that does not cross the best order of the opposite side
/// keeps the book uncrossed when it comes to rest.
pub proof fn lemma_rest_uncrossed(v: BookView, o: Order)
    requires
        v.wf(),
        v.uncrossed(),
        resting_ok(o.side, o),
        v.side(o.side.opposite()).len() == 0 || !o.crosses(v.side(o.side.opposite())[0]),
    ensures
        v.add(o).uncrossed(),
{
    let own = v.side(o.side);
    let m = v.side(o.side.opposite());
    let k = rest_index(o.side, own, o);
    let w = v.add(o);
    lemma_rest_index(o.side, own, o);
    assert forall|i: int, j: int|
        0 <= i < w.bids.len() && 0 <= j < w.asks.len() implies (#[trigger] w.bids[i]).price < (
    #[trigger] w.asks[j]).price by {
        match o.side {
            Side::Buy => {
                assert(resting_ok(Side::Sell, m[0]));
                if j > 0 {
                    assert(!ranks_ahead(Side::Sell, m[j], m[0]));
                }
                if i < k {
                    assert(w.bids[i] == v.bids[i]);
                } else if i > k {
                    assert(w.bids[i] == v.bids[i - 1]);
                }
            },
            Side::Sell => {
                assert(resting_ok(Side::Buy, m[0]));
                if i > 0 {
                    assert(!ranks_ahead(Side::Buy, m[i], m[0]));
                }
                if j < k {
                    assert(w.asks[j] == v.asks[j]);
                } else if j > k {
                    assert(w.asks[j] == v.asks[j - 1]);
                }
            },
        }
    }
}

/// Matching keeps a well-formed, uncrossed book well-formed and uncrossed.
/// It makes no id rest that did not rest before, but for the id of the
/// incoming order, and it cancels nothing.
pub proof fn lemma_after_match(v: BookView, o: Order)
    requires
        v.wf(),
        v.uncrossed(),
        !v.knows(o.id),
    ensures
        after_match(v, o).wf(),
        after_match(v, o).uncrossed(),
        after_match(v, o).cancelled == v.cancelled,
        forall|id: OrderId| after_match(v, o).is_resting(id) ==> v.is_resting(id) || id == o.id,
{
    let v1 = after_fills(v, o);
    let left = unfilled(o, v.side(o.side.opposite()));
    lemma_after_fills(v, o);
    if left > 0 && o.order_type is Limit {
        let o1 = o.with_quantity(left);
        assert(!v1.knows(o1.id));
        lemma_add_wf(v1, o1);
        lemma_rest_uncrossed(v1, o1);
        assert forall|id: OrderId| v1.add(o1).is_resting(id) implies v.is_resting(id) || id
            == o.id by {
            assert(v1.add(o1).is_resting(id) <==> v1.is_resting(id) || id == o1.id);
        }
    }
}

/// Cancelling keeps an uncrossed book uncrossed.
pub proof fn lemma_cancel_uncrossed(v: BookView, id: OrderId)
    requires
        v.uncrossed(),
    ensures
        v.cancel(id).uncrossed(),
{
    let w = v.cancel(id);
    assert forall|i: int, j: int|
        0 <= i < w.bids.len() && 0 <= j < w.asks.len() implies (#[trigger] w.bids[i]).price < (
    #[trigger] w.asks[j]).price by {
        if has_id(v.bids, id) {
            let k = crate::priority::position_of(v.bids, id);
            let si = if i < k { i } else { i + 1 };
            assert(w.bids[i] == v.bids[si]);
            assert(v.bids[si].price < v.asks[j].price);
        } else if has_id(v.asks, id) {
            let k = crate::priority::position_of(v.asks, id);
            let sj = if j < k { j } else { j + 1 };
            assert(w.asks[j] == v.asks[sj]);
            assert(v.bids[i].price < v.asks[sj].price);
        }
    }
}

/// How many trades the tape keeps.
pub const TRADE_POOL_SIZE: usize = 500;

/// The state of a matching engine.
pub struct EngineView {
    /// The resting orders.
    pub book: BookView,
    /// The trades that the tape still holds, oldest first.
    pub tape: Seq<Trade>,
    /// Every trade the engine has made, oldest first.
    pub history: Seq<Trade>,
    /// The id that `next_id` hands out next.
    pub next_order_id: OrderId,
    /// The timestamp that `next_timestamp` hands out next.
    pub current_timestamp: Timestamp,
}

impl EngineView {
    /// A new engine: nothing rests, nothing was traded, and the counters
    /// stand at 1.
    pub open spec fn start() -> EngineView {
        EngineView {
            book: BookView::empty(),
            tape: Seq::empty(),
            history: Seq::empty(),
            next_order_id: 1,
            current_timestamp: 1,
        }
    }

    /// The book is well-formed and not crossed, and the tape holds the last
    /// trades of the history.
    pub open spec fn wf(self) -> bool {
        &&& self.book.wf()
        &&& self.book.uncrossed()
        &&& self.tape == tail(self.history, TRADE_POOL_SIZE as nat)
    }

    /// What submitting `o` returns: the trades it makes, or why it is
    /// refused.
    pub open spec fn submit_result(self, o: Order) -> Result<Seq<Trade>, SubmitError> {
        if !valid_order(o) {
            Err(SubmitError::InvalidOrder)
        } else if self.book.knows(o.id) {
            Err(SubmitError::DuplicateId)
        } else {
            Ok(fills(o, self.book.side(o.side.opposite())))
        }
    }

    /// The engine after `o` was submitted: unchanged where it is refused;
    /// else the book after matching, and the trades on the tape and in the
    /// history.
    pub open spec fn submit(self, o: Order) -> EngineView {
        match self.submit_result(o) {
            Err(_) => self,
            Ok(trades) => EngineView {
                book: after_match(self.book, o),
                tape: tail(self.tape + trades, TRADE_POOL_SIZE as nat),
                history: self.history + trades,
                ..self
            },
        }
    }

    /// The engine after the cancellation of `id`.
    pub open spec fn cancel(self, id: OrderId) -> EngineView {
        EngineView { book: self.book.cancel(id), ..self }
    }
}

} // verus!
