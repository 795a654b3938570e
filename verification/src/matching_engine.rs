//! The matching engine: it owns one order book and the trade tape, matches
//! each incoming order against the opposite side and rests what is left of a
//! limit order.

use crate::book_view::{lemma_pop_wf, lemma_restore_wf, CancelResult};
use crate::engine_view::{
    after_match, lemma_after_match, lemma_cancel_uncrossed, lemma_tail_add, tail, valid_order,
    EngineView, SubmitError, TRADE_POOL_SIZE,
};
use crate::matching::{
    can_fill, fill_quantity, fills, makers_after, reduced, trade_between, unfilled,
};
use crate::laws::lemma_first_is_best;
use crate::order::{ranks_ahead, Order, OrderId, OrderType, Side, Timestamp, Trade};
use crate::order_book::OrderBook;
use crate::priority::{has_id, resting_ok};
use std::collections::VecDeque;
use vstd::prelude::*;

verus! {

/// Matches `order` against the opposite side of `book`, best resting order
/// first, until it is filled, the side is empty or the best order there does
/// not cross it. Each trade is made at the resting order's price. A resting
/// order that is filled in part stays first on its side. What is left of a
/// limit order comes to rest; what is left of a market order is dropped.
pub fn match_order(book: &mut OrderBook, order: Order) -> (trades: Vec<Trade>)
    requires
        old(book).wf(),
        valid_order(order),
        !old(book)@.knows(order.id),
    ensures
        final(book).wf(),
        trades@ == fills(order, old(book)@.side(order.side.opposite())),
        final(book)@ == after_match(old(book)@, order),
{
    let opp = order.side.opposite();
    let ghost v0 = book@;
    let ghost makers0 = book@.side(opp);
    let mut taker = order;
    let mut trades: Vec<Trade> = Vec::new();
    assert(trades@ + fills(taker, makers0) =~= fills(order, makers0));
    loop
        invariant_except_break
            taker.quantity > 0,
            fills(order, makers0) == trades@ + fills(taker, book@.side(opp)),
            makers_after(order, makers0) == makers_after(taker, book@.side(opp)),
            unfilled(order, makers0) == unfilled(taker, book@.side(opp)),
        invariant
            book.wf(),
            opp == order.side.opposite(),
            taker == order.with_quantity(taker.quantity),
            book@.side(order.side) == v0.side(order.side),
            book@.cancelled == v0.cancelled,
            forall|id: OrderId| book@.is_resting(id) ==> v0.is_resting(id),
        ensures
            fills(order, makers0) == trades@,
            makers_after(order, makers0) == book@.side(opp),
            unfilled(order, makers0) == taker.quantity,
        decreases taker.quantity,
    {
        let ghost v = book@;
        let ghost s = book@.side(opp);
        let ghost before = trades@;
        let ghost taker0 = taker;
        proof {
            book.lemma_wf();
        }
        let best_opposing = match opp {
            Side::Buy => book.peek_best_buy(),
            Side::Sell => book.peek_best_sell(),
        };
        let best_opposing = match best_opposing {
            Some(o) => o,
            None => {
                assert(trades@ + Seq::<Trade>::empty() =~= trades@);
                break ;
            },
        };
        if !taker.can_match(&best_opposing) {
            assert(trades@ + Seq::<Trade>::empty() =~= trades@);
            break ;
        }
        let price = match (taker.order_type, best_opposing.order_type) {
            (OrderType::Market, _) => best_opposing.price,
            (_, OrderType::Market) => taker.price,
            (OrderType::Limit, OrderType::Limit) => best_opposing.price,
        };
        let quantity = if taker.quantity <= best_opposing.quantity {
            taker.quantity
        } else {
            best_opposing.quantity
        };
        let popped = match opp {
            Side::Buy => book.pop_best_buy(),
            Side::Sell => book.pop_best_sell(),
        };
        let mut maker = match popped {
            Some(o) => o,
            None => {
                break ;
            },
        };
        let trade = match taker.side {
            Side::Buy => Trade::new(taker.id, maker.id, price, quantity),
            Side::Sell => Trade::new(maker.id, taker.id, price, quantity),
        };
        proof {
            assert(can_fill(taker, s));
            assert(maker == s[0]);
            assert(resting_ok(opp, maker));
            assert(trade == trade_between(taker, s[0], fill_quantity(taker, s[0])));
            lemma_pop_wf(v, opp);
            book.lemma_wf();
            assert(has_id(s, maker.id));
            assert(v.is_resting(maker.id));
            assert(!v.cancelled.contains(maker.id));
        }
        trades.push(trade);
        taker.quantity -= quantity;
        maker.quantity -= quantity;
        proof {
            assert(taker == reduced(taker0, quantity));
            assert(before + (seq![trade] + fills(taker, s.drop_first())) =~= (before.push(trade))
                + fills(taker, s.drop_first()));
        }
        if maker.quantity > 0 {
            proof {
                assert(maker == reduced(s[0], quantity));
                if s.len() > 1 {
                    assert(s.drop_first()[0] == s[1]);
                    assert(!ranks_ahead(opp, s[1], s[0]));
                }
                lemma_restore_wf(book@, maker);
            }
            book.restore_order(maker);
            proof {
                assert(book@.side(opp) =~= s.update(0, maker));
                assert(fills(taker, s.drop_first()) =~= Seq::<Trade>::empty());
                assert(fills(taker, book@.side(opp)) =~= Seq::<Trade>::empty());
            }
        }
        if taker.quantity == 0 {
            proof {
                assert(fills(taker, book@.side(opp)) =~= Seq::<Trade>::empty());
                assert(trades@ + Seq::<Trade>::empty() =~= trades@);
                assert(taker == reduced(taker0, quantity));
                assert(!can_fill(taker, s.drop_first()));
                assert(fill_quantity(taker0, s[0]) == quantity);
                assert(unfilled(taker, s.drop_first()) == taker.quantity);
                assert(makers_after(taker, s.drop_first()) == s.drop_first());
                if maker.quantity > 0 {
                    assert(taker0.quantity < s[0].quantity);
                    assert(book@.side(opp) == s.update(0, reduced(s[0], taker0.quantity)));
                } else {
                    assert(book@.side(opp) == s.drop_first());
                }
                assert(makers_after(taker0, s) == book@.side(opp));
                assert(unfilled(taker0, s) == 0);
            }
            break ;
        }
    }
    if taker.order_type == OrderType::Limit && taker.quantity > 0 {
        book.add_order(taker);
    }
    trades
}

/// Appends `new_trades` to the tape, oldest first, dropping the oldest trade
/// of the tape whenever it is full.
fn append_to_tape(tape: &mut VecDeque<Trade>, new_trades: &Vec<Trade>)
    requires
        old(tape)@.len() <= TRADE_POOL_SIZE,
    ensures
        final(tape)@ == tail(old(tape)@ + new_trades@, TRADE_POOL_SIZE as nat),
{
    let mut i: usize = 0;
    assert(old(tape)@ + new_trades@.take(0) =~= old(tape)@);
    while i < new_trades.len()
        invariant
            i <= new_trades.len(),
            tape@ == tail(old(tape)@ + new_trades@.take(i as int), TRADE_POOL_SIZE as nat),
        decreases new_trades.len() - i,
    {
        let ghost so_far = old(tape)@ + new_trades@.take(i as int);
        if tape.len() >= TRADE_POOL_SIZE {
            tape.pop_front();
        }
        tape.push_back(new_trades[i]);
        proof {
            assert(so_far.push(new_trades@[i as int]) =~= old(tape)@ + new_trades@.take(i + 1));
            assert(tape@ =~= tail(so_far.push(new_trades@[i as int]), TRADE_POOL_SIZE as nat));
        }
        i += 1;
    }
    assert(new_trades@.take(i as int) =~= new_trades@);
}

/// A matching engine for one instrument: the order book, the tape of the
/// latest trades, and two counters from which a caller may draw ids and
/// timestamps.
pub struct MatchingEngine {
    order_book: OrderBook,
    trades: VecDeque<Trade>,
    next_order_id: OrderId,
    current_timestamp: Timestamp,
    history: Ghost<Seq<Trade>>,
}

impl View for MatchingEngine {
    type V = EngineView;

    closed spec fn view(&self) -> EngineView {
        EngineView {
            book: self.order_book@,
            tape: self.trades@,
            history: self.history@,
            next_order_id: self.next_order_id,
            current_timestamp: self.current_timestamp,
        }
    }
}

impl MatchingEngine {
    /// The engine's invariant: its book is well-formed and its view is.
    pub closed spec fn wf(&self) -> bool {
        &&& self.order_book.wf()
        &&& self@.wf()
    }

    /// A well-formed engine has a well-formed view: in particular its book is
    /// not crossed.
    pub proof fn lemma_wf(&self)
        requires
            self.wf(),
        ensures
            self@.wf(),
    {
    }

    /// An engine with an empty book and an empty tape.
    pub fn new() -> (engine: Self)
        ensures
            engine.wf(),
            engine@ == EngineView::start(),
    {
        MatchingEngine {
            order_book: OrderBook::new(),
            trades: VecDeque::with_capacity(TRADE_POOL_SIZE),
            next_order_id: 1,
            current_timestamp: 1,
            history: Ghost(Seq::empty()),
        }
    }

    /// Hands out the next order id: 1, 2, 3 and so on. After the largest id
    /// the count starts again at 0.
    pub fn next_id(&mut self) -> (id: OrderId)
        ensures
            id == old(self)@.next_order_id,
            final(self)@ == (EngineView {
                next_order_id: if id == OrderId::MAX {
                    0
                } else {
                    (id + 1) as OrderId
                },
                ..old(self)@
            }),
            old(self).wf() ==> final(self).wf(),
    {
        let current = self.next_order_id;
        self.next_order_id = if current == OrderId::MAX {
            0
        } else {
            current + 1
        };
        current
    }

    /// Hands out the next timestamp: 1, 2, 3 and so on. After the largest
    /// timestamp the count starts again at 0.
    pub fn next_timestamp(&mut self) -> (timestamp: Timestamp)
        ensures
            timestamp == old(self)@.current_timestamp,
            final(self)@ == (EngineView {
                current_timestamp: if timestamp == Timestamp::MAX {
                    0
                } else {
                    (timestamp + 1) as Timestamp
                },
                ..old(self)@
            }),
            old(self).wf() ==> final(self).wf(),
    {
        let current = self.current_timestamp;
        self.current_timestamp = if current == Timestamp::MAX {
            0
        } else {
            current + 1
        };
        current
    }

    /// Submits an order. An order without quantity, or a market order that
    /// names a price, is refused as invalid; an order whose id rests in the
    /// book or was cancelled there is refused as a duplicate; neither changes
    /// anything. Any other order is matched, its trades are returned in the
    /// order in which they were made, and they go onto the tape.
    pub fn submit_order(&mut self, order: Order) -> (r: Result<Vec<Trade>, SubmitError>)
        requires
            old(self).wf(),
        ensures
            final(self).wf(),
            final(self)@.wf(),
            final(self)@ == old(self)@.submit(order),
            match r {
                Ok(trades) => old(self)@.submit_result(order) == Ok::<Seq<Trade>, SubmitError>(
                    trades@,
                ),
                Err(e) => old(self)@.submit_result(order) == Err::<Seq<Trade>, SubmitError>(e),
            },
    {
        if order.quantity == 0 || (order.order_type == OrderType::Market && order.price != 0) {
            return Err(SubmitError::InvalidOrder);
        }
        if self.order_book.contains_order(order.id) || self.order_book.was_cancelled(order.id) {
            return Err(SubmitError::DuplicateId);
        }
        let trades = match_order(&mut self.order_book, order);
        append_to_tape(&mut self.trades, &trades);
        proof {
            self.history@ = self.history@ + trades@;
            lemma_after_match(old(self)@.book, order);
            lemma_tail_add(old(self)@.history, trades@, TRADE_POOL_SIZE as nat);
        }
        Ok(trades)
    }

    /// Cancels the resting order with `order_id`.
    pub fn cancel_order(&mut self, order_id: OrderId) -> (r: CancelResult)
        requires
            old(self).wf(),
        ensures
            final(self).wf(),
            final(self)@.wf(),
            r == old(self)@.book.cancel_result(order_id),
            final(self)@ == old(self)@.cancel(order_id),
    {
        let r = self.order_book.cancel_order(order_id);
        proof {
            lemma_cancel_uncrossed(old(self)@.book, order_id);
            self.order_book.lemma_wf();
        }
        r
    }

    /// The resting buy orders, best first: the first has the highest price
    /// of all, and the smallest timestamp of those at that price.
    pub fn get_buy_orders(&self) -> (orders: Vec<Order>)
        requires
            self.wf(),
        ensures
            orders@ == self@.book.bids,
            forall|i: int|
                0 <= i < orders.len() ==> (#[trigger] orders[i]).price <= orders[0].price && (
                orders[i].price == orders[0].price ==> orders[0].timestamp <= orders[i].timestamp),
    {
        proof {
            lemma_first_is_best(self@.book);
        }
        self.order_book.get_buy_orders()
    }

    /// The resting sell orders, best first: the first has the lowest price of
    /// all, and the smallest timestamp of those at that price.
    pub fn get_sell_orders(&self) -> (orders: Vec<Order>)
        requires
            self.wf(),
        ensures
            orders@ == self@.book.asks,
            forall|i: int|
                0 <= i < orders.len() ==> (#[trigger] orders[i]).price >= orders[0].price && (
                orders[i].price == orders[0].price ==> orders[0].timestamp <= orders[i].timestamp),
    {
        proof {
            lemma_first_is_best(self@.book);
        }
        self.order_book.get_sell_orders()
    }

    /// How many buy orders rest in the book.
    pub fn active_buy_count(&self) -> (n: usize)
        requires
            self.wf(),
        ensures
            n == self@.book.bids.len(),
    {
        self.order_book.get_buy_orders().len()
    }

    /// How many sell orders rest in the book.
    pub fn active_sell_count(&self) -> (n: usize)
        requires
            self.wf(),
        ensures
            n == self@.book.asks.len(),
    {
        self.order_book.get_sell_orders().len()
    }

    /// The trades that the tape holds, oldest first.
    pub fn get_trades(&self) -> (trades: Vec<Trade>)
        ensures
            trades@ == self@.tape,
    {
        let mut out: Vec<Trade> = Vec::new();
        let mut i: usize = 0;
        while i < self.trades.len()
            invariant
                i <= self.trades@.len(),
                out@ == self.trades@.take(i as int),
            decreases self.trades@.len() - i,
        {
            out.push(self.trades[i]);
            proof {
                assert(self.trades@.take(i as int).push(self.trades@[i as int])
                    =~= self.trades@.take(i + 1));
            }
            i += 1;
        }
        assert(self.trades@.take(i as int) =~= self.trades@);
        out
    }
}

impl Default for MatchingEngine {
    fn default() -> (engine: Self)
        ensures
            engine.wf(),
            engine@ == EngineView::start(),
    {
        MatchingEngine::new()
    }
}

} // verus!
