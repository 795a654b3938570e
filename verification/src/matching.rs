//! What matching an incoming order against a queue of resting orders
//! produces: the trades, the queue that is left, and the quantity of the
//! incoming order that found no counterparty.

use crate::order::{Order, OrderId, Price, Quantity, Side, Trade};
use crate::book_view::{lemma_distinct_remove, lemma_has_id_remove};
use crate::priority::{distinct_ids, has_id, lemma_position_of, position_of};
use vstd::prelude::*;

verus! {

/// The price at which `taker` trades with the resting `maker`: the maker's
/// price, unless the maker is a market order and the taker is not.
pub open spec fn execution_price(taker: Order, maker: Order) -> Price {
    if taker.order_type is Market {
        maker.price
    } else if maker.order_type is Market {
        taker.price
    } else {
        maker.price
    }
}

/// The quantity that `taker` and `maker` exchange: the smaller of the two.
pub open spec fn fill_quantity(taker: Order, maker: Order) -> Quantity {
    if taker.quantity <= maker.quantity {
        taker.quantity
    } else {
        maker.quantity
    }
}

/// The trade of `quantity` between `taker` and `maker`; the buyer is the one
/// whose side is `Buy`.
pub open spec fn trade_between(taker: Order, maker: Order, quantity: Quantity) -> Trade {
    match taker.side {
        Side::Buy => Trade {
            buy_order_id: taker.id,
            sell_order_id: maker.id,
            price: execution_price(taker, maker),
            quantity,
        },
        Side::Sell => Trade {
            buy_order_id: maker.id,
            sell_order_id: taker.id,
            price: execution_price(taker, maker),
            quantity,
        },
    }
}

/// `o` with its quantity lowered by `q`.
pub open spec fn reduced(o: Order, q: Quantity) -> Order {
    o.with_quantity((o.quantity - q) as u64)
}

/// `taker` has something left, and the best of `makers` may trade with it.
pub open spec fn can_fill(taker: Order, makers: Seq<Order>) -> bool {
    taker.quantity > 0 && makers.len() > 0 && taker.crosses(makers[0])
}

/// The trades of `taker` against `makers`, taken best first, in the order in
/// which they happen.
pub open spec fn fills(taker: Order, makers: Seq<Order>) -> Seq<Trade>
    decreases makers.len(),
{
    if !can_fill(taker, makers) {
        Seq::empty()
    } else {
        let q = fill_quantity(taker, makers[0]);
        seq![trade_between(taker, makers[0], q)] + fills(reduced(taker, q), makers.drop_first())
    }
}

/// How many of `makers` the `taker` fills completely.
pub open spec fn filled_count(taker: Order, makers: Seq<Order>) -> nat
    decreases makers.len(),
{
    if !can_fill(taker, makers) || taker.quantity < makers[0].quantity {
        0
    } else {
        1 + filled_count(reduced(taker, makers[0].quantity), makers.drop_first())
    }
}

/// The queue that `taker` leaves behind: without the makers it filled
/// completely, and with the quantity of a partly filled maker lowered, that
/// maker still first.
pub open spec fn makers_after(taker: Order, makers: Seq<Order>) -> Seq<Order>
    decreases makers.len(),
{
    if !can_fill(taker, makers) {
        makers
    } else if taker.quantity < makers[0].quantity {
        makers.update(0, reduced(makers[0], taker.quantity))
    } else {
        makers_after(reduced(taker, makers[0].quantity), makers.drop_first())
    }
}

/// The quantity of `taker` that is left when matching against `makers`
/// ends.
pub open spec fn unfilled(taker: Order, makers: Seq<Order>) -> Quantity
    decreases makers.len(),
{
    if !can_fill(taker, makers) {
        taker.quantity
    } else {
        unfilled(reduced(taker, fill_quantity(taker, makers[0])), makers.drop_first())
    }
}

/// The sum of the quantities of `trades`.
pub open spec fn total_quantity(trades: Seq<Trade>) -> int
    decreases trades.len(),
{
    if trades.len() == 0 {
        0
    } else {
        trades[0].quantity + total_quantity(trades.drop_first())
    }
}

/// Quantity is conserved: what the taker trades and what it has left add up
/// to what it came with. So the trades never exceed the incoming quantity,
/// and reach it exactly where nothing is left.
pub proof fn lemma_quantity_conserved(taker: Order, makers: Seq<Order>)
    ensures
        total_quantity(fills(taker, makers)) + unfilled(taker, makers) == taker.quantity,
        total_quantity(fills(taker, makers)) <= taker.quantity,
        total_quantity(fills(taker, makers)) == taker.quantity <==> unfilled(taker, makers) == 0,
    decreases makers.len(),
{
    if can_fill(taker, makers) {
        let q = fill_quantity(taker, makers[0]);
        let t = trade_between(taker, makers[0], q);
        let rest = fills(reduced(taker, q), makers.drop_first());
        lemma_quantity_conserved(reduced(taker, q), makers.drop_first());
        assert((seq![t] + rest).drop_first() =~= rest);
    }
}

/// How the trades and the queue left behind relate to the queue before, for
/// makers that each have a positive quantity:
/// the taker trades with the first makers in turn, each at most once; it
/// fills `filled_count` of them completely, each for its whole quantity, and
/// these leave the queue; it may fill the next one in part, which stays first
/// with its quantity lowered by the trade; all others stay as they are.
pub proof fn lemma_match_shape(taker: Order, makers: Seq<Order>)
    requires
        forall|i: int| 0 <= i < makers.len() ==> (#[trigger] makers[i]).quantity > 0,
    ensures
        ({
            let n = filled_count(taker, makers) as int;
            let f = fills(taker, makers);
            let m = makers_after(taker, makers);
            &&& n <= makers.len()
            &&& m.len() == makers.len() - n
            &&& n <= f.len() <= n + 1
            &&& f.len() <= makers.len()
            &&& forall|i: int|
                0 <= i < f.len() ==> (#[trigger] f[i]) == trade_between(
                    taker,
                    makers[i],
                    f[i].quantity,
                )
            &&& forall|i: int| 0 <= i < n ==> (#[trigger] f[i]).quantity == makers[i].quantity
            &&& forall|i: int| 0 < i < m.len() ==> #[trigger] m[i] == makers[n + i]
            &&& f.len() == n ==> m.len() == 0 || m[0] == makers[n]
            &&& f.len() == n + 1 ==> {
                &&& m.len() > 0
                &&& m[0] == makers[n].with_quantity(m[0].quantity)
                &&& 0 < f[n].quantity < makers[n].quantity
                &&& m[0].quantity == makers[n].quantity - f[n].quantity
                &&& unfilled(taker, makers) == 0
            }
            &&& unfilled(taker, makers) > 0 ==> m.len() == 0 || !taker.crosses(m[0])
        }),
    decreases makers.len(),
{
    if !can_fill(taker, makers) {
    } else if taker.quantity < makers[0].quantity {
        let q = taker.quantity;
        let t = trade_between(taker, makers[0], q);
        let rest = fills(reduced(taker, q), makers.drop_first());
        assert(rest =~= Seq::empty());
        assert(seq![t] + rest =~= seq![t]);
        assert(unfilled(reduced(taker, q), makers.drop_first()) == 0);
    } else {
        let q = makers[0].quantity;
        let t = trade_between(taker, makers[0], q);
        let taker1 = reduced(taker, q);
        let makers1 = makers.drop_first();
        lemma_match_shape(taker1, makers1);
        let n1 = filled_count(taker1, makers1) as int;
        let f1 = fills(taker1, makers1);
        let m = makers_after(taker1, makers1);
        let f = seq![t] + f1;
        assert(fills(taker, makers) == f);
        assert forall|i: int| 0 <= i < f.len() implies (#[trigger] f[i]) == trade_between(
            taker,
            makers[i],
            f[i].quantity,
        ) by {
            if i > 0 {
                assert(f[i] == f1[i - 1]);
                assert(makers1[i - 1] == makers[i]);
            }
        }
        assert forall|i: int| 0 <= i < n1 + 1 implies (#[trigger] f[i]).quantity
            == makers[i].quantity by {
            if i > 0 {
                assert(f[i] == f1[i - 1]);
                assert(makers1[i - 1] == makers[i]);
            }
        }
        assert forall|i: int| 0 < i < m.len() implies #[trigger] m[i] == makers[n1 + 1 + i] by {
            assert(makers1[n1 + i] == makers[n1 + 1 + i]);
        }
        if m.len() > 0 {
            assert(makers1[n1] == makers[n1 + 1]);
        }
        if f1.len() == n1 + 1 {
            assert(f[n1 + 1] == f1[n1]);
        }
        assert(taker1.crosses(makers1[0]) ==> taker.crosses(makers1[0])) by {
            if makers1.len() > 0 {
            }
        }
        if m.len() > 0 {
            assert(m[0].price == makers[n1 + 1].price && m[0].side == makers[n1 + 1].side
                && m[0].order_type == makers[n1 + 1].order_type);
        }
    }
}

/// The quantity with which the order `id` rests in `s`; 0 where it does not
/// rest there.
pub open spec fn resting_quantity(s: Seq<Order>, id: OrderId) -> int {
    if has_id(s, id) {
        s[position_of(s, id)].quantity as int
    } else {
        0
    }
}

/// The resting party of a trade that a taker of side `taker_side` made.
pub open spec fn maker_of(taker_side: Side, t: Trade) -> OrderId {
    match taker_side {
        Side::Buy => t.sell_order_id,
        Side::Sell => t.buy_order_id,
    }
}

/// The sum of the quantities of those of `trades` whose resting party is
/// `id`.
pub open spec fn traded_with(taker_side: Side, trades: Seq<Trade>, id: OrderId) -> int
    decreases trades.len(),
{
    if trades.len() == 0 {
        0
    } else {
        (if maker_of(taker_side, trades[0]) == id {
            trades[0].quantity as int
        } else {
            0
        }) + traded_with(taker_side, trades.drop_first(), id)
    }
}

/// No order trades a negative quantity.
proof fn lemma_traded_with_nonnegative(taker_side: Side, trades: Seq<Trade>, id: OrderId)
    ensures
        traded_with(taker_side, trades, id) >= 0,
    decreases trades.len(),
{
    if trades.len() > 0 {
        lemma_traded_with_nonnegative(taker_side, trades.drop_first(), id);
    }
}

/// With distinct ids, an order rests with its own quantity.
pub proof fn lemma_resting_quantity_at(s: Seq<Order>, k: int)
    requires
        distinct_ids(s),
        0 <= k < s.len(),
    ensures
        resting_quantity(s, s[k].id) == s[k].quantity,
{
    lemma_position_of(s, k);
}

/// Quantity conservation for the resting orders: by as much as the trades
/// of one match have an order as their resting party, its quantity in the
/// queue goes down, an order that left the queue counting as 0.
pub proof fn lemma_makers_conserve(taker: Order, makers: Seq<Order>, id: OrderId)
    requires
        distinct_ids(makers),
        forall|i: int| 0 <= i < makers.len() ==> (#[trigger] makers[i]).quantity > 0,
    ensures
        resting_quantity(makers, id) - resting_quantity(makers_after(taker, makers), id)
            == traded_with(taker.side, fills(taker, makers), id),
        resting_quantity(makers_after(taker, makers), id) >= 0,
    decreases makers.len(),
{
    if !can_fill(taker, makers) {
    } else {
        let q = fill_quantity(taker, makers[0]);
        let t = trade_between(taker, makers[0], q);
        let makers1 = makers.drop_first();
        let rest = fills(reduced(taker, q), makers1);
        assert((seq![t] + rest).drop_first() =~= rest);
        assert(maker_of(taker.side, t) == makers[0].id);
        assert(fills(taker, makers) == seq![t] + rest);
        assert((seq![t] + rest)[0] == t);
        assert(traded_with(taker.side, seq![t] + rest, id) == (if makers[0].id == id {
            q as int
        } else {
            0
        }) + traded_with(taker.side, rest, id));
        assert(makers1 =~= makers.remove(0));
        lemma_distinct_remove(makers, 0);
        lemma_has_id_remove(makers, 0, id);
        lemma_resting_quantity_at(makers, 0);
        if taker.quantity < makers[0].quantity {
            let m = makers.update(0, reduced(makers[0], q));
            assert(rest =~= Seq::empty());
            assert(traded_with(taker.side, rest, id) == 0);
            assert(makers_after(taker, makers) == m);
            assert(distinct_ids(m)) by {
                assert forall|i: int, j: int| 0 <= i < j < m.len() implies (#[trigger] m[i]).id != (
                #[trigger] m[j]).id by {
                    assert(makers[i].id != makers[j].id);
                }
            }
            if id == makers[0].id {
                lemma_resting_quantity_at(m, 0);
            } else if has_id(makers, id) {
                let k = position_of(makers, id);
                assert(m[k] == makers[k]);
                lemma_resting_quantity_at(m, k);
            } else {
                if has_id(m, id) {
                    let k = position_of(m, id);
                    assert(makers[k].id == id);
                }
            }
        } else {
            let taker1 = reduced(taker, q);
            lemma_makers_conserve(taker1, makers1, id);
            lemma_traded_with_nonnegative(taker.side, rest, id);
            if id == makers[0].id {
                assert(!has_id(makers1, id));
            } else if has_id(makers, id) {
                let k = position_of(makers, id);
                assert(makers1[k - 1] == makers[k]);
                lemma_resting_quantity_at(makers1, k - 1);
            }
        }
    }
}

} // verus!
