//! Laws of the engine: what holds after every run of submissions and
//! cancellations.

use crate::book_view::{lemma_cancel_wf, BookView};
use crate::engine_view::{
    lemma_after_match, lemma_cancel_uncrossed, lemma_tail_add, tail, EngineView, TRADE_POOL_SIZE,
};
use crate::matching::{fills, lemma_match_shape, lemma_quantity_conserved, total_quantity, unfilled};
use crate::order::{ranks_ahead, Order, OrderId, Side, Trade};
use crate::priority::{has_id, resting_ok};
use vstd::prelude::*;

verus! {

/// What a caller may ask of the engine.
pub enum Command {
    Submit(Order),
    Cancel(OrderId),
}

/// The engine after one command.
pub open spec fn step(v: EngineView, c: Command) -> EngineView {
    match c {
        Command::Submit(o) => v.submit(o),
        Command::Cancel(id) => v.cancel(id),
    }
}

/// The trades that one command returns to its caller.
pub open spec fn step_trades(v: EngineView, c: Command) -> Seq<Trade> {
    match c {
        Command::Submit(o) => match v.submit_result(o) {
            Ok(trades) => trades,
            Err(_) => Seq::empty(),
        },
        Command::Cancel(_) => Seq::empty(),
    }
}

/// The engine after the commands `cs`, in turn.
pub open spec fn run(v: EngineView, cs: Seq<Command>) -> EngineView
    decreases cs.len(),
{
    if cs.len() == 0 {
        v
    } else {
        run(step(v, cs[0]), cs.drop_first())
    }
}

/// The trades that the commands `cs` return, one command's after another's.
pub open spec fn run_trades(v: EngineView, cs: Seq<Command>) -> Seq<Trade>
    decreases cs.len(),
{
    if cs.len() == 0 {
        Seq::empty()
    } else {
        step_trades(v, cs[0]) + run_trades(step(v, cs[0]), cs.drop_first())
    }
}

/// `id` is the buyer or the seller of `t`.
pub open spec fn party_to(t: Trade, id: OrderId) -> bool {
    t.buy_order_id == id || t.sell_order_id == id
}

/// One command keeps the engine well-formed, extends the history by the
/// trades it returns, and keeps every cancelled id cancelled.
pub proof fn lemma_step(v: EngineView, c: Command)
    requires
        v.wf(),
    ensures
        step(v, c).wf(),
        step(v, c).history == v.history + step_trades(v, c),
        forall|id: OrderId|
            v.book.cancelled.contains(id) ==> step(v, c).book.cancelled.contains(id),
{
    match c {
        Command::Submit(o) => {
            match v.submit_result(o) {
                Ok(trades) => {
                    lemma_after_match(v.book, o);
                    lemma_tail_add(v.history, trades, TRADE_POOL_SIZE as nat);
                },
                Err(_) => {
                    assert(v.history + Seq::<Trade>::empty() =~= v.history);
                },
            }
        },
        Command::Cancel(id) => {
            lemma_cancel_wf(v.book, id);
            lemma_cancel_uncrossed(v.book, id);
            assert(v.history + Seq::<Trade>::empty() =~= v.history);
        },
    }
}

/// No crossed book: after any run of submissions and cancellations every
/// resting buy bids less than every resting sell asks.
pub proof fn lemma_never_crossed(v: EngineView, cs: Seq<Command>)
    requires
        v.wf(),
    ensures
        run(v, cs).wf(),
        forall|i: int, j: int|
            0 <= i < run(v, cs).book.bids.len() && 0 <= j < run(v, cs).book.asks.len() ==> (
            #[trigger] run(v, cs).book.bids[i]).price < (#[trigger] run(v, cs).book.asks[j]).price,
    decreases cs.len(),
{
    if cs.len() > 0 {
        lemma_step(v, cs[0]);
        lemma_never_crossed(step(v, cs[0]), cs.drop_first());
    }
}

/// Priority: the first order of each side has the best price of its side,
/// the highest among the buys and the lowest among the sells, and among the
/// orders at that price the smallest timestamp.
pub proof fn lemma_first_is_best(v: BookView)
    requires
        v.wf(),
    ensures
        forall|i: int|
            0 <= i < v.bids.len() ==> (#[trigger] v.bids[i]).price <= v.bids[0].price && (
            v.bids[i].price == v.bids[0].price ==> v.bids[0].timestamp <= v.bids[i].timestamp),
        forall|i: int|
            0 <= i < v.asks.len() ==> (#[trigger] v.asks[i]).price >= v.asks[0].price && (
            v.asks[i].price == v.asks[0].price ==> v.asks[0].timestamp <= v.asks[i].timestamp),
{
    assert forall|i: int| 0 <= i < v.bids.len() implies (#[trigger] v.bids[i]).price
        <= v.bids[0].price && (v.bids[i].price == v.bids[0].price ==> v.bids[0].timestamp
        <= v.bids[i].timestamp) by {
        if i > 0 {
            assert(!ranks_ahead(Side::Buy, v.bids[i], v.bids[0]));
        }
    }
    assert forall|i: int| 0 <= i < v.asks.len() implies (#[trigger] v.asks[i]).price
        >= v.asks[0].price && (v.asks[i].price == v.asks[0].price ==> v.asks[0].timestamp
        <= v.asks[i].timestamp) by {
        if i > 0 {
            assert(!ranks_ahead(Side::Sell, v.asks[i], v.asks[0]));
        }
    }
}

/// Quantity conservation for the incoming order: the trades of one accepted
/// submission add up to no more than the order's quantity, and to exactly
/// that quantity if and only if the order was filled. A filled order does not
/// come to rest; of a limit order that was not filled, what is left rests.
pub proof fn lemma_submission_conserves(v: EngineView, o: Order)
    requires
        v.wf(),
        v.submit_result(o) is Ok,
    ensures
        ({
            let trades = v.submit_result(o)->Ok_0;
            let left = unfilled(o, v.book.side(o.side.opposite()));
            let w = v.submit(o).book;
            &&& total_quantity(trades) + left == o.quantity
            &&& total_quantity(trades) <= o.quantity
            &&& total_quantity(trades) == o.quantity <==> left == 0
            &&& left == 0 || o.order_type is Market ==> !w.is_resting(o.id)
            &&& left > 0 && o.order_type is Limit ==> w.resting(o.id) == Some(
                o.with_quantity(left),
            )
        }),
{
    let makers = v.book.side(o.side.opposite());
    let left = unfilled(o, makers);
    let v1 = crate::engine_view::after_fills(v.book, o);
    lemma_quantity_conserved(o, makers);
    crate::engine_view::lemma_after_fills(v.book, o);
    assert(!v1.is_resting(o.id));
    if left > 0 && o.order_type is Limit {
        let o1 = o.with_quantity(left);
        let own = v1.side(o.side);
        let k = crate::priority::rest_index(o.side, own, o1);
        let w = v1.add(o1);
        crate::priority::lemma_rest_index(o.side, own, o1);
        crate::book_view::lemma_add_wf(v1, o1);
        assert(w.side(o.side)[k] == o1);
        crate::priority::lemma_position_of(w.side(o.side), k);
        crate::book_view::lemma_disjoint_ids(w.bids, w.asks);
    }
}

/// Tape monotonicity: the history is the trades of all submissions in the
/// order in which they were returned, and the tape is the end of the
/// history, as much of it as the tape holds.
pub proof fn lemma_tape_follows(v: EngineView, cs: Seq<Command>)
    requires
        v.wf(),
    ensures
        run(v, cs).history == v.history + run_trades(v, cs),
        run(v, cs).tape == tail(v.history + run_trades(v, cs), TRADE_POOL_SIZE as nat),
    decreases cs.len(),
{
    if cs.len() == 0 {
        assert(v.history + Seq::<Trade>::empty() =~= v.history);
    } else {
        let v1 = step(v, cs[0]);
        lemma_step(v, cs[0]);
        lemma_tape_follows(v1, cs.drop_first());
        assert((v.history + step_trades(v, cs[0])) + run_trades(v1, cs.drop_first()) =~= v.history
            + (step_trades(v, cs[0]) + run_trades(v1, cs.drop_first())));
    }
}

/// Cancelling twice: the second cancellation of an id never succeeds. It
/// finds the id cancelled where the first succeeded or found it cancelled,
/// and unknown where the first found it unknown.
pub proof fn lemma_cancel_twice(v: BookView, id: OrderId)
    requires
        v.wf(),
    ensures
        !(v.cancel(id).cancel_result(id) is Success),
        v.cancel_result(id) is Success ==> v.cancel(id).cancel_result(id) is AlreadyCancelled,
        v.cancel_result(id) is AlreadyCancelled ==> v.cancel(id).cancel_result(id)
            is AlreadyCancelled,
        v.cancel_result(id) is NotFound ==> v.cancel(id).cancel_result(id) is NotFound,
{
    lemma_cancel_wf(v, id);
}

/// A cancelled id stays out: it is party to no trade of a later command.
pub proof fn lemma_cancelled_not_traded(v: EngineView, id: OrderId, c: Command)
    requires
        v.wf(),
        v.book.cancelled.contains(id),
    ensures
        forall|i: int|
            0 <= i < step_trades(v, c).len() ==> !party_to(#[trigger] step_trades(v, c)[i], id),
{
    match c {
        Command::Submit(o) => {
            if v.submit_result(o) is Ok {
                let makers = v.book.side(o.side.opposite());
                let f = fills(o, makers);
                assert forall|i: int| 0 <= i < makers.len() implies (#[trigger] makers[i]).quantity
                    > 0 by {
                    assert(resting_ok(o.side.opposite(), makers[i]));
                }
                lemma_match_shape(o, makers);
                assert forall|i: int| 0 <= i < f.len() implies !party_to(#[trigger] f[i], id) by {
                    assert(has_id(makers, makers[i].id));
                    assert(v.book.is_resting(makers[i].id));
                }
            }
        },
        Command::Cancel(_) => {},
    }
}

/// Cancel invisibility: once an id is cancelled, no run of commands makes it
/// rest again on either side, and it is party to none of the run's trades.
pub proof fn lemma_cancelled_stays_out(v: EngineView, id: OrderId, cs: Seq<Command>)
    requires
        v.wf(),
        v.book.cancelled.contains(id),
    ensures
        run(v, cs).book.cancelled.contains(id),
        !has_id(run(v, cs).book.bids, id),
        !has_id(run(v, cs).book.asks, id),
        forall|i: int|
            0 <= i < run_trades(v, cs).len() ==> !party_to(#[trigger] run_trades(v, cs)[i], id),
    decreases cs.len(),
{
    if cs.len() == 0 {
        assert(!v.book.is_resting(id));
    } else {
        let v1 = step(v, cs[0]);
        lemma_step(v, cs[0]);
        lemma_cancelled_not_traded(v, id, cs[0]);
        lemma_cancelled_stays_out(v1, id, cs.drop_first());
        let a = step_trades(v, cs[0]);
        let b = run_trades(v1, cs.drop_first());
        assert forall|i: int| 0 <= i < (a + b).len() implies !party_to(#[trigger] (a + b)[i], id) by {
            if i < a.len() {
                assert((a + b)[i] == a[i]);
            } else {
                assert((a + b)[i] == b[i - a.len()]);
            }
        }
    }
}

/// After a cancellation that succeeded, the order's id is in no later
/// snapshot of either side and in no later trade.
pub proof fn lemma_cancel_invisible(v: EngineView, id: OrderId, cs: Seq<Command>)
    requires
        v.wf(),
        v.book.cancel_result(id) is Success,
    ensures
        !has_id(run(v.cancel(id), cs).book.bids, id),
        !has_id(run(v.cancel(id), cs).book.asks, id),
        forall|i: int|
            0 <= i < run_trades(v.cancel(id), cs).len() ==> !party_to(
                #[trigger] run_trades(v.cancel(id), cs)[i],
                id,
            ),
{
    lemma_step(v, Command::Cancel(id));
    lemma_cancel_wf(v.book, id);
    lemma_cancelled_stays_out(v.cancel(id), id, cs);
}

} // verus!
