//! Orders, trades and the book as text.

use crate::book_view::BookView;
use crate::order::{Order, OrderType, Side, Trade};
use crate::order_book::OrderBook;
use vstd::prelude::*;
use vstd::string::StringExecFns;

verus! {

/// The decimal digit `d` as text.
pub open spec fn digit_text(d: int) -> Seq<char> {
    if d == 0 {
        "0"@
    } else if d == 1 {
        "1"@
    } else if d == 2 {
        "2"@
    } else if d == 3 {
        "3"@
    } else if d == 4 {
        "4"@
    } else if d == 5 {
        "5"@
    } else if d == 6 {
        "6"@
    } else if d == 7 {
        "7"@
    } else if d == 8 {
        "8"@
    } else {
        "9"@
    }
}

/// `n` in decimal, without leading zeros.
pub open spec fn decimal_text(n: nat) -> Seq<char>
    decreases n,
{
    if n < 10 {
        digit_text(n as int)
    } else {
        decimal_text(n / 10) + digit_text((n % 10) as int)
    }
}

/// The name of a side.
pub open spec fn side_text(side: Side) -> Seq<char> {
    match side {
        Side::Buy => "Buy"@,
        Side::Sell => "Sell"@,
    }
}

/// The name of an order type.
pub open spec fn order_type_text(order_type: OrderType) -> Seq<char> {
    match order_type {
        OrderType::Limit => "Limit"@,
        OrderType::Market => "Market"@,
    }
}

/// An order on six lines, one per field, after an empty line.
pub open spec fn order_text(o: Order) -> Seq<char> {
    "\nID: "@ + decimal_text(o.id as nat) + "\nSide: "@ + side_text(o.side) + "\nOrder Type: "@
        + order_type_text(o.order_type) + "\nQuantity: "@ + decimal_text(o.quantity as nat)
        + "\nPrice: "@ + decimal_text(o.price as nat) + "\nTimestamp: "@ + decimal_text(
        o.timestamp as nat,
    ) + "\n"@
}

/// A trade on five lines after an empty line.
pub open spec fn trade_text(t: Trade) -> Seq<char> {
    "\nTrade\nBuy ID: "@ + decimal_text(t.buy_order_id as nat) + "\nSell ID: "@ + decimal_text(
        t.sell_order_id as nat,
    ) + "\nPrice: "@ + decimal_text(t.price as nat) + "\nQuantity: "@ + decimal_text(
        t.quantity as nat,
    ) + "\n"@
}

/// An order on one line, each field with its name.
pub open spec fn order_line(o: Order) -> Seq<char> {
    "Order { id: "@ + decimal_text(o.id as nat) + ", quantity: "@ + decimal_text(o.quantity as nat)
        + ", price: "@ + decimal_text(o.price as nat) + ", timestamp: "@ + decimal_text(
        o.timestamp as nat,
    ) + ", side: "@ + side_text(o.side) + ", order_type: "@ + order_type_text(o.order_type)
        + " }"@
}

/// Whether the order at place `i` of `s` opens a price level: it is the first
/// order, or its price differs from that of the order before it.
pub open spec fn opens_level(s: Seq<Order>, i: int) -> bool {
    i == 0 || s[i].price != s[i - 1].price
}

/// What the order at place `i` adds to the lines of `s`: the end of the line
/// before and the price where it opens a level, a comma where it does not,
/// and the order itself.
pub open spec fn level_piece(s: Seq<Order>, i: int) -> Seq<char> {
    if i == 0 {
        decimal_text(s[i].price as nat) + " -> ["@ + order_line(s[i])
    } else if opens_level(s, i) {
        "]\n"@ + decimal_text(s[i].price as nat) + " -> ["@ + order_line(s[i])
    } else {
        ", "@ + order_line(s[i])
    }
}

/// The pieces of the first `n` orders of `s`.
pub open spec fn level_pieces(s: Seq<Order>, n: int) -> Seq<char>
    decreases n,
{
    if n <= 0 {
        Seq::empty()
    } else {
        level_pieces(s, n - 1) + level_piece(s, n - 1)
    }
}

/// A queue as lines, one per price level in the order of the queue: the
/// price, an arrow, and in square brackets the orders of the level.
pub open spec fn level_lines(s: Seq<Order>) -> Seq<char> {
    if s.len() == 0 {
        Seq::empty()
    } else {
        level_pieces(s, s.len() as int) + "]\n"@
    }
}

/// The book as text: the levels of the buy side, then those of the sell
/// side, each side best price first.
pub open spec fn book_text(v: BookView) -> Seq<char> {
    "\nBuy:\n"@ + level_lines(v.bids) + "\nSell:\n"@ + level_lines(v.asks) + "\n"@
}

fn digit_str(d: u8) -> (s: &'static str)
    requires
        d < 10,
    ensures
        s@ == digit_text(d as int),
{
    match d {
        0 => "0",
        1 => "1",
        2 => "2",
        3 => "3",
        4 => "4",
        5 => "5",
        6 => "6",
        7 => "7",
        8 => "8",
        _ => "9",
    }
}

/// Appends `n` in decimal.
fn append_decimal(out: &mut String, n: u128)
    ensures
        final(out)@ == old(out)@ + decimal_text(n as nat),
    decreases n,
{
    if n >= 10 {
        append_decimal(out, n / 10);
    }
    out.append(digit_str((n % 10) as u8));
    proof {
        if n >= 10 {
            assert(old(out)@ + decimal_text((n / 10) as nat) + digit_text((n % 10) as int) =~= old(
                out,
            )@ + (decimal_text((n / 10) as nat) + digit_text((n % 10) as int)));
        }
    }
}

fn side_str(side: Side) -> (s: &'static str)
    ensures
        s@ == side_text(side),
{
    match side {
        Side::Buy => "Buy",
        Side::Sell => "Sell",
    }
}

fn order_type_str(order_type: OrderType) -> (s: &'static str)
    ensures
        s@ == order_type_text(order_type),
{
    match order_type {
        OrderType::Limit => "Limit",
        OrderType::Market => "Market",
    }
}

impl Order {
    /// The order as text, one field per line.
    pub fn to_text(&self) -> (text: String)
        ensures
            text@ == order_text(*self),
    {
        let mut out = String::from_str("\nID: ");
        append_decimal(&mut out, self.id);
        out.append("\nSide: ");
        out.append(side_str(self.side));
        out.append("\nOrder Type: ");
        out.append(order_type_str(self.order_type));
        out.append("\nQuantity: ");
        append_decimal(&mut out, self.quantity as u128);
        out.append("\nPrice: ");
        append_decimal(&mut out, self.price as u128);
        out.append("\nTimestamp: ");
        append_decimal(&mut out, self.timestamp as u128);
        out.append("\n");
        out
    }

    /// The order as text on one line.
    pub fn to_line(&self) -> (text: String)
        ensures
            text@ == order_line(*self),
    {
        let mut out = String::from_str("Order { id: ");
        append_decimal(&mut out, self.id);
        out.append(", quantity: ");
        append_decimal(&mut out, self.quantity as u128);
        out.append(", price: ");
        append_decimal(&mut out, self.price as u128);
        out.append(", timestamp: ");
        append_decimal(&mut out, self.timestamp as u128);
        out.append(", side: ");
        out.append(side_str(self.side));
        out.append(", order_type: ");
        out.append(order_type_str(self.order_type));
        out.append(" }");
        out
    }
}

impl Trade {
    /// The trade as text, one field per line.
    pub fn to_text(&self) -> (text: String)
        ensures
            text@ == trade_text(*self),
    {
        let mut out = String::from_str("\nTrade\nBuy ID: ");
        append_decimal(&mut out, self.buy_order_id);
        out.append("\nSell ID: ");
        append_decimal(&mut out, self.sell_order_id);
        out.append("\nPrice: ");
        append_decimal(&mut out, self.price as u128);
        out.append("\nQuantity: ");
        append_decimal(&mut out, self.quantity as u128);
        out.append("\n");
        out
    }
}

/// The text that the order at place `i` adds to the lines of `orders`.
fn piece_of(orders: &Vec<Order>, i: usize) -> (text: String)
    requires
        i < orders.len(),
    ensures
        text@ == level_piece(orders@, i as int),
{
    let line = orders[i].to_line();
    if i == 0 {
        let mut out = String::new();
        append_decimal(&mut out, orders[i].price as u128);
        out.append(" -> [");
        out.append(line.as_str());
        proof {
            assert(Seq::<char>::empty() + decimal_text(orders@[0].price as nat) =~= decimal_text(
                orders@[0].price as nat,
            ));
        }
        out
    } else if orders[i].price != orders[i - 1].price {
        let mut out = String::from_str("]\n");
        append_decimal(&mut out, orders[i].price as u128);
        out.append(" -> [");
        out.append(line.as_str());
        out
    } else {
        let mut out = String::from_str(", ");
        out.append(line.as_str());
        out
    }
}

/// Appends the level lines of `orders`.
fn append_level_lines(out: &mut String, orders: &Vec<Order>)
    ensures
        final(out)@ == old(out)@ + level_lines(orders@),
{
    let mut i: usize = 0;
    assert(old(out)@ + level_pieces(orders@, 0) =~= old(out)@);
    while i < orders.len()
        invariant
            i <= orders.len(),
            out@ == old(out)@ + level_pieces(orders@, i as int),
        decreases orders.len() - i,
    {
        let piece = piece_of(orders, i);
        out.append(piece.as_str());
        proof {
            assert(old(out)@ + level_pieces(orders@, i as int) + level_piece(orders@, i as int)
                =~= old(out)@ + level_pieces(orders@, i + 1));
        }
        i += 1;
    }
    if orders.len() > 0 {
        out.append("]\n");
        proof {
            assert(old(out)@ + level_pieces(orders@, orders@.len() as int) + "]\n"@ =~= old(out)@
                + level_lines(orders@));
        }
    } else {
        assert(old(out)@ + level_lines(orders@) =~= old(out)@);
    }
}

impl OrderBook {
    /// The book as text: under `Buy:` and under `Sell:` one line for each
    /// price level, best price first.
    pub fn to_text(&self) -> (text: String)
        requires
            self.wf(),
        ensures
            text@ == book_text(self@),
    {
        let bids = self.get_buy_orders();
        let asks = self.get_sell_orders();
        let mut out = String::from_str("\nBuy:\n");
        append_level_lines(&mut out, &bids);
        out.append("\nSell:\n");
        append_level_lines(&mut out, &asks);
        out.append("\n");
        out
    }
}

} // verus!
