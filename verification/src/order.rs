//! Orders, trades and the rules by which resting orders are ranked.

use std::cmp::Ordering;
use vstd::prelude::*;

verus! {

/// A number of units of the instrument.
pub type Quantity = u64;

/// A price in the instrument's smallest price step.
pub type Price = u64;

/// When an order entered, on a clock of the caller's that does not run
/// backwards.
pub type Timestamp = u64;

/// Identifies an order within one engine. Wide enough to carry a UUID.
pub type OrderId = u128;

/// Whether an order buys or sells.
#[derive(Debug, PartialEq, Eq, Clone, Copy, Structural)]
pub enum Side {
    Buy,
    Sell,
}

/// A limit order trades at its price or better and may rest; a market order
/// trades at any price and never rests.
#[derive(Debug, PartialEq, Eq, Clone, Copy, Structural)]
pub enum OrderType {
    Limit,
    Market,
}

/// An order to buy or sell `quantity` units. The price of a market order is
/// 0.
#[derive(Debug, PartialEq, Eq, Clone, Copy, Structural)]
pub struct Order {
    pub id: OrderId,
    pub quantity: Quantity,
    pub price: Price,
    pub timestamp: Timestamp,
    pub side: Side,
    pub order_type: OrderType,
}

/// An exchange of `quantity` units at `price` between a buy order and a sell
/// order.
#[derive(Debug, PartialEq, Eq, Clone, Copy, Structural)]
pub struct Trade {
    pub buy_order_id: OrderId,
    pub sell_order_id: OrderId,
    pub price: Price,
    pub quantity: Quantity,
}

/// The price an order of `order_type` carries where its sender names
/// `named`: a limit order the price named, or 0 where none is; a market order
/// 0, whatever is named.
pub open spec fn carried_price(order_type: OrderType, named: Option<Price>) -> Price {
    match order_type {
        OrderType::Limit => match named {
            Some(p) => p,
            None => 0,
        },
        OrderType::Market => 0,
    }
}

/// The price to give an order of `order_type` whose sender names `named`.
pub fn order_price(order_type: OrderType, named: Option<Price>) -> (price: Price)
    ensures
        price == carried_price(order_type, named),
{
    match order_type {
        OrderType::Limit => match named {
            Some(p) => p,
            None => 0,
        },
        OrderType::Market => 0,
    }
}

impl Side {
    /// The side an order of this side trades against.
    pub open spec fn opposite_spec(self) -> Side {
        match self {
            Side::Buy => Side::Sell,
            Side::Sell => Side::Buy,
        }
    }

    /// The side an order of this side trades against.
    #[verifier::when_used_as_spec(opposite_spec)]
    pub fn opposite(self) -> (r: Side)
        ensures
            r == self.opposite_spec(),
    {
        match self {
            Side::Buy => Side::Sell,
            Side::Sell => Side::Buy,
        }
    }
}

/// Price `p` is strictly more attractive than price `q` for an order resting
/// on `side`: higher for a buy, lower for a sell.
pub open spec fn better_price(side: Side, p: Price, q: Price) -> bool {
    match side {
        Side::Buy => p > q,
        Side::Sell => p < q,
    }
}

/// `a` has strict priority over `b` among the orders resting on `side`:
/// a better price, or the same price and an earlier timestamp.
pub open spec fn ranks_ahead(side: Side, a: Order, b: Order) -> bool {
    better_price(side, a.price, b.price) || (a.price == b.price && a.timestamp < b.timestamp)
}

/// The ordering of two buy orders by priority: `Less` where `a` goes first.
pub open spec fn buy_ordering(a: Order, b: Order) -> Ordering {
    if ranks_ahead(Side::Buy, a, b) {
        Ordering::Less
    } else if ranks_ahead(Side::Buy, b, a) {
        Ordering::Greater
    } else {
        Ordering::Equal
    }
}

/// The ordering of two sell orders by priority: `Less` where `a` goes first.
pub open spec fn sell_ordering(a: Order, b: Order) -> Ordering {
    if ranks_ahead(Side::Sell, a, b) {
        Ordering::Less
    } else if ranks_ahead(Side::Sell, b, a) {
        Ordering::Greater
    } else {
        Ordering::Equal
    }
}

impl Order {
    pub fn new(
        id: OrderId,
        side: Side,
        order_type: OrderType,
        quantity: Quantity,
        price: Price,
        timestamp: Timestamp,
    ) -> (order: Self)
        ensures
            order == (Order { id, quantity, price, timestamp, side, order_type }),
    {
        Order { id, quantity, price, timestamp, side, order_type }
    }

    /// This order may trade against `other`: the sides differ, and where
    /// both are limit orders the buyer bids at least what the seller asks. A
    /// market order on either side trades at any price.
    pub open spec fn crosses(self, other: Order) -> bool {
        &&& self.side != other.side
        &&& (self.order_type is Limit && other.order_type is Limit) ==> match self.side {
            Side::Buy => self.price >= other.price,
            Side::Sell => self.price <= other.price,
        }
    }

    /// Whether this order may trade against `other`.
    pub fn can_match(&self, other: &Order) -> (r: bool)
        ensures
            r == self.crosses(*other),
    {
        if self.side == other.side {
            return false;
        }
        match (self.order_type, other.order_type) {
            (OrderType::Limit, OrderType::Limit) => {
                if self.side == Side::Buy {
                    self.price >= other.price
                } else {
                    self.price <= other.price
                }
            },
            _ => true,
        }
    }

    /// This order with its quantity replaced.
    pub open spec fn with_quantity(self, quantity: Quantity) -> Order {
        Order { quantity, ..self }
    }
}

impl Trade {
    pub fn new(
        buy_order_id: OrderId,
        sell_order_id: OrderId,
        price: Price,
        quantity: Quantity,
    ) -> (trade: Self)
        ensures
            trade == (Trade { buy_order_id, sell_order_id, price, quantity }),
    {
        Trade { buy_order_id, sell_order_id, price, quantity }
    }
}

/// Compares two buy orders by priority: the higher price goes first, and at
/// one price the earlier timestamp.
pub fn _compare_buy_orders(o1: &Order, o2: &Order) -> (r: Ordering)
    ensures
        r == buy_ordering(*o1, *o2),
{
    if o1.price < o2.price {
        Ordering::Greater
    } else if o1.price > o2.price {
        Ordering::Less
    } else if o1.timestamp < o2.timestamp {
        Ordering::Less
    } else if o1.timestamp > o2.timestamp {
        Ordering::Greater
    } else {
        Ordering::Equal
    }
}

/// Compares two sell orders by priority: the lower price goes first, and at
/// one price the earlier timestamp.
pub fn _compare_sell_orders(o1: &Order, o2: &Order) -> (r: Ordering)
    ensures
        r == sell_ordering(*o1, *o2),
{
    if o1.price < o2.price {
        Ordering::Less
    } else if o1.price > o2.price {
        Ordering::Greater
    } else if o1.timestamp < o2.timestamp {
        Ordering::Less
    } else if o1.timestamp > o2.timestamp {
        Ordering::Greater
    } else {
        Ordering::Equal
    }
}

} // verus!
