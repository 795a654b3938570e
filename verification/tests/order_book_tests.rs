use lob_engine::book_view::CancelResult;
use lob_engine::order::{Order, OrderId, OrderType, Side};
use lob_engine::order_book::OrderBook;

#[test]
fn test_add_and_peek_orders() {
    let mut book = OrderBook::new();

    let buy1 = Order::new(1, Side::Buy, OrderType::Limit, 100, 1000, 1);
    let buy2 = Order::new(2, Side::Buy, OrderType::Limit, 100, 1060, 2);
    let sell1 = Order::new(3, Side::Sell, OrderType::Limit, 100, 1100, 3);

    book.add_order(buy1);
    book.add_order(buy2);
    book.add_order(sell1);

    let best_buy = book.peek_best_buy().unwrap();
    let best_sell = book.peek_best_sell().unwrap();

    assert_eq!(best_buy.id, 2);
    assert_eq!(best_sell.id, 3);
}

#[test]
fn test_pop_best_orders() {
    let mut book = OrderBook::new();

    let buy1 = Order::new(1, Side::Buy, OrderType::Limit, 100, 1000, 1);
    let buy2 = Order::new(2, Side::Buy, OrderType::Limit, 100, 1060, 2);
    let sell1 = Order::new(3, Side::Sell, OrderType::Limit, 100, 1100, 3);

    book.add_order(buy1);
    book.add_order(buy2);
    book.add_order(sell1);

    let best_buy = book.pop_best_buy().unwrap();
    let best_sell = book.pop_best_sell().unwrap();

    assert_eq!(best_buy.id, 2);
    assert_eq!(best_sell.id, 3);

    // Orders should be removed from the book
    assert!(book.peek_best_buy().is_some()); // buy1 still there
    assert_eq!(book.peek_best_buy().unwrap().id, 1);
    assert!(book.peek_best_sell().is_none());
}

#[test]
fn test_order_retrieval() {
    let mut book = OrderBook::new();

    let buy1 = Order::new(1, Side::Buy, OrderType::Limit, 100, 1000, 2);
    let buy2 = Order::new(2, Side::Buy, OrderType::Limit, 100, 1001, 5);
    book.add_order(buy1);
    book.add_order(buy2);

    let buy_orders = book.get_buy_orders();
    assert_eq!(buy_orders.len(), 2);
    assert_eq!(buy_orders[0].id, 2);

    let sell1 = Order::new(3, Side::Sell, OrderType::Limit, 100, 1100, 3);
    let sell2 = Order::new(4, Side::Sell, OrderType::Limit, 100, 1100, 2);
    book.add_order(sell1);
    book.add_order(sell2);

    let sell_orders = book.get_sell_orders();
    assert_eq!(sell_orders.len(), 2);
    assert_eq!(sell_orders[0].id, 4);
}

#[test]
fn test_same_price_timestamp_priority() {
    let mut book = OrderBook::new();

    // Buy orders at same price - earlier timestamp should have priority
    let buy1 = Order::new(1, Side::Buy, OrderType::Limit, 100, 1000, 5);
    let buy2 = Order::new(2, Side::Buy, OrderType::Limit, 100, 1000, 2);

    book.add_order(buy1);
    book.add_order(buy2);

    let best = book.pop_best_buy().unwrap();
    assert_eq!(best.id, 2); // Earlier timestamp should be popped first
}

#[test]
fn test_multiple_price_levels() {
    let mut book = OrderBook::new();

    let buy1 = Order::new(1, Side::Buy, OrderType::Limit, 100, 1000, 1);
    let buy2 = Order::new(2, Side::Buy, OrderType::Limit, 100, 1020, 2);
    let buy3 = Order::new(3, Side::Buy, OrderType::Limit, 100, 1040, 3);

    book.add_order(buy1);
    book.add_order(buy2);
    book.add_order(buy3);

    let mut orders = Vec::new();
    while let Some(order) = book.pop_best_buy() {
        orders.push(order.id);
    }

    // Should be popped in descending price order: 1040, 1020, 1000
    assert_eq!(orders, vec![3, 2, 1]);
}

#[test]
fn test_orderbook_display_format() {
    let mut ob = OrderBook::new();
    let o1 = Order::new(1, Side::Buy, OrderType::Limit, 2000, 10, 1);
    let o2 = Order::new(2, Side::Buy, OrderType::Limit, 2000, 200, 2);
    let o3 = Order::new(3, Side::Buy, OrderType::Limit, 2000, 200, 1);
    ob.add_order(o1);
    ob.add_order(o2);
    ob.add_order(o3);

    println!("Hello, world");
    println!("{}", ob.to_text());
}

#[test]
fn test_peek_best_buy() {
    let mut ob = OrderBook::new();
    let o1 = Order::new(1, Side::Buy, OrderType::Limit, 2000, 10, 1);
    let o2 = Order::new(2, Side::Buy, OrderType::Limit, 2000, 200, 2);
    let o3 = Order::new(3, Side::Buy, OrderType::Limit, 2000, 200, 1);
    let o4 = Order::new(4, Side::Buy, OrderType::Limit, 2000, 500, 1);
    ob.add_order(o4);
    ob.add_order(o1);
    ob.add_order(o2);
    ob.add_order(o3);
    ob.peek_best_buy();
}

#[test]
fn test_pop_best_buy() {
    let mut ob = OrderBook::new();
    let o1 = Order::new(1, Side::Buy, OrderType::Limit, 2000, 10, 1);
    let o2 = Order::new(2, Side::Buy, OrderType::Limit, 2000, 200, 2);
    let o3 = Order::new(3, Side::Buy, OrderType::Limit, 2000, 200, 1);
    let o4 = Order::new(4, Side::Buy, OrderType::Limit, 2000, 500, 1);
    ob.add_order(o4);
    ob.add_order(o1);
    ob.add_order(o2);
    ob.add_order(o3);

    println!("{}", ob.to_text());

    let v = ob.pop_best_buy().unwrap();
    println!("{}", v.to_text());
    let v = ob.pop_best_buy().unwrap();
    println!("{}", v.to_text());
    let v = ob.pop_best_buy().unwrap();
    println!("{}", v.to_text());
    let v = ob.pop_best_buy().unwrap();
    println!("{}", v.to_text());

    println!("{}", ob.to_text());
}

#[test]
fn test_pop_best_sell() {
    let mut ob = OrderBook::new();
    let o1 = Order::new(1, Side::Sell, OrderType::Limit, 2000, 10, 1);
    let o2 = Order::new(2, Side::Sell, OrderType::Limit, 2000, 200, 2);
    let o3 = Order::new(3, Side::Sell, OrderType::Limit, 2000, 200, 1);
    let o4 = Order::new(4, Side::Sell, OrderType::Limit, 2000, 500, 1);
    ob.add_order(o4);
    ob.add_order(o1);
    ob.add_order(o2);
    ob.add_order(o3);
    println!("{}", ob.to_text());

    let v = ob.pop_best_sell().unwrap();
    println!("{}", v.to_text());
    let v = ob.pop_best_sell().unwrap();
    println!("{}", v.to_text());
    let v = ob.pop_best_sell().unwrap();
    println!("{}", v.to_text());

    println!("{}", ob.to_text());
}

#[test]
fn test_get_buy_orders() {
    let mut ob = OrderBook::new();
    let o1 = Order::new(1, Side::Sell, OrderType::Limit, 2000, 10, 1);
    let o2 = Order::new(2, Side::Buy, OrderType::Limit, 2000, 200, 2);
    let o3 = Order::new(3, Side::Buy, OrderType::Limit, 2000, 200, 1);
    let o4 = Order::new(4, Side::Sell, OrderType::Limit, 2000, 500, 1);
    ob.add_order(o4);
    ob.add_order(o1);
    ob.add_order(o2);
    ob.add_order(o3);
    println!("{}", ob.to_text());

    println!("{:?}", ob.get_buy_orders());
}

#[test]
fn test_get_sell_orders() {
    let mut ob = OrderBook::new();
    let o1 = Order::new(1, Side::Sell, OrderType::Limit, 2000, 10, 1);
    let o2 = Order::new(2, Side::Buy, OrderType::Limit, 2000, 200, 2);
    let o3 = Order::new(3, Side::Buy, OrderType::Limit, 2000, 200, 1);
    let o4 = Order::new(4, Side::Sell, OrderType::Limit, 2000, 500, 1);
    ob.add_order(o4);
    ob.add_order(o1);
    ob.add_order(o2);
    ob.add_order(o3);
    println!("{}", ob.to_text());

    println!("{:?}", ob.get_sell_orders());
}

#[test]
fn test_cancellation() {
    let mut ob = OrderBook::new();
    let o1 = Order::new(1, Side::Buy, OrderType::Limit, 2000, 10, 1);
    let o2 = Order::new(2, Side::Buy, OrderType::Limit, 2000, 200, 2);
    let o3 = Order::new(3, Side::Buy, OrderType::Limit, 2000, 200, 1);
    let o4 = Order::new(4, Side::Buy, OrderType::Limit, 2000, 500, 1);
    let o5 = Order::new(5, Side::Sell, OrderType::Limit, 2000, 500, 1);
    let o6 = Order::new(6, Side::Sell, OrderType::Limit, 2000, 500, 1);
    ob.add_order(o4);
    ob.add_order(o1);
    ob.add_order(o2);
    ob.add_order(o3);
    ob.add_order(o5);
    ob.add_order(o6);

    println!("{}", ob.to_text());
    println!("Order_Map: {:?}", ob.contains_order(6));

    ob.cancel_order(6);

    println!("{}", ob.to_text());
    println!("Order_Map: {:?}", ob.contains_order(6));
}

fn ids(orders: &Vec<Order>) -> Vec<OrderId> {
    orders.iter().map(|o| o.id).collect()
}

fn four_buys() -> OrderBook {
    let mut ob = OrderBook::new();
    ob.add_order(Order::new(4, Side::Buy, OrderType::Limit, 2000, 500, 1));
    ob.add_order(Order::new(1, Side::Buy, OrderType::Limit, 2000, 10, 1));
    ob.add_order(Order::new(2, Side::Buy, OrderType::Limit, 2000, 200, 2));
    ob.add_order(Order::new(3, Side::Buy, OrderType::Limit, 2000, 200, 1));
    ob
}

#[test]
fn new_book_is_empty() {
    let mut ob = OrderBook::new();
    assert!(ob.peek_best_buy().is_none());
    assert!(ob.peek_best_sell().is_none());
    assert!(ob.pop_best_buy().is_none());
    assert!(ob.pop_best_sell().is_none());
    assert!(ob.get_buy_orders().is_empty());
    assert!(ob.get_sell_orders().is_empty());
    assert!(!ob.contains_order(1));
    assert!(!ob.was_cancelled(1));
    let d = OrderBook::default();
    assert!(d.get_buy_orders().is_empty());
    assert!(d.get_sell_orders().is_empty());
}

#[test]
fn buys_come_out_by_price_then_time() {
    let mut ob = four_buys();
    assert_eq!(ids(&ob.get_buy_orders()), vec![4, 3, 2, 1]);
    assert_eq!(ob.peek_best_buy().unwrap().id, 4);
    assert_eq!(ob.pop_best_buy().unwrap().id, 4);
    assert_eq!(ob.pop_best_buy().unwrap().id, 3);
    assert_eq!(ob.pop_best_buy().unwrap().id, 2);
    assert_eq!(ob.pop_best_buy().unwrap().id, 1);
    assert!(ob.pop_best_buy().is_none());
}

#[test]
fn sells_come_out_by_price_then_time() {
    let mut ob = OrderBook::new();
    ob.add_order(Order::new(4, Side::Sell, OrderType::Limit, 2000, 500, 1));
    ob.add_order(Order::new(1, Side::Sell, OrderType::Limit, 2000, 10, 1));
    ob.add_order(Order::new(2, Side::Sell, OrderType::Limit, 2000, 200, 2));
    ob.add_order(Order::new(3, Side::Sell, OrderType::Limit, 2000, 200, 1));
    assert_eq!(ids(&ob.get_sell_orders()), vec![1, 3, 2, 4]);
    assert_eq!(ob.peek_best_sell().unwrap().id, 1);
    assert_eq!(ob.pop_best_sell().unwrap().id, 1);
    assert_eq!(ob.pop_best_sell().unwrap().id, 3);
    assert_eq!(ob.pop_best_sell().unwrap().id, 2);
    assert_eq!(ob.pop_best_sell().unwrap().id, 4);
    assert!(ob.pop_best_sell().is_none());
}

#[test]
fn equal_timestamps_keep_arrival_order() {
    let mut ob = OrderBook::new();
    ob.add_order(Order::new(10, Side::Buy, OrderType::Limit, 1, 100, 7));
    ob.add_order(Order::new(11, Side::Buy, OrderType::Limit, 1, 100, 7));
    ob.add_order(Order::new(12, Side::Buy, OrderType::Limit, 1, 100, 7));
    ob.add_order(Order::new(13, Side::Buy, OrderType::Limit, 1, 100, 6));
    assert_eq!(ids(&ob.get_buy_orders()), vec![13, 10, 11, 12]);
}

#[test]
fn snapshot_is_the_order_of_pops() {
    let mut ob = OrderBook::new();
    let mut ts = 50;
    for (id, price) in [(1u128, 30u64), (2, 10), (3, 20), (4, 10), (5, 30), (6, 20), (7, 40)] {
        ob.add_order(Order::new(id, Side::Sell, OrderType::Limit, 5, price, ts));
        ts -= 1;
    }
    let snapshot = ob.get_sell_orders();
    let mut popped = Vec::new();
    while let Some(o) = ob.pop_best_sell() {
        popped.push(o);
    }
    assert_eq!(snapshot, popped);
    assert_eq!(ids(&snapshot), vec![4, 2, 6, 3, 5, 1, 7]);
}

#[test]
fn snapshot_is_a_copy() {
    let mut ob = four_buys();
    let before = ob.get_buy_orders();
    ob.pop_best_buy();
    ob.cancel_order(1);
    assert_eq!(ids(&before), vec![4, 3, 2, 1]);
    assert_eq!(ids(&ob.get_buy_orders()), vec![3, 2]);
}

#[test]
fn peek_does_not_remove() {
    let ob = four_buys();
    assert_eq!(ob.peek_best_buy().unwrap().id, 4);
    assert_eq!(ob.peek_best_buy().unwrap().id, 4);
    assert_eq!(ob.get_buy_orders().len(), 4);
}

#[test]
fn pop_forgets_the_order() {
    let mut ob = four_buys();
    assert!(ob.contains_order(4));
    let o = ob.pop_best_buy().unwrap();
    assert_eq!(o, Order::new(4, Side::Buy, OrderType::Limit, 2000, 500, 1));
    assert!(!ob.contains_order(4));
    assert!(!ob.was_cancelled(4));
    assert_eq!(ob.cancel_order(4), CancelResult::NotFound);
}

#[test]
fn cancel_returns_the_order_and_removes_it() {
    let mut ob = four_buys();
    ob.add_order(Order::new(5, Side::Sell, OrderType::Limit, 2000, 500, 1));
    ob.add_order(Order::new(6, Side::Sell, OrderType::Limit, 2000, 500, 1));
    let r = ob.cancel_order(6);
    assert_eq!(r, CancelResult::Success(Order::new(6, Side::Sell, OrderType::Limit, 2000, 500, 1)));
    assert!(r.is_success());
    assert_eq!(ids(&ob.get_sell_orders()), vec![5]);
    assert_eq!(ids(&ob.get_buy_orders()), vec![4, 3, 2, 1]);
    assert!(!ob.contains_order(6));
    assert!(ob.was_cancelled(6));
}

#[test]
fn cancel_of_the_best_order_uncovers_the_next() {
    let mut ob = four_buys();
    assert!(ob.cancel_order(4).is_success());
    assert_eq!(ob.peek_best_buy().unwrap().id, 3);
    assert!(ob.cancel_order(3).is_success());
    assert_eq!(ob.peek_best_buy().unwrap().id, 2);
    assert_eq!(ids(&ob.get_buy_orders()), vec![2, 1]);
}

#[test]
fn cancel_in_the_middle_of_a_level() {
    let mut ob = OrderBook::new();
    ob.add_order(Order::new(1, Side::Sell, OrderType::Limit, 5, 100, 1));
    ob.add_order(Order::new(2, Side::Sell, OrderType::Limit, 5, 100, 2));
    ob.add_order(Order::new(3, Side::Sell, OrderType::Limit, 5, 100, 3));
    assert!(ob.cancel_order(2).is_success());
    assert_eq!(ids(&ob.get_sell_orders()), vec![1, 3]);
}

#[test]
fn cancel_twice_is_already_cancelled() {
    let mut ob = four_buys();
    assert!(ob.cancel_order(2).is_success());
    assert_eq!(ob.cancel_order(2), CancelResult::AlreadyCancelled);
    assert_eq!(ob.cancel_order(2), CancelResult::AlreadyCancelled);
    assert!(!CancelResult::AlreadyCancelled.is_success());
}

#[test]
fn cancel_of_an_unknown_id_is_not_found() {
    let mut ob = four_buys();
    assert_eq!(ob.cancel_order(99), CancelResult::NotFound);
    assert_eq!(ob.cancel_order(99), CancelResult::NotFound);
    assert!(!CancelResult::NotFound.is_success());
    assert_eq!(ids(&ob.get_buy_orders()), vec![4, 3, 2, 1]);
}

#[test]
fn restore_puts_an_order_back_in_front() {
    let mut ob = OrderBook::new();
    ob.add_order(Order::new(1, Side::Sell, OrderType::Limit, 100, 1000, 5));
    ob.add_order(Order::new(2, Side::Sell, OrderType::Limit, 100, 1000, 5));
    ob.add_order(Order::new(3, Side::Sell, OrderType::Limit, 100, 1001, 1));
    let mut first = ob.pop_best_sell().unwrap();
    assert_eq!(first.id, 1);
    first.quantity -= 40;
    ob.restore_order(first);
    let sells = ob.get_sell_orders();
    assert_eq!(ids(&sells), vec![1, 2, 3]);
    assert_eq!(sells[0].quantity, 60);
    assert!(ob.contains_order(1));
}

#[test]
fn restore_into_an_empty_side_and_a_new_level() {
    let mut ob = OrderBook::new();
    ob.restore_order(Order::new(1, Side::Buy, OrderType::Limit, 10, 100, 9));
    ob.restore_order(Order::new(2, Side::Buy, OrderType::Limit, 10, 101, 9));
    assert_eq!(ids(&ob.get_buy_orders()), vec![2, 1]);
}

#[test]
fn clone_is_independent_and_equal() {
    let mut ob = four_buys();
    ob.add_order(Order::new(9, Side::Sell, OrderType::Limit, 1, 900, 1));
    assert!(ob.cancel_order(2).is_success());
    let mut copy = ob.clone();
    assert_eq!(copy.get_buy_orders(), ob.get_buy_orders());
    assert_eq!(copy.get_sell_orders(), ob.get_sell_orders());
    assert!(copy.was_cancelled(2));
    assert!(!copy.was_cancelled(3));
    assert!(copy.contains_order(9));
    copy.pop_best_buy();
    assert!(copy.cancel_order(9).is_success());
    assert_eq!(ids(&ob.get_buy_orders()), vec![4, 3, 1]);
    assert!(ob.contains_order(9));
    assert!(!ob.was_cancelled(9));
}

#[test]
fn book_text_lists_levels_best_first() {
    let mut ob = OrderBook::new();
    ob.add_order(Order::new(1, Side::Buy, OrderType::Limit, 2000, 10, 1));
    ob.add_order(Order::new(2, Side::Buy, OrderType::Limit, 2000, 200, 2));
    ob.add_order(Order::new(3, Side::Buy, OrderType::Limit, 2000, 200, 1));
    ob.add_order(Order::new(4, Side::Sell, OrderType::Limit, 7, 300, 4));
    assert_eq!(
        ob.to_text(),
        "\nBuy:\n\
         200 -> [Order { id: 3, quantity: 2000, price: 200, timestamp: 1, side: Buy, order_type: Limit }, \
         Order { id: 2, quantity: 2000, price: 200, timestamp: 2, side: Buy, order_type: Limit }]\n\
         10 -> [Order { id: 1, quantity: 2000, price: 10, timestamp: 1, side: Buy, order_type: Limit }]\n\
         \nSell:\n\
         300 -> [Order { id: 4, quantity: 7, price: 300, timestamp: 4, side: Sell, order_type: Limit }]\n\
         \n"
    );
    assert_eq!(OrderBook::new().to_text(), "\nBuy:\n\nSell:\n\n");
}

#[test]
fn extreme_prices_are_ordered() {
    let mut ob = OrderBook::new();
    ob.add_order(Order::new(1, Side::Buy, OrderType::Limit, 1, 0, 1));
    ob.add_order(Order::new(2, Side::Buy, OrderType::Limit, 1, u64::MAX, 2));
    ob.add_order(Order::new(3, Side::Sell, OrderType::Limit, 1, u64::MAX, 3));
    ob.add_order(Order::new(4, Side::Sell, OrderType::Limit, 1, 0, 4));
    assert_eq!(ids(&ob.get_buy_orders()), vec![2, 1]);
    assert_eq!(ids(&ob.get_sell_orders()), vec![4, 3]);
}
