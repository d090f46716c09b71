use veloxfi_core::trading::market::{base_of_symbol, quote_of_symbol, Market};
use veloxfi_core::trading::order::{Order, Side};
use veloxfi_core::trading::orderbook::OrderBook;

fn book() -> OrderBook {
    OrderBook::new(Market::new("BTC-USD", "BTC", "USD", 1))
}

fn insert(b: &mut OrderBook, o: Order) -> Vec<(u64, u64, u64, u64, u64)> {
    assert!(b.can_insert(&o));
    b.insert_order(o)
        .iter()
        .map(|t| (t.trade_id, t.buy_order_id, t.sell_order_id, t.price, t.qty))
        .collect()
}

#[test]
fn resting_order_makes_no_trade() {
    let mut b = book();
    let t = insert(&mut b, Order::new(1, "alice", "BTC-USD", Side::Buy, 100, 5, 1));
    assert!(t.is_empty());
}

#[test]
fn buy_sweeps_asks_lowest_first_within_limit() {
    let mut b = book();
    insert(&mut b, Order::new(1, "s1", "BTC-USD", Side::Sell, 101, 5, 1));
    insert(&mut b, Order::new(2, "s2", "BTC-USD", Side::Sell, 100, 5, 2));
    insert(&mut b, Order::new(3, "s3", "BTC-USD", Side::Sell, 105, 5, 3));
    let t = insert(&mut b, Order::new(4, "b", "BTC-USD", Side::Buy, 101, 8, 4));
    // best price first, at the resting prices, ids one after the other
    assert_eq!(t, vec![(1, 4, 2, 100, 5), (2, 4, 1, 101, 3)]);
    // what is left of the ask at 101 trades next, then the one at 105 does not cross
    let t = insert(&mut b, Order::new(5, "b2", "BTC-USD", Side::Buy, 104, 10, 5));
    assert_eq!(t, vec![(3, 5, 1, 101, 2)]);
}

#[test]
fn sell_sweeps_bids_highest_first() {
    let mut b = book();
    insert(&mut b, Order::new(1, "b1", "BTC-USD", Side::Buy, 99, 5, 1));
    insert(&mut b, Order::new(2, "b2", "BTC-USD", Side::Buy, 100, 5, 2));
    let t = insert(&mut b, Order::new(3, "s", "BTC-USD", Side::Sell, 98, 7, 3));
    assert_eq!(t, vec![(1, 2, 3, 100, 5), (2, 1, 3, 99, 2)]);
}

#[test]
fn same_price_is_served_oldest_first() {
    let mut b = book();
    insert(&mut b, Order::new(1, "s1", "BTC-USD", Side::Sell, 100, 3, 1));
    insert(&mut b, Order::new(2, "s2", "BTC-USD", Side::Sell, 100, 3, 2));
    let t = insert(&mut b, Order::new(3, "b", "BTC-USD", Side::Buy, 100, 4, 3));
    assert_eq!(t, vec![(1, 3, 1, 100, 3), (2, 3, 2, 100, 1)]);
}

#[test]
fn unfilled_rest_joins_the_book_and_trades_later() {
    let mut b = book();
    insert(&mut b, Order::new(1, "s1", "BTC-USD", Side::Sell, 100, 2, 1));
    let t = insert(&mut b, Order::new(2, "b", "BTC-USD", Side::Buy, 100, 5, 2));
    assert_eq!(t, vec![(1, 2, 1, 100, 2)]);
    // three units of the buy rest at 100; a sell at 90 meets them at 100
    let t = insert(&mut b, Order::new(3, "s2", "BTC-USD", Side::Sell, 90, 10, 3));
    assert_eq!(t, vec![(2, 2, 3, 100, 3)]);
    // the rest of that sell now rests at 90 and the book is not crossed
    let t = insert(&mut b, Order::new(4, "b2", "BTC-USD", Side::Buy, 89, 1, 4));
    assert!(t.is_empty());
}

#[test]
fn trades_fill_exactly_what_the_order_loses() {
    let mut b = book();
    insert(&mut b, Order::new(1, "s1", "BTC-USD", Side::Sell, 10, 4, 1));
    insert(&mut b, Order::new(2, "s2", "BTC-USD", Side::Sell, 11, 4, 1));
    let t = insert(&mut b, Order::new(3, "b", "BTC-USD", Side::Buy, 11, 6, 2));
    let filled: u64 = t.iter().map(|x| x.4).sum();
    assert_eq!(filled, 6);
}

#[test]
fn trade_timestamp_is_the_incoming_orders() {
    let mut b = book();
    b.insert_order(Order::new(1, "s1", "BTC-USD", Side::Sell, 10, 4, 7));
    let t = b.insert_order(Order::new(2, "b", "BTC-USD", Side::Buy, 10, 4, 42));
    assert_eq!(t.len(), 1);
    assert_eq!(t[0].timestamp, 42);
}

#[test]
fn cancel_gives_the_resting_order_back() {
    let mut b = book();
    insert(&mut b, Order::new(7, "alice", "BTC-USD", Side::Buy, 100, 5, 1));
    let c = b.cancel_order(7).expect("resting order");
    assert_eq!(c.id, 7);
    assert_eq!(c.account, "alice");
    assert_eq!(c.price, 100);
    assert_eq!(c.remaining, 5);
    // nothing is left to trade with
    let t = insert(&mut b, Order::new(8, "bob", "BTC-USD", Side::Sell, 100, 5, 2));
    assert!(t.is_empty());
    assert!(b.cancel_order(7).is_none());
}

#[test]
fn cancel_of_a_partly_filled_order_returns_what_is_left() {
    let mut b = book();
    insert(&mut b, Order::new(1, "alice", "BTC-USD", Side::Sell, 100, 5, 1));
    insert(&mut b, Order::new(2, "bob", "BTC-USD", Side::Buy, 100, 2, 2));
    let c = b.cancel_order(1).expect("resting order");
    assert_eq!(c.qty, 5);
    assert_eq!(c.remaining, 3);
}

#[test]
fn cancel_looks_among_bids_before_asks() {
    let mut b = book();
    insert(&mut b, Order::new(9, "seller", "BTC-USD", Side::Sell, 200, 1, 1));
    insert(&mut b, Order::new(9, "buyer", "BTC-USD", Side::Buy, 100, 1, 2));
    let c = b.cancel_order(9).expect("an order with id 9");
    assert_eq!(c.side, Side::Buy);
    let c = b.cancel_order(9).expect("another order with id 9");
    assert_eq!(c.side, Side::Sell);
    assert!(b.cancel_order(9).is_none());
}

#[test]
fn cancel_of_unknown_id_is_none() {
    let mut b = book();
    assert!(b.cancel_order(1).is_none());
}

#[test]
fn zero_quantity_order_neither_trades_nor_rests() {
    let mut b = book();
    insert(&mut b, Order::new(1, "s", "BTC-USD", Side::Sell, 100, 3, 1));
    let t = insert(&mut b, Order::new(2, "b", "BTC-USD", Side::Buy, 100, 0, 2));
    assert!(t.is_empty());
    assert!(b.cancel_order(2).is_none());
}

#[test]
fn symbol_parts() {
    assert_eq!(base_of_symbol("BTC-USD"), "BTC");
    assert_eq!(quote_of_symbol("BTC-USD"), "USD");
    assert_eq!(base_of_symbol("A-B-C"), "A");
    assert_eq!(quote_of_symbol("A-B-C"), "C");
    assert_eq!(base_of_symbol("EURUSD"), "EURUSD");
    assert_eq!(quote_of_symbol("EURUSD"), "EURUSD");
    assert_eq!(quote_of_symbol("X-"), "");
}

#[test]
fn side_words_in_any_case() {
    assert_eq!(Side::parse("BUY"), Some(Side::Buy));
    assert_eq!(Side::parse("buy"), Some(Side::Buy));
    assert_eq!(Side::parse("SeLl"), Some(Side::Sell));
    assert_eq!(Side::parse("hold"), None);
    assert_eq!(Side::parse(""), None);
}

#[test]
fn market_new_keeps_its_names() {
    let m = Market::new("ETH-USDT", "ETH", "USDT", 5);
    assert_eq!(m.symbol, "ETH-USDT");
    assert_eq!(m.base_asset, "ETH");
    assert_eq!(m.quote_asset, "USDT");
    assert_eq!(m.tick_size, 5);
}

#[test]
fn level_fill_serves_oldest_first() {
    let mut b = book();
    insert(&mut b, Order::new(1, "b1", "BTC-USD", Side::Buy, 100, 2, 1));
    insert(&mut b, Order::new(2, "b2", "BTC-USD", Side::Buy, 100, 2, 2));
    insert(&mut b, Order::new(3, "b3", "BTC-USD", Side::Buy, 100, 2, 3));
    let t = insert(&mut b, Order::new(4, "s", "BTC-USD", Side::Sell, 100, 3, 4));
    assert_eq!(t, vec![(1, 1, 4, 100, 2), (2, 2, 4, 100, 1)]);
    // the partly filled bid keeps its place at the front, ahead of the later one
    let t = insert(&mut b, Order::new(5, "s", "BTC-USD", Side::Sell, 100, 2, 5));
    assert_eq!(t, vec![(3, 2, 5, 100, 1), (4, 3, 5, 100, 1)]);
}

#[test]
fn trade_ids_run_on() {
    let mut b = book();
    insert(&mut b, Order::new(1, "s", "BTC-USD", Side::Sell, 100, 1, 1));
    insert(&mut b, Order::new(2, "s", "BTC-USD", Side::Sell, 100, 1, 2));
    insert(&mut b, Order::new(3, "s", "BTC-USD", Side::Sell, 101, 1, 3));
    let t = insert(&mut b, Order::new(4, "b", "BTC-USD", Side::Buy, 100, 1, 4));
    assert_eq!(t[0].0, 1);
    assert!(b.cancel_order(2).is_some());
    let t = insert(&mut b, Order::new(5, "b", "BTC-USD", Side::Buy, 101, 1, 5));
    assert_eq!(t, vec![(2, 5, 3, 101, 1)]);
}
