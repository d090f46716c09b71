use std::path::PathBuf;
use veloxfi_core::trading::account::Account;
use veloxfi_core::trading::engine::{Engine, EngineError};
use veloxfi_core::trading::events::{Event, TradeEvent};
use veloxfi_core::trading::market::Market;
use veloxfi_core::trading::order::{Order, Side};
use veloxfi_core::trading::persister::Persister;
use veloxfi_core::trading::positions::{Position, PositionsStore};
use veloxfi_core::trading::orderbook::Trade;

fn engine() -> Engine {
    let p = Persister::new(PathBuf::from("events.log"), PathBuf::from("snapshot.json"));
    let mut e = Engine::new(p);
    e.create_market(Market::new("BTC-USD", "BTC", "USD", 1));
    e
}

/// Places an order and settles its trades, as the service does once each is logged.
fn place(e: &mut Engine, o: Order, log: &mut Vec<Event>) -> Vec<TradeEvent> {
    assert!(e.can_place(&o));
    log.push(Event::OrderPlaced(o.clone()));
    let trades = e.match_order(o).expect("market exists");
    for t in &trades {
        log.push(Event::Trade(*t));
        assert!(e.can_settle(t));
        let _ = e.settle_trade(t);
    }
    trades
}

fn replay(e: &mut Engine, log: Vec<Event>) {
    for ev in log {
        assert!(e.can_replay(&ev));
        e.replay_events_from_file(vec![ev]).unwrap();
    }
}

#[test]
fn account_deposit_withdraw_round_trip() {
    let mut a = Account::new("alice".to_string());
    assert_eq!(a.get_balance("USD"), 0);
    a.deposit("USD", 70);
    a.deposit("USD", 30);
    assert_eq!(a.get_balance("USD"), 100);
    a.deposit("USD", 25);
    assert!(a.withdraw("USD", 25).is_ok());
    assert_eq!(a.get_balance("USD"), 100);
}

#[test]
fn account_withdraw_refuses_overdraft() {
    let mut a = Account::new("alice".to_string());
    a.deposit("USD", 10);
    let r = a.withdraw("USD", 11);
    assert_eq!(r, Err("Insufficient balance for asset USD".to_string()));
    assert_eq!(a.get_balance("USD"), 10);
    assert!(a.withdraw("USD", 10).is_ok());
    assert_eq!(a.get_balance("USD"), 0);
    assert_eq!(a.withdraw("BTC", 1), Err("Insufficient balance for asset BTC".to_string()));
}

#[test]
fn engine_deposit_and_balance() {
    let mut e = engine();
    e.create_account("alice".to_string());
    assert!(e.can_deposit(&"alice".to_string(), "USD", 500));
    match e.deposit("alice".to_string(), "USD", 500) {
        Ok(Event::Deposit { account_id, asset, amount }) => {
            assert_eq!(account_id, "alice");
            assert_eq!(asset, "USD");
            assert_eq!(amount, 500);
        }
        other => panic!("unexpected {:?}", other),
    }
    assert_eq!(e.get_account_balance(&"alice".to_string(), "USD"), 500);
    assert_eq!(e.get_account_balance(&"alice".to_string(), "BTC"), 0);
    assert_eq!(e.get_account_balance(&"nobody".to_string(), "USD"), 0);
}

#[test]
fn engine_deposit_to_unknown_account_is_not_found() {
    let mut e = engine();
    assert_eq!(e.deposit("ghost".to_string(), "USD", 5).unwrap_err(), EngineError::NotFound);
}

#[test]
fn engine_withdraw_outcomes() {
    let mut e = engine();
    e.create_account("alice".to_string());
    e.deposit("alice".to_string(), "USD", 100).unwrap();
    assert_eq!(
        e.withdraw("alice".to_string(), "USD", 101).unwrap_err(),
        EngineError::InsufficientBalance
    );
    assert!(matches!(
        e.withdraw("alice".to_string(), "USD", 40),
        Ok(Event::Withdraw { amount: 40, .. })
    ));
    assert_eq!(e.get_account_balance(&"alice".to_string(), "USD"), 60);
    assert_eq!(e.withdraw("bob".to_string(), "USD", 1).unwrap_err(), EngineError::NotFound);
}

#[test]
fn engine_create_account_keeps_existing_one() {
    let mut e = engine();
    e.create_account("alice".to_string());
    e.deposit("alice".to_string(), "USD", 9).unwrap();
    e.create_account("alice".to_string());
    assert_eq!(e.get_account_balance(&"alice".to_string(), "USD"), 9);
}

#[test]
fn engine_place_in_unknown_market_is_not_found() {
    let mut e = engine();
    let o = Order::new(1, "alice", "ETH-USD", Side::Buy, 1, 1, 1);
    assert_eq!(e.place_limit_order(o).unwrap_err(), EngineError::NotFound);
}

#[test]
fn engine_trade_settles_balances_and_positions() {
    let mut e = engine();
    let mut log = Vec::new();
    e.create_account("alice".to_string());
    e.create_account("bob".to_string());
    e.deposit("alice".to_string(), "USD", 100_000).unwrap();
    e.deposit("bob".to_string(), "BTC", 10).unwrap();
    place(&mut e, Order::new(1, "alice", "BTC-USD", Side::Buy, 1000, 3, 1), &mut log);
    let t = place(&mut e, Order::new(2, "bob", "BTC-USD", Side::Sell, 900, 2, 2), &mut log);
    assert_eq!(t.len(), 1);
    assert_eq!((t[0].buy_order_id, t[0].sell_order_id, t[0].price, t[0].qty), (1, 2, 1000, 2));
    // the buyer pays price * qty of the quote asset and gets qty of the base asset
    assert_eq!(e.get_account_balance(&"alice".to_string(), "USD"), 98_000);
    assert_eq!(e.get_account_balance(&"alice".to_string(), "BTC"), 2);
    assert_eq!(e.get_account_balance(&"bob".to_string(), "USD"), 2_000);
    assert_eq!(e.get_account_balance(&"bob".to_string(), "BTC"), 8);
    // positions move the quantity from seller to buyer
    let a = e.get_position("alice", "BTC-USD").expect("alice position");
    assert_eq!((a.quantity, a.avg_entry_price, a.realized_pnl), (2, Some(1000), 0));
    let b = e.get_position("bob", "BTC-USD").expect("bob position");
    assert_eq!((b.quantity, b.avg_entry_price, b.realized_pnl), (-2, None, 0));
    assert!(e.get_position("carol", "BTC-USD").is_none());
}

#[test]
fn engine_uncovered_payment_moves_no_balance() {
    let mut e = engine();
    e.create_account("alice".to_string());
    e.create_account("bob".to_string());
    e.deposit("bob".to_string(), "BTC", 1).unwrap();
    e.match_order(Order::new(1, "alice", "BTC-USD", Side::Buy, 10, 1, 1)).unwrap();
    let t = e.match_order(Order::new(2, "bob", "BTC-USD", Side::Sell, 10, 1, 2)).unwrap();
    assert_eq!(t.len(), 1);
    // alice cannot pay 10 USD: no balance moves, and no USD appears from nowhere
    assert_eq!(e.settle_trade(&t[0]).unwrap_err(), EngineError::InsufficientBalance);
    assert_eq!(e.get_account_balance(&"alice".to_string(), "BTC"), 0);
    assert_eq!(e.get_account_balance(&"bob".to_string(), "USD"), 0);
    assert_eq!(e.get_account_balance(&"bob".to_string(), "BTC"), 1);
    // the positions still record the trade
    assert_eq!(e.get_position("alice", "BTC-USD").unwrap().quantity, 1);
    assert_eq!(e.get_position("bob", "BTC-USD").unwrap().quantity, -1);
}

#[test]
fn engine_trade_without_accounts_moves_positions_only() {
    let mut e = engine();
    e.place_limit_order(Order::new(1, "alice", "BTC-USD", Side::Buy, 1000, 10, 1)).unwrap();
    let t = e.place_limit_order(Order::new(2, "bob", "BTC-USD", Side::Sell, 1000, 10, 2)).unwrap();
    assert_eq!(t.len(), 1);
    let a = e.get_position("alice", "BTC-USD").unwrap();
    assert_eq!((a.quantity, a.avg_entry_price, a.realized_pnl), (10, Some(1000), 0));
    let b = e.get_position("bob", "BTC-USD").unwrap();
    assert_eq!((b.quantity, b.avg_entry_price, b.realized_pnl), (-10, None, 0));
    assert_eq!(e.get_account_balance(&"alice".to_string(), "BTC"), 0);
}

#[test]
fn engine_place_limit_order_settles() {
    let mut e = engine();
    e.create_account("alice".to_string());
    e.create_account("bob".to_string());
    e.deposit("alice".to_string(), "USD", 100_000_000).unwrap();
    e.deposit("bob".to_string(), "BTC", 100_000_000).unwrap();
    let t = e.place_limit_order(Order::new(1, "alice", "BTC-USD", Side::Buy, 100_000, 1, 1)).unwrap();
    assert!(t.is_empty());
    let t = e.place_limit_order(Order::new(2, "bob", "BTC-USD", Side::Sell, 100_000, 1, 2)).unwrap();
    assert_eq!(t.len(), 1);
    assert_eq!((t[0].price, t[0].qty), (100_000, 1));
    assert_eq!(e.get_account_balance(&"alice".to_string(), "USD"), 99_900_000);
    assert_eq!(e.get_account_balance(&"alice".to_string(), "BTC"), 1);
    assert_eq!(e.get_account_balance(&"bob".to_string(), "USD"), 100_000);
    assert_eq!(e.get_account_balance(&"bob".to_string(), "BTC"), 99_999_999);
}

#[test]
fn engine_deposit_then_withdraw_restores() {
    let mut e = engine();
    e.create_account("alice".to_string());
    e.deposit("alice".to_string(), "USD", 40).unwrap();
    e.deposit("alice".to_string(), "BTC", 3).unwrap();
    e.deposit("alice".to_string(), "USD", 25).unwrap();
    assert!(e.withdraw("alice".to_string(), "USD", 25).is_ok());
    assert_eq!(e.get_account_balance(&"alice".to_string(), "USD"), 40);
    assert_eq!(e.get_account_balance(&"alice".to_string(), "BTC"), 3);
}

#[test]
fn settlement_conserves_totals() {
    let mut e = engine();
    let mut log = Vec::new();
    for who in ["alice", "bob", "carol"] {
        e.create_account(who.to_string());
    }
    e.deposit("alice".to_string(), "USD", 5_000).unwrap();
    e.deposit("bob".to_string(), "BTC", 3).unwrap();
    e.deposit("carol".to_string(), "BTC", 2).unwrap();
    place(&mut e, Order::new(1, "bob", "BTC-USD", Side::Sell, 900, 3, 1), &mut log);
    place(&mut e, Order::new(2, "carol", "BTC-USD", Side::Sell, 1000, 2, 2), &mut log);
    place(&mut e, Order::new(3, "alice", "BTC-USD", Side::Buy, 1000, 4, 3), &mut log);
    for asset in ["USD", "BTC"] {
        let total: u64 = ["alice", "bob", "carol"]
            .iter()
            .map(|w| e.get_account_balance(&w.to_string(), asset))
            .sum();
        assert_eq!(total, if asset == "USD" { 5_000 } else { 5 });
    }
    assert_eq!(e.get_account_balance(&"alice".to_string(), "USD"), 5_000 - 2_700 - 1_000);
}

#[test]
fn engine_cancel_takes_the_order_out() {
    let mut e = engine();
    let mut log = Vec::new();
    place(&mut e, Order::new(5, "alice", "BTC-USD", Side::Sell, 100, 1, 1), &mut log);
    assert!(e.holds_order(5));
    assert!(matches!(e.cancel_order(5), Ok(Event::OrderCancelled { order_id: 5 })));
    assert!(!e.holds_order(5));
    assert_eq!(e.cancel_order(5).unwrap_err(), EngineError::NotFound);
    // the cancelled order no longer trades
    let t = place(&mut e, Order::new(6, "bob", "BTC-USD", Side::Buy, 100, 1, 2), &mut log);
    assert!(t.is_empty());
}

#[test]
fn engine_cancel_of_filled_order_is_not_found() {
    let mut e = engine();
    let mut log = Vec::new();
    place(&mut e, Order::new(1, "alice", "BTC-USD", Side::Sell, 100, 1, 1), &mut log);
    place(&mut e, Order::new(2, "bob", "BTC-USD", Side::Buy, 100, 1, 2), &mut log);
    assert_eq!(e.cancel_order(1).unwrap_err(), EngineError::NotFound);
    assert_eq!(e.cancel_order(77).unwrap_err(), EngineError::NotFound);
}

#[test]
fn engine_reopened_market_starts_empty() {
    let mut e = engine();
    let mut log = Vec::new();
    place(&mut e, Order::new(1, "alice", "BTC-USD", Side::Sell, 100, 1, 1), &mut log);
    e.create_market(Market::new("BTC-USD", "BTC", "USD", 1));
    let t = place(&mut e, Order::new(2, "bob", "BTC-USD", Side::Buy, 100, 1, 2), &mut log);
    assert!(t.is_empty());
}

#[test]
fn engine_replay_rebuilds_balances_and_books() {
    let mut live = engine();
    let mut log = Vec::new();
    live.create_account("alice".to_string());
    live.create_account("bob".to_string());
    log.push(live.deposit("alice".to_string(), "USD", 5_000).unwrap());
    log.push(live.deposit("bob".to_string(), "BTC", 5).unwrap());
    place(&mut live, Order::new(1, "alice", "BTC-USD", Side::Buy, 1000, 2, 1), &mut log);
    place(&mut live, Order::new(2, "bob", "BTC-USD", Side::Sell, 1000, 1, 2), &mut log);
    log.push(live.withdraw("alice".to_string(), "USD", 1_000).unwrap());

    let mut fresh = engine();
    fresh.create_account("alice".to_string());
    fresh.create_account("bob".to_string());
    replay(&mut fresh, log);
    for (who, asset) in [("alice", "USD"), ("alice", "BTC"), ("bob", "USD"), ("bob", "BTC")] {
        assert_eq!(
            fresh.get_account_balance(&who.to_string(), asset),
            live.get_account_balance(&who.to_string(), asset)
        );
    }
    assert_eq!(fresh.get_account_balance(&"alice".to_string(), "USD"), 3_000);
    // replayed trades move the positions of their market
    let a = fresh.get_position("alice", "BTC-USD").expect("replayed position");
    let l = live.get_position("alice", "BTC-USD").expect("live position");
    assert_eq!((a.quantity, a.avg_entry_price, a.realized_pnl), (l.quantity, l.avg_entry_price, l.realized_pnl));
    assert_eq!(a.quantity, 1);
    // the remaining bid of order 1 is back in the book
    let t = place(&mut fresh, Order::new(3, "bob", "BTC-USD", Side::Sell, 1000, 1, 3), &mut Vec::new());
    assert_eq!(t.len(), 1);
    assert_eq!(t[0].buy_order_id, 1);
}

#[test]
fn engine_replay_in_two_parts_equals_whole() {
    let mut log = Vec::new();
    {
        let mut live = engine();
        live.create_account("alice".to_string());
        log.push(live.deposit("alice".to_string(), "USD", 10).unwrap());
        log.push(live.deposit("alice".to_string(), "USD", 20).unwrap());
        log.push(live.withdraw("alice".to_string(), "USD", 5).unwrap());
    }
    let mut whole = engine();
    whole.create_account("alice".to_string());
    replay(&mut whole, log.iter().map(|e| e.clone()).collect());
    let mut parts = engine();
    parts.create_account("alice".to_string());
    let second = log.split_off(1);
    replay(&mut parts, log);
    replay(&mut parts, second);
    assert_eq!(
        whole.get_account_balance(&"alice".to_string(), "USD"),
        parts.get_account_balance(&"alice".to_string(), "USD")
    );
    assert_eq!(whole.get_account_balance(&"alice".to_string(), "USD"), 25);
}

#[test]
fn replay_of_overdrawing_withdrawal_is_refused() {
    let mut e = engine();
    e.create_account("alice".to_string());
    let ev = Event::Withdraw { account_id: "alice".to_string(), asset: "USD".to_string(), amount: 1 };
    assert!(!e.can_replay(&ev));
}

#[test]
fn settlement_overflow_is_detected() {
    let mut e = engine();
    let mut log = Vec::new();
    e.create_account("alice".to_string());
    e.create_account("bob".to_string());
    place(&mut e, Order::new(1, "alice", "BTC-USD", Side::Buy, u64::MAX, 2, 1), &mut log);
    let o = Order::new(2, "bob", "BTC-USD", Side::Sell, 1, 2, 2);
    let trades = e.match_order(o).unwrap();
    // price * qty does not fit in u64, and alice's account would pay it
    assert!(!e.can_settle(&trades[0]));
}

#[test]
fn position_average_price_and_realized_pnl() {
    let mut p = Position::new("alice", "BTC-USD");
    assert!(p.can_buy(100, 10));
    p.buy(100, 10);
    p.buy(200, 10);
    assert_eq!((p.quantity, p.avg_entry_price), (20, Some(150)));
    assert!(p.can_sell(200, 4));
    p.sell(200, 4);
    assert_eq!((p.quantity, p.realized_pnl, p.avg_entry_price), (16, 200, Some(150)));
    // only the 16 units that close the long realize profit; 4 open a short
    p.sell(100, 20);
    assert_eq!((p.quantity, p.realized_pnl), (-4, 200 - 50 * 16));
    // buying back from short resets the entry price
    p.buy(90, 1);
    assert_eq!((p.quantity, p.avg_entry_price), (-3, Some(90)));
}

#[test]
fn positions_store_apply_trade_moves_quantity() {
    let mut s = PositionsStore::new();
    let t = Trade { trade_id: 1, buy_order_id: 1, sell_order_id: 2, price: 50, qty: 7, timestamp: 0 };
    s.apply_trade(&t, "BTC-USD", "alice", "bob");
    assert_eq!(s.get("alice", "BTC-USD").unwrap().quantity, 7);
    assert_eq!(s.get("bob", "BTC-USD").unwrap().quantity, -7);
    // a self-trade leaves the quantity where it was
    s.apply_trade(&t, "BTC-USD", "alice", "alice");
    assert_eq!(s.get("alice", "BTC-USD").unwrap().quantity, 7);
    assert!(s.get("carol", "BTC-USD").is_none());
    s.ensure("carol", "BTC-USD");
    let c = s.get("carol", "BTC-USD").unwrap();
    assert_eq!((c.quantity, c.avg_entry_price, c.realized_pnl), (0, None, 0));
    s.get_mut("carol", "BTC-USD").unwrap().quantity = 3;
    assert_eq!(s.get("carol", "BTC-USD").unwrap().quantity, 3);
}

#[test]
fn balance_changes_stay_in_their_account() {
    let mut e = engine();
    e.create_account("alice".to_string());
    e.create_account("bob".to_string());
    e.deposit("bob".to_string(), "USD", 40).unwrap();
    e.deposit("alice".to_string(), "USD", 500).unwrap();
    assert_eq!(e.get_account_balance(&"bob".to_string(), "USD"), 40);
    assert!(e.withdraw("alice".to_string(), "USD", 200).is_ok());
    assert_eq!(e.get_account_balance(&"alice".to_string(), "USD"), 300);
    assert_eq!(e.get_account_balance(&"bob".to_string(), "USD"), 40);
    assert_eq!(e.withdraw("alice".to_string(), "USD", 301).unwrap_err(), EngineError::InsufficientBalance);
    assert_eq!(e.get_account_balance(&"bob".to_string(), "USD"), 40);
}

#[test]
fn placing_touches_one_book() {
    let mut e = engine();
    e.create_market(Market::new("ETH-USD", "ETH", "USD", 1));
    let mut log = Vec::new();
    place(&mut e, Order::new(1, "alice", "BTC-USD", Side::Sell, 100, 1, 1), &mut log);
    // A crossing bid in another market finds nothing to trade with.
    let t = e.place_limit_order(Order::new(2, "bob", "ETH-USD", Side::Buy, 100, 1, 2)).unwrap();
    assert!(t.is_empty());
    // The ask of the first market is still there.
    let t = place(&mut e, Order::new(3, "bob", "BTC-USD", Side::Buy, 100, 1, 3), &mut log);
    assert_eq!(t.len(), 1);
    assert_eq!(t[0].sell_order_id, 1);
}

#[test]
fn cancelling_touches_one_book() {
    let mut e = engine();
    e.create_market(Market::new("ETH-USD", "ETH", "USD", 1));
    let mut log = Vec::new();
    place(&mut e, Order::new(1, "alice", "BTC-USD", Side::Sell, 100, 1, 1), &mut log);
    e.place_limit_order(Order::new(2, "alice", "ETH-USD", Side::Sell, 100, 1, 2)).unwrap();
    assert!(e.cancel_order(2).is_ok());
    let t = place(&mut e, Order::new(3, "bob", "BTC-USD", Side::Buy, 100, 1, 3), &mut log);
    assert_eq!(t.len(), 1);
    assert_eq!(t[0].sell_order_id, 1);
}

#[test]
fn replay_restores_state() {
    let mut live = engine();
    let mut log = Vec::new();
    live.create_account("alice".to_string());
    live.create_account("bob".to_string());
    log.push(live.deposit("alice".to_string(), "USD", 10_000).unwrap());
    log.push(live.deposit("bob".to_string(), "BTC", 10).unwrap());
    place(&mut live, Order::new(1, "alice", "BTC-USD", Side::Buy, 1000, 2, 1), &mut log);
    place(&mut live, Order::new(2, "alice", "BTC-USD", Side::Buy, 900, 1, 2), &mut log);
    place(&mut live, Order::new(3, "bob", "BTC-USD", Side::Sell, 1000, 1, 3), &mut log);
    log.push(live.cancel_order(2).unwrap());
    place(&mut live, Order::new(4, "bob", "BTC-USD", Side::Sell, 1100, 3, 4), &mut log);

    let mut fresh = engine();
    fresh.create_account("alice".to_string());
    fresh.create_account("bob".to_string());
    replay(&mut fresh, log);
    for (who, asset) in [("alice", "USD"), ("alice", "BTC"), ("bob", "USD"), ("bob", "BTC")] {
        assert_eq!(
            fresh.get_account_balance(&who.to_string(), asset),
            live.get_account_balance(&who.to_string(), asset)
        );
    }
    for who in ["alice", "bob"] {
        let f = fresh.get_position(who, "BTC-USD").unwrap();
        let l = live.get_position(who, "BTC-USD").unwrap();
        assert_eq!((f.quantity, f.avg_entry_price, f.realized_pnl), (l.quantity, l.avg_entry_price, l.realized_pnl));
    }
    // the books hold the same resting orders: the cancelled bid is gone from both
    for e in [&live, &fresh] {
        assert!(!e.holds_order(2));
        assert!(e.holds_order(1));
        assert!(e.holds_order(4));
        assert!(!e.holds_order(3));
    }
}

#[test]
fn place_limit_order_settles_each_trade() {
    let mut e = engine();
    e.create_account("alice".to_string());
    e.create_account("bob".to_string());
    e.deposit("alice".to_string(), "USD", 10_000).unwrap();
    e.deposit("bob".to_string(), "BTC", 5).unwrap();
    assert!(e.place_limit_order(Order::new(1, "bob", "BTC-USD", Side::Sell, 900, 2, 1)).unwrap().is_empty());
    assert!(e.place_limit_order(Order::new(2, "bob", "BTC-USD", Side::Sell, 1000, 2, 2)).unwrap().is_empty());
    let t = e.place_limit_order(Order::new(3, "alice", "BTC-USD", Side::Buy, 1000, 3, 3)).unwrap();
    assert_eq!(t.len(), 2);
    assert_eq!(e.get_account_balance(&"alice".to_string(), "USD"), 10_000 - 1_800 - 1_000);
    assert_eq!(e.get_account_balance(&"alice".to_string(), "BTC"), 3);
    assert_eq!(e.get_account_balance(&"bob".to_string(), "USD"), 2_800);
    assert_eq!(e.get_position("alice", "BTC-USD").unwrap().quantity, 3);
    assert_eq!(
        e.place_limit_order(Order::new(4, "bob", "ETH-USD", Side::Sell, 1, 1, 4)).unwrap_err(),
        EngineError::NotFound
    );
}

#[test]
fn trade_conserves_quantity() {
    let mut s = PositionsStore::new();
    let t1 = Trade { trade_id: 1, buy_order_id: 1, sell_order_id: 2, price: 50, qty: 7, timestamp: 0 };
    let t2 = Trade { trade_id: 2, buy_order_id: 3, sell_order_id: 4, price: 60, qty: 3, timestamp: 0 };
    s.apply_trade(&t1, "BTC-USD", "alice", "bob");
    s.apply_trade(&t2, "BTC-USD", "bob", "carol");
    let total: i128 = ["alice", "bob", "carol"]
        .iter()
        .map(|w| s.get(w, "BTC-USD").unwrap().quantity)
        .sum();
    assert_eq!(total, 0);
    assert_eq!(s.get("bob", "BTC-USD").unwrap().quantity, -4);
}
