use std::path::PathBuf;
use veloxfi_core::trading::engine::Engine;
use veloxfi_core::trading::events::Event;
use veloxfi_core::trading::market::Market;
use veloxfi_core::trading::order::Order;
use veloxfi_core::trading::order::Side;
use veloxfi_core::trading::persister::Persister;

#[test]
fn matching_happy_path() {
    let events = PathBuf::from("target/test-events.log");
    let snapshot = PathBuf::from("target/test-snapshot.json");

    let persister = Persister::new(events.clone(), snapshot.clone());
    let mut engine = Engine::new(persister);
    engine.create_market(Market::new("BTC-USD", "BTC", "USD", 1));

    let buy = Order::new(1, "alice", "BTC-USD", Side::Buy, 1000, 10, 1);
    let sell = Order::new(2, "bob", "BTC-USD", Side::Sell, 1000, 10, 2);

    // the log the engine's changes are written to
    let mut log: Vec<Event> = Vec::new();
    log.push(Event::OrderPlaced(buy.clone()));
    let t1 = engine.place_limit_order(buy).expect("place buy");
    assert!(t1.is_empty()); // buy inserted, no match yet
    log.push(Event::OrderPlaced(sell.clone()));
    let t2 = engine.place_limit_order(sell).expect("place sell");
    assert!(!t2.is_empty());
    for t in &t2 {
        log.push(Event::Trade(*t));
    }
    // positions may use placeholder accounts in PoC; ensure no panic and events replay
    for ev in log {
        assert!(engine.can_replay(&ev));
        engine.replay_events_from_file(vec![ev]).unwrap();
    }
}
