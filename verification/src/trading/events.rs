use vstd::prelude::*;

use crate::trading::account::AccountId;
use crate::trading::order::{Order, OrderId};

verus! {

/// A trade as it is recorded in the event log.
#[derive(Debug, Clone, Copy)]
pub struct TradeEvent {
    pub trade_id: u64,
    pub buy_order_id: OrderId,
    pub sell_order_id: OrderId,
    pub price: u64,
    pub qty: u64,
    pub timestamp: i64,
}

/// A state change of the engine, as it is written to and replayed from the log.
#[derive(Debug)]
pub enum Event {
    OrderPlaced(Order),
    OrderCancelled { order_id: OrderId },
    Trade(TradeEvent),
    Deposit { account_id: AccountId, asset: String, amount: u64 },
    Withdraw { account_id: AccountId, asset: String, amount: u64 },
    Snapshot,
}

impl Clone for Event {
    fn clone(&self) -> (r: Self)
        ensures
            r == *self,
    {
        match self {
            Event::OrderPlaced(o) => Event::OrderPlaced(o.clone()),
            Event::OrderCancelled { order_id } => Event::OrderCancelled { order_id: *order_id },
            Event::Trade(t) => Event::Trade(*t),
            Event::Deposit { account_id, asset, amount } => Event::Deposit {
                account_id: account_id.clone(),
                asset: asset.clone(),
                amount: *amount,
            },
            Event::Withdraw { account_id, asset, amount } => Event::Withdraw {
                account_id: account_id.clone(),
                asset: asset.clone(),
                amount: *amount,
            },
            Event::Snapshot => Event::Snapshot,
        }
    }
}

} // verus!
