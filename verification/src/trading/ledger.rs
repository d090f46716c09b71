use vstd::prelude::*;

use crate::trading::account::{
    after_deposit, after_withdraw, deposit_fits, withdraw_succeeds, AccountView,
};
use crate::trading::engine::EngineError;
use crate::trading::events::{Event, TradeEvent};
use crate::trading::market::{symbol_base, symbol_quote};
use crate::trading::matching::{
    book_after_cancel, book_after_insert, cancelled_order, insert_ok, trades_of_insert,
};
use crate::trading::order::{Order, OrderId};
use crate::trading::persister::Persister;
use crate::trading::orderbook::{BookView, Trade};
use crate::trading::positions::{trade_applied, trade_fits, PositionView};

verus! {

/// What an engine holds: a book per market symbol, the market and the order
/// behind each order id, the positions, the accounts, where its log is kept,
/// and the market of the order placed last, whose trades are settled in it.
pub struct EngineView {
    pub books: Map<Seq<char>, BookView>,
    pub index: Map<OrderId, String>,
    pub orders: Map<OrderId, Order>,
    pub positions: Map<Seq<char>, PositionView>,
    pub accounts: Map<Seq<char>, AccountView>,
    pub log: Persister,
    pub placing: Option<String>,
}

/// A trade of the book as an event of the log.
pub open spec fn event_of(t: Trade) -> TradeEvent {
    TradeEvent {
        trade_id: t.trade_id,
        buy_order_id: t.buy_order_id,
        sell_order_id: t.sell_order_id,
        price: t.price,
        qty: t.qty,
        timestamp: t.timestamp,
    }
}

/// A logged trade as a trade of the book.
pub open spec fn trade_of(e: TradeEvent) -> Trade {
    Trade {
        trade_id: e.trade_id,
        buy_order_id: e.buy_order_id,
        sell_order_id: e.sell_order_id,
        price: e.price,
        qty: e.qty,
        timestamp: e.timestamp,
    }
}

/// The account behind an order id, or the fallback name when the engine does
/// not know the order.
pub open spec fn party(orders: Map<OrderId, Order>, id: OrderId, fallback: Seq<char>) -> Seq<char> {
    if orders.contains_key(id) {
        orders[id].account@
    } else {
        fallback
    }
}

/// The buyer of a trade (`"buyer"` when its order is unknown).
pub open spec fn buyer_of(s: EngineView, t: TradeEvent) -> Seq<char> {
    party(s.orders, t.buy_order_id, "buyer"@)
}

/// The seller of a trade (`"seller"` when its order is unknown).
pub open spec fn seller_of(s: EngineView, t: TradeEvent) -> Seq<char> {
    party(s.orders, t.sell_order_id, "seller"@)
}

/// The buyer, when it has an account, pays `price * qty` of the quote asset (if
/// its balance covers it; otherwise it pays nothing) and receives `qty` of the
/// base asset.
pub open spec fn buyer_settled(
    accounts: Map<Seq<char>, AccountView>,
    buyer: Seq<char>,
    base: Seq<char>,
    quote: Seq<char>,
    t: TradeEvent,
) -> Map<Seq<char>, AccountView> {
    if accounts.contains_key(buyer) {
        accounts.insert(
            buyer,
            after_deposit(after_withdraw(accounts[buyer], quote, (t.price * t.qty) as u64), base, t.qty),
        )
    } else {
        accounts
    }
}

/// The seller, when it has an account, gives `qty` of the base asset (if its
/// balance covers it; otherwise it gives nothing) and receives `price * qty` of
/// the quote asset.
pub open spec fn seller_settled(
    accounts: Map<Seq<char>, AccountView>,
    seller: Seq<char>,
    base: Seq<char>,
    quote: Seq<char>,
    t: TradeEvent,
) -> Map<Seq<char>, AccountView> {
    if accounts.contains_key(seller) {
        accounts.insert(
            seller,
            after_deposit(after_withdraw(accounts[seller], base, t.qty), quote, (t.price * t.qty) as u64),
        )
    } else {
        accounts
    }
}

/// The engine after a trade is settled with the given assets: the buyer's
/// account, then the seller's account, then both positions in `pos_market`.
/// (Used only when both parties cover what they give.)
pub open spec fn settled_in(
    s: EngineView,
    t: TradeEvent,
    base: Seq<char>,
    quote: Seq<char>,
    pos_market: Seq<char>,
) -> EngineView {
    let a1 = buyer_settled(s.accounts, buyer_of(s, t), base, quote, t);
    EngineView {
        accounts: seller_settled(a1, seller_of(s, t), base, quote, t),
        positions: trade_applied(s.positions, trade_of(t), pos_market, buyer_of(s, t), seller_of(s, t)),
        ..s
    }
}

/// Whether settling a trade stays within the integer types: the cost
/// `price * qty` when an account pays or receives it, the receiving balances,
/// and the positions.
pub open spec fn settle_fits_in(
    s: EngineView,
    t: TradeEvent,
    base: Seq<char>,
    quote: Seq<char>,
    pos_market: Seq<char>,
) -> bool {
    let buyer = buyer_of(s, t);
    let seller = seller_of(s, t);
    let cost = (t.price * t.qty) as u64;
    let a1 = buyer_settled(s.accounts, buyer, base, quote, t);
    &&& (s.accounts.contains_key(buyer) || s.accounts.contains_key(seller)) ==> t.price * t.qty
        <= u64::MAX
    &&& s.accounts.contains_key(buyer) ==> deposit_fits(
        after_withdraw(s.accounts[buyer], quote, cost),
        base,
        t.qty,
    )
    &&& a1.contains_key(seller) ==> deposit_fits(after_withdraw(a1[seller], base, t.qty), quote, cost)
    &&& trade_fits(s.positions, trade_of(t), pos_market, buyer, seller)
}

/// The market a trade is settled in: that of the order placed last, whose
/// trades they are.
pub open spec fn trade_market(s: EngineView) -> Option<Seq<char>> {
    match s.placing {
        Some(m) => Some(m@),
        None => None,
    }
}

/// Whether the trade's market is known and both parties have accounts.
pub open spec fn settle_parties(s: EngineView, t: TradeEvent) -> bool {
    &&& trade_market(s) is Some
    &&& s.accounts.contains_key(buyer_of(s, t))
    &&& s.accounts.contains_key(seller_of(s, t))
}

/// Whether both parties have accounts and each holds what it gives: the buyer
/// `price * qty` of the market's quote asset, the seller `qty` of its base
/// asset.
pub open spec fn settle_covered(s: EngineView, t: TradeEvent) -> bool {
    &&& settle_parties(s, t)
    &&& t.price * t.qty <= u64::MAX
    &&& withdraw_succeeds(
        s.accounts[buyer_of(s, t)],
        symbol_quote(trade_market(s)->0),
        (t.price * t.qty) as u64,
    )
    &&& withdraw_succeeds(s.accounts[seller_of(s, t)], symbol_base(trade_market(s)->0), t.qty)
}

/// What settling a trade answers about its balances: `NotFound` when its
/// market or a party's account is unknown, `InsufficientBalance` when a party
/// does not hold what it gives, and `Ok` when the balances moved.
pub open spec fn settle_outcome(s: EngineView, t: TradeEvent) -> Result<(), EngineError> {
    if !settle_parties(s, t) {
        Err(EngineError::NotFound)
    } else if !settle_covered(s, t) {
        Err(EngineError::InsufficientBalance)
    } else {
        Ok(())
    }
}

/// The engine after a trade is settled in the market of the order placed
/// last: both parties' positions in that market are updated; the balances
/// move between them in the market's assets only when both have accounts and
/// each holds what it gives (otherwise no balance changes). With no order
/// placed yet nothing changes.
pub open spec fn settled(s: EngineView, t: TradeEvent) -> EngineView {
    match trade_market(s) {
        None => s,
        Some(m) => if settle_covered(s, t) {
            settled_in(s, t, symbol_base(m), symbol_quote(m), m)
        } else {
            EngineView {
                positions: trade_applied(s.positions, trade_of(t), m, buyer_of(s, t), seller_of(s, t)),
                ..s
            }
        },
    }
}

/// Whether settling a trade stays within the integer types.
pub open spec fn settle_fits(s: EngineView, t: TradeEvent) -> bool {
    match trade_market(s) {
        None => true,
        Some(m) => {
            &&& trade_fits(s.positions, trade_of(t), m, buyer_of(s, t), seller_of(s, t))
            &&& settle_parties(s, t) ==> t.price * t.qty <= u64::MAX
            &&& settle_covered(s, t) ==> settle_fits_in(s, t, symbol_base(m), symbol_quote(m), m)
        },
    }
}

/// The engine after a list of trades is settled, one after the other.
pub open spec fn settled_all(s: EngineView, ts: Seq<TradeEvent>) -> EngineView
    decreases ts.len(),
{
    if ts.len() == 0 {
        s
    } else {
        settled_all(settled(s, ts[0]), ts.drop_first())
    }
}

/// Whether each trade of a list settles within the integer types, each in the
/// state the ones before it left.
pub open spec fn settle_all_fits(s: EngineView, ts: Seq<TradeEvent>) -> bool
    decreases ts.len(),
{
    ts.len() == 0 || (settle_fits(s, ts[0]) && settle_all_fits(settled(s, ts[0]), ts.drop_first()))
}

/// Whether placing the order stays within the integer types.
pub open spec fn place_fits(s: EngineView, o: Order) -> bool {
    s.books.contains_key(o.market@) ==> insert_ok(s.books[o.market@], o)
}

/// The engine after an order is placed in the book of its market (unchanged
/// when there is no such book): the order is recorded under its id, then
/// inserted into the book; its market is where its trades are settled.
pub open spec fn after_place(s: EngineView, o: Order) -> EngineView {
    if s.books.contains_key(o.market@) {
        EngineView {
            books: s.books.insert(o.market@, book_after_insert(s.books[o.market@], o)),
            index: s.index.insert(o.id, o.market),
            orders: s.orders.insert(o.id, o),
            placing: Some(o.market),
            ..s
        }
    } else {
        s
    }
}

/// The trades that placing an order makes, as log events.
pub open spec fn placed_trades(s: EngineView, o: Order) -> Seq<TradeEvent> {
    trades_of_insert(s.books[o.market@], o).map_values(|t: Trade| event_of(t))
}

/// The book that holds an indexed order, when the order is indexed and the book exists.
pub open spec fn cancel_finds(s: EngineView, id: OrderId) -> bool {
    &&& s.index.contains_key(id)
    &&& s.books.contains_key(s.index[id]@)
    &&& cancelled_order(s.books[s.index[id]@], id) is Some
}

/// The engine after the book part of a cancel.
pub open spec fn after_cancel(s: EngineView, id: OrderId) -> EngineView {
    if cancel_finds(s, id) {
        EngineView {
            books: s.books.insert(s.index[id]@, book_after_cancel(s.books[s.index[id]@], id)),
            ..s
        }
    } else {
        s
    }
}

/// The engine once a cancel is on the log: the order id is forgotten.
pub open spec fn after_forget(s: EngineView, id: OrderId) -> EngineView {
    EngineView { orders: s.orders.remove(id), index: s.index.remove(id), ..s }
}

/// The engine after a deposit (unchanged when the account does not exist).
pub open spec fn deposited(s: EngineView, id: Seq<char>, asset: Seq<char>, amount: u64) -> EngineView {
    if s.accounts.contains_key(id) {
        EngineView {
            accounts: s.accounts.insert(id, after_deposit(s.accounts[id], asset, amount)),
            ..s
        }
    } else {
        s
    }
}

/// The engine after a withdrawal, refused or not (unchanged when the account
/// does not exist).
pub open spec fn withdrawn(s: EngineView, id: Seq<char>, asset: Seq<char>, amount: u64) -> EngineView {
    if s.accounts.contains_key(id) {
        EngineView {
            accounts: s.accounts.insert(id, after_withdraw(s.accounts[id], asset, amount)),
            ..s
        }
    } else {
        s
    }
}

/// The engine after one event of the log is replayed: each event does what the
/// operation that logged it did.
pub open spec fn replayed_event(s: EngineView, ev: Event) -> EngineView {
    match ev {
        Event::OrderPlaced(o) => after_place(s, o),
        Event::Trade(t) => settled(s, t),
        Event::OrderCancelled { order_id } => after_forget(after_cancel(s, order_id), order_id),
        Event::Snapshot => s,
        Event::Deposit { account_id, asset, amount } => deposited(s, account_id@, asset@, amount),
        Event::Withdraw { account_id, asset, amount } => withdrawn(s, account_id@, asset@, amount),
    }
}

/// Whether one event replays without leaving the integer types or withdrawing
/// more than a balance holds.
pub open spec fn event_replays(s: EngineView, ev: Event) -> bool {
    match ev {
        Event::OrderPlaced(o) => place_fits(s, o),
        Event::Trade(t) => settle_fits(s, t),
        Event::OrderCancelled { .. } => true,
        Event::Snapshot => true,
        Event::Deposit { account_id, asset, amount } => s.accounts.contains_key(account_id@)
            ==> deposit_fits(s.accounts[account_id@], asset@, amount),
        Event::Withdraw { account_id, asset, amount } => s.accounts.contains_key(account_id@)
            ==> withdraw_succeeds(s.accounts[account_id@], asset@, amount),
    }
}

/// The engine after a log is replayed, event by event.
pub open spec fn replayed(s: EngineView, evs: Seq<Event>) -> EngineView
    decreases evs.len(),
{
    if evs.len() == 0 {
        s
    } else {
        replayed(replayed_event(s, evs[0]), evs.drop_first())
    }
}

/// Whether every event of a log replays, each in the state the ones before it left.
pub open spec fn log_replays(s: EngineView, evs: Seq<Event>) -> bool
    decreases evs.len(),
{
    evs.len() == 0 || (event_replays(s, evs[0]) && log_replays(
        replayed_event(s, evs[0]),
        evs.drop_first(),
    ))
}

} // verus!
