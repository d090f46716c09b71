use std::collections::HashMap;
use vstd::prelude::*;

use crate::trading::account::{
    balance_of, deposit_fits, withdraw_succeeds, Account, AccountId, AccountView,
};
use crate::trading::events::{Event, TradeEvent};
use crate::trading::properties::{
    placed_trades_are_the_books_trades,replaying_a_placement, replaying_trades_settles_them, trade_log};
use crate::trading::ledger::{
    after_cancel, after_forget, after_place, buyer_settled, cancel_finds, deposited, event_of,
    event_replays, log_replays, party, trade_of, place_fits, placed_trades, replayed, replayed_event,
    settle_all_fits, settle_fits, settle_fits_in, settled_all, settle_outcome, settled, settled_in, trade_market, withdrawn,
    EngineView,
};
use crate::trading::market::{base_of_symbol, quote_of_symbol, symbol_base, symbol_quote, Market};
use crate::trading::order::{Order, OrderId};
use crate::trading::orderbook::{BookView, OrderBook, Trade};
use crate::trading::persister::Persister;
use crate::trading::positions::{
    position_key, position_or_flat, positions_named, trade_fits, Position, PositionView,
    PositionsStore,
};
use crate::trading::book_laws::{book_finite, uncrossed};
use crate::trading::resting_laws::resting_sound;
use crate::trading::cancel_laws::{
    books_sound, cancelling_keeps_books_sound, placing_keeps_books_sound,
};
use crate::trading::strmap::StrMap;

verus! {

broadcast use vstd::std_specs::hash::group_hash_axioms;

/// The errors of the engine.
#[derive(Debug, Clone, Copy, PartialEq, Eq, Structural)]
pub enum EngineError {
    NotFound,
    PersistenceError,
    InsufficientBalance,
}

/// The trading engine: the books of the markets, the orders placed, the
/// positions and the accounts. Every change it makes that the log must record
/// is handed back as an [`Event`] for the caller to append to the log of its
/// [`Persister`].
pub struct Engine {
    orderbooks: StrMap<OrderBook>,
    orders_index: HashMap<OrderId, String>,
    orders_map: HashMap<OrderId, Order>,
    positions: PositionsStore,
    accounts: StrMap<Account>,
    persister: Persister,
    placing: Option<String>,
}

impl View for Engine {
    type V = EngineView;

    closed spec fn view(&self) -> EngineView {
        EngineView {
            books: self.orderbooks@,
            index: self.orders_index@,
            orders: self.orders_map@,
            positions: self.positions@,
            accounts: self.accounts@,
            log: self.persister,
            placing: self.placing,
        }
    }
}

impl Engine {
    /// The engine's maps are well formed, and every book is sound: finite,
    /// uncrossed, and holding only orders with quantity left on their own
    /// side at their own price.
    pub closed spec fn wf(&self) -> bool {
        &&& self.orderbooks.wf()
        &&& self.accounts.wf()
        &&& self.positions.wf()
        &&& books_sound(self@)
    }

    /// No book of an engine is ever crossed, and every order resting in a
    /// book has quantity left and rests on its own side at its own price: in
    /// every book, each nonempty bid level is priced below each nonempty ask
    /// level. Every position is stored under the key of its own account and
    /// market.
    pub proof fn lemma_books_sound(&self)
        requires
            self.wf(),
        ensures
            books_sound(self@),
            positions_named(self@.positions),
    {
    }

    /// An engine with no markets, orders, positions or accounts.
    pub fn new(persister: Persister) -> (e: Self)
        ensures
            e.wf(),
            e@.books == Map::<Seq<char>, BookView>::empty(),
            e@.index == Map::<OrderId, String>::empty(),
            e@.orders == Map::<OrderId, Order>::empty(),
            e@.positions == Map::<Seq<char>, PositionView>::empty(),
            e@.accounts == Map::<Seq<char>, AccountView>::empty(),
            e@.log == persister,
            e@.placing == None::<String>,
    {
        Engine {
            orderbooks: StrMap::new(),
            orders_index: HashMap::new(),
            orders_map: HashMap::new(),
            positions: PositionsStore::new(),
            accounts: StrMap::new(),
            persister,
            placing: None,
        }
    }

    /// Where the engine's log is kept.
    pub fn persister(&self) -> (r: &Persister)
        ensures
            *r == self@.log,
    {
        &self.persister
    }

    /// Opens (or reopens, emptied) the book of the market.
    pub fn create_market(&mut self, market: Market)
        requires
            old(self).wf(),
        ensures
            final(self).wf(),
            final(self)@ == (EngineView {
                books: old(self)@.books.insert(
                    market.symbol@,
                    BookView {
                        market: market,
                        buys: Map::empty(),
                        sells: Map::empty(),
                        next_trade_id: 1,
                    },
                ),
                ..old(self)@
            }),
    {
        let symbol = market.symbol.clone();
        let book = OrderBook::new(market);
        proof {
            book.lemma_sides_finite();
            assert(book_finite(book@) && uncrossed(book@) && resting_sound(book@));
        }
        let ghost s0 = self@;
        self.orderbooks.insert(symbol, book);
        assert(forall|k: Seq<char>| #[trigger] self@.books.contains_key(k) && k != market.symbol@
            ==> self@.books[k] == s0.books[k]);
    }

    /// Opens an account with no balances; an existing account is kept as it is.
    pub fn create_account(&mut self, account_id: AccountId)
        requires
            old(self).wf(),
        ensures
            final(self).wf(),
            final(self)@ == if old(self)@.accounts.contains_key(account_id@) {
                old(self)@
            } else {
                EngineView {
                    accounts: old(self)@.accounts.insert(
                        account_id@,
                        AccountView {
                            id: account_id@,
                            balances: Map::empty(),
                        },
                    ),
                    ..old(self)@
                }
            },
    {
        let ghost s0 = self@;
        if !self.accounts.contains_key(&account_id) {
            let key = account_id.clone();
            self.accounts.insert(key, Account::new(account_id));
        }
        assert(self@.books == s0.books);
    }

    /// Whether an account with this id exists.
    pub fn has_account(&self, account_id: &AccountId) -> (r: bool)
        requires
            self.wf(),
        ensures
            r == self@.accounts.contains_key(account_id@),
    {
        self.accounts.contains_key(account_id)
    }

    /// The balance of an asset of an account (0 when either is unknown).
    pub fn get_account_balance(&self, account_id: &AccountId, asset: &str) -> (b: u64)
        requires
            self.wf(),
        ensures
            b == if self@.accounts.contains_key(account_id@) {
                balance_of(self@.accounts[account_id@].balances, asset@)
            } else {
                0
            },
    {
        match self.accounts.get(account_id) {
            Some(acc) => acc.get_balance(asset),
            None => 0,
        }
    }

    /// The account's position in the market, if it has one.
    pub fn get_position(&self, account: &str, market: &str) -> (r: Option<&Position>)
        requires
            self.wf(),
        ensures
            match r {
                Some(p) => self@.positions.contains_key(position_key(account@, market@))
                    && p@ == self@.positions[position_key(account@, market@)],
                None => !self@.positions.contains_key(position_key(account@, market@)),
            },
    {
        self.positions.get(account, market)
    }

    /// Credits an asset to an account. On success the deposit is done and the
    /// returned event is what the log must record of it.
    pub fn deposit(&mut self, account_id: AccountId, asset: &str, amount: u64) -> (r: Result<
        Event,
        EngineError,
    >)
        requires
            old(self).wf(),
            old(self)@.accounts.contains_key(account_id@) ==> deposit_fits(
                old(self)@.accounts[account_id@],
                asset@,
                amount,
            ),
        ensures
            final(self).wf(),
            final(self)@ == deposited(old(self)@, account_id@, asset@, amount),
            old(self)@.accounts.contains_key(account_id@) ==> (r matches Ok(
                Event::Deposit { account_id: id, asset: a, amount: n },
            ) && id == account_id && a@ == asset@ && n == amount),
            !old(self)@.accounts.contains_key(account_id@) ==> r == Err::<Event, EngineError>(
                EngineError::NotFound,
            ),
            r matches Ok(ev) ==> event_replays(old(self)@, ev) && final(self)@ == replayed_event(
                old(self)@,
                ev,
            ),
    {
        match self.accounts.get_mut(&account_id) {
            Some(account) => {
                account.deposit(asset, amount);
                Ok(Event::Deposit { account_id, asset: asset.to_owned(), amount })
            },
            None => Err(EngineError::NotFound),
        }
    }

    /// Debits an asset from an account. A balance that does not cover the
    /// amount refuses the withdrawal. On success the returned event is what the
    /// log must record of it.
    pub fn withdraw(&mut self, account_id: AccountId, asset: &str, amount: u64) -> (r: Result<
        Event,
        EngineError,
    >)
        requires
            old(self).wf(),
        ensures
            final(self).wf(),
            final(self)@ == withdrawn(old(self)@, account_id@, asset@, amount),
            old(self)@.accounts.contains_key(account_id@) ==> {
                &&& withdraw_succeeds(old(self)@.accounts[account_id@], asset@, amount) ==> (r matches Ok(
                    Event::Withdraw { account_id: id, asset: a, amount: n },
                ) && id == account_id && a@ == asset@ && n == amount)
                &&& !withdraw_succeeds(old(self)@.accounts[account_id@], asset@, amount) ==> r
                    == Err::<Event, EngineError>(EngineError::InsufficientBalance)
            },
            !old(self)@.accounts.contains_key(account_id@) ==> r == Err::<Event, EngineError>(
                EngineError::NotFound,
            ),
            r matches Ok(ev) ==> event_replays(old(self)@, ev) && final(self)@ == replayed_event(
                old(self)@,
                ev,
            ),
    {
        let ghost s0 = self@;
        let r = match self.accounts.get_mut(&account_id) {
            Some(account) => {
                match account.withdraw(asset, amount) {
                    Ok(()) => Ok(Event::Withdraw { account_id, asset: asset.to_owned(), amount }),
                    Err(_) => Err(EngineError::InsufficientBalance),
                }
            },
            None => Err(EngineError::NotFound),
        };
        assert(self@.books == s0.books);
        r
    }

    /// The account behind an order id, or the fallback name.
    fn account_of_order(&self, id: OrderId, fallback: &str) -> (r: String)
        ensures
            r@ == party(self@.orders, id, fallback@),
    {
        match self.orders_map.get(&id) {
            Some(o) => o.account.clone(),
            None => fallback.to_owned(),
        }
    }

    /// Moves a trade's assets and positions: the buyer pays `price * qty` of
    /// the quote asset and receives `qty` of the base asset, the seller the
    /// other way round, then both positions in `pos_market` are updated.
    fn apply_trade_effects(&mut self, te: &TradeEvent, base: &str, quote: &str, pos_market: &str)
        requires
            old(self).wf(),
            settle_fits_in(old(self)@, *te, base@, quote@, pos_market@),
        ensures
            final(self).wf(),
            final(self)@ == settled_in(old(self)@, *te, base@, quote@, pos_market@),
    {
        let buy_acc_id = self.account_of_order(te.buy_order_id, "buyer");
        let sell_acc_id = self.account_of_order(te.sell_order_id, "seller");
        let ghost s0 = self@;
        match self.accounts.get_mut(&buy_acc_id) {
            Some(buy_account) => {
                let _ = buy_account.withdraw(quote, te.price * te.qty);
                buy_account.deposit(base, te.qty);
            },
            None => {},
        }
        assert(self@.accounts == buyer_settled(s0.accounts, buy_acc_id@, base@, quote@, *te));
        match self.accounts.get_mut(&sell_acc_id) {
            Some(sell_account) => {
                let _ = sell_account.withdraw(base, te.qty);
                sell_account.deposit(quote, te.price * te.qty);
            },
            None => {},
        }
        let trade = Trade {
            trade_id: te.trade_id,
            buy_order_id: te.buy_order_id,
            sell_order_id: te.sell_order_id,
            price: te.price,
            qty: te.qty,
            timestamp: te.timestamp,
        };
        self.positions.apply_trade(&trade, pos_market, &buy_acc_id, &sell_acc_id);
        assert(self@.books == s0.books);
    }

    /// The market of the order placed last, where its trades are settled.
    fn market_of_trade(&self) -> (r: Option<String>)
        ensures
            match r {
                Some(m) => trade_market(self@) == Some(m@),
                None => trade_market(self@) is None,
            },
    {
        match &self.placing {
            Some(m) => Some(m.clone()),
            None => None,
        }
    }

    /// Settles one trade of the order placed last, in its market (the symbol
    /// names the base asset before its first `-` and the quote asset after its
    /// last `-`): both parties' positions in the market are updated, and when
    /// both have accounts and each holds what it gives, the buyer pays
    /// `price * qty` of the quote asset and receives `qty` of the base asset,
    /// the seller the other way round. The result says whether the balances
    /// moved: `NotFound` when a party has no account (or no order was placed
    /// yet, and then nothing changes), `InsufficientBalance` when a party does
    /// not hold what it gives.
    pub fn settle_trade(&mut self, te: &TradeEvent) -> (r: Result<(), EngineError>)
        requires
            old(self).wf(),
            settle_fits(old(self)@, *te),
        ensures
            final(self).wf(),
            r == settle_outcome(old(self)@, *te),
            final(self)@ == settled(old(self)@, *te),
            event_replays(old(self)@, Event::Trade(*te)),
            final(self)@ == replayed_event(old(self)@, Event::Trade(*te)),
    {
        let market = match self.market_of_trade() {
            Some(m) => m,
            None => {
                return Err(EngineError::NotFound);
            },
        };
        let buyer = self.account_of_order(te.buy_order_id, "buyer");
        let seller = self.account_of_order(te.sell_order_id, "seller");
        let base = base_of_symbol(market.as_str());
        let quote = quote_of_symbol(market.as_str());
        let outcome = match (self.accounts.get(&buyer), self.accounts.get(&seller)) {
            (Some(b), Some(sl)) => {
                let cost = te.price * te.qty;
                if b.get_balance(quote.as_str()) >= cost && sl.get_balance(base.as_str()) >= te.qty {
                    Ok(())
                } else {
                    Err(EngineError::InsufficientBalance)
                }
            },
            _ => Err(EngineError::NotFound),
        };
        match outcome {
            Ok(()) => {
                self.apply_trade_effects(te, base.as_str(), quote.as_str(), market.as_str());
            },
            Err(_) => {
                let ghost s0 = self@;
                let trade = Trade {
                    trade_id: te.trade_id,
                    buy_order_id: te.buy_order_id,
                    sell_order_id: te.sell_order_id,
                    price: te.price,
                    qty: te.qty,
                    timestamp: te.timestamp,
                };
                self.positions.apply_trade(&trade, market.as_str(), &buyer, &seller);
                assert(self@.books == s0.books);
            },
        }
        outcome
    }

    /// The matching step of a placement: records the order under its id and
    /// inserts it into the book of its market, where it trades against the
    /// opposite side; its market becomes the one trades are settled in. Returns
    /// the trades as log events, in the order they happened, unsettled: each
    /// is to be written to the log and then settled with
    /// [`Engine::settle_trade`], which is what [`Engine::place_limit_order`]
    /// does without the log.
    pub fn match_order(&mut self, order: Order) -> (r: Result<Vec<TradeEvent>, EngineError>)
        requires
            old(self).wf(),
            place_fits(old(self)@, order),
        ensures
            final(self).wf(),
            final(self)@ == after_place(old(self)@, order),
            event_replays(old(self)@, Event::OrderPlaced(order)),
            final(self)@ == replayed_event(old(self)@, Event::OrderPlaced(order)),
            old(self)@.books.contains_key(order.market@) ==> (r matches Ok(ts) && ts@
                == placed_trades(old(self)@, order)),
            old(self)@.books.contains_key(order.market@) ==> (r matches Ok(ts) && forall|i: int|
                0 <= i < ts@.len() ==> #[trigger] ts@[i].trade_id == old(self)@.books[order.market@].next_trade_id
                    + i),
            !old(self)@.books.contains_key(order.market@) ==> r == Err::<Vec<TradeEvent>, EngineError>(
                EngineError::NotFound,
            ),
    {
        let market = order.market.clone();
        let ghost s0 = self@;
        proof {
            placing_keeps_books_sound(s0, order);
            if s0.books.contains_key(order.market@) {
                placed_trades_are_the_books_trades(s0, order);
            }
        }
        match self.orderbooks.get_mut(&market) {
            Some(ob) => {
                self.orders_index.insert(order.id, market.clone());
                self.orders_map.insert(order.id, order.clone());
                let trades = ob.insert_order(order);
                self.placing = Some(market.clone());
                let mut out: Vec<TradeEvent> = Vec::new();
                let mut i: usize = 0;
                while i < trades.len()
                    invariant
                        i <= trades@.len(),
                        out@ == trades@.take(i as int).map_values(|t: Trade| event_of(t)),
                    decreases trades@.len() - i,
                {
                    let t = trades[i];
                    out.push(
                        TradeEvent {
                            trade_id: t.trade_id,
                            buy_order_id: t.buy_order_id,
                            sell_order_id: t.sell_order_id,
                            price: t.price,
                            qty: t.qty,
                            timestamp: t.timestamp,
                        },
                    );
                    assert(out@ =~= trades@.take(i + 1).map_values(|t: Trade| event_of(t)));
                    i = i + 1;
                }
                assert(trades@.take(trades@.len() as int) =~= trades@);
                Ok(out)
            },
            None => Err(EngineError::NotFound),
        }
    }

    /// Places a limit order: it is recorded under its id and inserted into the
    /// book of its market, where it trades against the opposite side, and each
    /// trade is then settled in turn in that market (positions, and balances
    /// where both parties have accounts and cover what they give). Returns the
    /// trades as log events, in the order they happened. Writing to the log is
    /// left to the caller: [`Engine::match_order`] and [`Engine::settle_trade`]
    /// are the two steps, for a caller that logs each trade before it is settled.
    pub fn place_limit_order(&mut self, order: Order) -> (r: Result<Vec<TradeEvent>, EngineError>)
        requires
            old(self).wf(),
            place_fits(old(self)@, order),
            old(self)@.books.contains_key(order.market@) ==> settle_all_fits(
                after_place(old(self)@, order),
                placed_trades(old(self)@, order),
            ),
        ensures
            final(self).wf(),
            old(self)@.books.contains_key(order.market@) ==> (r matches Ok(ts) && ts@
                == placed_trades(old(self)@, order)) && final(self)@ == settled_all(
                after_place(old(self)@, order),
                placed_trades(old(self)@, order),
            ),
            final(self)@.books == after_place(old(self)@, order).books,
            old(self)@.books.contains_key(order.market@) ==> (r matches Ok(ts) && forall|i: int|
                0 <= i < ts@.len() ==> #[trigger] ts@[i].trade_id == old(self)@.books[order.market@].next_trade_id
                    + i),
            r matches Ok(ts) ==> log_replays(
                old(self)@,
                seq![Event::OrderPlaced(order)] + trade_log(ts@),
            ) && final(self)@ == replayed(
                old(self)@,
                seq![Event::OrderPlaced(order)] + trade_log(ts@),
            ),
            !old(self)@.books.contains_key(order.market@) ==> r == Err::<Vec<TradeEvent>, EngineError>(
                EngineError::NotFound,
            ) && final(self)@ == old(self)@,
    {
        let ghost s0 = self@;
        let trades = match self.match_order(order) {
            Ok(ts) => ts,
            Err(e) => {
                return Err(e);
            },
        };
        let ghost placed = self@;
        let mut i: usize = 0;
        assert(trades@.skip(0) =~= trades@);
        while i < trades.len()
            invariant
                self.wf(),
                i <= trades@.len(),
                settled_all(placed, trades@) == settled_all(self@, trades@.skip(i as int)),
                settle_all_fits(self@, trades@.skip(i as int)),
            decreases trades@.len() - i,
        {
            assert(trades@.skip(i as int)[0] == trades@[i as int]);
            assert(trades@.skip(i as int).drop_first() =~= trades@.skip(i + 1));
            let _ = self.settle_trade(&trades[i]);
            i = i + 1;
        }
        assert(trades@.skip(i as int) =~= Seq::<TradeEvent>::empty());
        proof {
            replaying_a_placement(s0, order, trades@);
            replaying_trades_settles_them(placed, trades@);
        }
        Ok(trades)
    }

    /// Takes an order out of the book of the market it was placed in and
    /// forgets its id (the order and its market). On success the returned
    /// event is what the log must record; an order that no book holds any more
    /// is `NotFound`, and then nothing changes.
    pub fn cancel_order(&mut self, order_id: OrderId) -> (r: Result<Event, EngineError>)
        requires
            old(self).wf(),
        ensures
            final(self).wf(),
            final(self)@ == if cancel_finds(old(self)@, order_id) {
                after_forget(after_cancel(old(self)@, order_id), order_id)
            } else {
                old(self)@
            },
            cancel_finds(old(self)@, order_id) ==> (r matches Ok(Event::OrderCancelled { order_id: id })
                && id == order_id),
            !cancel_finds(old(self)@, order_id) ==> r == Err::<Event, EngineError>(
                EngineError::NotFound,
            ),
            r matches Ok(ev) ==> event_replays(old(self)@, ev) && final(self)@ == replayed_event(
                old(self)@,
                ev,
            ),
    {
        let market = match self.orders_index.get(&order_id) {
            Some(m) => m.clone(),
            None => {
                return Err(EngineError::NotFound);
            },
        };
        let ghost s0 = self@;
        proof {
            cancelling_keeps_books_sound(s0, order_id);
        }
        let found = match self.orderbooks.get_mut(&market) {
            Some(ob) => ob.cancel_order(order_id).is_some(),
            None => false,
        };
        if found {
            self.forget_order(order_id);
            Ok(Event::OrderCancelled { order_id })
        } else {
            assert(self@.books =~= s0.books);
            Err(EngineError::NotFound)
        }
    }

    /// Whether some book holds the order with this id, so that
    /// [`Engine::cancel_order`] would take it out.
    pub fn holds_order(&self, order_id: OrderId) -> (r: bool)
        requires
            self.wf(),
        ensures
            r == cancel_finds(self@, order_id),
    {
        match self.orders_index.get(&order_id) {
            Some(m) => match self.orderbooks.get(m) {
                Some(ob) => ob.holds_order(order_id),
                None => false,
            },
            None => false,
        }
    }

    /// Drops an order id from the engine's records (the order and its market).
    fn forget_order(&mut self, order_id: OrderId)
        requires
            old(self).wf(),
        ensures
            final(self).wf(),
            final(self)@ == after_forget(old(self)@, order_id),
    {
        self.orders_map.remove(&order_id);
        self.orders_index.remove(&order_id);
    }

    /// Replays one logged event.
    fn replay_event(&mut self, ev: &Event)
        requires
            old(self).wf(),
            event_replays(old(self)@, *ev),
        ensures
            final(self).wf(),
            final(self)@ == replayed_event(old(self)@, *ev),
    {
        let ghost s0 = self@;
        match ev {
            Event::OrderPlaced(o) => {
                let _ = self.match_order(o.clone());
            },
            Event::Trade(t) => {
                let _ = self.settle_trade(t);
            },
            Event::OrderCancelled { order_id } => {
                let _ = self.cancel_order(*order_id);
                self.forget_order(*order_id);
                let ghost c = after_cancel(s0, *order_id);
                assert(after_forget(after_forget(c, *order_id), *order_id).orders =~= after_forget(c, *order_id).orders);
                assert(after_forget(after_forget(c, *order_id), *order_id).index =~= after_forget(c, *order_id).index);
            },
            Event::Snapshot => {},
            Event::Deposit { account_id, asset, amount } => {
                match self.accounts.get_mut(account_id) {
                    Some(account) => {
                        account.deposit(asset.as_str(), *amount);
                    },
                    None => {},
                }
                assert(self@.books == s0.books);
            },
            Event::Withdraw { account_id, asset, amount } => {
                match self.accounts.get_mut(account_id) {
                    Some(account) => {
                        let _ = account.withdraw(asset.as_str(), *amount);
                    },
                    None => {},
                }
                assert(self@.books == s0.books);
            },
        }
    }

    /// Replays a log, event by event, on top of the current state: each event
    /// does what the operation that logged it did. Placed orders go back into
    /// their books (their trades are settled by the logged trades that
    /// follow), trades are settled in their market, cancels take the order out
    /// of its book and forget it, deposits and withdrawals are applied to the
    /// accounts that exist.
    pub fn replay_events_from_file(&mut self, events: Vec<Event>) -> (r: Result<(), EngineError>)
        requires
            old(self).wf(),
            log_replays(old(self)@, events@),
        ensures
            final(self).wf(),
            final(self)@ == replayed(old(self)@, events@),
            r is Ok,
    {
        let mut i: usize = 0;
        assert(events@.skip(0) =~= events@);
        while i < events.len()
            invariant
                self.wf(),
                i <= events@.len(),
                replayed(old(self)@, events@) == replayed(self@, events@.skip(i as int)),
                log_replays(self@, events@.skip(i as int)),
            decreases events@.len() - i,
        {
            assert(events@.skip(i as int)[0] == events@[i as int]);
            assert(events@.skip(i as int).drop_first() =~= events@.skip(i + 1));
            self.replay_event(&events[i]);
            i = i + 1;
        }
        Ok(())
    }

    /// The account's position in the market, or a flat one.
    fn position_or_flat(&self, account: &str, market: &str) -> (p: Position)
        requires
            self.wf(),
        ensures
            p@ == position_or_flat(self@.positions, account@, market@),
    {
        match self.positions.get(account, market) {
            Some(p) => p.clone(),
            None => Position::new(account, market),
        }
    }

    /// Whether settling the trade with the given assets stays within the
    /// integer types.
    fn can_settle_in(&self, te: &TradeEvent, base: &str, quote: &str, pos_market: &str) -> (r:
        bool)
        requires
            self.wf(),
        ensures
            r == settle_fits_in(self@, *te, base@, quote@, pos_market@),
    {
        let buyer = self.account_of_order(te.buy_order_id, "buyer");
        let seller = self.account_of_order(te.sell_order_id, "seller");
        let has_buyer = self.accounts.contains_key(&buyer);
        let has_seller = self.accounts.contains_key(&seller);
        proof {
            let p = te.price as int;
            let q = te.qty as int;
            assert(p * q <= u64::MAX as int * u64::MAX as int) by (nonlinear_arith)
                requires
                    0 <= p <= u64::MAX,
                    0 <= q <= u64::MAX,
            ;
        }
        let cost_wide: u128 = te.price as u128 * te.qty as u128;
        if (has_buyer || has_seller) && cost_wide > u64::MAX as u128 {
            return false;
        }
        let cost: u64 = if cost_wide <= u64::MAX as u128 {
            cost_wide as u64
        } else {
            0
        };
        let same_asset = base.to_owned() == quote.to_owned();
        let ghost s = self@;
        let ghost a1 = buyer_settled(s.accounts, buyer@, base@, quote@, *te);
        // What the buyer's balances become.
        let mut buyer_base: u64 = 0;
        let mut buyer_quote: u64 = 0;
        if has_buyer {
            let acc = self.accounts.get(&buyer).unwrap();
            let paid = acc.get_balance(quote);
            let left = if paid >= cost {
                paid - cost
            } else {
                paid
            };
            let base_before = if same_asset {
                left
            } else {
                acc.get_balance(base)
            };
            if base_before as u128 + te.qty as u128 > u64::MAX as u128 {
                return false;
            }
            buyer_base = base_before + te.qty;
            buyer_quote = if same_asset {
                buyer_base
            } else {
                left
            };
            assert(a1[buyer@].balances.contains_key(base@));
            assert(a1[buyer@].balances[base@] == buyer_base);
            assert(balance_of(a1[buyer@].balances, quote@) == buyer_quote);
        }
        if has_seller {
            let acc = self.accounts.get(&seller).unwrap();
            let (seller_base, seller_quote) = if has_buyer && seller == buyer {
                (buyer_base, buyer_quote)
            } else {
                (acc.get_balance(base), acc.get_balance(quote))
            };
            assert(seller_base == balance_of(a1[seller@].balances, base@));
            assert(seller_quote == balance_of(a1[seller@].balances, quote@));
            let left = if seller_base >= te.qty {
                seller_base - te.qty
            } else {
                seller_base
            };
            let quote_before = if same_asset {
                left
            } else {
                seller_quote
            };
            if quote_before as u128 + cost as u128 > u64::MAX as u128 {
                return false;
            }
        }
        self.can_apply_positions(te, pos_market, &buyer, &seller)
    }

    /// Whether the trade's positions in the market stay within `i128`.
    fn can_apply_positions(&self, te: &TradeEvent, market: &str, buyer: &String, seller: &String) -> (r:
        bool)
        requires
            self.wf(),
        ensures
            r == trade_fits(self@.positions, trade_of(*te), market@, buyer@, seller@),
    {
        let mut buyer_pos = self.position_or_flat(buyer, market);
        if !buyer_pos.can_buy(te.price, te.qty) {
            return false;
        }
        let seller_pos = if PositionsStore::key(seller, market) == PositionsStore::key(buyer, market) {
            buyer_pos.buy(te.price, te.qty);
            buyer_pos
        } else {
            self.position_or_flat(seller, market)
        };
        seller_pos.can_sell(te.price, te.qty)
    }

    /// Whether settling the trade stays within the integer types, which
    /// [`Engine::settle_trade`] and the replay of a trade need.
    pub fn can_settle(&self, te: &TradeEvent) -> (r: bool)
        requires
            self.wf(),
        ensures
            r == settle_fits(self@, *te),
    {
        let market = match self.market_of_trade() {
            Some(m) => m,
            None => {
                return true;
            },
        };
        let buyer = self.account_of_order(te.buy_order_id, "buyer");
        let seller = self.account_of_order(te.sell_order_id, "seller");
        let base = base_of_symbol(market.as_str());
        let quote = quote_of_symbol(market.as_str());
        match (self.accounts.get(&buyer), self.accounts.get(&seller)) {
            (Some(b), Some(sl)) => {
                proof {
                    let p = te.price as int;
                    let q = te.qty as int;
                    assert(p * q <= u64::MAX as int * u64::MAX as int) by (nonlinear_arith)
                        requires
                            0 <= p <= u64::MAX,
                            0 <= q <= u64::MAX,
                    ;
                }
                let cost_wide: u128 = te.price as u128 * te.qty as u128;
                if cost_wide > u64::MAX as u128 {
                    return false;
                }
                let cost: u64 = cost_wide as u64;
                if b.get_balance(quote.as_str()) >= cost && sl.get_balance(base.as_str()) >= te.qty {
                    self.can_settle_in(te, base.as_str(), quote.as_str(), market.as_str())
                } else {
                    self.can_apply_positions(te, market.as_str(), &buyer, &seller)
                }
            },
            _ => self.can_apply_positions(te, market.as_str(), &buyer, &seller),
        }
    }

    /// Whether a deposit stays within `u64`, which [`Engine::deposit`] needs.
    pub fn can_deposit(&self, account_id: &AccountId, asset: &str, amount: u64) -> (r: bool)
        requires
            self.wf(),
        ensures
            r == (self@.accounts.contains_key(account_id@) ==> deposit_fits(
                self@.accounts[account_id@],
                asset@,
                amount,
            )),
    {
        match self.accounts.get(account_id) {
            Some(acc) => acc.get_balance(asset) as u128 + amount as u128 <= u64::MAX as u128,
            None => true,
        }
    }

    /// Whether placing the order leaves enough trade ids, which
    /// [`Engine::place_limit_order`] needs.
    pub fn can_place(&self, order: &Order) -> (r: bool)
        requires
            self.wf(),
        ensures
            r == place_fits(self@, *order),
    {
        match self.orderbooks.get(&order.market) {
            Some(ob) => ob.can_insert(order),
            None => true,
        }
    }

    /// Whether a logged event replays, which
    /// [`Engine::replay_events_from_file`] needs of each event in turn.
    pub fn can_replay(&self, ev: &Event) -> (r: bool)
        requires
            self.wf(),
        ensures
            r == event_replays(self@, *ev),
    {
        match ev {
            Event::OrderPlaced(o) => self.can_place(o),
            Event::Trade(t) => self.can_settle(t),
            Event::OrderCancelled { .. } => true,
            Event::Snapshot => true,
            Event::Deposit { account_id, asset, amount } => self.can_deposit(
                account_id,
                asset.as_str(),
                *amount,
            ),
            Event::Withdraw { account_id, asset, amount } => match self.accounts.get(account_id) {
                Some(acc) => acc.get_balance(asset.as_str()) >= *amount,
                None => true,
            },
        }
    }
}

} // verus!
