use vstd::prelude::*;

use crate::trading::account::{
    deposit_fits,
    after_deposit, after_withdraw, balance_of, withdraw_succeeds, AccountView,
};
use crate::trading::events::Event;
use crate::trading::events::TradeEvent;
use crate::trading::book_laws::{book_finite, insertion_trades};
use crate::trading::matching::{insert_ok, trades_of_insert};
use crate::trading::ledger::{
    placed_trades,
    settle_all_fits, settled_all,
    after_cancel, after_place, buyer_of, buyer_settled, cancel_finds, deposited, event_replays,
    log_replays, replayed, replayed_event, seller_of, settle_covered, settle_fits, settled,
    trade_market, withdrawn, EngineView,
};
use crate::trading::positions::{
    position_key, position_or_flat, trade_applied, trade_fits, PositionView,
};
use crate::trading::matching::fill_level;
use crate::trading::market::{symbol_base, symbol_quote};
use crate::trading::order::{Order, OrderId};
use crate::trading::orderbook::Trade;

verus! {

/// Replaying a log in two parts is replaying it whole: the state after `a + b`
/// is the state after `b` replayed on the state after `a`, and `a + b` replays
/// cleanly exactly when `a` does and then `b` does.
pub proof fn replay_is_compositional(s: EngineView, a: Seq<Event>, b: Seq<Event>)
    ensures
        replayed(s, a + b) == replayed(replayed(s, a), b),
        log_replays(s, a + b) == (log_replays(s, a) && log_replays(replayed(s, a), b)),
    decreases a.len(),
{
    if a.len() == 0 {
        assert(a + b =~= b);
    } else {
        assert((a + b)[0] == a[0]);
        assert((a + b).drop_first() =~= a.drop_first() + b);
        replay_is_compositional(replayed_event(s, a[0]), a.drop_first(), b);
    }
}

/// Depositing an amount and withdrawing it again gives the balance back.
pub proof fn deposit_then_withdraw_restores(a: AccountView, asset: Seq<char>, amount: u64)
    requires
        balance_of(a.balances, asset) + amount <= u64::MAX,
    ensures
        balance_of(after_withdraw(after_deposit(a, asset, amount), asset, amount).balances, asset)
            == balance_of(a.balances, asset),
        a.balances.contains_key(asset) ==> after_withdraw(
            after_deposit(a, asset, amount),
            asset,
            amount,
        ) == a,
{
    if a.balances.contains_key(asset) {
        let r = after_withdraw(after_deposit(a, asset, amount), asset, amount);
        assert(r.balances =~= a.balances);
    }
}

/// The total quantity of a list of trades.
pub open spec fn total_qty(ts: Seq<Trade>) -> int
    decreases ts.len(),
{
    if ts.len() == 0 {
        0
    } else {
        ts[0].qty + total_qty(ts.drop_first())
    }
}

/// The total quantity of two lists of trades one after the other is the sum of theirs.
pub proof fn lemma_total_qty_concat(a: Seq<Trade>, b: Seq<Trade>)
    ensures
        total_qty(a + b) == total_qty(a) + total_qty(b),
    decreases a.len(),
{
    if a.len() == 0 {
        assert(a + b =~= b);
    } else {
        assert((a + b)[0] == a[0]);
        assert((a + b).drop_first() =~= a.drop_first() + b);
        lemma_total_qty_concat(a.drop_first(), b);
    }
}

/// What every trade of a fill shares: the incoming order on its side of the
/// trade, the ids handed out one after the other, one timestamp and a price.
pub open spec fn trades_follow(
    ts: Seq<Trade>,
    incoming: Order,
    next_id: int,
    incoming_buys: bool,
) -> bool {
    forall|i: int|
        #![trigger ts[i]]
        0 <= i < ts.len() ==> {
            &&& ts[i].trade_id == (next_id + i) as u64
            &&& ts[i].timestamp == incoming.timestamp
            &&& (incoming_buys ==> ts[i].buy_order_id == incoming.id)
            &&& (!incoming_buys ==> ts[i].sell_order_id == incoming.id)
        }
}

/// The trades of a level fill all happen at the level's price, follow the
/// incoming order, and fill exactly the quantity the order loses.
pub proof fn level_fill_trades(
    level: Seq<Order>,
    order: Order,
    price: u64,
    next_id: int,
    incoming_buys: bool,
)
    ensures
        ({
            let f = fill_level(level, order, price, next_id, order.timestamp, incoming_buys);
            &&& forall|i: int| 0 <= i < f.trades.len() ==> #[trigger] f.trades[i].price == price
            &&& trades_follow(f.trades, order, next_id, incoming_buys)
            &&& total_qty(f.trades) == order.remaining - f.order.remaining
        }),
    decreases level.len(),
{
    reveal(fill_level);
    let f = fill_level(level, order, price, next_id, order.timestamp, incoming_buys);
    if order.remaining == 0 || level.len() == 0 {
    } else {
        let resting = level[0];
        let q = if order.remaining <= resting.remaining {
            order.remaining
        } else {
            resting.remaining
        };
        let o2 = Order { remaining: (order.remaining - q) as u64, ..order };
        let r2rem = (resting.remaining - q) as u64;
        if r2rem == 0 && o2.remaining > 0 {
            level_fill_trades(level.drop_first(), o2, price, next_id + 1, incoming_buys);
            let rest = fill_level(level.drop_first(), o2, price, next_id + 1, order.timestamp, incoming_buys);
            assert(f.trades == seq![f.trades[0]] + rest.trades);
            assert forall|i: int| 0 <= i < f.trades.len() implies #[trigger] f.trades[i].price == price by {
                if i > 0 {
                    assert(f.trades[i] == rest.trades[i - 1]);
                }
            }
            assert forall|i: int| #![trigger f.trades[i]] 0 <= i < f.trades.len() implies {
                &&& f.trades[i].trade_id == (next_id + i) as u64
                &&& f.trades[i].timestamp == order.timestamp
                &&& (incoming_buys ==> f.trades[i].buy_order_id == order.id)
                &&& (!incoming_buys ==> f.trades[i].sell_order_id == order.id)
            } by {
                if i > 0 {
                    assert(f.trades[i] == rest.trades[i - 1]);
                }
            }
            assert(f.trades.drop_first() =~= rest.trades);
            assert(total_qty(f.trades) == q + total_qty(rest.trades));
        } else {
            assert(f.trades.len() == 1);
            assert(f.trades.drop_first() =~= Seq::<Trade>::empty());
            assert(total_qty(f.trades.drop_first()) == 0);
            assert(total_qty(f.trades) == q);
            assert(f.order.remaining == o2.remaining);
        }
    }
}

/// A trade moves its quantity from the seller's position to the buyer's: the
/// buyer's quantity goes up by it and the seller's down by it (one position
/// that is both is left with its quantity), and no other position changes.
pub proof fn trade_moves_quantity(
    m: Map<Seq<char>, PositionView>,
    t: Trade,
    market: Seq<char>,
    buyer: Seq<char>,
    seller: Seq<char>,
)
    requires
        trade_fits(m, t, market, buyer, seller),
    ensures
        ({
            let after = trade_applied(m, t, market, buyer, seller);
            let kb = position_key(buyer, market);
            let ks = position_key(seller, market);
            &&& after.contains_key(kb) && after.contains_key(ks)
            &&& kb != ks ==> after[kb].quantity == position_or_flat(m, buyer, market).quantity + t.qty
                && after[ks].quantity == position_or_flat(m, seller, market).quantity - t.qty
            &&& kb == ks ==> after[kb].quantity == position_or_flat(m, buyer, market).quantity
            &&& forall|k: Seq<char>|
                k != kb && k != ks ==> (#[trigger] after.contains_key(k) == m.contains_key(k) && (
                m.contains_key(k) ==> after[k] == m[k]))
        }),
{
}

/// Settling a trade between two different accounts of a market with two
/// different assets, when both cover what they give: the buyer pays
/// `price * qty` of the quote asset and receives `qty` of the base asset, the
/// seller the other way round, and no other account changes.
pub proof fn settlement_moves_assets(s: EngineView, t: TradeEvent)
    requires
        settle_fits(s, t),
        settle_covered(s, t),
        buyer_of(s, t) != seller_of(s, t),
        symbol_base(trade_market(s)->0) != symbol_quote(trade_market(s)->0),
    ensures
        ({
            let base = symbol_base(trade_market(s)->0);
            let quote = symbol_quote(trade_market(s)->0);
            let after = settled(s, t).accounts;
            let b = s.accounts[buyer_of(s, t)].balances;
            let sl = s.accounts[seller_of(s, t)].balances;
            let cost = t.price * t.qty;
            &&& balance_of(after[buyer_of(s, t)].balances, quote) == balance_of(b, quote) - cost
            &&& balance_of(after[buyer_of(s, t)].balances, base) == balance_of(b, base) + t.qty
            &&& balance_of(after[seller_of(s, t)].balances, base) == balance_of(sl, base) - t.qty
            &&& balance_of(after[seller_of(s, t)].balances, quote) == balance_of(sl, quote) + cost
            &&& after.dom() == s.accounts.dom()
            &&& forall|a: Seq<char>|
                a != buyer_of(s, t) && a != seller_of(s, t) && #[trigger] s.accounts.contains_key(a)
                    ==> after[a] == s.accounts[a]
        }),
{
    let after = settled(s, t).accounts;
    assert(after.dom() =~= s.accounts.dom());
}

/// The balance of an asset an account holds (0 for an unknown account).
pub open spec fn held(accounts: Map<Seq<char>, AccountView>, id: Seq<char>, asset: Seq<char>) -> int {
    if accounts.contains_key(id) {
        balance_of(accounts[id].balances, asset) as int
    } else {
        0
    }
}

/// The sum of `f` over a list of keys.
pub open spec fn sum_over(keys: Seq<Seq<char>>, f: spec_fn(Seq<char>) -> int) -> int
    decreases keys.len(),
{
    if keys.len() == 0 {
        0
    } else {
        f(keys[0]) + sum_over(keys.drop_first(), f)
    }
}

/// The total of an asset held by the listed accounts.
pub open spec fn total_over(
    ids: Seq<Seq<char>>,
    accounts: Map<Seq<char>, AccountView>,
    asset: Seq<char>,
) -> int {
    sum_over(ids, |k: Seq<char>| held(accounts, k, asset))
}

/// Two functions that agree on every key but `k1` and `k2` differ in their
/// sums over a list of distinct keys by what they differ by at those two.
proof fn lemma_sum_two_changed(
    keys: Seq<Seq<char>>,
    f: spec_fn(Seq<char>) -> int,
    g: spec_fn(Seq<char>) -> int,
    k1: Seq<char>,
    k2: Seq<char>,
)
    requires
        keys.no_duplicates(),
        forall|k: Seq<char>| k != k1 && k != k2 ==> #[trigger] f(k) == g(k),
    ensures
        sum_over(keys, g) - sum_over(keys, f) == (if keys.contains(k1) {
            g(k1) - f(k1)
        } else {
            0
        }) + (if keys.contains(k2) && k2 != k1 {
            g(k2) - f(k2)
        } else {
            0
        }),
    decreases keys.len(),
{
    if keys.len() > 0 {
        let rest = keys.drop_first();
        assert(rest.no_duplicates());
        lemma_sum_two_changed(rest, f, g, k1, k2);
        assert forall|k: Seq<char>| keys.contains(k) == (k == keys[0] || rest.contains(k)) by {
            if keys.contains(k) && k != keys[0] {
                let i = choose|i: int| 0 <= i < keys.len() && keys[i] == k;
                assert(rest[i - 1] == k);
            }
            if rest.contains(k) {
                let i = choose|i: int| 0 <= i < rest.len() && rest[i] == k;
                assert(keys[i + 1] == k);
            }
        }
        assert(!rest.contains(keys[0])) by {
            if rest.contains(keys[0]) {
                let i = choose|i: int| 0 <= i < rest.len() && rest[i] == keys[0];
                assert(keys[i + 1] == keys[0]);
            }
        }
    }
}

/// The total quantity of the listed positions (0 for one not held).
pub open spec fn quantity_over(keys: Seq<Seq<char>>, m: Map<Seq<char>, PositionView>) -> int {
    sum_over(keys, |k: Seq<char>| if m.contains_key(k) { m[k].quantity as int } else { 0 })
}

/// A trade conserves the quantity held across positions: over any list of
/// distinct position keys that holds the buyer's and the seller's, the total
/// quantity is the same afterwards (so it stays 0 from an empty store).
pub proof fn trade_conserves_quantity(
    m: Map<Seq<char>, PositionView>,
    t: Trade,
    market: Seq<char>,
    buyer: Seq<char>,
    seller: Seq<char>,
    keys: Seq<Seq<char>>,
)
    requires
        trade_fits(m, t, market, buyer, seller),
        keys.no_duplicates(),
        keys.contains(position_key(buyer, market)),
        keys.contains(position_key(seller, market)),
    ensures
        quantity_over(keys, trade_applied(m, t, market, buyer, seller)) == quantity_over(keys, m),
{
    let after = trade_applied(m, t, market, buyer, seller);
    let f = |k: Seq<char>| if m.contains_key(k) { m[k].quantity as int } else { 0 };
    let g = |k: Seq<char>| if after.contains_key(k) { after[k].quantity as int } else { 0 };
    let kb = position_key(buyer, market);
    let ks = position_key(seller, market);
    trade_moves_quantity(m, t, market, buyer, seller);
    assert forall|k: Seq<char>| k != kb && k != ks implies #[trigger] f(k) == g(k) by {
        assert(after.contains_key(k) == m.contains_key(k));
    }
    lemma_sum_two_changed(keys, f, g, kb, ks);
    assert(f(kb) == position_or_flat(m, buyer, market).quantity);
    assert(f(ks) == position_or_flat(m, seller, market).quantity);
}

/// Settling a trade conserves every asset: over any list of distinct accounts
/// that holds both parties, the total of each asset is the same afterwards (a
/// refused settlement changes nothing at all).
pub proof fn settlement_conserves_totals(
    s: EngineView,
    t: TradeEvent,
    ids: Seq<Seq<char>>,
    asset: Seq<char>,
)
    requires
        settle_fits(s, t),
        ids.no_duplicates(),
        ids.contains(buyer_of(s, t)),
        ids.contains(seller_of(s, t)),
    ensures
        total_over(ids, settled(s, t).accounts, asset) == total_over(ids, s.accounts, asset),
{
    if settle_covered(s, t) {
        let m = trade_market(s)->0;
        let base = symbol_base(m);
        let quote = symbol_quote(m);
        let buyer = buyer_of(s, t);
        let seller = seller_of(s, t);
        let after = settled(s, t).accounts;
        let cost = (t.price * t.qty) as u64;
        let a1 = buyer_settled(s.accounts, buyer, base, quote, t);
        let f = |k: Seq<char>| held(s.accounts, k, asset);
        let g = |k: Seq<char>| held(after, k, asset);
        assert forall|k: Seq<char>| k != buyer && k != seller implies #[trigger] f(k) == g(k) by {}
        lemma_sum_two_changed(ids, f, g, buyer, seller);
        let bb = s.accounts[buyer].balances;
        let sb = s.accounts[seller].balances;
        let dq: int = if asset == quote { cost as int } else { 0 };
        let db: int = if asset == base { t.qty as int } else { 0 };
        assert(held(a1, buyer, asset) == held(s.accounts, buyer, asset) - dq + db);
        if buyer == seller {
            assert(balance_of(a1[seller].balances, base) >= t.qty);
            assert(held(after, seller, asset) == held(a1, seller, asset) - db + dq);
        } else {
            assert(held(after, seller, asset) == held(s.accounts, seller, asset) - db + dq);
            assert(held(after, buyer, asset) == held(a1, buyer, asset));
        }
    }
}

/// Replaying what the engine logs of a deposit, of a withdrawal that goes
/// through, or of a placed order, on the state the operation started from,
/// gives the state the operation left.
pub proof fn replay_reproduces_logged_changes(
    s: EngineView,
    account_id: String,
    asset: String,
    amount: u64,
    o: Order,
)
    ensures
        replayed_event(s, Event::Deposit { account_id, asset, amount }) == deposited(
            s,
            account_id@,
            asset@,
            amount,
        ),
        replayed_event(s, Event::Withdraw { account_id, asset, amount }) == withdrawn(
            s,
            account_id@,
            asset@,
            amount,
        ),
        replayed_event(s, Event::OrderPlaced(o)) == after_place(s, o),
{
}

/// Accounts are independent of one another: a deposit or a withdrawal, refused
/// or not, changes no account but its own, and nothing of the engine but the
/// accounts.
pub proof fn balance_changes_stay_in_their_account(
    s: EngineView,
    id: Seq<char>,
    asset: Seq<char>,
    amount: u64,
)
    ensures
        ({
            let d = deposited(s, id, asset, amount);
            let w = withdrawn(s, id, asset, amount);
            &&& d.accounts.dom() == s.accounts.dom()
            &&& w.accounts.dom() == s.accounts.dom()
            &&& forall|a: Seq<char>|
                a != id && #[trigger] s.accounts.contains_key(a) ==> d.accounts[a] == s.accounts[a]
                    && w.accounts[a] == s.accounts[a]
            &&& d.books == s.books && d.orders == s.orders && d.index == s.index
            &&& d.positions == s.positions
            &&& w.books == s.books && w.orders == s.orders && w.index == s.index
            &&& w.positions == s.positions
        }),
{
    let d = deposited(s, id, asset, amount);
    let w = withdrawn(s, id, asset, amount);
    assert(d.accounts.dom() =~= s.accounts.dom());
    assert(w.accounts.dom() =~= s.accounts.dom());
}

/// Markets are independent of one another: placing an order changes no book
/// but that of its market, and no account or position.
pub proof fn placing_touches_one_book(s: EngineView, o: Order)
    ensures
        ({
            let p = after_place(s, o);
            &&& p.books.dom() == s.books.dom()
            &&& forall|k: Seq<char>|
                k != o.market@ && #[trigger] s.books.contains_key(k) ==> p.books[k] == s.books[k]
            &&& p.accounts == s.accounts
            &&& p.positions == s.positions
        }),
{
    let p = after_place(s, o);
    assert(p.books.dom() =~= s.books.dom());
}

/// Cancelling an order changes no book but the one that held it, and nothing
/// of the engine but that book.
pub proof fn cancelling_touches_one_book(s: EngineView, id: OrderId)
    ensures
        ({
            let c = after_cancel(s, id);
            &&& c.books.dom() == s.books.dom()
            &&& forall|k: Seq<char>|
                #[trigger] s.books.contains_key(k) && !(cancel_finds(s, id) && k == s.index[id]@)
                    ==> c.books[k] == s.books[k]
            &&& c.accounts == s.accounts && c.positions == s.positions
            &&& c.orders == s.orders && c.index == s.index
        }),
{
    let c = after_cancel(s, id);
    assert(c.books.dom() =~= s.books.dom());
}

/// A run of the engine with its log: `states[i + 1]` is what the operation
/// that logged `log[i]` made of `states[i]`, and each event was one the
/// operation could log (its arithmetic fits). Every operation of [`Engine`]
/// that hands back an event to log states that it makes such a step.
///
/// [`Engine`]: crate::trading::engine::Engine
pub open spec fn logged_run(states: Seq<EngineView>, log: Seq<Event>) -> bool {
    &&& states.len() == log.len() + 1
    &&& forall|i: int|
        0 <= i < log.len() ==> event_replays(states[i], #[trigger] log[i]) && states[i + 1]
            == replayed_event(states[i], log[i])
}

/// Replay restores the state: replaying the log of a run on the state the run
/// started from (for a fresh engine, the same markets and accounts created)
/// replays cleanly and gives back the state the run ended in: its books,
/// orders, balances and positions.
pub proof fn replay_restores_state(states: Seq<EngineView>, log: Seq<Event>)
    requires
        logged_run(states, log),
    ensures
        log_replays(states[0], log),
        replayed(states[0], log) == states.last(),
    decreases log.len(),
{
    if log.len() > 0 {
        let st = states.drop_first();
        let lg = log.drop_first();
        assert forall|i: int| 0 <= i < lg.len() implies event_replays(st[i], #[trigger] lg[i])
            && st[i + 1] == replayed_event(st[i], lg[i]) by {
            assert(lg[i] == log[i + 1]);
            assert(st[i] == states[i + 1]);
            assert(st[i + 1] == states[i + 2]);
        }
        assert(event_replays(states[0], log[0]) && states[1] == replayed_event(states[0], log[0]));
        replay_restores_state(st, lg);
    }
}

/// A level fill takes from each resting order no more than it rests with:
/// every order before the last one traded with is used up by its trade (the
/// trade's quantity is all it had left); the last one traded with either is
/// used up and leaves the level, or stays at the front with what it had left
/// minus the quantity of its trade.
pub proof fn level_fill_takes_what_rests(
    level: Seq<Order>,
    order: Order,
    price: u64,
    next_id: int,
    incoming_buys: bool,
)
    ensures
        ({
            let f = fill_level(level, order, price, next_id, order.timestamp, incoming_buys);
            let n = f.trades.len() as int;
            &&& forall|i: int| 0 <= i < n - 1 ==> #[trigger] f.trades[i].qty == level[i].remaining
            &&& n > 0 ==> f.trades[n - 1].qty <= level[n - 1].remaining
            &&& (n > 0 && f.level.len() == level.len() - n) ==> f.trades[n - 1].qty
                == level[n - 1].remaining
            &&& (n > 0 && f.level.len() == level.len() - n + 1) ==> f.level[0].remaining
                == level[n - 1].remaining - f.trades[n - 1].qty
            &&& (n > 0 && f.level.len() == level.len() - n + 1) ==> f.level[0].id == level[n - 1].id
        }),
    decreases level.len(),
{
    reveal(fill_level);
    let f = fill_level(level, order, price, next_id, order.timestamp, incoming_buys);
    if order.remaining == 0 || level.len() == 0 {
    } else {
        let resting = level[0];
        let q = if order.remaining <= resting.remaining {
            order.remaining
        } else {
            resting.remaining
        };
        let o2 = Order { remaining: (order.remaining - q) as u64, ..order };
        let r2rem = (resting.remaining - q) as u64;
        if r2rem == 0 && o2.remaining > 0 {
            let rl = level.drop_first();
            level_fill_takes_what_rests(rl, o2, price, next_id + 1, incoming_buys);
            level_fill_serves_oldest_first(rl, o2, price, next_id + 1, incoming_buys);
            let rest = fill_level(rl, o2, price, next_id + 1, order.timestamp, incoming_buys);
            let m = rest.trades.len() as int;
            assert(f.trades == seq![f.trades[0]] + rest.trades);
            assert(f.trades[0].qty == q);
            assert forall|i: int| 0 <= i < m + 1 - 1 implies #[trigger] f.trades[i].qty
                == level[i].remaining by {
                if i > 0 {
                    assert(f.trades[i] == rest.trades[i - 1]);
                    assert(rl[i - 1] == level[i]);
                }
            }
            if m > 0 {
                assert(f.trades[m] == rest.trades[m - 1]);
                assert(rl[m - 1] == level[m]);
            } else {
                assert(rest.level == rl.skip(0) || rest.level.len() == rl.len() + 1);
                assert(rl.skip(0) =~= rl);
            }
        } else {
            assert(f.trades.len() == 1);
            assert(f.trades[0].qty == q);
        }
    }
}

/// The id of the resting order in a trade: the seller when the incoming order
/// buys, the buyer when it sells.
pub open spec fn resting_side_id(t: Trade, incoming_buys: bool) -> u64 {
    if incoming_buys {
        t.sell_order_id
    } else {
        t.buy_order_id
    }
}

/// Time priority within a price level: a level fill trades with the resting
/// orders oldest first, the `i`-th trade with the `i`-th order of the level;
/// the orders behind the last one it traded with keep their places, and a last
/// order that was only partly filled stays at the front with what is left of it.
pub proof fn level_fill_serves_oldest_first(
    level: Seq<Order>,
    order: Order,
    price: u64,
    next_id: int,
    incoming_buys: bool,
)
    ensures
        ({
            let f = fill_level(level, order, price, next_id, order.timestamp, incoming_buys);
            let n = f.trades.len() as int;
            &&& n <= level.len()
            &&& forall|i: int|
                0 <= i < n ==> #[trigger] resting_side_id(f.trades[i], incoming_buys) == level[i].id
            &&& f.level == level.skip(n) || (n > 0 && f.level.len() > 0 && f.level[0].remaining > 0
                && f.level == level.skip(n - 1).update(
                0,
                Order { remaining: f.level[0].remaining, ..level[n - 1] },
            ))
        }),
    decreases level.len(),
{
    reveal(fill_level);
    let f = fill_level(level, order, price, next_id, order.timestamp, incoming_buys);
    if order.remaining == 0 || level.len() == 0 {
        assert(level.skip(0) =~= level);
    } else {
        let resting = level[0];
        let q = if order.remaining <= resting.remaining {
            order.remaining
        } else {
            resting.remaining
        };
        let o2 = Order { remaining: (order.remaining - q) as u64, ..order };
        let r2rem = (resting.remaining - q) as u64;
        if r2rem == 0 && o2.remaining > 0 {
            level_fill_serves_oldest_first(level.drop_first(), o2, price, next_id + 1, incoming_buys);
            let rest = fill_level(level.drop_first(), o2, price, next_id + 1, order.timestamp, incoming_buys);
            let m = rest.trades.len() as int;
            assert(f.trades == seq![f.trades[0]] + rest.trades);
            assert forall|i: int| 0 <= i < m + 1 implies #[trigger] resting_side_id(
                f.trades[i],
                incoming_buys,
            ) == level[i].id by {
                if i > 0 {
                    assert(f.trades[i] == rest.trades[i - 1]);
                    assert(resting_side_id(rest.trades[i - 1], incoming_buys) == level.drop_first()[i
                        - 1].id);
                }
            }
            assert(level.drop_first().skip(m) =~= level.skip(m + 1));
            if m > 0 {
                assert(level.drop_first().skip(m - 1) =~= level.skip(m));
                assert(level.drop_first()[m - 1] == level[m]);
            }
        } else {
            assert(f.trades.len() == 1);
            if r2rem == 0 {
                assert(level.drop_first() =~= level.skip(1));
            } else {
                assert(level.skip(0) =~= level);
                assert(f.level[0].remaining == r2rem);
            }
        }
    }
}

/// The log events of a list of trades.
pub open spec fn trade_log(ts: Seq<TradeEvent>) -> Seq<Event> {
    ts.map_values(|t: TradeEvent| Event::Trade(t))
}

/// Replaying logged trades settles them one after the other, and replays
/// cleanly exactly when each settles within the integer types; settling
/// changes no book, order or order index.
pub proof fn replaying_trades_settles_them(s: EngineView, ts: Seq<TradeEvent>)
    ensures
        replayed(s, trade_log(ts)) == settled_all(s, ts),
        log_replays(s, trade_log(ts)) == settle_all_fits(s, ts),
        settled_all(s, ts).books == s.books,
        settled_all(s, ts).index == s.index,
        settled_all(s, ts).orders == s.orders,
    decreases ts.len(),
{
    if ts.len() > 0 {
        assert(trade_log(ts)[0] == Event::Trade(ts[0]));
        assert(trade_log(ts).drop_first() =~= trade_log(ts.drop_first()));
        replaying_trades_settles_them(settled(s, ts[0]), ts.drop_first());
    }
}

/// Replaying what a placement logs, the order and then its trades, on the
/// state before it, places the order and settles the trades in turn.
pub proof fn replaying_a_placement(s: EngineView, o: Order, ts: Seq<TradeEvent>)
    ensures
        replayed(s, seq![Event::OrderPlaced(o)] + trade_log(ts)) == settled_all(after_place(s, o), ts),
        log_replays(s, seq![Event::OrderPlaced(o)] + trade_log(ts)) == (event_replays(
            s,
            Event::OrderPlaced(o),
        ) && settle_all_fits(after_place(s, o), ts)),
{
    let head = seq![Event::OrderPlaced(o)];
    replay_is_compositional(s, head, trade_log(ts));
    assert(head.drop_first() =~= Seq::<Event>::empty());
    assert(head[0] == Event::OrderPlaced(o));
    reveal_with_fuel(replayed, 2);
    reveal_with_fuel(log_replays, 2);
    assert(replayed(s, head) == after_place(s, o));
    assert(log_replays(s, head) == event_replays(s, Event::OrderPlaced(o)));
    replaying_trades_settles_them(after_place(s, o), ts);
}

/// A deposit to an engine's account followed by the withdrawal of the same
/// amount: the withdrawal goes through, and afterwards every balance of every
/// account is what it was before the deposit (and nothing else changed).
pub proof fn engine_deposit_then_withdraw_restores(
    s: EngineView,
    id: Seq<char>,
    asset: Seq<char>,
    amount: u64,
)
    requires
        s.accounts.contains_key(id),
        deposit_fits(s.accounts[id], asset, amount),
    ensures
        ({
            let d = deposited(s, id, asset, amount);
            let w = withdrawn(d, id, asset, amount);
            &&& withdraw_succeeds(d.accounts[id], asset, amount)
            &&& forall|a: Seq<char>, x: Seq<char>| #[trigger] held(w.accounts, a, x) == held(s.accounts, a, x)
            &&& w.accounts.dom() == s.accounts.dom()
            &&& w.books == s.books && w.orders == s.orders && w.index == s.index
            &&& w.positions == s.positions
        }),
{
    let d = deposited(s, id, asset, amount);
    let w = withdrawn(d, id, asset, amount);
    deposit_then_withdraw_restores(s.accounts[id], asset, amount);
    assert(w.accounts.dom() =~= s.accounts.dom());
}

/// The trade events a placement returns are the trades of the book's
/// insertion, one for one and field by field, ids included; so their ids are
/// the book's next ids, one after the other, and run on across placements.
pub proof fn placed_trades_are_the_books_trades(s: EngineView, o: Order)
    requires
        s.books.contains_key(o.market@),
    ensures
        ({
            let ts = placed_trades(s, o);
            let bt = trades_of_insert(s.books[o.market@], o);
            &&& ts.len() == bt.len()
            &&& forall|i: int|
                0 <= i < ts.len() ==> {
                    &&& #[trigger] ts[i].trade_id == bt[i].trade_id
                    &&& ts[i].buy_order_id == bt[i].buy_order_id
                    &&& ts[i].sell_order_id == bt[i].sell_order_id
                    &&& ts[i].price == bt[i].price
                    &&& ts[i].qty == bt[i].qty
                    &&& ts[i].timestamp == bt[i].timestamp
                }
            &&& (book_finite(s.books[o.market@]) && insert_ok(s.books[o.market@], o)) ==> forall|
                i: int,
            |
                0 <= i < ts.len() ==> #[trigger] ts[i].trade_id == s.books[o.market@].next_trade_id + i
        }),
{
    let b = s.books[o.market@];
    if book_finite(b) && insert_ok(b, o) {
        insertion_trades(b, o);
        let ts = placed_trades(s, o);
        let bt = trades_of_insert(b, o);
        assert forall|i: int| 0 <= i < ts.len() implies #[trigger] ts[i].trade_id == b.next_trade_id
            + i by {
            assert(ts[i].trade_id == bt[i].trade_id);
        }
    }
}

} // verus!
