use std::collections::BTreeMap;
use std::collections::VecDeque;
use vstd::prelude::*;

use crate::trading::market::Market;
use crate::trading::order::{Order, OrderId, Side};
use crate::trading::matching::{
    book_after_cancel, book_after_insert, cancel_spot, cancelled_from, cancelled_order, crosses,
    fill_level, holds_id, insert_ok, lemma_cancel_absent, lemma_cancel_found, lemma_fill_level,
    lemma_range_set_all, lemma_sorted_best, lemma_sweep, lemma_sweep_step, lemma_sweep_stops,
    lemma_unvisited_done, level_at, min_qty, rest_order, side_after_cancel, sweep, trade_between,
    trades_of_insert, unvisited, with_remaining,
};
use crate::trading::prices::{sorted_prices, strictly_increasing};

verus! {

broadcast use vstd::laws_cmp::group_laws_cmp;

/// A fill between an incoming order and a resting one.
#[derive(Debug, Clone, Copy)]
pub struct Trade {
    pub trade_id: u64,
    pub buy_order_id: OrderId,
    pub sell_order_id: OrderId,
    pub price: u64,
    pub qty: u64,
    pub timestamp: i64,
}

/// The orders resting at one price, oldest first.
#[derive(Debug)]
struct PriceLevel {
    orders: VecDeque<Order>,
}

impl PriceLevel {
    fn new() -> (l: Self)
        ensures
            l.orders@ == Seq::<Order>::empty(),
    {
        PriceLevel { orders: VecDeque::new() }
    }
}

/// A limit order book for one market. Bids and asks are kept per price level;
/// within a level, orders are served oldest first.
#[derive(Debug)]
pub struct OrderBook {
    pub market: Market,
    buys: BTreeMap<u64, PriceLevel>,
    sells: BTreeMap<u64, PriceLevel>,
    next_trade_id: u64,
}

/// What a book holds: the resting orders of each side by price, and the id the
/// next trade will get.
pub struct BookView {
    pub market: Market,
    pub buys: Map<u64, Seq<Order>>,
    pub sells: Map<u64, Seq<Order>>,
    pub next_trade_id: u64,
}

/// The orders of each level of one side.
#[verifier::opaque]
spec fn side_view(m: Map<u64, PriceLevel>) -> Map<u64, Seq<Order>> {
    Map::new(|p: u64| m.contains_key(p), |p: u64| m[p].orders@)
}

proof fn lemma_side_view(m: Map<u64, PriceLevel>)
    ensures
        side_view(m).dom() == m.dom(),
        forall|p: u64| #[trigger] m.contains_key(p) ==> side_view(m)[p] == m[p].orders@,
        forall|p: u64| side_view(m.remove(p)) == #[trigger] side_view(m).remove(p),
        forall|p: u64, l: PriceLevel|
            side_view(m.insert(p, l)) == #[trigger] side_view(m).insert(p, l.orders@),
{
    reveal(side_view);
    assert(side_view(m).dom() =~= m.dom());
    assert forall|p: u64| side_view(m.remove(p)) == #[trigger] side_view(m).remove(p) by {
        assert(side_view(m.remove(p)) =~= side_view(m).remove(p));
    }
    assert forall|p: u64, l: PriceLevel|
        side_view(m.insert(p, l)) == #[trigger] side_view(m).insert(p, l.orders@) by {
        assert(side_view(m.insert(p, l)) =~= side_view(m).insert(p, l.orders@));
    }
}

impl View for OrderBook {
    type V = BookView;

    closed spec fn view(&self) -> BookView {
        BookView {
            market: self.market,
            buys: side_view(self.buys@),
            sells: side_view(self.sells@),
            next_trade_id: self.next_trade_id,
        }
    }
}

impl OrderBook {
    /// Each side of a book has finitely many prices.
    pub proof fn lemma_sides_finite(&self)
        ensures
            self@.buys.dom().finite(),
            self@.sells.dom().finite(),
    {
        lemma_side_view(self.buys@);
        lemma_side_view(self.sells@);
    }

    /// An empty book for the market; trade ids start at 1.
    pub fn new(market: Market) -> (b: Self)
        ensures
            b@.market == market,
            b@.buys == Map::<u64, Seq<Order>>::empty(),
            b@.sells == Map::<u64, Seq<Order>>::empty(),
            b@.next_trade_id == 1,
    {
        let b = OrderBook { market, buys: BTreeMap::new(), sells: BTreeMap::new(), next_trade_id: 1 };
        proof {
            lemma_side_view(b.buys@);
            lemma_side_view(b.sells@);
        }
        assert(b@.buys =~= Map::<u64, Seq<Order>>::empty());
        assert(b@.sells =~= Map::<u64, Seq<Order>>::empty());
        b
    }

    /// Matches `order` against the resting orders of `level`, oldest first,
    /// recording each fill in `trades`.
    fn process_match_level(
        level: &mut PriceLevel,
        order: &mut Order,
        price: u64,
        next_trade_id: &mut u64,
        trades: &mut Vec<Trade>,
        timestamp: i64,
        is_buy: bool,
    )
        requires
            fill_level(
                old(level).orders@,
                *old(order),
                price,
                *old(next_trade_id) as int,
                timestamp,
                is_buy,
            ).next_id <= u64::MAX,
        ensures
            ({
                let f = fill_level(
                    old(level).orders@,
                    *old(order),
                    price,
                    *old(next_trade_id) as int,
                    timestamp,
                    is_buy,
                );
                &&& final(level).orders@ == f.level
                &&& *final(order) == f.order
                &&& *final(next_trade_id) == f.next_id
                &&& final(trades)@ == old(trades)@ + f.trades
            }),
    {
        let ghost f0 = fill_level(
            level.orders@,
            *order,
            price,
            *next_trade_id as int,
            timestamp,
            is_buy,
        );
        let ghost trades0 = trades@;
        loop
            invariant
                ({
                    let f = fill_level(
                        level.orders@,
                        *order,
                        price,
                        *next_trade_id as int,
                        timestamp,
                        is_buy,
                    );
                    &&& f.level == f0.level
                    &&& f.order == f0.order
                    &&& f.next_id == f0.next_id
                    &&& trades@ + f.trades == trades0 + f0.trades
                }),
                f0.next_id <= u64::MAX,
                f0 == fill_level(
                    old(level).orders@,
                    *old(order),
                    price,
                    *old(next_trade_id) as int,
                    timestamp,
                    is_buy,
                ),
                trades0 == old(trades)@,
            decreases level.orders@.len(),
        {
            if order.remaining == 0 || level.orders.len() == 0 {
                proof {
                    reveal(fill_level);
                }
                assert(trades@ =~= trades0 + f0.trades);
                return;
            }
            let ghost lv = level.orders@;
            let ghost o = *order;
            let ghost n = *next_trade_id as int;
            proof {
                reveal(fill_level);
                lemma_fill_level(lv, o, price, n, timestamp, is_buy);
                let q = min_qty(o.remaining, lv[0].remaining);
                let rest = with_remaining(o, (o.remaining - q) as u64);
                lemma_fill_level(lv.drop_first(), rest, price, n + 1, timestamp, is_buy);
            }
            let mut opp = level.orders.pop_front().unwrap();
            let trade_qty = if order.remaining <= opp.remaining {
                order.remaining
            } else {
                opp.remaining
            };
            let trade = if is_buy {
                Trade {
                    trade_id: *next_trade_id,
                    buy_order_id: order.id,
                    sell_order_id: opp.id,
                    price,
                    qty: trade_qty,
                    timestamp,
                }
            } else {
                Trade {
                    trade_id: *next_trade_id,
                    buy_order_id: opp.id,
                    sell_order_id: order.id,
                    price,
                    qty: trade_qty,
                    timestamp,
                }
            };
            assert(trade == trade_between(n, o, lv[0], price, trade_qty, timestamp, is_buy));
            *next_trade_id = *next_trade_id + 1;
            trades.push(trade);
            order.remaining = order.remaining - trade_qty;
            opp.remaining = opp.remaining - trade_qty;
            if opp.remaining != 0 {
                level.orders.push_front(opp);
            }
            if order.remaining == 0 {
                assert(level.orders@ == f0.level);
                assert(trades@ =~= trades0 + f0.trades);
                return;
            }
            let ghost f = fill_level(
                level.orders@,
                *order,
                price,
                *next_trade_id as int,
                timestamp,
                is_buy,
            );
            assert(trades@ + f.trades =~= trades0 + f0.trades);
        }
    }

    /// Fills `order` against the level at `price` of one side; the level leaves
    /// the side when it is used up.
    fn match_at(
        side: &mut BTreeMap<u64, PriceLevel>,
        price: u64,
        order: &mut Order,
        next_trade_id: &mut u64,
        trades: &mut Vec<Trade>,
        is_buy: bool,
    )
        requires
            side_view(old(side)@).contains_key(price),
            fill_level(
                side_view(old(side)@)[price],
                *old(order),
                price,
                *old(next_trade_id) as int,
                old(order).timestamp,
                is_buy,
            ).next_id <= u64::MAX,
        ensures
            ({
                let f = fill_level(
                    side_view(old(side)@)[price],
                    *old(order),
                    price,
                    *old(next_trade_id) as int,
                    old(order).timestamp,
                    is_buy,
                );
                &&& side_view(final(side)@) == if f.level.len() == 0 {
                    side_view(old(side)@).remove(price)
                } else {
                    side_view(old(side)@).insert(price, f.level)
                }
                &&& *final(order) == f.order
                &&& *final(next_trade_id) == f.next_id
                &&& final(trades)@ == old(trades)@ + f.trades
            }),
    {
        proof {
            lemma_side_view(side@);
        }
        let timestamp = order.timestamp;
        let mut level = side.remove(&price).unwrap();
        proof {
            lemma_side_view(side@);
        }
        Self::process_match_level(&mut level, order, price, next_trade_id, trades, timestamp, is_buy);
        let ghost before = side@;
        proof {
            lemma_side_view(before);
        }
        if level.orders.len() > 0 {
            let ghost lv = level;
            side.insert(price, level);
            assert(side@ == before.insert(price, lv));
            assert(side_view(before.insert(price, lv)) == side_view(before).insert(price, lv.orders@));
            assert(side_view(before) == side_view(old(side)@).remove(price));
            assert(side_view(side@) =~= side_view(old(side)@).insert(price, level.orders@));
        } else {
            assert(side_view(side@) =~= side_view(old(side)@).remove(price));
        }
    }

    /// Matches `order` against one side, best price first, while it crosses.
    fn sweep_side(
        side: &mut BTreeMap<u64, PriceLevel>,
        order: &mut Order,
        next_trade_id: &mut u64,
        trades: &mut Vec<Trade>,
        is_buy: bool,
    )
        requires
            sweep(side_view(old(side)@), *old(order), *old(next_trade_id) as int, is_buy).next_id
                <= u64::MAX,
        ensures
            ({
                let s = sweep(side_view(old(side)@), *old(order), *old(next_trade_id) as int, is_buy);
                &&& side_view(final(side)@) == s.side
                &&& *final(order) == s.order
                &&& *final(next_trade_id) == s.next_id
                &&& final(trades)@ == old(trades)@ + s.trades
            }),
    {
        let ghost s0 = sweep(side_view(side@), *order, *next_trade_id as int, is_buy);
        let ghost trades0 = trades@;
        let prices = sorted_prices(side);
        let n = prices.len();
        let mut k: usize = 0;
        proof {
            lemma_range_set_all(prices@);
            lemma_side_view(side@);
        }
        loop
            invariant
                n == prices@.len(),
                k <= n,
                strictly_increasing(prices@),
                order.remaining > 0 ==> side_view(side@).dom() == unvisited(prices@, k as int, is_buy),
                side_view(side@).dom().finite(),
                ({
                    let s = sweep(side_view(side@), *order, *next_trade_id as int, is_buy);
                    &&& s.side == s0.side
                    &&& s.order == s0.order
                    &&& s.next_id == s0.next_id
                    &&& trades@ + s.trades == trades0 + s0.trades
                }),
                s0.next_id <= u64::MAX,
                s0 == sweep(side_view(old(side)@), *old(order), *old(next_trade_id) as int, is_buy),
                trades0 == old(trades)@,
            decreases n - k,
        {
            let ghost cur = side_view(side@);
            let ghost o = *order;
            let ghost nid = *next_trade_id as int;
            if k >= n || order.remaining == 0 {
                proof {
                    if order.remaining > 0 {
                        lemma_unvisited_done(prices@, is_buy);
                    }
                    lemma_sweep_stops(cur, o, nid, is_buy);
                }
                assert(trades@ =~= trades0 + s0.trades);
                return;
            }
            let idx = if is_buy {
                k
            } else {
                n - 1 - k
            };
            let price = prices[idx];
            proof {
                lemma_sorted_best(prices@, k as int, is_buy);
            }
            let crossing = if is_buy {
                price <= order.price
            } else {
                price >= order.price
            };
            if !crossing {
                proof {
                    lemma_sweep_stops(cur, o, nid, is_buy);
                }
                assert(trades@ =~= trades0 + s0.trades);
                return;
            }
            proof {
                lemma_sweep_step(cur, o, nid, is_buy, price);
            }
            Self::match_at(side, price, order, next_trade_id, trades, is_buy);
            proof {
                let f = fill_level(cur[price], o, price, nid, o.timestamp, is_buy);
                if f.level.len() == 0 {
                    let r = sweep(cur.remove(price), f.order, f.next_id, is_buy);
                    assert(trades@ + r.trades =~= trades0 + s0.trades);
                } else {
                    lemma_sweep_stops(cur.insert(price, f.level), f.order, f.next_id, is_buy);
                    assert(trades@ =~= trades0 + s0.trades);
                }
            }
            k = k + 1;
        }
    }

    /// Puts an order at the back of the level at its price.
    fn rest_in(side: &mut BTreeMap<u64, PriceLevel>, order: Order)
        requires
            order.remaining > 0,
        ensures
            side_view(final(side)@) == rest_order(side_view(old(side)@), order),
    {
        let price = order.price;
        let ghost cur = side_view(side@);
        proof {
            lemma_side_view(side@);
        }
        let mut level = match side.remove(&price) {
            Some(l) => l,
            None => PriceLevel::new(),
        };
        assert(level.orders@ == level_at(cur, price));
        level.orders.push_back(order);
        let ghost removed = side@;
        let ghost lv = level;
        side.insert(price, level);
        proof {
            lemma_side_view(removed);
            assert(side@ == removed.insert(price, lv));
            assert(side_view(removed.insert(price, lv)) == side_view(removed).insert(price, lv.orders@));
            assert(side_view(removed) == cur.remove(price));
        }
        assert(side_view(side@) =~= rest_order(cur, order));
    }

    /// Matches the order against the opposite side, best price first and oldest
    /// first within a price, then rests what is left of it on its own side.
    /// Returns the trades in the order they happened.
    pub fn insert_order(&mut self, order: Order) -> (trades: Vec<Trade>)
        requires
            insert_ok(old(self)@, order),
        ensures
            final(self)@ == book_after_insert(old(self)@, order),
            trades@ == trades_of_insert(old(self)@, order),
    {
        let mut trades: Vec<Trade> = Vec::new();
        let mut order = order;
        let ghost o0 = order;
        match order.side {
            Side::Buy => {
                proof {
                    lemma_sweep(side_view(self.sells@), o0, self.next_trade_id as int, true);
                }
                Self::sweep_side(&mut self.sells, &mut order, &mut self.next_trade_id, &mut trades, true);
                if order.remaining > 0 {
                    Self::rest_in(&mut self.buys, order);
                }
            },
            Side::Sell => {
                proof {
                    lemma_sweep(side_view(self.buys@), o0, self.next_trade_id as int, false);
                }
                Self::sweep_side(&mut self.buys, &mut order, &mut self.next_trade_id, &mut trades, false);
                if order.remaining > 0 {
                    Self::rest_in(&mut self.sells, order);
                }
            },
        }
        assert(trades@ =~= trades_of_insert(old(self)@, o0));
        trades
    }

    /// Takes the order with the id out of the book: the first one found among
    /// the bids (lowest price first, oldest first within a price), else among the
    /// asks. Its level stays in the book even if it is left empty.
    pub fn cancel_order(&mut self, order_id: OrderId) -> (r: Option<Order>)
        ensures
            final(self)@ == book_after_cancel(old(self)@, order_id),
            r == cancelled_order(old(self)@, order_id),
    {
        let ghost b0 = self@;
        let found = Self::find_and_remove_order(&mut self.buys, order_id);
        match found {
            Some(removed) => {
                assert(self@ == book_after_cancel(b0, order_id));
                Some(removed)
            },
            None => {
                let r = Self::find_and_remove_order(&mut self.sells, order_id);
                assert(self@ == book_after_cancel(b0, order_id));
                r
            },
        }
    }

    /// Whether the book holds an order with the id, so that a cancel would
    /// take one out.
    pub fn holds_order(&self, order_id: OrderId) -> (r: bool)
        ensures
            r == (cancelled_order(self@, order_id) is Some),
    {
        Self::side_holds(&self.buys, order_id) || Self::side_holds(&self.sells, order_id)
    }

    /// Whether some level of the side holds an order with the id.
    fn side_holds(book: &BTreeMap<u64, PriceLevel>, order_id: OrderId) -> (r: bool)
        ensures
            r == (cancel_spot(side_view(book@), order_id) is Some),
    {
        let ghost sv = side_view(book@);
        proof {
            lemma_side_view(book@);
        }
        let prices = sorted_prices(book);
        let mut i: usize = 0;
        while i < prices.len()
            invariant
                i <= prices@.len(),
                sv == side_view(book@),
                strictly_increasing(prices@),
                prices@.to_set() == sv.dom(),
                forall|m: int| 0 <= m < i ==> !holds_id(#[trigger] sv[prices@[m]], order_id),
            decreases prices@.len() - i,
        {
            let price = prices[i];
            proof {
                lemma_side_view(book@);
                assert(prices@.contains(price));
                assert(prices@.to_set().contains(price));
            }
            let level = book.get(&price).unwrap();
            let mut j: usize = 0;
            while j < level.orders.len()
                invariant
                    j <= level.orders@.len(),
                    level.orders@ == sv[price],
                    forall|m: int| 0 <= m < j ==> level.orders@[m].id != order_id,
                    i < prices@.len(),
                    price == prices@[i as int],
                    sv == side_view(book@),
                    strictly_increasing(prices@),
                    prices@.to_set() == sv.dom(),
                    sv.contains_key(price),
                    forall|m: int| 0 <= m < i ==> !holds_id(#[trigger] sv[prices@[m]], order_id),
                decreases level.orders@.len() - j,
            {
                if level.orders[j].id == order_id {
                    proof {
                        lemma_cancel_found(sv, prices@, i as int, j as int, order_id);
                    }
                    return true;
                }
                j = j + 1;
            }
            assert(!holds_id(sv[price], order_id));
            i = i + 1;
        }
        proof {
            lemma_cancel_absent(sv, prices@, order_id);
        }
        false
    }

    /// Takes the first order with the id out of one side, searching the levels in
    /// increasing price order.
    fn find_and_remove_order(book: &mut BTreeMap<u64, PriceLevel>, order_id: OrderId) -> (r:
        Option<Order>)
        ensures
            side_view(final(book)@) == side_after_cancel(side_view(old(book)@), order_id),
            r == cancelled_from(side_view(old(book)@), order_id),
            r is Some <==> cancel_spot(side_view(old(book)@), order_id) is Some,
    {
        let ghost sv = side_view(book@);
        proof {
            lemma_side_view(book@);
        }
        let prices = sorted_prices(book);
        let mut i: usize = 0;
        while i < prices.len()
            invariant
                i <= prices@.len(),
                sv == side_view(book@),
                book@ == old(book)@,
                strictly_increasing(prices@),
                prices@.to_set() == sv.dom(),
                forall|m: int| 0 <= m < i ==> !holds_id(#[trigger] sv[prices@[m]], order_id),
            decreases prices@.len() - i,
        {
            let price = prices[i];
            proof {
                lemma_side_view(book@);
                assert(prices@.contains(price));
                assert(prices@.to_set().contains(price));
            }
            let level = book.get(&price).unwrap();
            let mut j: usize = 0;
            while j < level.orders.len()
                invariant
                    j <= level.orders@.len(),
                    level.orders@ == sv[price],
                    forall|m: int| 0 <= m < j ==> level.orders@[m].id != order_id,
                    i < prices@.len(),
                    price == prices@[i as int],
                    sv == side_view(book@),
                    book@ == old(book)@,
                    strictly_increasing(prices@),
                    prices@.to_set() == sv.dom(),
                    sv.contains_key(price),
                    book@.contains_key(price),
                    forall|m: int| 0 <= m < i ==> !holds_id(#[trigger] sv[prices@[m]], order_id),
                decreases level.orders@.len() - j,
            {
                if level.orders[j].id == order_id {
                    proof {
                        lemma_cancel_found(sv, prices@, i as int, j as int, order_id);
                    }
                    let ghost full = book@;
                    proof {
                        lemma_side_view(full);
                    }
                    let mut owned = book.remove(&price).unwrap();
                    assert(owned.orders@ == sv[price]);
                    let removed = owned.orders.remove(j).unwrap();
                    let ghost before = book@;
                    let ghost lv = owned;
                    book.insert(price, owned);
                    proof {
                        lemma_side_view(before);
                        assert(side_view(before.insert(price, lv)) == side_view(before).insert(
                            price,
                            lv.orders@,
                        ));
                        assert(side_view(before) == sv.remove(price));
                        assert(side_view(book@) =~= side_after_cancel(sv, order_id));
                    }
                    return Some(removed);
                }
                j = j + 1;
            }
            assert(!holds_id(sv[price], order_id));
            i = i + 1;
        }
        proof {
            lemma_cancel_absent(sv, prices@, order_id);
        }
        None
    }

    /// Runs the fills of one level without changing it: the unfilled quantity
    /// left, whether the level is used up, and the next trade id afterwards;
    /// `None` when the trade ids would pass `u64::MAX`.
    fn fill_dry_run(
        level: &PriceLevel,
        order: &Order,
        price: u64,
        next_trade_id: u64,
        is_buy: bool,
    ) -> (r: Option<(u64, bool, u64)>)
        ensures
            ({
                let f = fill_level(
                    level.orders@,
                    *order,
                    price,
                    next_trade_id as int,
                    order.timestamp,
                    is_buy,
                );
                match r {
                    None => f.next_id > u64::MAX,
                    Some((rem, emptied, id)) => {
                        &&& f.next_id <= u64::MAX
                        &&& id == f.next_id
                        &&& rem == f.order.remaining
                        &&& emptied == (f.level.len() == 0)
                    },
                }
            }),
    {
        let ghost lv = level.orders@;
        let ghost f0 = fill_level(lv, *order, price, next_trade_id as int, order.timestamp, is_buy);
        let n = level.orders.len();
        let mut j: usize = 0;
        let mut rem: u64 = order.remaining;
        let mut id: u64 = next_trade_id;
        assert(lv.skip(0) =~= lv);
        assert(with_remaining(*order, rem) == *order);
        loop
            invariant
                n == lv.len(),
                lv == level.orders@,
                j <= n,
                f0 == fill_level(lv, *order, price, next_trade_id as int, order.timestamp, is_buy),
                ({
                    let f = fill_level(
                        lv.skip(j as int),
                        with_remaining(*order, rem),
                        price,
                        id as int,
                        order.timestamp,
                        is_buy,
                    );
                    &&& f.next_id == f0.next_id
                    &&& f.order.remaining == f0.order.remaining
                    &&& (f.level.len() == 0) == (f0.level.len() == 0)
                }),
            decreases n - j,
        {
            let ghost o = with_remaining(*order, rem);
            let ghost sk = lv.skip(j as int);
            if rem == 0 || j == n {
                assert(fill_level(sk, o, price, id as int, order.timestamp, is_buy).level == sk) by {
                    reveal(fill_level);
                }
                assert(fill_level(sk, o, price, id as int, order.timestamp, is_buy).next_id == id) by {
                    reveal(fill_level);
                }
                assert(fill_level(sk, o, price, id as int, order.timestamp, is_buy).order == o) by {
                    reveal(fill_level);
                }
                return Some((rem, j == n, id));
            }
            let resting_remaining = level.orders[j].remaining;
            let q = if rem <= resting_remaining {
                rem
            } else {
                resting_remaining
            };
            proof {
                reveal(fill_level);
                assert(sk[0] == lv[j as int]);
                lemma_fill_level(
                    sk.drop_first(),
                    with_remaining(o, (rem - q) as u64),
                    price,
                    id + 1,
                    order.timestamp,
                    is_buy,
                );
                assert(sk.drop_first() =~= lv.skip(j + 1));
            }
            if id == u64::MAX {
                return None;
            }
            id = id + 1;
            if resting_remaining - q == 0 && rem - q > 0 {
                rem = rem - q;
                assert(with_remaining(o, rem) == with_remaining(*order, rem));
                j = j + 1;
            } else {
                let emptied = resting_remaining - q == 0 && j + 1 == n;
                return Some((rem - q, emptied, id));
            }
        }
    }

    /// Whether the trade ids a sweep hands out stay within `u64`, found by
    /// running the sweep without changing the side.
    fn sweep_dry_run(
        side: &BTreeMap<u64, PriceLevel>,
        order: &Order,
        next_trade_id: u64,
        is_buy: bool,
    ) -> (r: bool)
        ensures
            r == (sweep(side_view(side@), *order, next_trade_id as int, is_buy).next_id <= u64::MAX),
    {
        let ghost orig = side_view(side@);
        let ghost s0 = sweep(orig, *order, next_trade_id as int, is_buy);
        let ghost mut cur = orig;
        let prices = sorted_prices(side);
        let n = prices.len();
        let mut k: usize = 0;
        let mut rem: u64 = order.remaining;
        let mut id: u64 = next_trade_id;
        proof {
            lemma_range_set_all(prices@);
            lemma_side_view(side@);
            assert(with_remaining(*order, rem) == *order);
        }
        loop
            invariant
                n == prices@.len(),
                k <= n,
                strictly_increasing(prices@),
                orig == side_view(side@),
                s0 == sweep(orig, *order, next_trade_id as int, is_buy),
                cur.dom().finite(),
                rem > 0 ==> cur.dom() == unvisited(prices@, k as int, is_buy),
                forall|p: u64| #[trigger] cur.contains_key(p) ==> orig.contains_key(p) && cur[p] == orig[p],
                sweep(cur, with_remaining(*order, rem), id as int, is_buy).next_id == s0.next_id,
            decreases n - k,
        {
            let ghost o = with_remaining(*order, rem);
            if k >= n || rem == 0 {
                proof {
                    if rem > 0 {
                        lemma_unvisited_done(prices@, is_buy);
                    }
                    lemma_sweep_stops(cur, o, id as int, is_buy);
                }
                return true;
            }
            let idx = if is_buy {
                k
            } else {
                n - 1 - k
            };
            let price = prices[idx];
            proof {
                lemma_sorted_best(prices@, k as int, is_buy);
            }
            let crossing = if is_buy {
                price <= order.price
            } else {
                price >= order.price
            };
            if !crossing {
                proof {
                    lemma_sweep_stops(cur, o, id as int, is_buy);
                }
                return true;
            }
            proof {
                lemma_sweep_step(cur, o, id as int, is_buy, price);
                lemma_side_view(side@);
            }
            let level = side.get(&price).unwrap();
            let probe = Order {
                id: order.id,
                account: order.account.clone(),
                market: order.market.clone(),
                side: order.side,
                order_type: order.order_type,
                price: order.price,
                qty: order.qty,
                remaining: rem,
                timestamp: order.timestamp,
            };
            assert(probe == o);
            match Self::fill_dry_run(level, &probe, price, id, is_buy) {
                None => {
                    return false;
                },
                Some((rem2, emptied, id2)) => {
                    if !emptied {
                        return true;
                    }
                    proof {
                        let f = fill_level(cur[price], o, price, id as int, o.timestamp, is_buy);
                        lemma_fill_level(cur[price], o, price, id as int, o.timestamp, is_buy);
                        assert(f.order == with_remaining(*order, rem2));
                        cur = cur.remove(price);
                    }
                    rem = rem2;
                    id = id2;
                    k = k + 1;
                },
            }
        }
    }

    /// Whether the trade ids that inserting the order hands out stay within
    /// `u64`, which [`OrderBook::insert_order`] needs.
    pub fn can_insert(&self, order: &Order) -> (r: bool)
        ensures
            r == insert_ok(self@, *order),
    {
        match order.side {
            Side::Buy => Self::sweep_dry_run(&self.sells, order, self.next_trade_id, true),
            Side::Sell => Self::sweep_dry_run(&self.buys, order, self.next_trade_id, false),
        }
    }
}

} // verus!
