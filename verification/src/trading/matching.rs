use vstd::prelude::*;

use crate::trading::order::{Order, OrderId, Side};
use crate::trading::orderbook::{BookView, Trade};
use crate::trading::prices::strictly_increasing;

verus! {

/// The trade of `qty` at `price` between an incoming and a resting order.
pub open spec fn trade_between(
    id: int,
    incoming: Order,
    resting: Order,
    price: u64,
    qty: u64,
    ts: i64,
    incoming_buys: bool,
) -> Trade {
    if incoming_buys {
        Trade {
            trade_id: id as u64,
            buy_order_id: incoming.id,
            sell_order_id: resting.id,
            price,
            qty,
            timestamp: ts,
        }
    } else {
        Trade {
            trade_id: id as u64,
            buy_order_id: resting.id,
            sell_order_id: incoming.id,
            price,
            qty,
            timestamp: ts,
        }
    }
}

/// The order with a different unfilled quantity.
pub open spec fn with_remaining(o: Order, remaining: u64) -> Order {
    Order { remaining, ..o }
}

/// The smaller of two quantities.
pub open spec fn min_qty(a: u64, b: u64) -> u64 {
    if a <= b {
        a
    } else {
        b
    }
}

/// The outcome of matching an order against one price level.
pub struct LevelFill {
    pub level: Seq<Order>,
    pub order: Order,
    pub next_id: int,
    pub trades: Seq<Trade>,
}

/// Matches `order` against the resting orders of one level, oldest first, until
/// either the order or the level is used up. Each fill is a trade at the level's
/// price with the next trade id; a resting order that is used up leaves the level.
#[verifier::opaque]
pub open spec fn fill_level(
    level: Seq<Order>,
    order: Order,
    price: u64,
    next_id: int,
    ts: i64,
    incoming_buys: bool,
) -> LevelFill
    decreases level.len(),
{
    if order.remaining == 0 || level.len() == 0 {
        LevelFill { level, order, next_id, trades: Seq::empty() }
    } else {
        let resting = level[0];
        let q = min_qty(order.remaining, resting.remaining);
        let t = trade_between(next_id, order, resting, price, q, ts, incoming_buys);
        let o2 = with_remaining(order, (order.remaining - q) as u64);
        let r2 = with_remaining(resting, (resting.remaining - q) as u64);
        if r2.remaining == 0 && o2.remaining > 0 {
            let rest = fill_level(level.drop_first(), o2, price, next_id + 1, ts, incoming_buys);
            LevelFill {
                level: rest.level,
                order: rest.order,
                next_id: rest.next_id,
                trades: seq![t] + rest.trades,
            }
        } else {
            LevelFill {
                level: if r2.remaining == 0 {
                    level.drop_first()
                } else {
                    level.update(0, r2)
                },
                order: o2,
                next_id: next_id + 1,
                trades: seq![t],
            }
        }
    }
}

/// Each trade of a level fill takes the next id; a level that is left
/// nonempty means the incoming order was used up; only the unfilled quantity of
/// the incoming order changes, and it only goes down.
pub proof fn lemma_fill_level(
    level: Seq<Order>,
    order: Order,
    price: u64,
    next_id: int,
    ts: i64,
    incoming_buys: bool,
)
    ensures
        fill_level(level, order, price, next_id, ts, incoming_buys).next_id == next_id + fill_level(
            level,
            order,
            price,
            next_id,
            ts,
            incoming_buys,
        ).trades.len(),
        fill_level(level, order, price, next_id, ts, incoming_buys).level.len() > 0
            ==> fill_level(level, order, price, next_id, ts, incoming_buys).order.remaining == 0,
        fill_level(level, order, price, next_id, ts, incoming_buys).order == with_remaining(
            order,
            fill_level(level, order, price, next_id, ts, incoming_buys).order.remaining,
        ),
        fill_level(level, order, price, next_id, ts, incoming_buys).order.remaining
            <= order.remaining,
    decreases level.len(),
{
    reveal(fill_level);
    if order.remaining == 0 || level.len() == 0 {
    } else {
        let resting = level[0];
        let q = min_qty(order.remaining, resting.remaining);
        let o2 = with_remaining(order, (order.remaining - q) as u64);
        let r2 = with_remaining(resting, (resting.remaining - q) as u64);
        if r2.remaining == 0 && o2.remaining > 0 {
            lemma_fill_level(level.drop_first(), o2, price, next_id + 1, ts, incoming_buys);
        }
    }
}

/// Whether a resting price is good enough for an incoming order with the given limit.
pub open spec fn crosses(price: u64, limit: u64, incoming_buys: bool) -> bool {
    if incoming_buys {
        price <= limit
    } else {
        price >= limit
    }
}

/// The best price of the side an incoming order meets: the lowest ask for a buy,
/// the highest bid for a sell.
pub open spec fn best_price(s: Set<u64>, incoming_buys: bool) -> u64 {
    if incoming_buys {
        choose|p: u64| s.contains(p) && forall|q: u64| s.contains(q) ==> p <= q
    } else {
        choose|p: u64| s.contains(p) && forall|q: u64| s.contains(q) ==> q <= p
    }
}

/// A nonempty finite set of prices has a best price, and it is in the set.
pub proof fn lemma_best_price(s: Set<u64>, incoming_buys: bool)
    requires
        s.finite(),
        s.len() > 0,
    ensures
        s.contains(best_price(s, incoming_buys)),
        forall|q: u64|
            s.contains(q) ==> crosses(best_price(s, incoming_buys), q, incoming_buys),
    decreases s.len(),
{
    let x = s.choose();
    let r = s.remove(x);
    if r.len() == 0 {
        assert forall|q: u64| s.contains(q) implies q == x by {
            if q != x {
                assert(r.contains(q));
            }
        }
        if incoming_buys {
            assert(s.contains(x) && forall|q: u64| s.contains(q) ==> x <= q);
        } else {
            assert(s.contains(x) && forall|q: u64| s.contains(q) ==> q <= x);
        }
    } else {
        lemma_best_price(r, incoming_buys);
        let m = best_price(r, incoming_buys);
        if incoming_buys {
            let w = if x < m {
                x
            } else {
                m
            };
            assert(s.contains(w) && forall|q: u64| s.contains(q) ==> w <= q) by {
                assert forall|q: u64| s.contains(q) implies w <= q by {
                    if q != x {
                        assert(r.contains(q));
                    }
                }
            }
        } else {
            let w = if x > m {
                x
            } else {
                m
            };
            assert(s.contains(w) && forall|q: u64| s.contains(q) ==> q <= w) by {
                assert forall|q: u64| s.contains(q) implies q <= w by {
                    if q != x {
                        assert(r.contains(q));
                    }
                }
            }
        }
    }
}

/// The outcome of sweeping one side of the book with an incoming order.
pub struct SideSweep {
    pub side: Map<u64, Seq<Order>>,
    pub order: Order,
    pub next_id: int,
    pub trades: Seq<Trade>,
}

/// Matches `order` against one side of the book, best price first, as long as
/// the order has quantity left and the best price crosses its limit. Levels that
/// are used up leave the side.
#[verifier::opaque]
pub open spec fn sweep(
    side: Map<u64, Seq<Order>>,
    order: Order,
    next_id: int,
    incoming_buys: bool,
) -> SideSweep
    decreases side.dom().len(),
{
    if order.remaining == 0 || !side.dom().finite() || side.dom().len() == 0 {
        SideSweep { side, order, next_id, trades: Seq::empty() }
    } else {
        let p = best_price(side.dom(), incoming_buys);
        if !crosses(p, order.price, incoming_buys) {
            SideSweep { side, order, next_id, trades: Seq::empty() }
        } else {
            let f = fill_level(side[p], order, p, next_id, order.timestamp, incoming_buys);
            if f.level.len() == 0 {
                proof {
                    lemma_best_price(side.dom(), incoming_buys);
                }
                let r = sweep(side.remove(p), f.order, f.next_id, incoming_buys);
                SideSweep {
                    side: r.side,
                    order: r.order,
                    next_id: r.next_id,
                    trades: f.trades + r.trades,
                }
            } else {
                SideSweep {
                    side: side.insert(p, f.level),
                    order: f.order,
                    next_id: f.next_id,
                    trades: f.trades,
                }
            }
        }
    }
}

/// Each trade of a sweep takes the next id, and only the unfilled quantity of
/// the incoming order changes.
pub proof fn lemma_sweep(side: Map<u64, Seq<Order>>, order: Order, next_id: int, incoming_buys: bool)
    ensures
        sweep(side, order, next_id, incoming_buys).next_id == next_id + sweep(
            side,
            order,
            next_id,
            incoming_buys,
        ).trades.len(),
        sweep(side, order, next_id, incoming_buys).order == with_remaining(
            order,
            sweep(side, order, next_id, incoming_buys).order.remaining,
        ),
        sweep(side, order, next_id, incoming_buys).order.remaining <= order.remaining,
    decreases side.dom().len(),
{
    reveal(sweep);
    if order.remaining == 0 || !side.dom().finite() || side.dom().len() == 0 {
    } else {
        let p = best_price(side.dom(), incoming_buys);
        if crosses(p, order.price, incoming_buys) {
            lemma_fill_level(side[p], order, p, next_id, order.timestamp, incoming_buys);
            let f = fill_level(side[p], order, p, next_id, order.timestamp, incoming_buys);
            if f.level.len() == 0 {
                lemma_best_price(side.dom(), incoming_buys);
                lemma_sweep(side.remove(p), f.order, f.next_id, incoming_buys);
            }
        }
    }
}

/// One step of a sweep: the best level is filled, and the sweep either goes on
/// without it (when it was used up) or stops.
pub(crate) proof fn lemma_sweep_step(
    side: Map<u64, Seq<Order>>,
    order: Order,
    next_id: int,
    incoming_buys: bool,
    p: u64,
)
    requires
        order.remaining > 0,
        side.dom().finite(),
        side.contains_key(p),
        best_price(side.dom(), incoming_buys) == p,
        crosses(p, order.price, incoming_buys),
    ensures
        ({
            let f = fill_level(side[p], order, p, next_id, order.timestamp, incoming_buys);
            let s = sweep(side, order, next_id, incoming_buys);
            &&& f.next_id <= s.next_id
            &&& f.order == with_remaining(order, f.order.remaining)
            &&& f.level.len() == 0 ==> {
                let r = sweep(side.remove(p), f.order, f.next_id, incoming_buys);
                &&& s.side == r.side
                &&& s.order == r.order
                &&& s.next_id == r.next_id
                &&& s.trades == f.trades + r.trades
            }
            &&& f.level.len() > 0 ==> {
                &&& s.side == side.insert(p, f.level)
                &&& s.order == f.order
                &&& s.next_id == f.next_id
                &&& s.trades == f.trades
                &&& f.order.remaining == 0
            }
        }),
{
    reveal(sweep);
    assert(side.dom().len() > 0) by {
        vstd::set_lib::lemma_set_empty_equivalency_len(side.dom());
    }
    let f = fill_level(side[p], order, p, next_id, order.timestamp, incoming_buys);
    lemma_fill_level(side[p], order, p, next_id, order.timestamp, incoming_buys);
    if f.level.len() == 0 {
        lemma_sweep(side.remove(p), f.order, f.next_id, incoming_buys);
    }
}

/// A sweep does nothing when the order is used up, no level is left, or the best
/// level does not cross.
pub proof fn lemma_sweep_stops(
    side: Map<u64, Seq<Order>>,
    order: Order,
    next_id: int,
    incoming_buys: bool,
)
    requires
        side.dom().finite(),
        order.remaining == 0 || side.dom() == Set::<u64>::empty() || !crosses(
            best_price(side.dom(), incoming_buys),
            order.price,
            incoming_buys,
        ),
    ensures
        sweep(side, order, next_id, incoming_buys) == (SideSweep {
            side,
            order,
            next_id,
            trades: Seq::empty(),
        }),
{
    reveal(sweep);
    if side.dom() == Set::<u64>::empty() {
        assert(side.dom().len() == 0);
    }
}

/// The prices `prices[lo..hi]`.
#[verifier::opaque]
pub open spec fn range_set(prices: Seq<u64>, lo: int, hi: int) -> Set<u64> {
    Set::new(|q: u64| exists|j: int| lo <= j < hi && prices[j] == q)
}

/// The prices of a sorted list that a sweep has not reached after `k` levels:
/// the top ones for a buy (which takes the lowest first), the bottom ones for a sell.
pub open spec fn unvisited(prices: Seq<u64>, k: int, incoming_buys: bool) -> Set<u64> {
    if incoming_buys {
        range_set(prices, k, prices.len() as int)
    } else {
        range_set(prices, 0, prices.len() - k)
    }
}

/// All the prices of a list.
pub proof fn lemma_range_set_all(prices: Seq<u64>)
    ensures
        range_set(prices, 0, prices.len() as int) == prices.to_set(),
{
    reveal(range_set);
    assert forall|q: u64| #[trigger] prices.to_set().contains(q) implies range_set(
        prices,
        0,
        prices.len() as int,
    ).contains(q) by {
        let j = choose|j: int| 0 <= j < prices.len() && prices[j] == q;
        assert(0 <= j < prices.len() && prices[j] == q);
    }
    assert forall|q: u64| #[trigger]
        range_set(prices, 0, prices.len() as int).contains(q) implies prices.to_set().contains(
        q,
    ) by {
        let j = choose|j: int| 0 <= j < prices.len() && prices[j] == q;
        assert(prices.contains(q));
    }
    assert(range_set(prices, 0, prices.len() as int) =~= prices.to_set());
}

/// The lowest price of a sorted range is its first one.
proof fn lemma_sorted_low(prices: Seq<u64>, lo: int, hi: int)
    requires
        strictly_increasing(prices),
        0 <= lo < hi <= prices.len(),
    ensures
        best_price(range_set(prices, lo, hi), true) == prices[lo],
        range_set(prices, lo, hi).contains(prices[lo]),
        range_set(prices, lo, hi).remove(prices[lo]) == range_set(prices, lo + 1, hi),
{
    reveal(range_set);
    let s = range_set(prices, lo, hi);
    let w = prices[lo];
    assert(s.contains(w));
    assert forall|q: u64| s.contains(q) implies w <= q by {
        let j = choose|j: int| lo <= j < hi && prices[j] == q;
        if j != lo {
            assert(prices[lo] < prices[j]);
        }
    }
    let b = best_price(s, true);
    assert(s.contains(b) && forall|q: u64| s.contains(q) ==> b <= q);
    assert(b <= w && w <= b);
    let s2 = range_set(prices, lo + 1, hi);
    assert forall|q: u64| #[trigger] s.remove(w).contains(q) implies s2.contains(q) by {
        let j = choose|j: int| lo <= j < hi && prices[j] == q;
        assert(j != lo);
        assert(lo + 1 <= j < hi && prices[j] == q);
    }
    assert forall|q: u64| #[trigger] s2.contains(q) implies s.remove(w).contains(q) by {
        let j = choose|j: int| lo + 1 <= j < hi && prices[j] == q;
        assert(lo <= j < hi && prices[j] == q);
        assert(prices[lo] < prices[j]);
    }
    assert(s.remove(w) =~= s2);
}

/// The highest price of a sorted range is its last one.
proof fn lemma_sorted_high(prices: Seq<u64>, lo: int, hi: int)
    requires
        strictly_increasing(prices),
        0 <= lo < hi <= prices.len(),
    ensures
        best_price(range_set(prices, lo, hi), false) == prices[hi - 1],
        range_set(prices, lo, hi).contains(prices[hi - 1]),
        range_set(prices, lo, hi).remove(prices[hi - 1]) == range_set(prices, lo, hi - 1),
{
    reveal(range_set);
    let s = range_set(prices, lo, hi);
    let w = prices[hi - 1];
    assert(s.contains(w));
    assert forall|q: u64| s.contains(q) implies q <= w by {
        let j = choose|j: int| lo <= j < hi && prices[j] == q;
        if j != hi - 1 {
            assert(prices[j] < prices[hi - 1]);
        }
    }
    let b = best_price(s, false);
    assert(s.contains(b) && forall|q: u64| s.contains(q) ==> q <= b);
    assert(b <= w && w <= b);
    let s2 = range_set(prices, lo, hi - 1);
    assert forall|q: u64| #[trigger] s.remove(w).contains(q) implies s2.contains(q) by {
        let j = choose|j: int| lo <= j < hi && prices[j] == q;
        assert(j != hi - 1);
        assert(lo <= j < hi - 1 && prices[j] == q);
    }
    assert forall|q: u64| #[trigger] s2.contains(q) implies s.remove(w).contains(q) by {
        let j = choose|j: int| lo <= j < hi - 1 && prices[j] == q;
        assert(lo <= j < hi && prices[j] == q);
        assert(prices[j] < prices[hi - 1]);
    }
    assert(s.remove(w) =~= s2);
}

/// Once every level was visited, none is left.
pub proof fn lemma_unvisited_done(prices: Seq<u64>, incoming_buys: bool)
    ensures
        unvisited(prices, prices.len() as int, incoming_buys) == Set::<u64>::empty(),
{
    reveal(range_set);
    assert(unvisited(prices, prices.len() as int, incoming_buys) =~= Set::<u64>::empty());
}

/// The best unvisited price of a sorted list is the next one the sweep visits.
pub(crate) proof fn lemma_sorted_best(prices: Seq<u64>, k: int, incoming_buys: bool)
    requires
        strictly_increasing(prices),
        0 <= k < prices.len(),
    ensures
        ({
            let idx = if incoming_buys {
                k
            } else {
                prices.len() - 1 - k
            };
            &&& best_price(unvisited(prices, k, incoming_buys), incoming_buys) == prices[idx]
            &&& unvisited(prices, k, incoming_buys).remove(prices[idx]) == unvisited(
                prices,
                k + 1,
                incoming_buys,
            )
            &&& unvisited(prices, k, incoming_buys).contains(prices[idx])
        }),
{
    if incoming_buys {
        lemma_sorted_low(prices, k, prices.len() as int);
    } else {
        lemma_sorted_high(prices, 0, prices.len() - k);
    }
}

/// The orders resting at a price (none when the price has no level).
pub open spec fn level_at(side: Map<u64, Seq<Order>>, p: u64) -> Seq<Order> {
    if side.contains_key(p) {
        side[p]
    } else {
        Seq::empty()
    }
}

/// An order with quantity left joins the back of the level at its price.
pub open spec fn rest_order(side: Map<u64, Seq<Order>>, o: Order) -> Map<u64, Seq<Order>> {
    if o.remaining > 0 {
        side.insert(o.price, level_at(side, o.price).push(o))
    } else {
        side
    }
}

/// The sweep an incoming order makes of the opposite side.
pub open spec fn incoming_sweep(b: BookView, o: Order) -> SideSweep {
    match o.side {
        Side::Buy => sweep(b.sells, o, b.next_trade_id as int, true),
        Side::Sell => sweep(b.buys, o, b.next_trade_id as int, false),
    }
}

/// Whether the trade ids an insertion hands out fit in a `u64`.
pub open spec fn insert_ok(b: BookView, o: Order) -> bool {
    incoming_sweep(b, o).next_id <= u64::MAX
}

/// The book after an order is inserted: it first trades against the opposite
/// side, then whatever is left of it rests on its own side.
pub open spec fn book_after_insert(b: BookView, o: Order) -> BookView {
    let s = incoming_sweep(b, o);
    match o.side {
        Side::Buy => BookView {
            market: b.market,
            buys: rest_order(b.buys, s.order),
            sells: s.side,
            next_trade_id: s.next_id as u64,
        },
        Side::Sell => BookView {
            market: b.market,
            buys: s.side,
            sells: rest_order(b.sells, s.order),
            next_trade_id: s.next_id as u64,
        },
    }
}

/// The trades an insertion produces, in the order they happen.
pub open spec fn trades_of_insert(b: BookView, o: Order) -> Seq<Trade> {
    incoming_sweep(b, o).trades
}

/// Whether a level holds an order with the id.
pub open spec fn holds_id(level: Seq<Order>, id: OrderId) -> bool {
    exists|i: int| 0 <= i < level.len() && level[i].id == id
}

/// Whether `i` is the first position in the level of an order with the id.
pub open spec fn is_first_pos(level: Seq<Order>, id: OrderId, i: int) -> bool {
    &&& 0 <= i < level.len()
    &&& level[i].id == id
    &&& forall|j: int| 0 <= j < i ==> level[j].id != id
}

/// The first position in the level of an order with the id.
pub open spec fn first_pos(level: Seq<Order>, id: OrderId) -> int {
    choose|i: int| is_first_pos(level, id, i)
}

/// A level that holds the id has a first position for it.
pub proof fn lemma_first_pos(level: Seq<Order>, id: OrderId)
    requires
        holds_id(level, id),
    ensures
        is_first_pos(level, id, first_pos(level, id)),
    decreases level.len(),
{
    if level[0].id == id {
        assert(is_first_pos(level, id, 0));
    } else {
        let rest = level.drop_first();
        let k = choose|i: int| 0 <= i < level.len() && level[i].id == id;
        assert(rest[k - 1].id == id);
        lemma_first_pos(rest, id);
        let w = first_pos(rest, id) + 1;
        assert forall|j: int| 0 <= j < w implies level[j].id != id by {
            if j > 0 {
                assert(level[j] == rest[j - 1]);
            }
        }
        assert(is_first_pos(level, id, w));
    }
}

/// The prices whose level holds an order with the id.
pub open spec fn prices_holding(side: Map<u64, Seq<Order>>, id: OrderId) -> Set<u64> {
    side.dom().filter(|p: u64| holds_id(side[p], id))
}

/// Where a cancel finds the order: the lowest price whose level holds the id,
/// and the first position of the id in that level.
#[verifier::opaque]
pub open spec fn cancel_spot(side: Map<u64, Seq<Order>>, id: OrderId) -> Option<(u64, int)> {
    if prices_holding(side, id) == Set::<u64>::empty() {
        None
    } else {
        let p = best_price(prices_holding(side, id), true);
        Some((p, first_pos(side[p], id)))
    }
}

/// The side with the cancelled order taken out of its level (the level stays,
/// even when it is left empty).
pub open spec fn side_after_cancel(side: Map<u64, Seq<Order>>, id: OrderId) -> Map<u64, Seq<Order>> {
    match cancel_spot(side, id) {
        Some((p, i)) => side.insert(p, side[p].remove(i)),
        None => side,
    }
}

/// The order a cancel takes out of the side.
pub open spec fn cancelled_from(side: Map<u64, Seq<Order>>, id: OrderId) -> Option<Order> {
    match cancel_spot(side, id) {
        Some((p, i)) => Some(side[p][i]),
        None => None,
    }
}

/// A cancel looks among the bids first, then among the asks.
pub open spec fn book_after_cancel(b: BookView, id: OrderId) -> BookView {
    if cancel_spot(b.buys, id) is Some {
        BookView { buys: side_after_cancel(b.buys, id), ..b }
    } else {
        BookView { sells: side_after_cancel(b.sells, id), ..b }
    }
}

/// The order a cancel takes out of the book.
pub open spec fn cancelled_order(b: BookView, id: OrderId) -> Option<Order> {
    if cancel_spot(b.buys, id) is Some {
        cancelled_from(b.buys, id)
    } else {
        cancelled_from(b.sells, id)
    }
}

/// A search of the levels in increasing price order that finds the id at
/// position `j` of the level at `prices[i]` has found the cancel spot.
pub proof fn lemma_cancel_found(
    side: Map<u64, Seq<Order>>,
    prices: Seq<u64>,
    i: int,
    j: int,
    id: OrderId,
)
    requires
        strictly_increasing(prices),
        prices.to_set() == side.dom(),
        0 <= i < prices.len(),
        forall|m: int| 0 <= m < i ==> !holds_id(#[trigger] side[prices[m]], id),
        0 <= j < side[prices[i]].len(),
        side[prices[i]][j].id == id,
        forall|m: int| 0 <= m < j ==> side[prices[i]][m].id != id,
    ensures
        cancel_spot(side, id) == Some((prices[i], j)),
{
    reveal(cancel_spot);
    let ph = prices_holding(side, id);
    let p = prices[i];
    assert(prices.contains(p));
    assert(side.dom().contains(p));
    assert(holds_id(side[p], id));
    assert(ph.contains(p));
    assert(ph != Set::<u64>::empty()) by {
        assert(Set::<u64>::empty().contains(p) == false);
    }
    assert forall|q: u64| ph.contains(q) implies p <= q by {
        assert(prices.to_set().contains(q));
        let m = choose|m: int| 0 <= m < prices.len() && prices[m] == q;
        if m < i {
            assert(!holds_id(side[prices[m]], id));
        } else if m > i {
            assert(prices[i] < prices[m]);
        }
    }
    let b = best_price(ph, true);
    assert(ph.contains(b) && forall|q: u64| ph.contains(q) ==> b <= q);
    assert(b <= p && p <= b);
    let lv = side[p];
    assert(is_first_pos(lv, id, j));
    let f = first_pos(lv, id);
    assert(is_first_pos(lv, id, f));
    assert(f == j) by {
        if f < j {
            assert(lv[f].id != id);
        } else if f > j {
            assert(lv[j].id != id);
        }
    }
}

/// A search of every level that finds no order with the id means there is none.
pub proof fn lemma_cancel_absent(side: Map<u64, Seq<Order>>, prices: Seq<u64>, id: OrderId)
    requires
        prices.to_set() == side.dom(),
        forall|m: int| 0 <= m < prices.len() ==> !holds_id(#[trigger] side[prices[m]], id),
    ensures
        cancel_spot(side, id) is None,
{
    reveal(cancel_spot);
    let ph = prices_holding(side, id);
    assert forall|q: u64| !ph.contains(q) by {
        if side.dom().contains(q) {
            assert(prices.to_set().contains(q));
            let m = choose|m: int| 0 <= m < prices.len() && prices[m] == q;
            assert(!holds_id(side[prices[m]], id));
        }
    }
    assert(ph =~= Set::<u64>::empty());
}

} // verus!
