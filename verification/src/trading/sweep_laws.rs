use vstd::prelude::*;

use crate::trading::matching::{
    best_price, crosses, fill_level, lemma_best_price, lemma_fill_level, lemma_sweep, sweep,
    SideSweep,
};
use crate::trading::order::Order;

use crate::trading::properties::{
    lemma_total_qty_concat, level_fill_trades, total_qty, trades_follow,
};

verus! {

/// Whether a price is at least as good as another for the incoming side: no
/// higher for a buy, no lower for a sell.
pub open spec fn no_worse(a: u64, b: u64, incoming_buys: bool) -> bool {
    if incoming_buys {
        a <= b
    } else {
        a >= b
    }
}

/// Whether a sweep stops before filling any level.
pub open spec fn sweep_halts(side: Map<u64, Seq<Order>>, order: Order, incoming_buys: bool) -> bool {
    order.remaining == 0 || side.dom().len() == 0 || !crosses(
        best_price(side.dom(), incoming_buys),
        order.price,
        incoming_buys,
    )
}

/// A sweep either stops at once, or fills the best level first and then goes on
/// with the rest of the side (when that level is used up) or stops.
proof fn sweep_cases(side: Map<u64, Seq<Order>>, order: Order, next_id: int, incoming_buys: bool)
    requires
        side.dom().finite(),
    ensures
        ({
            let s = sweep(side, order, next_id, incoming_buys);
            let p = best_price(side.dom(), incoming_buys);
            let f = fill_level(side[p], order, p, next_id, order.timestamp, incoming_buys);
            let r = sweep(side.remove(p), f.order, f.next_id, incoming_buys);
            &&& sweep_halts(side, order, incoming_buys) ==> s == (SideSweep {
                side,
                order,
                next_id,
                trades: Seq::empty(),
            })
            &&& !sweep_halts(side, order, incoming_buys) ==> {
                &&& side.contains_key(p)
                &&& crosses(p, order.price, incoming_buys)
                &&& forall|q: u64| side.contains_key(q) ==> crosses(p, q, incoming_buys)
                &&& side.remove(p).dom().finite()
            }
            &&& !sweep_halts(side, order, incoming_buys) && f.level.len() == 0 ==> {
                &&& s.trades == f.trades + r.trades
                &&& s.order == r.order
                &&& s.side == r.side
                &&& s.next_id == r.next_id
            }
            &&& !sweep_halts(side, order, incoming_buys) && f.level.len() > 0 ==> {
                &&& s.trades == f.trades
                &&& s.order == f.order
                &&& s.side == side.insert(p, f.level)
                &&& s.next_id == f.next_id
            }
        }),
{
    if order.remaining == 0 || side.dom().len() == 0 {
        if side.dom().len() == 0 {
            vstd::set_lib::lemma_set_empty_equivalency_len(side.dom());
        }
        crate::trading::matching::lemma_sweep_stops(side, order, next_id, incoming_buys);
    } else {
        let p = best_price(side.dom(), incoming_buys);
        lemma_best_price(side.dom(), incoming_buys);
        if crosses(p, order.price, incoming_buys) {
            crate::trading::matching::lemma_sweep_step(side, order, next_id, incoming_buys, p);
        } else {
            crate::trading::matching::lemma_sweep_stops(side, order, next_id, incoming_buys);
        }
    }
}

/// The index `i` of a concatenation falls in its first or its second part.
proof fn lemma_concat_at<A>(a: Seq<A>, b: Seq<A>, i: int)
    requires
        0 <= i < a.len() + b.len(),
    ensures
        i < a.len() ==> (a + b)[i] == a[i],
        i >= a.len() ==> (a + b)[i] == b[i - a.len()],
{
}

/// Every trade of a sweep is at a price of the side that crosses the limit.
pub proof fn sweep_trades_cross(
    side: Map<u64, Seq<Order>>,
    order: Order,
    next_id: int,
    incoming_buys: bool,
)
    requires
        side.dom().finite(),
    ensures
        ({
            let s = sweep(side, order, next_id, incoming_buys);
            forall|i: int|
                0 <= i < s.trades.len() ==> crosses(
                    #[trigger] s.trades[i].price,
                    order.price,
                    incoming_buys,
                ) && side.dom().contains(s.trades[i].price)
        }),
    decreases side.dom().len(),
{
    sweep_cases(side, order, next_id, incoming_buys);
    let s = sweep(side, order, next_id, incoming_buys);
    let p = best_price(side.dom(), incoming_buys);
    let f = fill_level(side[p], order, p, next_id, order.timestamp, incoming_buys);
    if !sweep_halts(side, order, incoming_buys) {
        level_fill_trades(side[p], order, p, next_id, incoming_buys);
        lemma_fill_level(side[p], order, p, next_id, order.timestamp, incoming_buys);
        if f.level.len() == 0 {
            let rest = side.remove(p);
            sweep_trades_cross(rest, f.order, f.next_id, incoming_buys);
            let r = sweep(rest, f.order, f.next_id, incoming_buys);
            assert forall|i: int| 0 <= i < s.trades.len() implies crosses(
                #[trigger] s.trades[i].price,
                order.price,
                incoming_buys,
            ) && side.dom().contains(s.trades[i].price) by {
                lemma_concat_at(f.trades, r.trades, i);
            }
        }
    }
}

/// The trades of a sweep come best price first.
pub proof fn sweep_trades_best_first(
    side: Map<u64, Seq<Order>>,
    order: Order,
    next_id: int,
    incoming_buys: bool,
)
    requires
        side.dom().finite(),
    ensures
        ({
            let s = sweep(side, order, next_id, incoming_buys);
            forall|i: int, j: int|
                0 <= i < j < s.trades.len() ==> no_worse(
                    #[trigger] s.trades[i].price,
                    #[trigger] s.trades[j].price,
                    incoming_buys,
                )
        }),
    decreases side.dom().len(),
{
    sweep_cases(side, order, next_id, incoming_buys);
    let s = sweep(side, order, next_id, incoming_buys);
    let p = best_price(side.dom(), incoming_buys);
    let f = fill_level(side[p], order, p, next_id, order.timestamp, incoming_buys);
    if !sweep_halts(side, order, incoming_buys) {
        level_fill_trades(side[p], order, p, next_id, incoming_buys);
        lemma_fill_level(side[p], order, p, next_id, order.timestamp, incoming_buys);
        if f.level.len() == 0 {
            let rest = side.remove(p);
            sweep_trades_best_first(rest, f.order, f.next_id, incoming_buys);
            sweep_trades_cross(rest, f.order, f.next_id, incoming_buys);
            let r = sweep(rest, f.order, f.next_id, incoming_buys);
            assert forall|i: int, j: int| 0 <= i < j < s.trades.len() implies no_worse(
                #[trigger] s.trades[i].price,
                #[trigger] s.trades[j].price,
                incoming_buys,
            ) by {
                lemma_concat_at(f.trades, r.trades, i);
                lemma_concat_at(f.trades, r.trades, j);
                if i < f.trades.len() && j >= f.trades.len() {
                    assert(rest.dom().contains(r.trades[j - f.trades.len()].price));
                }
            }
        }
    }
}

/// The trades of a sweep follow the incoming order and fill exactly the
/// quantity it loses.
pub proof fn sweep_trades_follow(
    side: Map<u64, Seq<Order>>,
    order: Order,
    next_id: int,
    incoming_buys: bool,
)
    requires
        side.dom().finite(),
    ensures
        ({
            let s = sweep(side, order, next_id, incoming_buys);
            &&& trades_follow(s.trades, order, next_id, incoming_buys)
            &&& total_qty(s.trades) == order.remaining - s.order.remaining
        }),
    decreases side.dom().len(),
{
    sweep_cases(side, order, next_id, incoming_buys);
    crate::trading::matching::lemma_sweep(side, order, next_id, incoming_buys);
    let s = sweep(side, order, next_id, incoming_buys);
    let p = best_price(side.dom(), incoming_buys);
    let f = fill_level(side[p], order, p, next_id, order.timestamp, incoming_buys);
    if !sweep_halts(side, order, incoming_buys) {
        level_fill_trades(side[p], order, p, next_id, incoming_buys);
        lemma_fill_level(side[p], order, p, next_id, order.timestamp, incoming_buys);
        if f.level.len() == 0 {
            let rest = side.remove(p);
            sweep_trades_follow(rest, f.order, f.next_id, incoming_buys);
            let r = sweep(rest, f.order, f.next_id, incoming_buys);
            let n = f.trades.len();
            assert forall|i: int| #![trigger s.trades[i]] 0 <= i < s.trades.len() implies {
                &&& s.trades[i].trade_id == (next_id + i) as u64
                &&& s.trades[i].timestamp == order.timestamp
                &&& (incoming_buys ==> s.trades[i].buy_order_id == order.id)
                &&& (!incoming_buys ==> s.trades[i].sell_order_id == order.id)
            } by {
                lemma_concat_at(f.trades, r.trades, i);
                if i >= n {
                    assert(r.trades[i - n].trade_id == (f.next_id + (i - n)) as u64);
                } else {
                    assert(f.trades[i].trade_id == (next_id + i) as u64);
                }
            }
            lemma_total_qty_concat(f.trades, r.trades);
        }
    }
}

/// What a sweep leaves of the side: only prices it had, a level left
/// nonempty was nonempty before, and when the incoming order is not used up no
/// price left crosses its limit.
#[verifier::rlimit(40)]
pub proof fn sweep_leftover(
    side: Map<u64, Seq<Order>>,
    order: Order,
    next_id: int,
    incoming_buys: bool,
)
    requires
        side.dom().finite(),
    ensures
        ({
            let s = sweep(side, order, next_id, incoming_buys);
            &&& s.side.dom().subset_of(side.dom())
            &&& s.side.dom().finite()
            &&& forall|p: u64|
                #[trigger] s.side.contains_key(p) && s.side[p].len() > 0 ==> side[p].len() > 0
            &&& s.order.remaining > 0 ==> forall|p: u64|
                #[trigger] s.side.contains_key(p) ==> !crosses(p, order.price, incoming_buys)
            &&& s.order.price == order.price
            &&& s.order.id == order.id
        }),
    decreases side.dom().len(),
{
    reveal(sweep);
    let s = sweep(side, order, next_id, incoming_buys);
    crate::trading::matching::lemma_sweep(side, order, next_id, incoming_buys);
    if order.remaining == 0 || side.dom().len() == 0 {
        if side.dom().len() == 0 {
            assert(side.dom() =~= Set::<u64>::empty());
        }
    } else {
        let p = best_price(side.dom(), incoming_buys);
        lemma_best_price(side.dom(), incoming_buys);
        if crosses(p, order.price, incoming_buys) {
            let f = fill_level(side[p], order, p, next_id, order.timestamp, incoming_buys);
            lemma_fill_level(side[p], order, p, next_id, order.timestamp, incoming_buys);
            if f.level.len() == 0 {
                sweep_leftover(side.remove(p), f.order, f.next_id, incoming_buys);
            } else {
                assert(side[p].len() > 0) by {
                    reveal(fill_level);
                }
            }
        } else {
            assert forall|q: u64| #[trigger] s.side.contains_key(q) implies !crosses(
                q,
                order.price,
                incoming_buys,
            ) by {
                assert(crosses(p, q, incoming_buys));
            }
        }
    }
}

/// A sweep that makes no trade changes nothing but dropping levels: the order
/// is left as it was, and every level left is the one the side had.
pub proof fn sweep_without_trades(
    side: Map<u64, Seq<Order>>,
    order: Order,
    next_id: int,
    incoming_buys: bool,
)
    requires
        side.dom().finite(),
        order.remaining > 0,
        sweep(side, order, next_id, incoming_buys).trades.len() == 0,
    ensures
        ({
            let s = sweep(side, order, next_id, incoming_buys);
            &&& s.order == order
            &&& s.next_id == next_id
            &&& s.side.dom().subset_of(side.dom())
            &&& forall|p: u64| #[trigger] s.side.contains_key(p) ==> s.side[p] == side[p]
        }),
    decreases side.dom().len(),
{
    sweep_cases(side, order, next_id, incoming_buys);
    let s = sweep(side, order, next_id, incoming_buys);
    let p = best_price(side.dom(), incoming_buys);
    let f = fill_level(side[p], order, p, next_id, order.timestamp, incoming_buys);
    if !sweep_halts(side, order, incoming_buys) {
        level_fill_trades(side[p], order, p, next_id, incoming_buys);
        lemma_fill_level(side[p], order, p, next_id, order.timestamp, incoming_buys);
        if f.level.len() == 0 {
            let rest = side.remove(p);
            let r = sweep(rest, f.order, f.next_id, incoming_buys);
            assert(f.trades.len() == 0) by {
                assert(s.trades.len() == f.trades.len() + r.trades.len());
            }
            assert(total_qty(f.trades) == 0);
            assert(f.order == order);
            sweep_without_trades(rest, f.order, f.next_id, incoming_buys);
        } else {
            assert(total_qty(f.trades) == 0);
        }
    }
}

} // verus!
