use vstd::prelude::*;

use crate::trading::matching::{
    book_after_insert, crosses, incoming_sweep, insert_ok, lemma_sweep, level_at, sweep,
    trades_of_insert, with_remaining,
};
use crate::trading::order::{Order, Side};
use crate::trading::orderbook::BookView;
use crate::trading::properties::{total_qty, trades_follow};
use crate::trading::sweep_laws::{
    no_worse, sweep_leftover, sweep_trades_best_first, sweep_trades_cross, sweep_trades_follow,
};

verus! {

/// The sides of a book are finite, as those of every book of the engine are.
pub open spec fn book_finite(b: BookView) -> bool {
    b.buys.dom().finite() && b.sells.dom().finite()
}

/// Inserting an order: every trade is at a price that crosses the order's
/// limit, the best prices come first, the trades take the book's next ids one
/// after the other and carry the order's id on its side and its timestamp, and
/// together they fill exactly the quantity that leaves the order. What is left
/// of the order rests at the back of the level at its limit price, and the next
/// trade id moves past the ids handed out.
pub proof fn insertion_trades(b: BookView, o: Order)
    requires
        book_finite(b),
        insert_ok(b, o),
    ensures
        ({
            let ts = trades_of_insert(b, o);
            let after = book_after_insert(b, o);
            let ib = o.side == Side::Buy;
            let left = incoming_sweep(b, o).order;
            &&& forall|i: int|
                0 <= i < ts.len() ==> crosses(#[trigger] ts[i].price, o.price, ib)
            &&& forall|i: int, j: int|
                0 <= i < j < ts.len() ==> no_worse(#[trigger] ts[i].price, #[trigger] ts[j].price, ib)
            &&& trades_follow(ts, o, b.next_trade_id as int, ib)
            &&& total_qty(ts) == o.remaining - left.remaining
            &&& after.next_trade_id == b.next_trade_id + ts.len()
            &&& left == with_remaining(o, left.remaining)
            &&& left.remaining > 0 ==> if ib {
                after.buys == b.buys.insert(o.price, level_at(b.buys, o.price).push(left))
            } else {
                after.sells == b.sells.insert(o.price, level_at(b.sells, o.price).push(left))
            }
        }),
{
    let ib = o.side == Side::Buy;
    let side = if ib {
        b.sells
    } else {
        b.buys
    };
    sweep_trades_cross(side, o, b.next_trade_id as int, ib);
    sweep_trades_best_first(side, o, b.next_trade_id as int, ib);
    sweep_trades_follow(side, o, b.next_trade_id as int, ib);
    lemma_sweep(side, o, b.next_trade_id as int, ib);
}

/// Whether every nonempty bid level is priced below every nonempty ask level.
pub open spec fn uncrossed(b: BookView) -> bool {
    forall|pb: u64, pa: u64|
        #![trigger b.buys[pb], b.sells[pa]]
        b.buys.contains_key(pb) && b.buys[pb].len() > 0 && b.sells.contains_key(pa)
            && b.sells[pa].len() > 0 ==> pb < pa
}

/// Inserting an order never leaves the book crossed: an uncrossed book stays
/// uncrossed.
pub proof fn insertion_keeps_book_uncrossed(b: BookView, o: Order)
    requires
        book_finite(b),
        uncrossed(b),
    ensures
        uncrossed(book_after_insert(b, o)),
{
    let ib = o.side == Side::Buy;
    let after = book_after_insert(b, o);
    if ib {
        sweep_leftover(b.sells, o, b.next_trade_id as int, true);
        let s = sweep(b.sells, o, b.next_trade_id as int, true);
        assert forall|pb: u64, pa: u64|
            #![trigger after.buys[pb], after.sells[pa]]
            after.buys.contains_key(pb) && after.buys[pb].len() > 0 && after.sells.contains_key(pa)
                && after.sells[pa].len() > 0 implies pb < pa by {
            assert(b.sells.contains_key(pa) && b.sells[pa].len() > 0);
            if s.order.remaining > 0 && pb == o.price {
                assert(!crosses(pa, o.price, true));
            } else {
                assert(b.buys.contains_key(pb) && b.buys[pb].len() > 0);
                assert(b.buys[pb].len() > 0 && b.sells[pa].len() > 0);
            }
        }
    } else {
        sweep_leftover(b.buys, o, b.next_trade_id as int, false);
        let s = sweep(b.buys, o, b.next_trade_id as int, false);
        assert forall|pb: u64, pa: u64|
            #![trigger after.buys[pb], after.sells[pa]]
            after.buys.contains_key(pb) && after.buys[pb].len() > 0 && after.sells.contains_key(pa)
                && after.sells[pa].len() > 0 implies pb < pa by {
            assert(b.buys.contains_key(pb) && b.buys[pb].len() > 0);
            if s.order.remaining > 0 && pa == o.price {
                assert(!crosses(pb, o.price, false));
            } else {
                assert(b.sells.contains_key(pa) && b.sells[pa].len() > 0);
                assert(b.buys[pb].len() > 0 && b.sells[pa].len() > 0);
            }
        }
    }
}

} // verus!
