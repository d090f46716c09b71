use vstd::prelude::*;

use crate::trading::book_laws::book_finite;
use crate::trading::matching::{
    best_price, book_after_cancel, book_after_insert, cancel_spot, fill_level, holds_id, incoming_sweep,
    lemma_best_price, lemma_first_pos, lemma_sweep, prices_holding, rest_order, side_after_cancel,
    sweep,
};
use crate::trading::order::{Order, Side};
use crate::trading::orderbook::BookView;
use crate::trading::properties::level_fill_serves_oldest_first;

verus! {

/// Every order resting on a side has quantity left, belongs to that side, and
/// rests at its own price.
pub open spec fn side_sound(side: Map<u64, Seq<Order>>, s: Side) -> bool {
    forall|p: u64, i: int|
        #![trigger side[p][i]]
        side.contains_key(p) && 0 <= i < side[p].len() ==> side[p][i].remaining > 0
            && side[p][i].side == s && side[p][i].price == p
}

/// Every resting order of the book has quantity left and rests on its own
/// side at its own price.
pub open spec fn resting_sound(b: BookView) -> bool {
    side_sound(b.buys, Side::Buy) && side_sound(b.sells, Side::Sell)
}

/// Whether every order of a level has quantity left, the given side and price.
pub open spec fn level_sound(level: Seq<Order>, s: Side, p: u64) -> bool {
    forall|i: int|
        0 <= i < level.len() ==> #[trigger] level[i].remaining > 0 && level[i].side == s
            && level[i].price == p
}

/// What a level fill leaves of a sound level is sound.
proof fn lemma_fill_keeps_level_sound(
    level: Seq<Order>,
    order: Order,
    p: u64,
    next_id: int,
    ib: bool,
    s: Side,
)
    requires
        level_sound(level, s, p),
    ensures
        level_sound(fill_level(level, order, p, next_id, order.timestamp, ib).level, s, p),
{
    level_fill_serves_oldest_first(level, order, p, next_id, ib);
    let f = fill_level(level, order, p, next_id, order.timestamp, ib);
    let n = f.trades.len() as int;
    if f.level == level.skip(n) {
        assert forall|i: int| 0 <= i < f.level.len() implies #[trigger] f.level[i].remaining > 0
            && f.level[i].side == s && f.level[i].price == p by {
            assert(f.level[i] == level[i + n]);
        }
    } else {
        assert forall|i: int| 0 <= i < f.level.len() implies #[trigger] f.level[i].remaining > 0
            && f.level[i].side == s && f.level[i].price == p by {
            if i > 0 {
                assert(f.level[i] == level[i + n - 1]);
            } else {
                assert(level[n - 1].remaining > 0);
            }
        }
    }
}

/// A sweep keeps a sound side sound.
pub proof fn sweep_keeps_side_sound(
    side: Map<u64, Seq<Order>>,
    order: Order,
    next_id: int,
    ib: bool,
    s: Side,
)
    requires
        side_sound(side, s),
    ensures
        side_sound(sweep(side, order, next_id, ib).side, s),
    decreases side.dom().len(),
{
    reveal(sweep);
    if order.remaining == 0 || !side.dom().finite() || side.dom().len() == 0 {
    } else {
        let p = best_price(side.dom(), ib);
        lemma_best_price(side.dom(), ib);
        let r = sweep(side, order, next_id, ib);
        if r.side != side {
            let f = fill_level(side[p], order, p, next_id, order.timestamp, ib);
            assert(level_sound(side[p], s, p)) by {
                assert forall|i: int| 0 <= i < side[p].len() implies #[trigger] side[p][i].remaining
                    > 0 && side[p][i].side == s && side[p][i].price == p by {
                    assert(side.contains_key(p));
                }
            }
            lemma_fill_keeps_level_sound(side[p], order, p, next_id, ib, s);
            if f.level.len() == 0 {
                let rm = side.remove(p);
                assert(side_sound(rm, s)) by {
                    assert forall|q: u64, i: int|
                        #![trigger rm[q][i]]
                        rm.contains_key(q) && 0 <= i < rm[q].len() implies rm[q][i].remaining > 0
                            && rm[q][i].side == s && rm[q][i].price == q by {
                        assert(rm[q] == side[q]);
                        assert(side[q][i] == rm[q][i]);
                    }
                }
                sweep_keeps_side_sound(rm, f.order, f.next_id, ib, s);
            } else {
                let ins = side.insert(p, f.level);
                assert forall|q: u64, i: int|
                    #![trigger ins[q][i]]
                    ins.contains_key(q) && 0 <= i < ins[q].len() implies ins[q][i].remaining > 0
                        && ins[q][i].side == s && ins[q][i].price == q by {
                    if q == p {
                        assert(ins[q][i] == f.level[i]);
                    } else {
                        assert(side[q][i] == ins[q][i]);
                    }
                }
            }
        }
    }
}

/// Inserting an order keeps the resting orders of a book sound.
pub proof fn insertion_keeps_resting_sound(b: BookView, o: Order)
    requires
        resting_sound(b),
    ensures
        resting_sound(book_after_insert(b, o)),
{
    let ib = o.side == Side::Buy;
    let s = incoming_sweep(b, o);
    let after = book_after_insert(b, o);
    if ib {
        sweep_keeps_side_sound(b.sells, o, b.next_trade_id as int, true, Side::Sell);
        lemma_sweep(b.sells, o, b.next_trade_id as int, true);
        rest_keeps_side_sound(b.buys, s.order, Side::Buy);
    } else {
        sweep_keeps_side_sound(b.buys, o, b.next_trade_id as int, false, Side::Buy);
        lemma_sweep(b.buys, o, b.next_trade_id as int, false);
        rest_keeps_side_sound(b.sells, s.order, Side::Sell);
    }
}

/// Resting an order of the side keeps the side sound.
proof fn rest_keeps_side_sound(side: Map<u64, Seq<Order>>, o: Order, s: Side)
    requires
        side_sound(side, s),
        o.side == s,
    ensures
        side_sound(rest_order(side, o), s),
{
    let r = rest_order(side, o);
    if o.remaining > 0 {
        assert forall|q: u64, i: int|
            #![trigger r[q][i]]
            r.contains_key(q) && 0 <= i < r[q].len() implies r[q][i].remaining > 0 && r[q][i].side
                == s && r[q][i].price == q by {
            if q == o.price {
                if side.contains_key(q) && i < side[q].len() {
                    assert(r[q][i] == side[q][i]);
                }
            } else {
                assert(r[q][i] == side[q][i]);
            }
        }
    }
}

/// Cancelling keeps the resting orders of a book sound.
pub proof fn cancel_keeps_resting_sound(b: BookView, id: u64)
    requires
        book_finite(b),
        resting_sound(b),
    ensures
        resting_sound(book_after_cancel(b, id)),
{
    cancel_keeps_side_sound(b.buys, id, Side::Buy);
    cancel_keeps_side_sound(b.sells, id, Side::Sell);
}

/// Taking an order out of a level keeps a sound side sound.
proof fn cancel_keeps_side_sound(side: Map<u64, Seq<Order>>, id: u64, s: Side)
    requires
        side.dom().finite(),
        side_sound(side, s),
    ensures
        side_sound(side_after_cancel(side, id), s),
{
    reveal(cancel_spot);
    match cancel_spot(side, id) {
        Some((p, j)) => {
            let ph = prices_holding(side, id);
            assert(ph.subset_of(side.dom()));
            vstd::set_lib::lemma_set_subset_finite(side.dom(), ph);
            vstd::set_lib::lemma_set_empty_equivalency_len(ph);
            lemma_best_price(ph, true);
            assert(side.contains_key(p));
            assert(holds_id(side[p], id));
            lemma_first_pos(side[p], id);
            let r = side_after_cancel(side, id);
            assert forall|q: u64, i: int|
                #![trigger r[q][i]]
                r.contains_key(q) && 0 <= i < r[q].len() implies r[q][i].remaining > 0
                    && r[q][i].side == s && r[q][i].price == q by {
                if q == p {
                    if i < j {
                        assert(r[q][i] == side[q][i]);
                    } else {
                        assert(r[q][i] == side[q][i + 1]);
                    }
                } else {
                    assert(r[q][i] == side[q][i]);
                }
            }
        },
        None => {},
    }
}

} // verus!
