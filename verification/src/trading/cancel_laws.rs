use vstd::prelude::*;

use crate::trading::resting_laws::{
    cancel_keeps_resting_sound, insertion_keeps_resting_sound, resting_sound,
};

use crate::trading::matching::{
    best_price, book_after_cancel, book_after_insert, cancel_spot, cancelled_from, cancelled_order,
    first_pos, holds_id, incoming_sweep, is_first_pos, lemma_best_price, lemma_first_pos, level_at,
    prices_holding, side_after_cancel, trades_of_insert,
};
use crate::trading::order::{Order, OrderId, Side};
use crate::trading::sweep_laws::{sweep_leftover, sweep_without_trades};
use crate::trading::ledger::{after_cancel, after_place, cancel_finds, EngineView};
use crate::trading::orderbook::BookView;
use crate::trading::book_laws::{book_finite, insertion_keeps_book_uncrossed, uncrossed};

verus! {

/// A cancel keeps the prices of the side and shortens at most one level.
pub proof fn cancel_shortens(side: Map<u64, Seq<Order>>, id: OrderId)
    requires
        side.dom().finite(),
    ensures
        side_after_cancel(side, id).dom() == side.dom(),
        forall|p: u64|
            #[trigger] side.contains_key(p) ==> side_after_cancel(side, id)[p].len() <= side[p].len(),
{
    reveal(cancel_spot);
    match cancel_spot(side, id) {
        Some((p, i)) => {
            let ph = prices_holding(side, id);
            assert(ph.subset_of(side.dom()));
            vstd::set_lib::lemma_set_subset_finite(side.dom(), ph);
            vstd::set_lib::lemma_set_empty_equivalency_len(ph);
            lemma_best_price(ph, true);
            assert(side.contains_key(p));
            let lv = side[p];
            assert(holds_id(lv, id));
            lemma_first_pos(lv, id);
            assert(side_after_cancel(side, id).dom() =~= side.dom());
        },
        None => {},
    }
}

/// Cancelling never leaves the book crossed: it only takes orders out.
pub proof fn cancel_keeps_book_uncrossed(b: BookView, id: OrderId)
    requires
        book_finite(b),
        uncrossed(b),
    ensures
        uncrossed(book_after_cancel(b, id)),
{
    cancel_shortens(b.buys, id);
    cancel_shortens(b.sells, id);
    let after = book_after_cancel(b, id);
    assert forall|pb: u64, pa: u64|
        #![trigger after.buys[pb], after.sells[pa]]
        after.buys.contains_key(pb) && after.buys[pb].len() > 0 && after.sells.contains_key(pa)
            && after.sells[pa].len() > 0 implies pb < pa by {
        assert(b.buys.contains_key(pb) && b.buys[pb].len() > 0);
        assert(b.sells.contains_key(pa) && b.sells[pa].len() > 0);
        assert(b.buys[pb].len() > 0 && b.sells[pa].len() > 0);
    }
}

/// Whether no level of the side holds an order with the id.
pub open spec fn id_absent(side: Map<u64, Seq<Order>>, id: OrderId) -> bool {
    forall|p: u64| #[trigger] side.contains_key(p) ==> !holds_id(side[p], id)
}

/// Cancelling an order that rests alone under its id, at the back of the
/// level at its price, takes that very order out and gives the level back as it
/// was before the order joined it.
proof fn cancel_last_of_level(side: Map<u64, Seq<Order>>, o: Order)
    requires
        side.dom().finite(),
        id_absent(side, o.id),
    ensures
        ({
            let joined = side.insert(o.price, level_at(side, o.price).push(o));
            &&& cancel_spot(joined, o.id) is Some
            &&& cancelled_from(joined, o.id) == Some(o)
            &&& side_after_cancel(joined, o.id) == side.insert(o.price, level_at(side, o.price))
        }),
{
    reveal(cancel_spot);
    let lv = level_at(side, o.price);
    let joined = side.insert(o.price, lv.push(o));
    let ph = prices_holding(joined, o.id);
    assert(lv.push(o)[lv.len() as int] == o);
    assert(holds_id(joined[o.price], o.id));
    assert(ph.contains(o.price));
    assert forall|q: u64| #[trigger] ph.contains(q) implies q == o.price by {
        if q != o.price {
            assert(side.contains_key(q));
            assert(!holds_id(side[q], o.id));
        }
    }
    assert(ph =~= set![o.price]);
    assert(ph != Set::<u64>::empty()) by {
        assert(!Set::<u64>::empty().contains(o.price));
    }
    let b = best_price(ph, true);
    assert(ph.contains(b) && forall|q: u64| ph.contains(q) ==> b <= q) by {
        assert(ph.contains(o.price) && forall|q: u64| ph.contains(q) ==> o.price <= q);
    }
    let n = lv.len() as int;
    assert forall|j: int| 0 <= j < n implies lv.push(o)[j].id != o.id by {
        if side.contains_key(o.price) {
            assert(!holds_id(side[o.price], o.id));
            assert(lv.push(o)[j] == lv[j]);
        }
    }
    assert(is_first_pos(lv.push(o), o.id, n));
    let f = first_pos(lv.push(o), o.id);
    assert(is_first_pos(lv.push(o), o.id, f));
    assert(f == n) by {
        if f < n {
            assert(lv.push(o)[f].id != o.id);
        }
    }
    assert(lv.push(o).remove(n) =~= lv);
    assert(side_after_cancel(joined, o.id) =~= side.insert(o.price, lv));
}

/// Cancelling, by its id, an order that rested without trading gives the
/// order back and undoes the insertion: its side is as before, except that a
/// level opened for it stays, empty. (The sweep of the opposite side may
/// still have dropped empty levels there.) This holds when no order of the book
/// had that id.
pub proof fn cancel_undoes_resting_insert(b: BookView, o: Order)
    requires
        book_finite(b),
        o.remaining > 0,
        trades_of_insert(b, o).len() == 0,
        id_absent(b.buys, o.id),
        id_absent(b.sells, o.id),
    ensures
        ({
            let placed = book_after_insert(b, o);
            let after = book_after_cancel(placed, o.id);
            &&& cancelled_order(placed, o.id) == Some(o)
            &&& after.next_trade_id == b.next_trade_id
            &&& o.side == Side::Buy ==> after.buys == b.buys.insert(o.price, level_at(b.buys, o.price))
                && after.sells == incoming_sweep(b, o).side
            &&& o.side == Side::Sell ==> after.sells == b.sells.insert(
                o.price,
                level_at(b.sells, o.price),
            ) && after.buys == incoming_sweep(b, o).side
        }),
{
    let placed = book_after_insert(b, o);
    if o.side == Side::Buy {
        sweep_without_trades(b.sells, o, b.next_trade_id as int, true);
        cancel_last_of_level(b.buys, o);
        assert(placed.buys == b.buys.insert(o.price, level_at(b.buys, o.price).push(o)));
    } else {
        sweep_without_trades(b.buys, o, b.next_trade_id as int, false);
        let s = incoming_sweep(b, o);
        assert(id_absent(s.side, o.id));
        assert(cancel_spot(s.side, o.id) is None) by {
            reveal(cancel_spot);
            assert(prices_holding(s.side, o.id) =~= Set::<u64>::empty());
        }
        cancel_last_of_level(b.sells, o);
        assert(placed.sells == b.sells.insert(o.price, level_at(b.sells, o.price).push(o)));
    }
}

/// Every book of the engine is finite and uncrossed, and every order resting
/// in it has quantity left and rests on its own side at its own price.
pub open spec fn books_sound(s: EngineView) -> bool {
    forall|k: Seq<char>|
        #[trigger] s.books.contains_key(k) ==> book_finite(s.books[k]) && uncrossed(s.books[k])
            && resting_sound(s.books[k])
}

/// Placing an order keeps every book of the engine sound.
pub proof fn placing_keeps_books_sound(s: EngineView, o: Order)
    requires
        books_sound(s),
    ensures
        books_sound(after_place(s, o)),
{
    if s.books.contains_key(o.market@) {
        let b = s.books[o.market@];
        insertion_keeps_book_uncrossed(b, o);
        insertion_keeps_resting_sound(b, o);
        let ib = o.side == Side::Buy;
        if ib {
            sweep_leftover(b.sells, o, b.next_trade_id as int, true);
        } else {
            sweep_leftover(b.buys, o, b.next_trade_id as int, false);
        }
        assert(book_finite(book_after_insert(b, o)));
    }
}

/// Cancelling keeps every book of the engine sound.
pub proof fn cancelling_keeps_books_sound(s: EngineView, id: OrderId)
    requires
        books_sound(s),
    ensures
        books_sound(after_cancel(s, id)),
{
    if cancel_finds(s, id) {
        let b = s.books[s.index[id]@];
        cancel_keeps_book_uncrossed(b, id);
        cancel_keeps_resting_sound(b, id);
        cancel_shortens(b.buys, id);
        cancel_shortens(b.sells, id);
        assert(book_finite(book_after_cancel(b, id)));
    }
}

/// A cancel takes exactly one order out of a side: when it finds the id, the
/// order it gives back sits at some position of some level, carries the id,
/// and the level loses just that entry (one shorter, every other order in its
/// place); every other level stays. When it finds nothing, no level holds the
/// id and the side is unchanged.
pub proof fn cancel_takes_out_one(side: Map<u64, Seq<Order>>, id: OrderId)
    requires
        side.dom().finite(),
    ensures
        ({
            let after = side_after_cancel(side, id);
            match cancelled_from(side, id) {
                Some(o) => exists|p: u64, j: int|
                    {
                        &&& #[trigger] side.contains_key(p)
                        &&& 0 <= j < side[p].len()
                        &&& #[trigger] side[p][j] == o
                        &&& o.id == id
                        &&& after.dom() == side.dom()
                        &&& after[p].len() == side[p].len() - 1
                        &&& forall|k: int| 0 <= k < j ==> #[trigger] after[p][k] == side[p][k]
                        &&& forall|k: int| j <= k < after[p].len() ==> #[trigger] after[p][k] == side[p][k + 1]
                        &&& forall|q: u64| q != p && side.contains_key(q) ==> #[trigger] after[q] == side[q]
                    },
                None => after == side && forall|p: u64| #[trigger] side.contains_key(p) ==> !holds_id(side[p], id),
            }
        }),
{
    reveal(cancel_spot);
    let after = side_after_cancel(side, id);
    match cancel_spot(side, id) {
        Some((p, j)) => {
            let ph = prices_holding(side, id);
            assert(ph.subset_of(side.dom()));
            vstd::set_lib::lemma_set_subset_finite(side.dom(), ph);
            vstd::set_lib::lemma_set_empty_equivalency_len(ph);
            lemma_best_price(ph, true);
            assert(side.contains_key(p));
            assert(holds_id(side[p], id));
            lemma_first_pos(side[p], id);
            assert(after.dom() =~= side.dom());
            let o = side[p][j];
            assert(forall|k: int| 0 <= k < j ==> #[trigger] after[p][k] == side[p][k]);
            assert(forall|k: int| j <= k < after[p].len() ==> #[trigger] after[p][k] == side[p][k + 1]);
            assert(side.contains_key(p) && side[p][j] == o);
        },
        None => {
            let ph = prices_holding(side, id);
            assert forall|p: u64| #[trigger] side.contains_key(p) implies !holds_id(side[p], id) by {
                if holds_id(side[p], id) {
                    assert(ph.contains(p));
                }
            }
        },
    }
}

} // verus!
