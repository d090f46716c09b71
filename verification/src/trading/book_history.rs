use vstd::prelude::*;

use crate::trading::book_laws::{book_finite, insertion_trades};
use crate::trading::cancel_laws::cancel_shortens;
use crate::trading::matching::{
    book_after_cancel, book_after_insert, insert_ok, trades_of_insert,
};
use crate::trading::order::{Order, OrderId, Side};
use crate::trading::orderbook::{BookView, Trade};
use crate::trading::sweep_laws::sweep_leftover;

verus! {

/// One call on a book: an insertion or a cancel.
pub enum BookStep {
    Insert(Order),
    Cancel(OrderId),
}

/// The book after one step.
pub open spec fn book_after_step(b: BookView, st: BookStep) -> BookView {
    match st {
        BookStep::Insert(o) => book_after_insert(b, o),
        BookStep::Cancel(id) => book_after_cancel(b, id),
    }
}

/// The trades one step makes (a cancel makes none).
pub open spec fn trades_of_step(b: BookView, st: BookStep) -> Seq<Trade> {
    match st {
        BookStep::Insert(o) => trades_of_insert(b, o),
        BookStep::Cancel(_) => Seq::empty(),
    }
}

/// The book after a history of steps, taken in order.
pub open spec fn book_after_steps(b: BookView, steps: Seq<BookStep>) -> BookView
    decreases steps.len(),
{
    if steps.len() == 0 {
        b
    } else {
        book_after_steps(book_after_step(b, steps[0]), steps.drop_first())
    }
}

/// The trades of a history of steps, in the order they happen.
pub open spec fn trades_of_steps(b: BookView, steps: Seq<BookStep>) -> Seq<Trade>
    decreases steps.len(),
{
    if steps.len() == 0 {
        Seq::empty()
    } else {
        trades_of_step(b, steps[0]) + trades_of_steps(book_after_step(b, steps[0]), steps.drop_first())
    }
}

/// Whether every insertion of a history leaves enough trade ids.
pub open spec fn steps_ok(b: BookView, steps: Seq<BookStep>) -> bool
    decreases steps.len(),
{
    steps.len() == 0 || ((steps[0] matches BookStep::Insert(o) ==> insert_ok(b, o)) && steps_ok(
        book_after_step(b, steps[0]),
        steps.drop_first(),
    ))
}

/// One step keeps a book finite.
proof fn lemma_step_finite(b: BookView, st: BookStep)
    requires
        book_finite(b),
    ensures
        book_finite(book_after_step(b, st)),
{
    match st {
        BookStep::Insert(o) => {
            if o.side == Side::Buy {
                sweep_leftover(b.sells, o, b.next_trade_id as int, true);
            } else {
                sweep_leftover(b.buys, o, b.next_trade_id as int, false);
            }
        },
        BookStep::Cancel(id) => {
            cancel_shortens(b.buys, id);
            cancel_shortens(b.sells, id);
        },
    }
}

/// Trade ids run on without gap or repeat over any history of insertions and
/// cancels: the trades get the ids `next_trade_id`, `next_trade_id + 1`, ...
/// of the book they started from, in the order they happen, and the book's
/// next id ends past the last one. A book made by `OrderBook::new` starts at
/// 1, so its trades are numbered 1, 2, 3, ...
pub proof fn trade_ids_run_on(b: BookView, steps: Seq<BookStep>)
    requires
        book_finite(b),
        steps_ok(b, steps),
    ensures
        ({
            let ts = trades_of_steps(b, steps);
            &&& forall|i: int| 0 <= i < ts.len() ==> #[trigger] ts[i].trade_id == b.next_trade_id + i
            &&& book_after_steps(b, steps).next_trade_id == b.next_trade_id + ts.len()
        }),
    decreases steps.len(),
{
    if steps.len() > 0 {
        let st = steps[0];
        let b1 = book_after_step(b, st);
        let t0 = trades_of_step(b, st);
        let rest = trades_of_steps(b1, steps.drop_first());
        lemma_step_finite(b, st);
        trade_ids_run_on(b1, steps.drop_first());
        match st {
            BookStep::Insert(o) => {
                insertion_trades(b, o);
                assert(forall|i: int| 0 <= i < t0.len() ==> #[trigger] t0[i].trade_id == (b.next_trade_id + i) as u64);
            },
            BookStep::Cancel(id) => {},
        }
        let ts = trades_of_steps(b, steps);
        assert(ts == t0 + rest);
        assert forall|i: int| 0 <= i < ts.len() implies #[trigger] ts[i].trade_id == b.next_trade_id + i by {
            if i < t0.len() {
                assert(ts[i] == t0[i]);
            } else {
                assert(ts[i] == rest[i - t0.len()]);
            }
        }
    }
}

/// Matching is deterministic: two equal books (such as two made by
/// `OrderBook::new` from equal markets) given the same history of insertions
/// and cancels make the same trades and end equal; `insert_order` and
/// `cancel_order` return exactly what these functions of the book say, so
/// the calls on the two books return equal results.
pub proof fn history_is_deterministic(b1: BookView, b2: BookView, steps: Seq<BookStep>)
    requires
        b1 == b2,
    ensures
        trades_of_steps(b1, steps) == trades_of_steps(b2, steps),
        book_after_steps(b1, steps) == book_after_steps(b2, steps),
{
}

} // verus!
