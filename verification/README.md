# veloxfi-core

The trading core of VeloxFi: limit order books with price-time priority,
accounts with per-asset balances, positions with average entry price and
realized profit, and an event log from which the state can be replayed.

The library under `src/` is written in Verus and verified: every public
function carries a contract over a mathematical model of the engine
(`trading::ledger::EngineView`, `trading::orderbook::BookView`), and the
matching rules themselves are spec functions (`trading::matching`).

Layout of `src/trading/`:

- `order.rs`, `market.rs`, `events.rs`, `persister.rs`: the plain data types.
- `matching.rs`: the matching rules (level fills, sweeps of a side, cancels).
- `orderbook.rs`: the book, held as price-keyed `BTreeMap`s of FIFO levels.
- `account.rs`, `positions.rs`, `strmap.rs`: balances, positions, and the
  string-keyed association list that holds them.
- `ledger.rs`: the engine's model and its rules (placing, settling, cancelling,
  replaying).
- `engine.rs`: the engine. `place_limit_order` matches an order and settles
  each of its trades; `match_order` and `settle_trade` are those two steps for
  a caller that writes each trade to the log before it is settled. Every
  operation that the log records does exactly what replaying its events does.
  Settling a trade always updates both parties' positions; balances move only
  when both parties have accounts and each holds what it gives.
- `properties.rs`, `sweep_laws.rs`, `book_laws.rs`, `cancel_laws.rs`,
  `resting_laws.rs`, `book_history.rs`: proved properties of the matching, the
  books, the accounts and the replay (replaying a run's log restores its state;
  settlement conserves every asset; trade ids run on without gaps).

`app/` is the HTTP service around the library: the JSON forms of the events,
the log files (each change is written to the log before it is applied), and
the actix-web handlers.
