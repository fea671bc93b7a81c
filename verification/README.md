# simmarket

The exchange core of a market simulation, verified with Verus: a limit order book with
price-time priority, stop and stop-limit orders with recursive stop cascades, IOC, FOK and
iceberg orders, an intra-tick event queue, and a tick engine that feeds the books and builds
one-minute OHLCV candles.

Prices are fixed-point integers (`Price`, one unit = $0.0001). Dollar conversion, which needs
floating point, lives in `app/`.

Layout:

- `src/shared/types.rs` — orders, trades, candles, and when an order is valid.
- `src/sim/book_model.rs` — the mathematical model of a book (each side a list of price levels
  in ascending order) and the specification of matching, cancelling and stop triggering,
  with the lemmas about them.
- `src/sim/exchange.rs` — `LimitOrderBook`, proved to implement the model.
- `src/sim/event_queue.rs` — `EventQueue`, proved to drain in ascending offset order, first in
  first out among equal offsets.
- `src/sim/engine.rs` — `SimState::tick`, specified as a run of the drained events.
- `src/sim/laws.rs` — properties of the whole: the book never crosses; a sweep trades exactly
  the smaller of what the order has left (an iceberg's hidden reserve included, replenished
  slice by slice) and what the crossing levels hold, best price first and oldest order first
  within a level; FOK is all-or-nothing at any depth of a stop cascade; the cascade is capped;
  only limit and iceberg remainders rest; stop orders wait until triggered and can be
  cancelled; cancel finds exactly what is present; triggered stops leave none behind; the best
  prices are the extremes of each side; candles stay consistent.
- `app/lib.rs` — dollar prices, NaN rejection, and dollar views of trades and candles.
