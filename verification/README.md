# exchange

A limit order book with a dark pool, and a trading game played on it, with
its logic proved correct against its contracts.

- `src/types.rs`: orders, trades, requests, trader status and responses.
  A price is held as an integer key of the trader's `f64`, ordered and
  compared as the `f64` is.
- `src/priority.rs`, `src/sorting.rs`: price, visibility and time priority,
  and the stable sort of a queue.
- `src/book.rs`: the book: adding an order (sorting its queue and matching it
  against the other side) and withdrawing one.
- `src/book_laws.rs`: a well-formed book stays well formed (ranked,
  one-sided, uncrossed), quantity is conserved, and trades respect both
  limit prices.
- `src/ids.rs`: order ids from a `rustflake` snowflake generator, whose
  clock reading and sequence number are followed from id to id.
- `src/id_laws.rs`: serving a request with an id that no book holds, and
  settling, keep order ids unique.
- `src/game.rs`: the game: goals, refusal of orders, recounting of traders
  from the trades, withdrawal of orders that no longer fit, and what each
  trader is shown.
- `src/game_laws.rs`: goals alternate; after settling, every trader keeps
  only the orders its status allows.
- `src/display.rs`: share counts, table rows, the status words and the
  order lines on the trader's screen.
- `app/`: the websocket server and the browser client, with the wire
  format (serde) and floating-point prices.
