# chortke

A limit order book with price-time priority, and what a matching engine needs around it. The
library is written in Rust and verified with [Verus](https://github.com/verus-lang/verus): its
functions state in `requires` and `ensures` what they expect and what they do.

## Layout

- `src/order.rs`, `src/trade.rs`, `src/sequence.rs`, `src/user.rs`, `src/market.rs`: the plain
  types.
- `src/collections/`: a hash map and a slab that can hand out a point-in-time view of themselves.
  `model.rs` says what such a view shows, and proves that later changes do not disturb it.
- `src/order/book.rs`: the interfaces of an order book.
  - `model.rs`: the book as mathematics, and the laws of matching.
  - `fills.rs`: what has been executed of an order, and its average price.
  - `tree_map.rs`: the book, kept in price levels with linked queues.
  - `warm_model.rs`, `warm_book.rs`: the book together with the recently closed orders.
  - `recovery.rs`: what a snapshot brings back.
- `src/matcher.rs`: sequence numbers over a book.
- `src/order/wire.rs`, `src/snapshot.rs`, `src/encoding.rs`: the bytes of orders and of snapshot
  files.
- `src/api/`, `src/config.rs`, `src/text.rs`: what the HTTP API decides, and the configuration.
- `app/`: the server around the library: files, HTTP, logging, configuration sources.
- `tests/`: tests of the compiled library.

## Where to read the laws

Every property that spans several operations is a proof function whose name begins with `law_`.
The main ones are in `src/order/book/model.rs` (price-time priority, volume accounting, uncrossed
books, average prices), `src/collections/model.rs` (snapshot isolation),
`src/order/book/recovery.rs` (restoring, and what the index knows), `src/matcher.rs` (what holds of
every matcher), `src/order/wire.rs` and `src/snapshot.rs` (reading back what was written).

## What is trusted

Calls into other crates stand behind small functions marked `#[verifier::external_body]`, each with
a comment that says what is claimed of the call, or that nothing is: bincode, zstd, blake3, slab,
time, and a few functions of std. That memory suffices is taken for granted.
