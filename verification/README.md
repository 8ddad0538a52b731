# engine

A price-time priority order matching engine, verified with Verus, and the decisions of the two
services around it: an API server that takes orders in, and a matcher that matches them.

- Best price first: the highest bid and the lowest ask trade before the others.
- First in, first out at each price.
- A fill is at the price of the resting order. What is left of the incoming order rests at its own
  price.

## Layout

| Path | What it holds |
| --- | --- |
| `src/model.rs` | what matching means, over sequences of orders |
| `src/ladder.rs` | one side of the book: a queue of orders for each price |
| `src/book.rs` | `OrderBook` |
| `src/laws.rs` | what holds of every submission |
| `src/totals.rs` | how quantities move: at each price, over a history, when an order is split |
| `src/symmetry.rs` | that buying and selling are mirror images |
| `src/matcher.rs` | numbering and matching the orders of a stream, and when an entry is acknowledged |
| `src/intake.rs` | order ids, and how a posted order is answered |
| `src/feed.rs` | how fills reach the clients |
| `src/snapshot.rs` | how the book is published and requested |
| `app/` | the processes: HTTP, WebSocket and Redis |

## What is trusted

Besides Verus and its library, one call: `serde_json::from_str` for a `serde_json::Value`, in
`src/snapshot.rs`.

## Limits

`bids_snapshot` and `asks_snapshot` need the total at each price to be a `u64`; the `checked_`
variants return `None` where it is not. A matcher numbers up to `u64::MAX` orders.

Order ids are unique as long as an instance counts fewer than 2^32 orders: beyond that the count
runs into the half of the id that holds the instance.
