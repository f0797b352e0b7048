# dlob

A decentralised limit order book, verified with Verus: the orders of the users of
an exchange, kept by market, list and side, with the search for orders that can be
filled or triggered, and the user accounts that the orders come from.

## Layout

- `src/types.rs`, `src/pubkey.rs`: orders, markets, exchange settings, addresses.
- `src/math/`: auctions, prices, resting and expiry of an order.
- `src/market_operations.rs`: what the search asks of a perp or a spot market.
- `src/index.rs`, `src/dlob/heap.rs`: the concurrent hash maps and the binary heap
  that the book is stored in. These two files and `src/pubkey.rs` hold every
  contract that is taken on trust; each says which outside function it speaks of.
- `src/dlob/`: the book.
  - `order_queue.rs`, `order_list.rs`, `market.rs`, `exchange.rs`: how orders are
    stored.
  - `book.rs`: the book as mathematics, and how inserting and updating change it.
  - `resting.rs`: limit orders come to rest when their auctions are over.
  - `quotes.rs`, `sorting.rs`: makers by price and takers by slot.
  - `watermark.rs`: the last slot a book was brought to, which copies have in common.
  - `matching.rs`, `readiness.rs`, `fills.rs`, `search.rs`: the search for orders
    to fill and to trigger.
  - `steady.rs`: what it takes, order by order, for a market to be searched.
  - `checked.rs`: the search with a test of the orders before it.
  - `users.rs`: building the book from the accounts of the users.
  - `laws.rs`: what holds of the book as a whole.
- `src/usermap.rs`, `src/order_subscriber.rs`: the accounts, and the steps of
  following them.
- `app/`: the connection to the network, listeners, and printing.
