# rust_matching_engine

A small limit-order matching engine: limit and market orders, price-time
priority, partial fills, a resting order book, a trade log, cancellation and
modification through an order-location index, engine statistics, and a
scenario runner. The library is written in Verus and its behaviour is proved
against contracts.

## Layout

- `src/types.rs`: `Side`, `Price` (integer cents, always positive) and the
  price reader and writer.
- `src/order.rs`, `src/trade.rs`: orders and trades.
- `src/order_book.rs`: the book. Each side is one sequence of orders in
  ascending price order and, within a price level, in arrival order; the
  depth view.
- `src/matching.rs`: the matching rule as a specification (`match_orders`)
  and what it keeps of a live book.
- `src/engine.rs`: the engine: submissions, market orders, cancellation,
  modification, statistics.
- `src/stats.rs`: the statistics snapshot and its report.
- `src/scenario.rs`: the scenario language: reading command lines and
  writing the report lines.
- `src/text.rs`: decimal writing, integer reading, trimming and splitting
  text.
- `src/laws.rs`: properties of the engine as a whole, proved.
- `src/benchmark.rs`: the generated benchmark orders and the loop that submits
  them.
- `app/main.rs`: the command-line program (demo, scenario files, single
  submissions, benchmark).

## The shape of the book

Each side is one vector of orders sorted by price and, within a price, by
arrival, rather than a map from price to a queue of orders. The map would need
operations that vstd's specification of `BTreeMap` does not cover: the first
and last key (best ask, best bid), a mutable borrow of one level's queue, and
ranges of levels. Each of those would be an unproved wrapper around std. With
the sorted vector every step of matching, cancelling and modifying is proved,
and nothing about the book rests on a trusted item. The price of that choice is
speed: adding or taking out an order shifts the vector, where the map would
find the level in logarithmic time. The order index (a `HashMap` from id to
side and price) still takes a cancellation straight to its level, and a binary
search finds the level in the vector.
