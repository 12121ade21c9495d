# matching_engine

A matching engine for buy and sell orders, verified with Verus.

- `src/offers.rs`: orders, their sides and their monotonic keys (counters
  stored as eight big-endian bytes).
- `src/matches.rs`: trade records and their keys.
- `src/typed_tree.rs`: the big-endian key encoding, reading a key back, and
  the counter that monotonic keys continue from.
- `src/engine/`: the engine with a binary heap per side of the book.
  `book.rs` holds the model: a side is a multiset of resting orders served
  in priority order (price, then key, then amount), and matching an order is a sweep of the opposite
  side. `engine_bheap.rs` holds the heap and its matching, `mod.rs` the
  engine, its contract, what one step of its run does with an order
  received, and the marker that ends a run.
- `src/engine_btree.rs`: a second engine that keeps each side as an ordered
  set and matches against the range of the opposite side up to the limit.
- `app/`: the program around the library: the run loop of the engine over
  its channels, a
  typed store over sled, serde copies of the record types, and the scaling
  of floating-point orders.
