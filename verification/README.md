# matching_core

Order matching for binary prediction markets, verified with Verus.

- `src/api.rs` — commands, trade events, symbol specifications and depth data.
- `src/book.rs` — a price-time priority limit order book (`DirectOrderBook`)
  with its abstract state (`BookState`), the matching function it implements
  (`new_order_result`, `match_side`), cancellation and depth, and the lemmas
  behind them: sides stay sorted, ids unique, the book is never crossed,
  trades take exactly their volume from the book, and cancelling undoes
  resting.
- `src/prediction.rs` and `src/prediction/` — YES/NO tokens, prices scaled by
  `PRICE_SCALE`, the match-type encoding of `events_group`, order conversion
  and symbol ids, the unified YES/NO book with normal, mint and merge
  matching, the cross-book consistency check, snapshots with a checksum,
  the replayable event log, and the numbering and naming of snapshot files.
- `app/` — serializable copies of the types (serde, bincode), snapshot files
  on disk and recovery from them, and the logging of both and of
  consistency warnings.
- `tests/` — matching scenarios, unit tests, and checks of the laws on concrete values.
