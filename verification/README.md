# foyer_blocks

The block storage engine of a hybrid cache, with its rules verified by Verus.

- `src/` is the library. Every function states in its contract what it does, and Verus proves it, but
  for five small functions that call other code and whose contracts are believed: `read_clock`,
  `duration_since_epoch` and `duration_as_micros` in `clock` (std's clock), `group_by_shard` in
  `engine::block::indexer` (`itertools`), and `choose_block` in `engine::block::manager` (`rand`).
  - `clock`: timestamps.
  - `counter`: counters that all copies of an entry address share.
  - `record`: the records of the memory tier.
  - `engine`: the types that disk cache engines share.
  - `engine::block::indexer`: the index from key hash to entry address. `model` says what an index is,
    and `index_laws` what holds of it.
  - `engine::block::plan`, `manager`, `eviction`: the division of a device into blocks, the life of the
    blocks, and how blocks are picked for eviction. `lifecycle` says what the life of a block is, and
    `lifecycle_laws` what holds of it.
- `tests/` runs the library.
- `app/` is ordinary Rust around the library: devices, locks, tasks and the delivery of events.
