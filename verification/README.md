# alice_cache

A predictive caching toolkit whose logic is proved with Verus.

- `src/` is the verified library:
  - `cache` — the sharded cache (`AliceCache`): shard selection, node
    ownership by jump hashing, hit/miss/insert counters;
  - `shard` — one shard: a dense slab with a key index, a Count-Min sketch and
    sampled eviction (`ShardInner`), behind a `parking_lot` mutex (`CacheShard`);
  - `batch` — batch put/get/remove;
  - `sketch` — Count-Min sketch with saturating `u8` counters;
  - `oracle` — Markov prefetch oracle, owned (`MarkovOracle`) or shared
    between threads with atomic counters (`SharedOracle`);
  - `jump_hash` — jump consistent hashing, with the double-precision jump
    formula evaluated exactly in integers;
  - `compression` — run-length value compression;
  - `crdt` — hybrid clocks and mergeable invalidation logs;
  - `tiered` — a hot/warm two-tier store;
  - `crypto_bridge` — BLAKE3-signed and XChaCha20-Poly1305-sealed entries;
  - `str_map` — a string-keyed map kept sorted by key bytes.
- `app/` holds what the verifier cannot take: the Python bindings, latency and
  cardinality metrics (floating point), and ratios as floats.
- `tests/` exercises the library at run time.

Notes:

- `PaddedAtomicU64` gets its 64-byte alignment from a zero-length array of
  `core::arch::x86_64::__m512i`, since `#[repr(align(64))]` is not available in
  verified code. The crate therefore builds on x86_64 targets only.
- `CryptoCache` keeps its key as the 32 raw key bytes and builds an
  `alice_crypto::Key` for each seal or open. The bytes it holds are not
  zeroed when the cache is dropped, unlike a `Key` kept for the cache's
  lifetime.
- The shard index maps keys to slab positions with `std::collections::HashMap`,
  whose behaviour vstd specifies, rather than `hashbrown::HashMap`: the index
  is generic in the key type, and a name for the contents of a map of a
  generic key cannot be declared here.
- The tiered store and the invalidation log keep string-keyed entries in
  `str_map::StrMap`, a `Vec` kept sorted by key bytes, rather than
  `BTreeMap<String, _>`: vstd's `BTreeMap` specification states nothing for
  `String` keys (not even the length after one insert), and both users need
  the key order.
- A cache spreads its capacity over its shards so that the shard capacities
  add up to it exactly: each shard gets the quotient, and the first
  `capacity % num_shards` shards one more.
- A cache's hash builder is keyed by 32 bytes from the operating system's
  random source; when that source fails, fixed seeds are used instead of
  stopping the program.
