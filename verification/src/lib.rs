//! Predictive caching toolkit: a sharded cache with sampled eviction,
//! Count-Min frequency sketches, a Markov prefetch oracle, jump consistent
//! hashing, run-length value compression, CRDT invalidation logs, a two-tier
//! store, batch operations and tamper-evident or encrypted entries.
use vstd::prelude::*;

pub mod batch;
pub mod cache;
pub mod compression;
pub mod crdt;
pub mod crypto_bridge;
pub mod jump_hash;
pub mod oracle;
pub mod shard;
pub mod sketch;
pub mod str_map;
pub mod tiered;

pub use batch::BatchGetResult;
pub use cache::{AliceCache, CacheConfig, CacheStats, PaddedAtomicU64, StandardCache};
pub use compression::{compress, decompress, CompressedEntry, CompressionConfig, CompressionStats};
pub use crdt::{CrdtClock, InvalidationEntry, InvalidationLog};
pub use crypto_bridge::{CryptoCache, CryptoError, EncryptedEntry, SignedEntry};
pub use jump_hash::{jump_hash, jump_hash_batch, jump_hash_bytes, jump_hash_u128};
pub use oracle::{MarkovOracle, SharedOracle};
pub use shard::{CacheShard, ShardInner};
pub use sketch::{CountMinSketch, Sketch16K, Sketch1K, Sketch4K};
pub use tiered::{TieredCache, TieredConfig};

verus! {

/// Version of the library.
pub const VERSION: &'static str = "0.2.0-charred";

} // verus!
