//! Streaming approximate-statistics data structures over string items:
//! set membership ([`BloomFilter`]), frequency estimation
//! ([`CountMinSketch`]), distinct counting ([`HyperLogLog`]) and approximate
//! top-K tracking ([`HeavyKeeper`]).
//!
//! Every structure is a fixed-size table indexed by a seeded hash family;
//! each operation carries a contract over a mathematical model of the table.

pub mod error;
pub mod hashing;
pub mod bloom;
pub mod count_min_sketch;
pub mod probability;
pub mod ranking;
pub mod heavy_keeper;
pub mod hyperloglog;

pub use bloom::BloomFilter;
pub use error::SketchError;
pub use count_min_sketch::CountMinSketch;
pub use heavy_keeper::HeavyKeeper;
pub use hyperloglog::HyperLogLog;
pub use ranking::TopKItem;
