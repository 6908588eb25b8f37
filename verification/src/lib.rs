//! State of the claw runtime.
//!
//! - A **router scoreboard** of how often each model succeeded on each class of
//!   prompts, and the selection of a model from it. One keeps its rows in
//!   memory (`eval_router`), the other in a database (`scoreboard`).
//! - An **exact-match cache** of responses, keyed on a digest of the request
//!   (`cache`).
//! - **Memory facts** with recall by keyword (`memory`), and a client for a
//!   memory service (`memory_client`).
//!
//! The database is one SQLite connection (`database`), owned by a store
//! (`store`). Floating-point numbers are held by their bits (`binary64`).

pub mod binary64;
pub mod cache;
pub mod clock;
pub mod database;
pub mod embedding;
pub mod error;
pub mod eval_router;
pub mod memory;
pub mod memory_client;
pub mod rng;
pub mod routing;
pub mod scoreboard;
pub mod store;
pub mod text;

pub use binary64::Binary64;
pub use cache::CacheEntry;
pub use cache::CacheHandle;
pub use cache::CacheKey;
pub use embedding::Binary32;
pub use embedding::EmbeddingProvider;
pub use embedding::NoopEmbeddingProvider;
pub use error::StateError;
pub use eval_router::RouterScoreboard;
pub use eval_router::ScoreboardError;
pub use memory::MemoryFact;
pub use memory::MemoryHandle;
pub use memory::MemoryQuery;
pub use memory::MemoryScope;
pub use memory_client::MemoryClient;
pub use memory_client::MemoryError;
pub use memory_client::MemoryMessage;
pub use memory_client::MemoryRole;
pub use memory_client::NoopMemoryClient;
pub use memory_client::ZepConfig;
pub use memory_client::ZepMemoryClient;
pub use rng::DefaultRng;
pub use rng::RandomSource;
pub use routing::PromptBucket;
pub use routing::Selection;
pub use routing::SelectionReason;
pub use scoreboard::ModelStats;
pub use scoreboard::ScoreboardHandle;
pub use store::StateStore;
