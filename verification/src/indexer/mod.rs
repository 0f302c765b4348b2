//! Block indexes of the storage tiers below the device.

pub mod anchor_map;
pub mod chain_laws;
pub mod laws;
pub mod lower_tier;
pub mod lower_tier_indexers;
pub mod match_details;
pub mod query_laws;
pub mod thread_pool;
pub mod wire;
pub mod wire_laws;

pub use anchor_map::{AnchorMap, CrossWorkerAnchor};
pub use lower_tier::{LowerTierContinuation, LowerTierIndexer, LowerTierMatchDetails};
pub use lower_tier_indexers::{
    lower_tier_query_order, merge_matches, query_lower_tiers, LowerTierIndexers,
};
pub use match_details::{MatchDetails, TieredMatchDetails};
pub use thread_pool::{KvIndexerMetrics, ThreadPoolIndexer};
pub use wire::{WireLowerTierMatchDetails, WireOverlapScores, WireTieredMatchDetails};
