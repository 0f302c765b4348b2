//! Lower-tier KV-cache matching and remote reuse planning.
//!
//! A router that places requests on inference workers wants to know how much of
//! a request's prefix each worker already holds, on its device and on the
//! storage tiers below it. [`indexer`] keeps one block index per lower tier and
//! extends a device match down through them; [`remote_g2_plan`] decides whether
//! a target worker should pull a prefix from a peer's host-pinned memory.

pub mod protocols;
pub mod listing;
pub mod tier_map;
pub mod worker_map;
pub mod indexer;
pub mod remote_g2_plan;
pub mod plan_laws;
pub mod decision_laws;
