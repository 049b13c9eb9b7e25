//! Session-aware admission control: per-session program placement, retention
//! and pressure handling for a policy class of the KV router.

pub mod types;
pub mod ordered;
pub mod keysort;
pub mod program;
pub mod usage;
pub mod sessions;
pub mod model;
pub mod rebalance;
pub mod policy;
pub mod laws;
pub mod capacity;
pub mod registration;
