//! A decentralized data-feed oracle network: staked reporters submit
//! observations for named feeds, rounds are finalized by median aggregation
//! once a quorum of distinct reports is reached, and an economic ledger
//! (staking, per-submission rewards, administrative slashing) keeps the
//! reporters honest.
//!
//! Identities (oracles, the admin, token handles) and feed names are carried
//! as plain `u64` handles: authentication, the durable store and the token
//! transfers themselves are the host's business, outside this crate.

pub mod errors;
pub mod feed;
pub mod laws;
pub mod math;
pub mod median;
pub mod network;
pub mod platform;
pub mod table;
