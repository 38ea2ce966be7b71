//! Per-feed data: configuration (with its creation-time normalization), the
//! finalized state, and the reports of the round currently accumulating.

use vstd::prelude::*;

verus! {

/// No feed may name more than this many oracles.
pub const ORACLE_MAX_ORACLES_PER_FEED: u32 = 16;

/// Heartbeat given to feeds created with `heartbeat_seconds == 0`.
pub const ORACLE_DEFAULT_HEARTBEAT: u64 = 60;

/// Upper bound (and default) for a feed's deviation allowance, in basis
/// points.
pub const ORACLE_MAX_DEVIATION_BPS: u32 = 5000;

/// What a feed measures. A tag only: the engine treats all three alike.
#[derive(Clone, Copy, Debug, PartialEq, Eq, Structural)]
pub enum OracleFeedType {
    Price,
    Event,
    Statistic,
}

/// A feed's configuration, immutable after creation except for the oracle
/// set, which lives beside it. `deviation_bps` is normalized and carried but
/// no engine path enforces it yet; enforcement would be a product decision,
/// not a repair.
#[derive(Clone)]
#[verifier::ext_equal]
pub struct OracleFeedConfig {
    pub feed_type: OracleFeedType,
    pub description: String,
    pub decimals: u32,
    pub heartbeat_seconds: u64,
    pub deviation_bps: u32,
    pub min_oracles: u32,
    pub max_oracles: u32,
    pub reward_per_submission: i128,
}

/// A feed's last finalized round: all zeros until the first finalize.
#[derive(Clone, Copy, Debug, PartialEq, Eq, Structural)]
pub struct OracleFeedState {
    pub latest_value: i128,
    pub latest_round_id: u64,
    pub latest_timestamp: u64,
    pub latest_updated_at_ledger: u64,
}

/// One oracle's observation in the round currently accumulating.
#[derive(Clone, Copy, Debug, PartialEq, Eq, Structural)]
pub struct OracleReport {
    pub oracle: u64,
    pub value: i128,
}

/// What a finalized round publishes: the notification a host would emit.
#[derive(Clone, Copy, Debug, PartialEq, Eq, Structural)]
pub struct FeedUpdate {
    pub feed_id: u64,
    pub value: i128,
    pub round_id: u64,
    pub timestamp: u64,
}

/// The configuration a feed is actually stored with, given the one handed to
/// `create_feed`: zero heartbeats, deviations and quorums fall back to the
/// network defaults, the oracle caps are clamped, and `max_oracles` is raised
/// to `min_oracles` where the two cross.
pub open spec fn normalize_config(c: OracleFeedConfig) -> OracleFeedConfig {
    OracleFeedConfig {
        feed_type: c.feed_type,
        description: c.description,
        decimals: c.decimals,
        heartbeat_seconds: if c.heartbeat_seconds == 0 {
            ORACLE_DEFAULT_HEARTBEAT
        } else {
            c.heartbeat_seconds
        },
        deviation_bps: if c.deviation_bps == 0 || c.deviation_bps > ORACLE_MAX_DEVIATION_BPS {
            ORACLE_MAX_DEVIATION_BPS
        } else {
            c.deviation_bps
        },
        min_oracles: if c.min_oracles == 0 {
            1
        } else {
            c.min_oracles
        },
        max_oracles: {
            let clamped = if c.max_oracles == 0 || c.max_oracles > ORACLE_MAX_ORACLES_PER_FEED {
                ORACLE_MAX_ORACLES_PER_FEED
            } else {
                c.max_oracles
            };
            let floor = if c.min_oracles == 0 {
                1
            } else {
                c.min_oracles
            };
            if floor > clamped {
                floor
            } else {
                clamped
            }
        },
        reward_per_submission: c.reward_per_submission,
    }
}

/// Runs the creation-time normalization.
pub fn normalize(c: OracleFeedConfig) -> (r: OracleFeedConfig)
    ensures
        r == normalize_config(c),
{
    let heartbeat_seconds = if c.heartbeat_seconds == 0 {
        ORACLE_DEFAULT_HEARTBEAT
    } else {
        c.heartbeat_seconds
    };
    let deviation_bps = if c.deviation_bps == 0 || c.deviation_bps > ORACLE_MAX_DEVIATION_BPS {
        ORACLE_MAX_DEVIATION_BPS
    } else {
        c.deviation_bps
    };
    let min_oracles = if c.min_oracles == 0 {
        1
    } else {
        c.min_oracles
    };
    let clamped = if c.max_oracles == 0 || c.max_oracles > ORACLE_MAX_ORACLES_PER_FEED {
        ORACLE_MAX_ORACLES_PER_FEED
    } else {
        c.max_oracles
    };
    let max_oracles = if min_oracles > clamped {
        min_oracles
    } else {
        clamped
    };
    OracleFeedConfig {
        feed_type: c.feed_type,
        description: c.description,
        decimals: c.decimals,
        heartbeat_seconds,
        deviation_bps,
        min_oracles,
        max_oracles,
        reward_per_submission: c.reward_per_submission,
    }
}

/// Normalizing is idempotent, so a stored configuration is exactly one that
/// normalization leaves alone.
pub proof fn lemma_normalize_idempotent(c: OracleFeedConfig)
    ensures
        normalize_config(normalize_config(c)) == normalize_config(c),
{
    assert(normalize_config(normalize_config(c)) =~= normalize_config(c));
}

/// The field conditions that hold of exactly the configurations that
/// normalization leaves alone.
pub open spec fn config_normalized(c: OracleFeedConfig) -> bool {
    &&& c.heartbeat_seconds != 0
    &&& 1 <= c.deviation_bps <= ORACLE_MAX_DEVIATION_BPS
    &&& c.min_oracles >= 1
    &&& {
        ||| (1 <= c.max_oracles <= ORACLE_MAX_ORACLES_PER_FEED && c.min_oracles <= c.max_oracles)
        ||| (c.max_oracles == c.min_oracles && c.min_oracles > ORACLE_MAX_ORACLES_PER_FEED)
    }
}

/// Being a fixed point of normalization is the same as satisfying the field
/// conditions above.
pub proof fn lemma_config_fixed_point(c: OracleFeedConfig)
    ensures
        (c == normalize_config(c)) <==> config_normalized(c),
{
    if config_normalized(c) {
        assert(normalize_config(c) =~= c);
    }
}

} // verus!
