//! The failure conditions of the oracle network. Every operation aborts with
//! one of these and leaves the network untouched, or commits in full.

use vstd::prelude::*;

verus! {

/// Why a call into the oracle network was rejected.
#[derive(Clone, Copy, Debug, PartialEq, Eq, Structural)]
pub enum Error {
    /// The network has no admin yet and the call needs one.
    NotInitialized,
    /// The caller is not the stored admin.
    Unauthorized,
    /// An oracle list was empty.
    NoOracles,
    /// An oracle list was longer than the per-feed cap.
    TooManyOracles,
    /// The feed id is already configured; feeds are never overwritten.
    FeedExists,
    /// No feed is configured under this id.
    UnknownFeed,
    /// The submitter is not a member of the feed's oracle set.
    NotOracle,
    /// The reported timestamp lies further in the future than the feed's
    /// heartbeat allows.
    TimestampSkew,
    /// The submitter already has a report counted in the current round.
    DuplicateReport,
    /// A stake, unstake or slash amount was not strictly positive.
    InvalidAmount,
    /// An unstake asked for more than the oracle has staked.
    InsufficientStake,
    /// The staking token handle was never registered.
    StakingTokenNotSet,
    /// The reward token handle was never registered.
    RewardTokenNotSet,
    /// A ledger counter or balance would leave its machine range.
    Overflow,
}

} // verus!
