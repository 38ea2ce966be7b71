//! Vocabulary shared with the other ledgers of the platform the oracle
//! network ships with: plain status and classification tags, carried as data
//! and interpreted by their own subsystems.

use vstd::prelude::*;

verus! {

/// Regulatory jurisdiction a project is registered under.
#[derive(Clone, Copy, Debug, PartialEq, Eq, Structural)]
pub enum Jurisdiction {
    Global,
    UnitedStates,
    EuropeanUnion,
    UnitedKingdom,
}

/// Lifecycle of an escrow milestone.
#[derive(Clone, Copy, Debug, PartialEq, Eq, Structural)]
pub enum MilestoneStatus {
    Pending,
    Submitted,
    Approved,
    Rejected,
}

/// Lifecycle of a governance proposal.
#[derive(Clone, Copy, Debug, PartialEq, Eq, Structural)]
pub enum ProposalStatus {
    Active,
    Approved,
    Rejected,
    Executed,
}

/// A governance ballot choice.
#[derive(Clone, Copy, Debug, PartialEq, Eq, Structural)]
pub enum VoteOption {
    Abstain,
    Yes,
    No,
}

/// Blockchain networks the bridge can face.
#[derive(Clone, Copy, Debug, PartialEq, Eq, Structural)]
pub enum ChainId {
    Ethereum,
    Polygon,
    BinanceSmartChain,
    Avalanche,
    Arbitrum,
    Optimism,
    Base,
}

/// Lifecycle of a bridge transaction.
#[derive(Clone, Copy, Debug, PartialEq, Eq, Structural)]
pub enum BridgeTransactionStatus {
    Pending,
    Confirmed,
    Executed,
    Failed,
    Refunded,
}

/// Direction of a bridge operation.
#[derive(Clone, Copy, Debug, PartialEq, Eq, Structural)]
pub enum BridgeOperationType {
    Deposit,
    Withdraw,
}

/// Lifecycle of a crowdfunded project.
#[derive(Clone, Copy, Debug, PartialEq, Eq, Structural)]
pub enum ProjectStatus {
    Active,
    Completed,
    Failed,
    Cancelled,
}

/// Reputation badges a participant can earn.
#[derive(Clone, Copy, Debug, PartialEq, Eq, Structural)]
pub enum BadgeType {
    Contributor,
    VerifiedCreator,
    TopInvestor,
    EarlyAdopter,
    FirstProject,
}

/// Billing cadence of a subscription.
#[derive(Clone, Copy, Debug, PartialEq, Eq, Structural)]
pub enum SubscriptionPeriod {
    Weekly,
    Monthly,
    Quarterly,
}

/// Lifecycle of a subscription.
#[derive(Clone, Copy, Debug, PartialEq, Eq, Structural)]
pub enum SubscriptionStatus {
    Active,
    Cancelled,
    Paused,
}

/// Failure conditions of the multi-party payment splitter.
#[derive(Clone, Copy, Debug, PartialEq, Eq, Structural)]
pub enum MultiPartyPaymentError {
    InvalidInput,
    InvalidShareTotal,
    PartyIndexOutOfBounds,
    PartiesNotSetup,
    PartyMismatch,
    NoClaimableAmount,
}

/// An emergency-pause record: whether a ledger is paused, since when, and the
/// earliest clock at which it may resume.
#[derive(Clone, Copy, Debug, PartialEq, Eq, Structural)]
pub struct PauseState {
    pub paused: bool,
    pub paused_at: u64,
    pub resume_not_before: u64,
}

} // verus!
