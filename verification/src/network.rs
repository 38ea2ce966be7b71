//! The oracle network's state machine: feed registry, submission and
//! aggregation engine, staking and rewards ledger, safe-read queries and
//! administrative control.
//!
//! Every operation either commits in full or returns an error and leaves the
//! state exactly as it was. The host around the crate authenticates callers,
//! performs the token transfers an operation asks for, and emits the
//! notifications an operation returns; the decisions themselves are all here.

use vstd::prelude::*;

use crate::errors::Error;
use crate::feed::{
    normalize, normalize_config, FeedUpdate, OracleFeedConfig, OracleFeedState, OracleReport,
    ORACLE_MAX_ORACLES_PER_FEED,
};
use crate::median::{aggregate_median, median_of};
use crate::table::Table;

verus! {

/// One feed's stored data: its configuration, its authorized oracle set, its
/// last finalized state, and the reports of the round currently
/// accumulating (empty when no round is in flight).
#[derive(Clone)]
pub struct Feed {
    pub config: OracleFeedConfig,
    pub oracles: Vec<u64>,
    pub state: OracleFeedState,
    pub reports: Vec<OracleReport>,
}

/// The mathematical shadow of a `Feed`.
pub struct FeedView {
    pub config: OracleFeedConfig,
    pub oracles: Seq<u64>,
    pub state: OracleFeedState,
    pub reports: Seq<OracleReport>,
}

impl View for Feed {
    type V = FeedView;

    open spec fn view(&self) -> FeedView {
        FeedView {
            config: self.config,
            oracles: self.oracles@,
            state: self.state,
            reports: self.reports@,
        }
    }
}

/// The mathematical shadow of the whole network.
pub struct NetworkView {
    pub admin: Option<u64>,
    pub staking_token: Option<u64>,
    pub reward_token: Option<u64>,
    pub feeds: Map<u64, FeedView>,
    pub stakes: Map<u64, i128>,
    pub rewards: Map<u64, i128>,
}

/// A balance ledger read: unknown oracles hold zero.
pub open spec fn balance_or0(m: Map<u64, i128>, o: u64) -> i128 {
    if m.contains_key(o) {
        m[o]
    } else {
        0
    }
}

/// Whether `oracle` already has a report in the round.
pub open spec fn has_reported(reports: Seq<OracleReport>, oracle: u64) -> bool {
    exists|i: int| 0 <= i < reports.len() && reports[i].oracle == oracle
}

/// No oracle occurs twice in a round's reports.
pub open spec fn distinct_reporters(reports: Seq<OracleReport>) -> bool {
    forall|i: int, j: int|
        0 <= i < j < reports.len() ==> (#[trigger] reports[i]).oracle
            != (#[trigger] reports[j]).oracle
}

/// The reported values, in submission order.
pub open spec fn report_values(reports: Seq<OracleReport>) -> Seq<i128> {
    reports.map_values(|r: OracleReport| r.value)
}

/// The reporting oracles, in submission order.
pub open spec fn reporters_of(reports: Seq<OracleReport>) -> Seq<u64> {
    reports.map_values(|r: OracleReport| r.oracle)
}

/// The rewards ledger after crediting `amount` to every reporter, in order;
/// non-positive per-submission rewards credit nothing.
pub open spec fn credited(m: Map<u64, i128>, reporters: Seq<u64>, amount: i128) -> Map<u64, i128>
    decreases reporters.len(),
{
    if amount <= 0 || reporters.len() == 0 {
        m
    } else {
        let rest = credited(m, reporters.drop_last(), amount);
        rest.insert(reporters.last(), (balance_or0(rest, reporters.last()) + amount) as i128)
    }
}

/// The stake ledger after `oracle` stakes `amount`.
pub open spec fn staked(m: Map<u64, i128>, oracle: u64, amount: i128) -> Map<u64, i128> {
    m.insert(oracle, (balance_or0(m, oracle) + amount) as i128)
}

/// The stake ledger after `oracle` withdraws `amount`.
pub open spec fn unstaked(m: Map<u64, i128>, oracle: u64, amount: i128) -> Map<u64, i128> {
    m.insert(oracle, (balance_or0(m, oracle) - amount) as i128)
}

/// The stake ledger after the admin slashes `oracle` by `amount`: at most the
/// current stake is removed, and a zero stake is left untouched.
pub open spec fn slashed(m: Map<u64, i128>, oracle: u64, amount: i128) -> Map<u64, i128> {
    let current = balance_or0(m, oracle);
    if current <= 0 {
        m
    } else {
        let actual = if current < amount {
            current
        } else {
            amount
        };
        m.insert(oracle, (current - actual) as i128)
    }
}

/// A stored feed is intact: its configuration is a fixed point of
/// normalization, its oracle set is non-empty and within the cap, and its
/// accumulating round holds at most one report per oracle and strictly fewer
/// than the quorum (a round finalizes the instant it reaches quorum).
pub open spec fn feed_wf(f: FeedView) -> bool {
    &&& f.config == normalize_config(f.config)
    &&& 1 <= f.oracles.len() <= ORACLE_MAX_ORACLES_PER_FEED
    &&& distinct_reporters(f.reports)
    &&& f.reports.len() < f.config.min_oracles
}

/// The network-wide invariant over the view: every feed intact, every stake
/// and every pending reward non-negative.
pub open spec fn view_wf(v: NetworkView) -> bool {
    &&& forall|f: u64| v.feeds.contains_key(f) ==> feed_wf(#[trigger] v.feeds[f])
    &&& forall|o: u64| v.stakes.contains_key(o) ==> #[trigger] v.stakes[o] >= 0
    &&& forall|o: u64| v.rewards.contains_key(o) ==> #[trigger] v.rewards[o] >= 0
}

/// The feed map a feed table denotes.
pub open spec fn lift_feeds(m: Map<u64, Feed>) -> Map<u64, FeedView> {
    Map::new(|f: u64| m.contains_key(f), |f: u64| m[f]@)
}

/// The oracle network. All state a deployment holds in its durable store
/// lives in this one value; the host persists it between calls.
pub struct OracleNetwork {
    admin: Option<u64>,
    staking_token: Option<u64>,
    reward_token: Option<u64>,
    feeds: Table<Feed>,
    stakes: Table<i128>,
    rewards: Table<i128>,
}

impl View for OracleNetwork {
    type V = NetworkView;

    closed spec fn view(&self) -> NetworkView {
        NetworkView {
            admin: self.admin,
            staking_token: self.staking_token,
            reward_token: self.reward_token,
            feeds: lift_feeds(self.feeds@),
            stakes: self.stakes@,
            rewards: self.rewards@,
        }
    }
}

impl OracleNetwork {
    /// Well-formedness: the tables are intact and the view satisfies the
    /// network invariant.
    pub closed spec fn wf(&self) -> bool {
        &&& self.feeds.wf()
        &&& self.stakes.wf()
        &&& self.rewards.wf()
        &&& view_wf(self@)
    }

    /// A well-formed network satisfies the public view invariant; in
    /// particular no stake and no pending reward is ever negative.
    pub proof fn lemma_wf_view(&self)
        requires
            self.wf(),
        ensures
            view_wf(self@),
    {
    }

    /// A fresh network: no admin, no tokens, no feeds, no balances.
    pub fn new() -> (r: Self)
        ensures
            r.wf(),
            r@.admin is None,
            r@.staking_token is None,
            r@.reward_token is None,
            r@.feeds == Map::<u64, FeedView>::empty(),
            r@.stakes == Map::<u64, i128>::empty(),
            r@.rewards == Map::<u64, i128>::empty(),
    {
        let r = OracleNetwork {
            admin: None,
            staking_token: None,
            reward_token: None,
            feeds: Table::new(),
            stakes: Table::new(),
            rewards: Table::new(),
        };
        proof {
            assert(lift_feeds(r.feeds@) =~= Map::<u64, FeedView>::empty());
        }
        r
    }

    /// One-time setup: the first call stores the admin, every later call is a
    /// no-op. Returns whether this call took effect. The host must
    /// authenticate `admin` before a call that would take effect.
    pub fn initialize(&mut self, admin: u64) -> (took: bool)
        requires
            old(self).wf(),
        ensures
            final(self).wf(),
            took == (old(self)@.admin is None),
            (old(self)@.admin is None) ==> final(self)@ == (NetworkView {
                admin: Some(admin),
                ..old(self)@
            }),
            (old(self)@.admin is Some) ==> final(self)@ == old(self)@,
    {
        if self.admin.is_some() {
            return false;
        }
        self.admin = Some(admin);
        true
    }

    /// Registers the staking and reward token handles. Admin-gated. A repeat
    /// call silently overwrites both handles — even after oracles hold stake
    /// denominated in the old token; the overwrite is preserved behavior, not
    /// a design endorsement.
    pub fn set_tokens(&mut self, admin: u64, staking_token: u64, reward_token: u64) -> (r: Result<
        (),
        Error,
    >)
        requires
            old(self).wf(),
        ensures
            final(self).wf(),
            (old(self)@.admin is None) ==> r == Err::<(), Error>(Error::NotInitialized)
                && final(self)@ == old(self)@,
            (old(self)@.admin is Some) && old(self)@.admin != Some(admin) ==> r == Err::<(), Error>(
                Error::Unauthorized,
            ) && final(self)@ == old(self)@,
            old(self)@.admin == Some(admin) ==> r == Ok::<(), Error>(()) && final(self)@
                == (NetworkView {
                staking_token: Some(staking_token),
                reward_token: Some(reward_token),
                ..old(self)@
            }),
    {
        match self.admin {
            None => Err(Error::NotInitialized),
            Some(stored) => {
                if stored != admin {
                    return Err(Error::Unauthorized);
                }
                self.staking_token = Some(staking_token);
                self.reward_token = Some(reward_token);
                Ok(())
            },
        }
    }

    /// The oracle's current stake; zero for oracles that never staked.
    pub fn get_stake(&self, oracle: u64) -> (r: i128)
        requires
            self.wf(),
        ensures
            r == balance_or0(self@.stakes, oracle),
    {
        match self.stakes.get(oracle) {
            Some(v) => *v,
            None => 0,
        }
    }

    /// The oracle's accrued, unclaimed rewards; zero for unknown oracles.
    pub fn get_pending_rewards(&self, oracle: u64) -> (r: i128)
        requires
            self.wf(),
        ensures
            r == balance_or0(self@.rewards, oracle),
    {
        match self.rewards.get(oracle) {
            Some(v) => *v,
            None => 0,
        }
    }

    /// Locks `amount` of the staking token as the oracle's collateral. The
    /// host must authenticate `oracle` and, on success, transfer `amount` of
    /// the staking token from the oracle to the network before committing.
    pub fn stake(&mut self, oracle: u64, amount: i128) -> (r: Result<(), Error>)
        requires
            old(self).wf(),
        ensures
            final(self).wf(),
            amount <= 0 ==> r == Err::<(), Error>(Error::InvalidAmount) && final(self)@
                == old(self)@,
            amount > 0 && (old(self)@.staking_token is None) ==> r == Err::<(), Error>(
                Error::StakingTokenNotSet,
            ) && final(self)@ == old(self)@,
            amount > 0 && (old(self)@.staking_token is Some) && balance_or0(
                old(self)@.stakes,
                oracle,
            ) + amount > i128::MAX ==> r == Err::<(), Error>(Error::Overflow) && final(self)@
                == old(self)@,
            amount > 0 && (old(self)@.staking_token is Some) && balance_or0(
                old(self)@.stakes,
                oracle,
            ) + amount <= i128::MAX ==> r == Ok::<(), Error>(()) && final(self)@ == (NetworkView {
                stakes: staked(old(self)@.stakes, oracle, amount),
                ..old(self)@
            }),
    {
        if amount <= 0 {
            return Err(Error::InvalidAmount);
        }
        if self.staking_token.is_none() {
            return Err(Error::StakingTokenNotSet);
        }
        let current: i128 = match self.stakes.get(oracle) {
            Some(v) => *v,
            None => 0,
        };
        let updated: i128 = match current.checked_add(amount) {
            Some(v) => v,
            None => {
                return Err(Error::Overflow);
            },
        };
        self.stakes.set(oracle, updated);
        Ok(())
    }

    /// Returns `amount` of staked collateral to the oracle. The host must
    /// authenticate `oracle` and, on success, transfer `amount` of the
    /// staking token from the network back to the oracle.
    pub fn unstake(&mut self, oracle: u64, amount: i128) -> (r: Result<(), Error>)
        requires
            old(self).wf(),
        ensures
            final(self).wf(),
            amount <= 0 ==> r == Err::<(), Error>(Error::InvalidAmount) && final(self)@
                == old(self)@,
            amount > 0 && balance_or0(old(self)@.stakes, oracle) < amount ==> r == Err::<(), Error>(
                Error::InsufficientStake,
            ) && final(self)@ == old(self)@,
            amount > 0 && balance_or0(old(self)@.stakes, oracle) >= amount
                && (old(self)@.staking_token is None) ==> r == Err::<(), Error>(
                Error::StakingTokenNotSet,
            ) && final(self)@ == old(self)@,
            amount > 0 && balance_or0(old(self)@.stakes, oracle) >= amount
                && (old(self)@.staking_token is Some) ==> r == Ok::<(), Error>(()) && final(self)@
                == (NetworkView {
                stakes: unstaked(old(self)@.stakes, oracle, amount),
                ..old(self)@
            }),
    {
        if amount <= 0 {
            return Err(Error::InvalidAmount);
        }
        let current: i128 = match self.stakes.get(oracle) {
            Some(v) => *v,
            None => 0,
        };
        if current < amount {
            return Err(Error::InsufficientStake);
        }
        if self.staking_token.is_none() {
            return Err(Error::StakingTokenNotSet);
        }
        self.stakes.set(oracle, current - amount);
        Ok(())
    }

    /// Admin-gated penalty: removes up to `amount` from the oracle's stake,
    /// never below zero, and reports how much was actually removed. A zero
    /// stake is reported as a successful no-op.
    pub fn slash(&mut self, admin: u64, oracle: u64, amount: i128) -> (r: Result<i128, Error>)
        requires
            old(self).wf(),
        ensures
            final(self).wf(),
            (old(self)@.admin is None) ==> r == Err::<i128, Error>(Error::NotInitialized)
                && final(self)@ == old(self)@,
            (old(self)@.admin is Some) && old(self)@.admin != Some(admin) ==> r == Err::<
                i128,
                Error,
            >(Error::Unauthorized) && final(self)@ == old(self)@,
            old(self)@.admin == Some(admin) && amount <= 0 ==> r == Err::<i128, Error>(
                Error::InvalidAmount,
            ) && final(self)@ == old(self)@,
            old(self)@.admin == Some(admin) && amount > 0 && balance_or0(
                old(self)@.stakes,
                oracle,
            ) <= 0 ==> r == Ok::<i128, Error>(0) && final(self)@ == old(self)@,
            old(self)@.admin == Some(admin) && amount > 0 && balance_or0(
                old(self)@.stakes,
                oracle,
            ) > 0 ==> {
                let current = balance_or0(old(self)@.stakes, oracle);
                let actual = if current < amount {
                    current
                } else {
                    amount
                };
                r == Ok::<i128, Error>(actual) && final(self)@ == (NetworkView {
                    stakes: slashed(old(self)@.stakes, oracle, amount),
                    ..old(self)@
                })
            },
    {
        let stored = match self.admin {
            None => {
                return Err(Error::NotInitialized);
            },
            Some(stored) => stored,
        };
        if stored != admin {
            return Err(Error::Unauthorized);
        }
        if amount <= 0 {
            return Err(Error::InvalidAmount);
        }
        let current: i128 = match self.stakes.get(oracle) {
            Some(v) => *v,
            None => 0,
        };
        if current <= 0 {
            return Ok(0);
        }
        let actual = if current < amount {
            current
        } else {
            amount
        };
        self.stakes.set(oracle, current - actual);
        Ok(actual)
    }

    /// Pays out the oracle's accrued rewards in full and zeroes the balance;
    /// a zero balance is a successful no-op with no transfer. The host must
    /// authenticate `oracle` and, on a positive result, transfer that much of
    /// the reward token from the network to the oracle.
    pub fn claim_rewards(&mut self, oracle: u64) -> (r: Result<i128, Error>)
        requires
            old(self).wf(),
        ensures
            final(self).wf(),
            balance_or0(old(self)@.rewards, oracle) <= 0 ==> r == Ok::<i128, Error>(0)
                && final(self)@ == old(self)@,
            balance_or0(old(self)@.rewards, oracle) > 0 && (old(self)@.reward_token is None) ==> r
                == Err::<i128, Error>(Error::RewardTokenNotSet) && final(self)@ == old(self)@,
            balance_or0(old(self)@.rewards, oracle) > 0 && (old(self)@.reward_token is Some) ==> r
                == Ok::<i128, Error>(balance_or0(old(self)@.rewards, oracle)) && final(self)@
                == (NetworkView { rewards: old(self)@.rewards.insert(oracle, 0), ..old(self)@ }),
    {
        let pending: i128 = match self.rewards.get(oracle) {
            Some(v) => *v,
            None => 0,
        };
        if pending <= 0 {
            return Ok(0);
        }
        if self.reward_token.is_none() {
            return Err(Error::RewardTokenNotSet);
        }
        self.rewards.set(oracle, 0);
        Ok(pending)
    }
}

} // verus!

verus! {

/// An empty feed state: all zeros, round id zero meaning "never finalized".
pub open spec fn empty_feed_state() -> OracleFeedState {
    OracleFeedState {
        latest_value: 0,
        latest_round_id: 0,
        latest_timestamp: 0,
        latest_updated_at_ledger: 0,
    }
}

/// The feed record `create_feed` stores: the normalized configuration, the
/// given oracle set, an all-zero state and no in-flight round.
pub open spec fn created_feed(config: OracleFeedConfig, oracles: Seq<u64>) -> FeedView {
    FeedView {
        config: normalize_config(config),
        oracles,
        state: empty_feed_state(),
        reports: Seq::empty(),
    }
}

/// The feed's last finalized state, absent when the feed does not exist or
/// was never finalized.
pub open spec fn spec_get_latest(v: NetworkView, feed_id: u64) -> Option<OracleFeedState> {
    if v.feeds.contains_key(feed_id) && v.feeds[feed_id].state.latest_round_id > 0 {
        Some(v.feeds[feed_id].state)
    } else {
        None
    }
}

/// How much older than `ts` the clock `now` is, saturating at zero when the
/// clock appears to precede the stored timestamp.
pub open spec fn age_of(now: u64, ts: u64) -> int {
    if now >= ts {
        now - ts
    } else {
        0
    }
}

/// The staleness-bounded read: absent exactly when the plain read is absent
/// or the state is older than `max_age_seconds`.
pub open spec fn spec_get_latest_safe(
    v: NetworkView,
    feed_id: u64,
    max_age_seconds: u64,
    now: u64,
) -> Option<OracleFeedState> {
    match spec_get_latest(v, feed_id) {
        Some(state) => if age_of(now, state.latest_timestamp) <= max_age_seconds {
            Some(state)
        } else {
            None
        },
        None => None,
    }
}

proof fn lemma_lift_feeds_get(m: Map<u64, Feed>, k: u64)
    ensures
        lift_feeds(m).contains_key(k) <==> m.contains_key(k),
        m.contains_key(k) ==> lift_feeds(m)[k] == m[k]@,
{
}

proof fn lemma_lift_feeds_insert(m: Map<u64, Feed>, k: u64, f: Feed)
    ensures
        lift_feeds(m.insert(k, f)) == lift_feeds(m).insert(k, f@),
{
    assert(lift_feeds(m.insert(k, f)) =~= lift_feeds(m).insert(k, f@));
}

impl OracleNetwork {
    /// Admin-gated feed creation. Validates the oracle list, refuses to
    /// overwrite an existing feed, and stores the normalized configuration
    /// with an all-zero state.
    pub fn create_feed(
        &mut self,
        admin: u64,
        feed_id: u64,
        config: OracleFeedConfig,
        oracles: Vec<u64>,
    ) -> (r: Result<(), Error>)
        requires
            old(self).wf(),
        ensures
            final(self).wf(),
            (old(self)@.admin is None) ==> r == Err::<(), Error>(Error::NotInitialized)
                && final(self)@ == old(self)@,
            (old(self)@.admin is Some) && old(self)@.admin != Some(admin) ==> r == Err::<(), Error>(
                Error::Unauthorized,
            ) && final(self)@ == old(self)@,
            old(self)@.admin == Some(admin) && oracles@.len() == 0 ==> r == Err::<(), Error>(
                Error::NoOracles,
            ) && final(self)@ == old(self)@,
            old(self)@.admin == Some(admin) && oracles@.len() > ORACLE_MAX_ORACLES_PER_FEED ==> r
                == Err::<(), Error>(Error::TooManyOracles) && final(self)@ == old(self)@,
            old(self)@.admin == Some(admin) && 1 <= oracles@.len() <= ORACLE_MAX_ORACLES_PER_FEED
                && old(self)@.feeds.contains_key(feed_id) ==> r == Err::<(), Error>(
                Error::FeedExists,
            ) && final(self)@ == old(self)@,
            old(self)@.admin == Some(admin) && 1 <= oracles@.len() <= ORACLE_MAX_ORACLES_PER_FEED
                && !old(self)@.feeds.contains_key(feed_id) ==> r == Ok::<(), Error>(())
                && final(self)@ == (NetworkView {
                feeds: old(self)@.feeds.insert(feed_id, created_feed(config, oracles@)),
                ..old(self)@
            }),
    {
        let stored = match self.admin {
            None => {
                return Err(Error::NotInitialized);
            },
            Some(stored) => stored,
        };
        if stored != admin {
            return Err(Error::Unauthorized);
        }
        if oracles.len() == 0 {
            return Err(Error::NoOracles);
        }
        if oracles.len() > ORACLE_MAX_ORACLES_PER_FEED as usize {
            return Err(Error::TooManyOracles);
        }
        if self.feeds.contains(feed_id) {
            proof {
                lemma_lift_feeds_get(self.feeds@, feed_id);
            }
            return Err(Error::FeedExists);
        }
        proof {
            lemma_lift_feeds_get(self.feeds@, feed_id);
        }
        let normalized = normalize(config);
        let feed = Feed {
            config: normalized,
            oracles,
            state: OracleFeedState {
                latest_value: 0,
                latest_round_id: 0,
                latest_timestamp: 0,
                latest_updated_at_ledger: 0,
            },
            reports: Vec::new(),
        };
        let ghost pre_feeds = self.feeds@;
        self.feeds.set(feed_id, feed);
        proof {
            lemma_lift_feeds_insert(pre_feeds, feed_id, feed);
            crate::feed::lemma_normalize_idempotent(config);
            assert(feed@ == created_feed(config, feed.oracles@));
            assert(feed_wf(feed@));
            assert forall|f: u64| final(self)@.feeds.contains_key(f) implies feed_wf(
                #[trigger] final(self)@.feeds[f],
            ) by {
                if f != feed_id {
                    assert(old(self)@.feeds.contains_key(f) && final(self)@.feeds[f] == old(
                        self,
                    )@.feeds[f]);
                }
            }
        }
        Ok(())
    }

    /// Admin-gated replacement of a feed's oracle set; the configuration and
    /// any in-flight round are untouched, so already-collected reports stay
    /// counted even if their oracle just left the set.
    pub fn update_feed_oracles(&mut self, admin: u64, feed_id: u64, oracles: Vec<u64>) -> (r:
        Result<(), Error>)
        requires
            old(self).wf(),
        ensures
            final(self).wf(),
            (old(self)@.admin is None) ==> r == Err::<(), Error>(Error::NotInitialized)
                && final(self)@ == old(self)@,
            (old(self)@.admin is Some) && old(self)@.admin != Some(admin) ==> r == Err::<(), Error>(
                Error::Unauthorized,
            ) && final(self)@ == old(self)@,
            old(self)@.admin == Some(admin) && oracles@.len() == 0 ==> r == Err::<(), Error>(
                Error::NoOracles,
            ) && final(self)@ == old(self)@,
            old(self)@.admin == Some(admin) && oracles@.len() > ORACLE_MAX_ORACLES_PER_FEED ==> r
                == Err::<(), Error>(Error::TooManyOracles) && final(self)@ == old(self)@,
            old(self)@.admin == Some(admin) && 1 <= oracles@.len() <= ORACLE_MAX_ORACLES_PER_FEED
                && !old(self)@.feeds.contains_key(feed_id) ==> r == Err::<(), Error>(
                Error::UnknownFeed,
            ) && final(self)@ == old(self)@,
            old(self)@.admin == Some(admin) && 1 <= oracles@.len() <= ORACLE_MAX_ORACLES_PER_FEED
                && old(self)@.feeds.contains_key(feed_id) ==> r == Ok::<(), Error>(())
                && final(self)@ == (NetworkView {
                feeds: old(self)@.feeds.insert(
                    feed_id,
                    (FeedView { oracles: oracles@, ..old(self)@.feeds[feed_id] }),
                ),
                ..old(self)@
            }),
    {
        let stored = match self.admin {
            None => {
                return Err(Error::NotInitialized);
            },
            Some(stored) => stored,
        };
        if stored != admin {
            return Err(Error::Unauthorized);
        }
        if oracles.len() == 0 {
            return Err(Error::NoOracles);
        }
        if oracles.len() > ORACLE_MAX_ORACLES_PER_FEED as usize {
            return Err(Error::TooManyOracles);
        }
        proof {
            lemma_lift_feeds_get(self.feeds@, feed_id);
        }
        let mut feed = match self.feeds.remove(feed_id) {
            None => {
                return Err(Error::UnknownFeed);
            },
            Some(feed) => feed,
        };
        let ghost pre = old(self)@;
        feed.oracles = oracles;
        self.feeds.set(feed_id, feed);
        proof {
            lemma_lift_feeds_insert(old(self).feeds@.remove(feed_id), feed_id, feed);
            assert(lift_feeds(old(self).feeds@.remove(feed_id)).insert(feed_id, feed@)
                =~= pre.feeds.insert(feed_id, feed@));
            assert(feed@ == (FeedView { oracles: oracles@, ..pre.feeds[feed_id] }));
            assert forall|f: u64| final(self)@.feeds.contains_key(f) implies feed_wf(
                #[trigger] final(self)@.feeds[f],
            ) by {
                if f != feed_id {
                    assert(pre.feeds.contains_key(f) && final(self)@.feeds[f] == pre.feeds[f]);
                } else {
                    assert(feed_wf(pre.feeds[feed_id]));
                }
            }
        }
        Ok(())
    }

    /// A copy of the feed's stored configuration, absent for unknown feeds.
    pub fn get_feed_config(&self, feed_id: u64) -> (r: Option<OracleFeedConfig>)
        requires
            self.wf(),
        ensures
            r == (if self@.feeds.contains_key(feed_id) {
                Some(self@.feeds[feed_id].config)
            } else {
                None::<OracleFeedConfig>
            }),
    {
        proof {
            lemma_lift_feeds_get(self.feeds@, feed_id);
        }
        match self.feeds.get(feed_id) {
            Some(feed) => Some(
                OracleFeedConfig {
                    feed_type: feed.config.feed_type,
                    description: feed.config.description.clone(),
                    decimals: feed.config.decimals,
                    heartbeat_seconds: feed.config.heartbeat_seconds,
                    deviation_bps: feed.config.deviation_bps,
                    min_oracles: feed.config.min_oracles,
                    max_oracles: feed.config.max_oracles,
                    reward_per_submission: feed.config.reward_per_submission,
                },
            ),
            None => None,
        }
    }

    /// A copy of the feed's oracle set, absent for unknown feeds.
    pub fn get_feed_oracles(&self, feed_id: u64) -> (r: Option<Vec<u64>>)
        requires
            self.wf(),
        ensures
            match r {
                Some(v) => self@.feeds.contains_key(feed_id) && v@ == self@.feeds[feed_id].oracles,
                None => !self@.feeds.contains_key(feed_id),
            },
    {
        proof {
            lemma_lift_feeds_get(self.feeds@, feed_id);
        }
        match self.feeds.get(feed_id) {
            Some(feed) => {
                let mut out: Vec<u64> = Vec::new();
                let mut i: usize = 0;
                while i < feed.oracles.len()
                    invariant
                        i <= feed.oracles@.len(),
                        out@ == feed.oracles@.subrange(0, i as int),
                    decreases feed.oracles@.len() - i,
                {
                    out.push(feed.oracles[i]);
                    proof {
                        assert(feed.oracles@.subrange(0, i + 1) =~= feed.oracles@.subrange(
                            0,
                            i as int,
                        ).push(feed.oracles@[i as int]));
                    }
                    i += 1;
                }
                proof {
                    assert(feed.oracles@.subrange(0, feed.oracles@.len() as int)
                        =~= feed.oracles@);
                }
                Some(out)
            },
            None => None,
        }
    }

    /// The feed's last finalized state, or absent if the feed does not exist
    /// or no round has ever finalized.
    pub fn get_latest(&self, feed_id: u64) -> (r: Option<OracleFeedState>)
        requires
            self.wf(),
        ensures
            r == spec_get_latest(self@, feed_id),
    {
        proof {
            lemma_lift_feeds_get(self.feeds@, feed_id);
        }
        match self.feeds.get(feed_id) {
            Some(feed) => {
                if feed.state.latest_round_id > 0 {
                    Some(feed.state)
                } else {
                    None
                }
            },
            None => None,
        }
    }

    /// As `get_latest`, but also absent when the stored state is older than
    /// `max_age_seconds` on the clock `now`; the age saturates at zero, so a
    /// clock behind the stored timestamp reads as fresh.
    pub fn get_latest_safe(&self, feed_id: u64, max_age_seconds: u64, now: u64) -> (r: Option<
        OracleFeedState,
    >)
        requires
            self.wf(),
        ensures
            r == spec_get_latest_safe(self@, feed_id, max_age_seconds, now),
    {
        match self.get_latest(feed_id) {
            Some(state) => {
                let age = now.saturating_sub(state.latest_timestamp);
                if age > max_age_seconds {
                    None
                } else {
                    Some(state)
                }
            },
            None => None,
        }
    }

    /// The primary feed's safe read if it is fresh enough, else the
    /// fallback's; the result names the feed actually used.
    pub fn get_latest_with_fallback(
        &self,
        primary_feed_id: u64,
        fallback_feed_id: u64,
        max_age_primary: u64,
        max_age_fallback: u64,
        now: u64,
    ) -> (r: Option<(OracleFeedState, u64)>)
        requires
            self.wf(),
        ensures
            r == (match spec_get_latest_safe(self@, primary_feed_id, max_age_primary, now) {
                Some(state) => Some((state, primary_feed_id)),
                None => match spec_get_latest_safe(self@, fallback_feed_id, max_age_fallback, now) {
                    Some(state) => Some((state, fallback_feed_id)),
                    None => None,
                },
            }),
    {
        if let Some(primary) = self.get_latest_safe(primary_feed_id, max_age_primary, now) {
            return Some((primary, primary_feed_id));
        }
        if let Some(fallback) = self.get_latest_safe(fallback_feed_id, max_age_fallback, now) {
            return Some((fallback, fallback_feed_id));
        }
        None
    }
}

} // verus!

verus! {

/// Whether a submission passes every acceptance check: the feed exists, the
/// submitter is in its oracle set, the reported timestamp is not further in
/// the future than the heartbeat allows (there is deliberately no lower
/// bound), and the submitter has not reported in this round yet.
pub open spec fn submit_accepted(
    pre: NetworkView,
    feed_id: u64,
    oracle: u64,
    reported_timestamp: u64,
    now: u64,
) -> bool {
    &&& pre.feeds.contains_key(feed_id)
    &&& pre.feeds[feed_id].oracles.contains(oracle)
    &&& reported_timestamp <= now + pre.feeds[feed_id].config.heartbeat_seconds
    &&& !has_reported(pre.feeds[feed_id].reports, oracle)
}

/// The feed after a report is appended without reaching quorum.
pub open spec fn accumulated_feed(fv: FeedView, report: OracleReport) -> FeedView {
    FeedView { reports: fv.reports.push(report), ..fv }
}

/// The feed after its round finalizes on the reports `reports2`: the median
/// becomes the latest value, the round id steps by one, the finalizing
/// submission's timestamp and the network clock are recorded, and the round
/// is cleared.
pub open spec fn finalized_feed(
    fv: FeedView,
    reports2: Seq<OracleReport>,
    reported_timestamp: u64,
    now: u64,
) -> FeedView {
    FeedView {
        state: OracleFeedState {
            latest_value: median_of(report_values(reports2)),
            latest_round_id: (fv.state.latest_round_id + 1) as u64,
            latest_timestamp: reported_timestamp,
            latest_updated_at_ledger: now,
        },
        reports: Seq::empty(),
        ..fv
    }
}

/// Whether crediting `reward` to every reporter would push some pending
/// balance past the machine range.
pub open spec fn reward_would_overflow(
    rewards: Map<u64, i128>,
    reports2: Seq<OracleReport>,
    reward: i128,
) -> bool {
    reward > 0 && exists|i: int|
        0 <= i < reports2.len() && balance_or0(rewards, (#[trigger] reports2[i]).oracle) + reward
            > i128::MAX
}

/// Crediting walks the reporters once, so with no oracle reporting twice each
/// pending balance either gains exactly one `amount` or is untouched.
pub proof fn lemma_credited_pointwise(m: Map<u64, i128>, reporters: Seq<u64>, amount: i128, o: u64)
    requires
        reporters.no_duplicates(),
    ensures
        balance_or0(credited(m, reporters, amount), o) == if amount > 0 && reporters.contains(o) {
            (balance_or0(m, o) + amount) as i128
        } else {
            balance_or0(m, o)
        },
    decreases reporters.len(),
{
    if amount <= 0 || reporters.len() == 0 {
    } else {
        let rest = reporters.drop_last();
        let last = reporters.last();
        assert(rest.no_duplicates());
        assert(!rest.contains(last)) by {
            if rest.contains(last) {
                let i = choose|i: int| 0 <= i < rest.len() && rest[i] == last;
                assert(reporters[i] == reporters[reporters.len() - 1]);
            }
        }
        lemma_credited_pointwise(m, rest, amount, o);
        lemma_credited_pointwise(m, rest, amount, last);
        if o == last {
            assert(reporters.contains(o)) by {
                assert(reporters[reporters.len() - 1] == o);
            }
        } else {
            assert(reporters.contains(o) <==> rest.contains(o)) by {
                if reporters.contains(o) {
                    let i = choose|i: int| 0 <= i < reporters.len() && reporters[i] == o;
                    assert(rest[i] == o);
                }
                if rest.contains(o) {
                    let i = choose|i: int| 0 <= i < rest.len() && rest[i] == o;
                    assert(reporters[i] == o);
                }
            }
        }
    }
}

/// With no oracle reporting twice, the reporter handles themselves carry no
/// duplicates.
pub proof fn lemma_reporters_no_duplicates(reports: Seq<OracleReport>)
    requires
        distinct_reporters(reports),
    ensures
        reporters_of(reports).no_duplicates(),
{
    let rs = reporters_of(reports);
    assert forall|i: int, j: int| 0 <= i < rs.len() && 0 <= j < rs.len() && i != j implies rs[i]
        != rs[j] by {
        if i < j {
            assert(reports[i].oracle != reports[j].oracle);
        } else {
            assert(reports[j].oracle != reports[i].oracle);
        }
    }
}

/// Whether `x` occurs in the vector.
fn contains_u64(v: &Vec<u64>, x: u64) -> (r: bool)
    ensures
        r == v@.contains(x),
{
    let mut i: usize = 0;
    while i < v.len()
        invariant
            i <= v@.len(),
            forall|j: int| 0 <= j < i ==> v@[j] != x,
        decreases v@.len() - i,
    {
        if v[i] == x {
            return true;
        }
        i += 1;
    }
    false
}

/// Whether `oracle` already has a report in the vector.
fn has_report(v: &Vec<OracleReport>, oracle: u64) -> (r: bool)
    ensures
        r == has_reported(v@, oracle),
{
    let mut i: usize = 0;
    while i < v.len()
        invariant
            i <= v@.len(),
            forall|j: int| 0 <= j < i ==> (#[trigger] v@[j]).oracle != oracle,
        decreases v@.len() - i,
    {
        if v[i].oracle == oracle {
            return true;
        }
        i += 1;
    }
    false
}

impl OracleNetwork {
    /// One oracle's report for the feed's current round. The host must
    /// authenticate `oracle` and supply the network clock `now`. Accepted
    /// reports accumulate until the count reaches the feed's quorum; the
    /// submission that reaches it finalizes the round at once: the median
    /// becomes the feed's latest value, the round id steps by one, every
    /// contributing oracle is credited the per-submission reward, and the
    /// returned update is what the host publishes. Any failure leaves the
    /// network exactly as it was.
    #[verifier::loop_isolation(false)]
    pub fn submit(
        &mut self,
        feed_id: u64,
        value: i128,
        reported_timestamp: u64,
        oracle: u64,
        now: u64,
    ) -> (r: Result<Option<FeedUpdate>, Error>)
        requires
            old(self).wf(),
        ensures
            final(self).wf(),
            !old(self)@.feeds.contains_key(feed_id) ==> r == Err::<Option<FeedUpdate>, Error>(
                Error::UnknownFeed,
            ) && final(self)@ == old(self)@,
            old(self)@.feeds.contains_key(feed_id) && !old(self)@.feeds[feed_id].oracles.contains(
                oracle,
            ) ==> r == Err::<Option<FeedUpdate>, Error>(Error::NotOracle) && final(self)@ == old(
                self,
            )@,
            old(self)@.feeds.contains_key(feed_id) && old(self)@.feeds[feed_id].oracles.contains(
                oracle,
            ) && reported_timestamp > now + old(self)@.feeds[feed_id].config.heartbeat_seconds
                ==> r == Err::<Option<FeedUpdate>, Error>(Error::TimestampSkew) && final(self)@
                == old(self)@,
            old(self)@.feeds.contains_key(feed_id) && old(self)@.feeds[feed_id].oracles.contains(
                oracle,
            ) && reported_timestamp <= now + old(self)@.feeds[feed_id].config.heartbeat_seconds
                && has_reported(old(self)@.feeds[feed_id].reports, oracle) ==> r == Err::<
                Option<FeedUpdate>,
                Error,
            >(Error::DuplicateReport) && final(self)@ == old(self)@,
            submit_accepted(old(self)@, feed_id, oracle, reported_timestamp, now) ==> ({
                let fv = old(self)@.feeds[feed_id];
                let reports2 = fv.reports.push(OracleReport { oracle, value });
                let reward = fv.config.reward_per_submission;
                &&& reports2.len() < fv.config.min_oracles ==> r == Ok::<Option<FeedUpdate>, Error>(
                    None,
                ) && final(self)@ == (NetworkView {
                    feeds: old(self)@.feeds.insert(
                        feed_id,
                        accumulated_feed(fv, (OracleReport { oracle, value })),
                    ),
                    ..old(self)@
                })
                &&& reports2.len() >= fv.config.min_oracles && fv.state.latest_round_id
                    == u64::MAX ==> r == Err::<Option<FeedUpdate>, Error>(Error::Overflow)
                    && final(self)@ == old(self)@
                &&& reports2.len() >= fv.config.min_oracles && fv.state.latest_round_id < u64::MAX
                    && reward_would_overflow(old(self)@.rewards, reports2, reward) ==> r == Err::<
                    Option<FeedUpdate>,
                    Error,
                >(Error::Overflow) && final(self)@ == old(self)@
                &&& reports2.len() >= fv.config.min_oracles && fv.state.latest_round_id < u64::MAX
                    && !reward_would_overflow(old(self)@.rewards, reports2, reward) ==> r == Ok::<
                    Option<FeedUpdate>,
                    Error,
                >(
                    Some(
                        FeedUpdate {
                            feed_id,
                            value: median_of(report_values(reports2)),
                            round_id: (fv.state.latest_round_id + 1) as u64,
                            timestamp: reported_timestamp,
                        },
                    ),
                ) && final(self)@ == (NetworkView {
                    feeds: old(self)@.feeds.insert(
                        feed_id,
                        finalized_feed(fv, reports2, reported_timestamp, now),
                    ),
                    rewards: credited(old(self)@.rewards, reporters_of(reports2), reward),
                    ..old(self)@
                })
            }),
    {
        let ghost pre = old(self)@;
        proof {
            lemma_lift_feeds_get(self.feeds@, feed_id);
        }
        let feed = match self.feeds.get(feed_id) {
            Some(f) => f,
            None => {
                return Err(Error::UnknownFeed);
            },
        };
        let ghost fv = pre.feeds[feed_id];
        assert(feed_wf(fv));
        if !contains_u64(&feed.oracles, oracle) {
            return Err(Error::NotOracle);
        }
        if reported_timestamp > now && reported_timestamp - now > feed.config.heartbeat_seconds {
            return Err(Error::TimestampSkew);
        }
        if has_report(&feed.reports, oracle) {
            return Err(Error::DuplicateReport);
        }
        assert(submit_accepted(pre, feed_id, oracle, reported_timestamp, now));
        let ghost report = OracleReport { oracle, value };
        let ghost reports2 = fv.reports.push(report);
        let n_after = feed.reports.len() + 1;
        let reward = feed.config.reward_per_submission;
        if n_after < feed.config.min_oracles as usize {
            // Quorum not reached: append the report and wait.
            // The feed was just found, so the removal cannot miss.
            let mut owned = match self.feeds.remove(feed_id) {
                Some(f) => f,
                None => {
                    return Err(Error::UnknownFeed);
                },
            };
            owned.reports.push(OracleReport { oracle, value });
            proof {
                lemma_lift_feeds_get(old(self).feeds@, feed_id);
            }
            self.feeds.set(feed_id, owned);
            proof {
                lemma_lift_feeds_insert(old(self).feeds@.remove(feed_id), feed_id, owned);
                assert(lift_feeds(old(self).feeds@.remove(feed_id)).insert(feed_id, owned@)
                    =~= pre.feeds.insert(feed_id, owned@));
                assert(owned@ == accumulated_feed(fv, report));
                assert(distinct_reporters(reports2)) by {
                    assert forall|i: int, j: int| 0 <= i < j < reports2.len() implies (
                    #[trigger] reports2[i]).oracle != (#[trigger] reports2[j]).oracle by {
                        if j < reports2.len() - 1 {
                            assert(fv.reports[i].oracle != fv.reports[j].oracle);
                        } else {
                            assert(!has_reported(fv.reports, oracle));
                            assert(reports2[j].oracle == oracle);
                            if reports2[i].oracle == oracle {
                                assert(has_reported(fv.reports, oracle)) by {
                                    assert(fv.reports[i].oracle == oracle);
                                }
                            }
                        }
                    }
                }
                assert(feed_wf(owned@));
                assert forall|f: u64| final(self)@.feeds.contains_key(f) implies feed_wf(
                    #[trigger] final(self)@.feeds[f],
                ) by {
                    if f != feed_id {
                        assert(pre.feeds.contains_key(f) && final(self)@.feeds[f] == pre.feeds[f]);
                    }
                }
            }
            return Ok(None);
        }
        // Quorum reached: finalize, but check every arithmetic bound first so
        // a failure leaves no trace.
        if feed.state.latest_round_id == u64::MAX {
            return Err(Error::Overflow);
        }
        if reward > 0 {
            let lim: i128 = i128::MAX - reward;
            let mut i: usize = 0;
            while i < feed.reports.len()
                invariant
                    i <= feed.reports@.len(),
                    forall|j: int|
                        0 <= j < i ==> balance_or0(
                            pre.rewards,
                            (#[trigger] feed.reports@[j]).oracle,
                        ) + reward <= i128::MAX,
                decreases feed.reports@.len() - i,
            {
                let o = feed.reports[i].oracle;
                let p: i128 = match self.rewards.get(o) {
                    Some(v) => *v,
                    None => 0,
                };
                if p > lim {
                    proof {
                        assert(reports2[i as int] == feed.reports@[i as int]);
                        assert(reward_would_overflow(pre.rewards, reports2, reward)) by {
                            assert(balance_or0(pre.rewards, (#[trigger] reports2[i as int]).oracle)
                                + reward > i128::MAX);
                        }
                    }
                    return Err(Error::Overflow);
                }
                i += 1;
            }
            let p_new: i128 = match self.rewards.get(oracle) {
                Some(v) => *v,
                None => 0,
            };
            if p_new > lim {
                proof {
                    assert(reward_would_overflow(pre.rewards, reports2, reward)) by {
                        assert(balance_or0(
                            pre.rewards,
                            (#[trigger] reports2[reports2.len() - 1]).oracle,
                        ) + reward > i128::MAX);
                    }
                }
                return Err(Error::Overflow);
            }
            proof {
                assert(!reward_would_overflow(pre.rewards, reports2, reward)) by {
                    if exists|i: int|
                        0 <= i < reports2.len() && balance_or0(
                            pre.rewards,
                            (#[trigger] reports2[i]).oracle,
                        ) + reward > i128::MAX {
                        let i = choose|i: int|
                            0 <= i < reports2.len() && balance_or0(
                                pre.rewards,
                                (#[trigger] reports2[i]).oracle,
                            ) + reward > i128::MAX;
                        if i < reports2.len() - 1 {
                            assert(balance_or0(pre.rewards, (#[trigger] feed.reports@[i]).oracle)
                                + reward <= i128::MAX);
                        }
                    }
                }
            }
        }
        proof {
            assert(!reward_would_overflow(pre.rewards, reports2, reward));
        }
        // The feed was just found, so the removal cannot miss.
        let mut owned = match self.feeds.remove(feed_id) {
            Some(f) => f,
            None => {
                return Err(Error::UnknownFeed);
            },
        };
        proof {
            lemma_lift_feeds_get(old(self).feeds@, feed_id);
        }
        owned.reports.push(OracleReport { oracle, value });
        assert(owned.reports@ == reports2);
        assert(distinct_reporters(reports2)) by {
            assert forall|i: int, j: int| 0 <= i < j < reports2.len() implies (
            #[trigger] reports2[i]).oracle != (#[trigger] reports2[j]).oracle by {
                if j < reports2.len() - 1 {
                    assert(fv.reports[i].oracle != fv.reports[j].oracle);
                } else {
                    assert(!has_reported(fv.reports, oracle));
                    assert(reports2[j].oracle == oracle);
                    if reports2[i].oracle == oracle {
                        assert(has_reported(fv.reports, oracle)) by {
                            assert(fv.reports[i].oracle == oracle);
                        }
                    }
                }
            }
        }
        // The reported values, in submission order.
        let mut values: Vec<i128> = Vec::new();
        let mut i: usize = 0;
        while i < owned.reports.len()
            invariant
                i <= owned.reports@.len(),
                values@.len() == i,
                forall|j: int| 0 <= j < i ==> values@[j] == (#[trigger] owned.reports@[j]).value,
                owned.reports@ == reports2,
            decreases owned.reports@.len() - i,
        {
            values.push(owned.reports[i].value);
            i += 1;
        }
        proof {
            assert(values@ =~= report_values(reports2));
        }
        let aggregated = aggregate_median(&values);
        // Credit every contributing oracle.
        if reward > 0 {
            proof {
                lemma_reporters_no_duplicates(reports2);
            }
            let ghost all_reporters = reporters_of(reports2);
            let ghost feeds_mid = self.feeds;
            let ghost stakes_mid = self.stakes;
            let mut i: usize = 0;
            while i < owned.reports.len()
                invariant
                    i <= owned.reports@.len(),
                    self.admin == old(self).admin,
                    self.staking_token == old(self).staking_token,
                    self.reward_token == old(self).reward_token,
                    self.feeds == feeds_mid,
                    self.stakes == stakes_mid,
                    self.rewards.wf(),
                    self.rewards@ == credited(
                        pre.rewards,
                        all_reporters.subrange(0, i as int),
                        reward,
                    ),
                decreases owned.reports@.len() - i,
            {
                let o = owned.reports[i].oracle;
                let cur: i128 = match self.rewards.get(o) {
                    Some(v) => *v,
                    None => 0,
                };
                let ghost prefix = all_reporters.subrange(0, i as int);
                proof {
                    assert(prefix.no_duplicates()) by {
                        assert forall|a: int, b: int|
                            0 <= a < prefix.len() && 0 <= b < prefix.len() && a != b implies prefix[a]
                            != prefix[b] by {
                            assert(all_reporters[a] != all_reporters[b]);
                        }
                    }
                    assert(!prefix.contains(o)) by {
                        if prefix.contains(o) {
                            let a = choose|a: int| 0 <= a < prefix.len() && prefix[a] == o;
                            assert(all_reporters[a] == o);
                            assert(all_reporters[i as int] == o);
                        }
                    }
                    lemma_credited_pointwise(pre.rewards, prefix, reward, o);
                    assert(cur == balance_or0(pre.rewards, o));
                    assert(balance_or0(pre.rewards, (#[trigger] reports2[i as int]).oracle)
                        + reward <= i128::MAX);
                }
                self.rewards.set(o, cur + reward);
                proof {
                    let next = all_reporters.subrange(0, i + 1);
                    assert(next.drop_last() =~= prefix);
                    assert(next.last() == o);
                    assert(self.rewards@ == credited(pre.rewards, next, reward));
                }
                i += 1;
            }
            proof {
                assert(all_reporters.subrange(0, all_reporters.len() as int) =~= all_reporters);
            }
        }
        let next_round = owned.state.latest_round_id + 1;
        let update = FeedUpdate {
            feed_id,
            value: aggregated,
            round_id: next_round,
            timestamp: reported_timestamp,
        };
        owned.state = OracleFeedState {
            latest_value: aggregated,
            latest_round_id: next_round,
            latest_timestamp: reported_timestamp,
            latest_updated_at_ledger: now,
        };
        owned.reports = Vec::new();
        self.feeds.set(feed_id, owned);
        proof {
            lemma_lift_feeds_insert(old(self).feeds@.remove(feed_id), feed_id, owned);
            assert(lift_feeds(old(self).feeds@.remove(feed_id)).insert(feed_id, owned@)
                =~= pre.feeds.insert(feed_id, owned@));
            assert(owned@ == finalized_feed(fv, reports2, reported_timestamp, now));
            if reward > 0 {
                assert(self.rewards@ == credited(pre.rewards, reporters_of(reports2), reward));
            } else {
                assert(self.rewards@ == credited(pre.rewards, reporters_of(reports2), reward));
            }
            assert(feed_wf(owned@));
            assert forall|f: u64| final(self)@.feeds.contains_key(f) implies feed_wf(
                #[trigger] final(self)@.feeds[f],
            ) by {
                if f != feed_id {
                    assert(pre.feeds.contains_key(f) && final(self)@.feeds[f] == pre.feeds[f]);
                }
            }
            assert forall|o: u64| final(self)@.rewards.contains_key(o) implies (
            #[trigger] final(self)@.rewards[o]) >= 0 by {
                lemma_reporters_no_duplicates(reports2);
                lemma_credited_pointwise(pre.rewards, reporters_of(reports2), reward, o);
                assert(balance_or0(final(self)@.rewards, o) >= 0);
            }
        }
        Ok(Some(update))
    }
}

} // verus!

verus! {

/// Whether no oracle occurs twice among the reports.
fn reports_distinct(v: &Vec<OracleReport>) -> (r: bool)
    ensures
        r == distinct_reporters(v@),
{
    let mut i: usize = 0;
    while i < v.len()
        invariant
            i <= v@.len(),
            forall|a: int, b: int|
                0 <= a < b < v@.len() && a < i ==> (#[trigger] v@[a]).oracle
                    != (#[trigger] v@[b]).oracle,
        decreases v@.len() - i,
    {
        let mut j: usize = i + 1;
        while j < v.len()
            invariant
                i < j <= v@.len(),
                forall|b: int| i < b < j ==> (#[trigger] v@[b]).oracle != v@[i as int].oracle,
            decreases v@.len() - j,
        {
            if v[j].oracle == v[i].oracle {
                return false;
            }
            j += 1;
        }
        i += 1;
    }
    true
}

/// Whether a feed record satisfies the stored-feed invariant.
fn feed_check(feed: &Feed) -> (r: bool)
    ensures
        r == feed_wf(feed@),
{
    proof {
        crate::feed::lemma_config_fixed_point(feed.config);
    }
    let c = &feed.config;
    let config_ok = c.heartbeat_seconds != 0 && 1 <= c.deviation_bps && c.deviation_bps
        <= crate::feed::ORACLE_MAX_DEVIATION_BPS && c.min_oracles >= 1 && ((1 <= c.max_oracles
        && c.max_oracles <= ORACLE_MAX_ORACLES_PER_FEED && c.min_oracles <= c.max_oracles) || (
    c.max_oracles == c.min_oracles && c.min_oracles > ORACLE_MAX_ORACLES_PER_FEED));
    if !config_ok {
        return false;
    }
    if feed.oracles.len() == 0 || feed.oracles.len() > ORACLE_MAX_ORACLES_PER_FEED as usize {
        return false;
    }
    if feed.reports.len() >= c.min_oracles as usize {
        return false;
    }
    reports_distinct(&feed.reports)
}

impl OracleNetwork {
    /// The stored admin, if initialization has happened.
    pub fn get_admin(&self) -> (r: Option<u64>)
        ensures
            r == self@.admin,
    {
        self.admin
    }

    /// The registered staking and reward token handles.
    pub fn get_tokens(&self) -> (r: (Option<u64>, Option<u64>))
        ensures
            r.0 == self@.staking_token,
            r.1 == self@.reward_token,
    {
        (self.staking_token, self.reward_token)
    }

    /// The stored feeds as entries, for a host that persists them elsewhere.
    pub fn feed_entries(&self) -> (r: &Vec<(u64, Feed)>)
        requires
            self.wf(),
        ensures
            crate::table::unique_keys(r@),
            lift_feeds(crate::table::map_of(r@)) == self@.feeds,
    {
        self.feeds.entries()
    }

    /// The stake ledger as entries.
    pub fn stake_entries(&self) -> (r: &Vec<(u64, i128)>)
        requires
            self.wf(),
        ensures
            crate::table::unique_keys(r@),
            crate::table::map_of(r@) == self@.stakes,
    {
        self.stakes.entries()
    }

    /// The rewards ledger as entries.
    pub fn reward_entries(&self) -> (r: &Vec<(u64, i128)>)
        requires
            self.wf(),
        ensures
            crate::table::unique_keys(r@),
            crate::table::map_of(r@) == self@.rewards,
    {
        self.rewards.entries()
    }

    /// Rebuilds a network from persisted parts, refusing any state that
    /// breaks the network invariant; on a repeated key the later entry wins.
    #[verifier::loop_isolation(false)]
    pub fn from_parts(
        admin: Option<u64>,
        staking_token: Option<u64>,
        reward_token: Option<u64>,
        feeds: Vec<(u64, Feed)>,
        stakes: Vec<(u64, i128)>,
        rewards: Vec<(u64, i128)>,
    ) -> (r: Option<OracleNetwork>)
        ensures
            ({
                let v = NetworkView {
                    admin,
                    staking_token,
                    reward_token,
                    feeds: lift_feeds(crate::table::map_of(feeds@)),
                    stakes: crate::table::map_of(stakes@),
                    rewards: crate::table::map_of(rewards@),
                };
                match r {
                    Some(n) => n.wf() && n@ == v && view_wf(v),
                    None => !view_wf(v),
                }
            }),
    {
        let n = OracleNetwork {
            admin,
            staking_token,
            reward_token,
            feeds: Table::from_entries(feeds),
            stakes: Table::from_entries(stakes),
            rewards: Table::from_entries(rewards),
        };
        let fe = n.feeds.entries();
        let mut i: usize = 0;
        while i < fe.len()
            invariant
                i <= fe@.len(),
                forall|j: int| 0 <= j < i ==> feed_wf((#[trigger] fe@[j]).1@),
            decreases fe@.len() - i,
        {
            if !feed_check(&fe[i].1) {
                proof {
                    crate::table::lemma_map_of_index(fe@, i as int);
                    assert(n@.feeds.contains_key(fe@[i as int].0));
                    assert(n@.feeds[fe@[i as int].0] == fe@[i as int].1@);
                }
                return None;
            }
            i += 1;
        }
        proof {
            assert forall|f: u64| n@.feeds.contains_key(f) implies feed_wf(
                #[trigger] n@.feeds[f],
            ) by {
                crate::table::lemma_map_of_contains(fe@, f);
                let j = choose|j: int| 0 <= j < fe@.len() && (#[trigger] fe@[j]).0 == f;
                crate::table::lemma_map_of_index(fe@, j);
            }
        }
        let se = n.stakes.entries();
        let mut i: usize = 0;
        while i < se.len()
            invariant
                i <= se@.len(),
                forall|j: int| 0 <= j < i ==> (#[trigger] se@[j]).1 >= 0,
            decreases se@.len() - i,
        {
            if se[i].1 < 0 {
                proof {
                    crate::table::lemma_map_of_index(se@, i as int);
                }
                return None;
            }
            i += 1;
        }
        proof {
            assert forall|o: u64| n@.stakes.contains_key(o) implies #[trigger] n@.stakes[o]
                >= 0 by {
                crate::table::lemma_map_of_contains(se@, o);
                let j = choose|j: int| 0 <= j < se@.len() && (#[trigger] se@[j]).0 == o;
                crate::table::lemma_map_of_index(se@, j);
            }
        }
        let re = n.rewards.entries();
        let mut i: usize = 0;
        while i < re.len()
            invariant
                i <= re@.len(),
                forall|j: int| 0 <= j < i ==> (#[trigger] re@[j]).1 >= 0,
            decreases re@.len() - i,
        {
            if re[i].1 < 0 {
                proof {
                    crate::table::lemma_map_of_index(re@, i as int);
                }
                return None;
            }
            i += 1;
        }
        proof {
            assert forall|o: u64| n@.rewards.contains_key(o) implies #[trigger] n@.rewards[o]
                >= 0 by {
                crate::table::lemma_map_of_contains(re@, o);
                let j = choose|j: int| 0 <= j < re@.len() && (#[trigger] re@[j]).0 == o;
                crate::table::lemma_map_of_index(re@, j);
            }
        }
        Some(n)
    }
}

} // verus!
