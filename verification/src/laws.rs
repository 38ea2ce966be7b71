//! Ledger and protocol laws: properties that relate several operations, each
//! stated over the same spec functions the operations' contracts use.

use vstd::prelude::*;

use crate::feed::{OracleFeedConfig, OracleReport};
use crate::network::{
    accumulated_feed, age_of, balance_or0, created_feed, finalized_feed, has_reported,
    slashed, spec_get_latest, spec_get_latest_safe, staked, unstaked, FeedView, NetworkView,
};

verus! {

/// Staking an amount and then withdrawing the same amount restores every
/// oracle's stake exactly — the staker's and everyone else's.
pub proof fn law_stake_unstake_roundtrip(m: Map<u64, i128>, oracle: u64, amount: i128)
    requires
        0 < amount,
        balance_or0(m, oracle) + amount <= i128::MAX,
    ensures
        forall|q: u64|
            balance_or0(unstaked(staked(m, oracle, amount), oracle, amount), q) == balance_or0(
                m,
                q,
            ),
{
}

/// Slashing never drives any stake below zero, however large the requested
/// amount; what actually leaves the ledger is the lesser of the request and
/// the current stake. (Non-positive requests are rejected by `slash` before
/// this transition is ever applied.)
pub proof fn law_slash_never_negative(m: Map<u64, i128>, oracle: u64, amount: i128)
    requires
        0 < amount,
        forall|q: u64| #[trigger] balance_or0(m, q) >= 0,
    ensures
        forall|q: u64| #[trigger] balance_or0(slashed(m, oracle, amount), q) >= 0,
        balance_or0(m, oracle) - balance_or0(slashed(m, oracle, amount), oracle) == (
        if balance_or0(m, oracle) < amount {
            balance_or0(m, oracle) as int
        } else {
            amount as int
        }),
{
    let post = slashed(m, oracle, amount);
    assert forall|q: u64| #[trigger] balance_or0(post, q) >= 0 by {
        assert(balance_or0(m, q) >= 0);
        if q == oracle && balance_or0(m, oracle) > 0 {
            assert(post[oracle] >= 0);
        }
    }
}

/// A staleness-bounded read is absent exactly when the plain read is absent
/// or the stored state is older than the bound; the age saturates, so a
/// clock behind the stored timestamp reads as age zero.
pub proof fn law_safe_read_staleness(v: NetworkView, feed_id: u64, max_age_seconds: u64, now: u64)
    ensures
        (spec_get_latest(v, feed_id) is None) ==> (spec_get_latest_safe(
            v,
            feed_id,
            max_age_seconds,
            now,
        ) is None),
        (spec_get_latest(v, feed_id) matches Some(state) ==> ((spec_get_latest_safe(
            v,
            feed_id,
            max_age_seconds,
            now,
        ) is None) <==> age_of(now, state.latest_timestamp) > max_age_seconds)),
        (spec_get_latest_safe(v, feed_id, max_age_seconds, now) matches Some(state) ==> Some(state)
            == spec_get_latest(v, feed_id)),
{
}

/// Round ids start at zero at feed creation, step by exactly one on each
/// finalize, and do not move while a round merely accumulates.
pub proof fn law_round_id_steps(
    config: OracleFeedConfig,
    oracles: Seq<u64>,
    fv: FeedView,
    report: OracleReport,
    reports2: Seq<OracleReport>,
    reported_timestamp: u64,
    now: u64,
)
    requires
        fv.state.latest_round_id < u64::MAX,
    ensures
        created_feed(config, oracles).state.latest_round_id == 0,
        finalized_feed(fv, reports2, reported_timestamp, now).state.latest_round_id
            == fv.state.latest_round_id + 1,
        accumulated_feed(fv, report).state == fv.state,
{
}

/// Once a report is counted, its oracle counts as having reported, so a
/// second report from the same oracle in the same round is rejected as a
/// duplicate.
pub proof fn law_no_double_report(fv: FeedView, report: OracleReport)
    ensures
        has_reported(accumulated_feed(fv, report).reports, report.oracle),
{
    let reports = accumulated_feed(fv, report).reports;
    assert(reports[reports.len() - 1].oracle == report.oracle);
}

} // verus!
