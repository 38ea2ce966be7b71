use oracle_network::errors::Error;
use oracle_network::feed::{FeedUpdate, OracleFeedConfig, OracleFeedType, OracleFeedState, OracleReport};
use oracle_network::network::{Feed, OracleNetwork};

const ADMIN: u64 = 1;
const ORACLE1: u64 = 11;
const ORACLE2: u64 = 12;
const ORACLE3: u64 = 13;
const STAKING_TOKEN: u64 = 100;
const REWARD_TOKEN: u64 = 101;
const FEED: u64 = 42;
const FALLBACK_FEED: u64 = 43;

fn price_config(min_oracles: u32, max_oracles: u32, reward: i128) -> OracleFeedConfig {
    OracleFeedConfig {
        feed_type: OracleFeedType::Price,
        description: "BTC/USDC price".to_string(),
        decimals: 8,
        heartbeat_seconds: 60,
        deviation_bps: 5000,
        min_oracles,
        max_oracles,
        reward_per_submission: reward,
    }
}

fn ready_network() -> OracleNetwork {
    let mut n = OracleNetwork::new();
    assert!(n.initialize(ADMIN));
    n.set_tokens(ADMIN, STAKING_TOKEN, REWARD_TOKEN).unwrap();
    n
}

#[test]
fn test_basic_flow() {
    let mut n = ready_network();
    let cfg = price_config(2, 2, 10000000);
    n.create_feed(ADMIN, FEED, cfg, vec![ORACLE1, ORACLE2]).unwrap();

    n.stake(ORACLE1, 50000000).unwrap();
    n.stake(ORACLE2, 50000000).unwrap();

    n.submit(FEED, 500000000, 1000000, ORACLE1, 1000000).unwrap();
    n.submit(FEED, 510000000, 1000000, ORACLE2, 1000000).unwrap();

    let state_opt = n.get_latest(FEED);
    assert!(state_opt.is_some());
    let state = state_opt.unwrap();
    assert_eq!(state.latest_round_id, 1);
    assert_eq!(state.latest_value, 510000000);

    let rewards1 = n.get_pending_rewards(ORACLE1);
    let rewards2 = n.get_pending_rewards(ORACLE2);
    assert_eq!(rewards1, 10000000);
    assert_eq!(rewards2, 10000000);
}

#[test]
fn quorum_of_two_finalizes_on_upper_median() {
    // A feed with a quorum of two: the first report leaves the feed absent,
    // the second finalizes on the upper of the two values.
    let mut n = ready_network();
    n.create_feed(ADMIN, FEED, price_config(2, 4, 10000000), vec![ORACLE1, ORACLE2]).unwrap();

    let first = n.submit(FEED, 500000000, 1000, ORACLE1, 1000).unwrap();
    assert_eq!(first, None);
    assert_eq!(n.get_latest(FEED), None);
    assert_eq!(n.get_pending_rewards(ORACLE1), 0);

    let second = n.submit(FEED, 510000000, 1000, ORACLE2, 1000).unwrap();
    assert_eq!(
        second,
        Some(FeedUpdate { feed_id: FEED, value: 510000000, round_id: 1, timestamp: 1000 })
    );
    let state = n.get_latest(FEED).unwrap();
    assert_eq!(state.latest_value, 510000000);
    assert_eq!(state.latest_round_id, 1);
    assert_eq!(state.latest_timestamp, 1000);
    assert_eq!(n.get_pending_rewards(ORACLE1), 10000000);
    assert_eq!(n.get_pending_rewards(ORACLE2), 10000000);
}

#[test]
fn quorum_of_three_takes_true_median() {
    let mut n = ready_network();
    n.create_feed(ADMIN, FEED, price_config(3, 3, 0), vec![ORACLE1, ORACLE2, ORACLE3]).unwrap();

    assert_eq!(n.submit(FEED, 10, 5, ORACLE1, 5).unwrap(), None);
    assert_eq!(n.submit(FEED, 30, 5, ORACLE2, 5).unwrap(), None);
    let update = n.submit(FEED, 20, 5, ORACLE3, 5).unwrap().unwrap();
    assert_eq!(update.value, 20);
    assert_eq!(n.get_latest(FEED).unwrap().latest_value, 20);
}

#[test]
fn config_normalization_applies_defaults() {
    let mut n = ready_network();
    let cfg = OracleFeedConfig {
        feed_type: OracleFeedType::Statistic,
        description: "raw".to_string(),
        decimals: 0,
        heartbeat_seconds: 0,
        deviation_bps: 0,
        min_oracles: 0,
        max_oracles: 0,
        reward_per_submission: 0,
    };
    n.create_feed(ADMIN, FEED, cfg, vec![ORACLE1]).unwrap();
    let stored = n.get_feed_config(FEED).unwrap();
    assert_eq!(stored.heartbeat_seconds, 60);
    assert_eq!(stored.deviation_bps, 5000);
    assert_eq!(stored.min_oracles, 1);
    assert_eq!(stored.max_oracles, 16);
    assert_eq!(stored.decimals, 0);
}

#[test]
fn config_normalization_clamps_deviation_and_raises_max() {
    let mut n = ready_network();
    let mut cfg = price_config(5, 3, 0);
    cfg.deviation_bps = 9000;
    n.create_feed(ADMIN, FEED, cfg, vec![ORACLE1]).unwrap();
    let stored = n.get_feed_config(FEED).unwrap();
    assert_eq!(stored.deviation_bps, 5000);
    assert_eq!(stored.min_oracles, 5);
    assert_eq!(stored.max_oracles, 5);
}

#[test]
fn stake_then_unstake_restores_prior_stake() {
    let mut n = ready_network();
    n.stake(ORACLE1, 700).unwrap();
    n.stake(ORACLE1, 300).unwrap();
    assert_eq!(n.get_stake(ORACLE1), 1000);
    n.unstake(ORACLE1, 300).unwrap();
    assert_eq!(n.get_stake(ORACLE1), 700);
    n.unstake(ORACLE1, 700).unwrap();
    assert_eq!(n.get_stake(ORACLE1), 0);
}

#[test]
fn unstake_more_than_staked_fails() {
    let mut n = ready_network();
    n.stake(ORACLE1, 500).unwrap();
    assert_eq!(n.unstake(ORACLE1, 600), Err(Error::InsufficientStake));
    assert_eq!(n.get_stake(ORACLE1), 500);
}

#[test]
fn stake_rejects_non_positive_amounts() {
    let mut n = ready_network();
    assert_eq!(n.stake(ORACLE1, 0), Err(Error::InvalidAmount));
    assert_eq!(n.stake(ORACLE1, -5), Err(Error::InvalidAmount));
    assert_eq!(n.unstake(ORACLE1, 0), Err(Error::InvalidAmount));
}

#[test]
fn stake_requires_registered_token() {
    let mut n = OracleNetwork::new();
    assert!(n.initialize(ADMIN));
    assert_eq!(n.stake(ORACLE1, 100), Err(Error::StakingTokenNotSet));
}

#[test]
fn stake_overflow_is_rejected() {
    let mut n = ready_network();
    n.stake(ORACLE1, i128::MAX).unwrap();
    assert_eq!(n.stake(ORACLE1, 1), Err(Error::Overflow));
    assert_eq!(n.get_stake(ORACLE1), i128::MAX);
}

#[test]
fn slash_takes_at_most_current_stake() {
    let mut n = ready_network();
    n.stake(ORACLE1, 500).unwrap();
    assert_eq!(n.slash(ADMIN, ORACLE1, 200), Ok(200));
    assert_eq!(n.get_stake(ORACLE1), 300);
    assert_eq!(n.slash(ADMIN, ORACLE1, 9999), Ok(300));
    assert_eq!(n.get_stake(ORACLE1), 0);
    assert_eq!(n.slash(ADMIN, ORACLE1, 50), Ok(0));
    assert_eq!(n.get_stake(ORACLE1), 0);
}

#[test]
fn slash_is_admin_gated_and_validated() {
    let mut n = ready_network();
    n.stake(ORACLE1, 500).unwrap();
    assert_eq!(n.slash(ORACLE2, ORACLE1, 100), Err(Error::Unauthorized));
    assert_eq!(n.slash(ADMIN, ORACLE1, 0), Err(Error::InvalidAmount));
    assert_eq!(n.get_stake(ORACLE1), 500);
}

#[test]
fn claim_rewards_pays_out_and_zeroes() {
    let mut n = ready_network();
    n.create_feed(ADMIN, FEED, price_config(1, 1, 777), vec![ORACLE1]).unwrap();
    n.submit(FEED, 5, 0, ORACLE1, 0).unwrap();
    assert_eq!(n.get_pending_rewards(ORACLE1), 777);
    assert_eq!(n.claim_rewards(ORACLE1), Ok(777));
    assert_eq!(n.get_pending_rewards(ORACLE1), 0);
    assert_eq!(n.claim_rewards(ORACLE1), Ok(0));
}

#[test]
fn claim_without_reward_token_fails_only_with_pending() {
    let mut n = OracleNetwork::new();
    assert!(n.initialize(ADMIN));
    // No tokens registered: claiming with nothing pending is still a no-op.
    assert_eq!(n.claim_rewards(ORACLE1), Ok(0));
}

#[test]
fn duplicate_report_in_same_round_fails() {
    let mut n = ready_network();
    n.create_feed(ADMIN, FEED, price_config(2, 2, 0), vec![ORACLE1, ORACLE2]).unwrap();
    n.submit(FEED, 10, 0, ORACLE1, 0).unwrap();
    assert_eq!(n.submit(FEED, 11, 0, ORACLE1, 0), Err(Error::DuplicateReport));
    // The round is untouched: the other oracle still finalizes it.
    let update = n.submit(FEED, 30, 0, ORACLE2, 0).unwrap().unwrap();
    assert_eq!(update.value, 30);
    // After the finalize the round is cleared, so the oracle may report again.
    assert_eq!(n.submit(FEED, 12, 0, ORACLE1, 0).unwrap(), None);
}

#[test]
fn round_ids_step_by_one_per_finalize() {
    let mut n = ready_network();
    n.create_feed(ADMIN, FEED, price_config(1, 1, 0), vec![ORACLE1]).unwrap();
    for round in 1..=5u64 {
        let update = n.submit(FEED, round as i128, 0, ORACLE1, 0).unwrap().unwrap();
        assert_eq!(update.round_id, round);
        assert_eq!(n.get_latest(FEED).unwrap().latest_round_id, round);
    }
}

#[test]
fn submit_validates_membership_and_feed() {
    let mut n = ready_network();
    n.create_feed(ADMIN, FEED, price_config(1, 1, 0), vec![ORACLE1]).unwrap();
    assert_eq!(n.submit(FALLBACK_FEED, 1, 0, ORACLE1, 0), Err(Error::UnknownFeed));
    assert_eq!(n.submit(FEED, 1, 0, ORACLE2, 0), Err(Error::NotOracle));
}

#[test]
fn submit_rejects_timestamps_beyond_heartbeat() {
    let mut n = ready_network();
    n.create_feed(ADMIN, FEED, price_config(1, 1, 0), vec![ORACLE1]).unwrap();
    // Heartbeat is 60: a report 61 seconds ahead of the clock is refused.
    assert_eq!(n.submit(FEED, 1, 1061, ORACLE1, 1000), Err(Error::TimestampSkew));
    // Exactly at the bound is accepted, and so is an arbitrarily old one:
    // there is deliberately no lower bound.
    n.submit(FEED, 1, 1060, ORACLE1, 1000).unwrap();
    n.submit(FEED, 1, 0, ORACLE1, 1000).unwrap();
}

#[test]
fn create_feed_validates_inputs() {
    let mut n = OracleNetwork::new();
    let cfg = || price_config(1, 1, 0);
    assert_eq!(n.create_feed(ADMIN, FEED, cfg(), vec![ORACLE1]), Err(Error::NotInitialized));
    assert!(n.initialize(ADMIN));
    assert_eq!(n.create_feed(ORACLE1, FEED, cfg(), vec![ORACLE1]), Err(Error::Unauthorized));
    assert_eq!(n.create_feed(ADMIN, FEED, cfg(), vec![]), Err(Error::NoOracles));
    let seventeen: Vec<u64> = (1..=17).collect();
    assert_eq!(n.create_feed(ADMIN, FEED, cfg(), seventeen), Err(Error::TooManyOracles));
    n.create_feed(ADMIN, FEED, cfg(), vec![ORACLE1]).unwrap();
    assert_eq!(n.create_feed(ADMIN, FEED, cfg(), vec![ORACLE2]), Err(Error::FeedExists));
    // The stored feed is the first one.
    assert_eq!(n.get_feed_oracles(FEED).unwrap(), vec![ORACLE1]);
}

#[test]
fn update_feed_oracles_replaces_only_the_set() {
    let mut n = ready_network();
    n.create_feed(ADMIN, FEED, price_config(2, 2, 5), vec![ORACLE1, ORACLE2]).unwrap();
    assert_eq!(n.update_feed_oracles(ADMIN, FALLBACK_FEED, vec![ORACLE3]), Err(Error::UnknownFeed));
    assert_eq!(n.update_feed_oracles(ORACLE1, FEED, vec![ORACLE3]), Err(Error::Unauthorized));
    assert_eq!(n.update_feed_oracles(ADMIN, FEED, vec![]), Err(Error::NoOracles));
    n.update_feed_oracles(ADMIN, FEED, vec![ORACLE3]).unwrap();
    assert_eq!(n.get_feed_oracles(FEED).unwrap(), vec![ORACLE3]);
    // Config untouched.
    assert_eq!(n.get_feed_config(FEED).unwrap().reward_per_submission, 5);
    assert_eq!(n.submit(FEED, 1, 0, ORACLE1, 0), Err(Error::NotOracle));
}

#[test]
fn replacing_oracles_mid_round_keeps_collected_reports() {
    let mut n = ready_network();
    n.create_feed(ADMIN, FEED, price_config(2, 2, 9), vec![ORACLE1, ORACLE2]).unwrap();
    n.submit(FEED, 100, 0, ORACLE1, 0).unwrap();
    n.update_feed_oracles(ADMIN, FEED, vec![ORACLE3]).unwrap();
    // The in-flight report from the replaced oracle still counts.
    let update = n.submit(FEED, 200, 0, ORACLE3, 0).unwrap().unwrap();
    assert_eq!(update.value, 200);
    assert_eq!(n.get_pending_rewards(ORACLE1), 9);
    assert_eq!(n.get_pending_rewards(ORACLE3), 9);
}

#[test]
fn get_latest_absent_until_first_finalize() {
    let mut n = ready_network();
    assert_eq!(n.get_latest(FEED), None);
    n.create_feed(ADMIN, FEED, price_config(2, 2, 0), vec![ORACLE1, ORACLE2]).unwrap();
    assert_eq!(n.get_latest(FEED), None);
    n.submit(FEED, 10, 0, ORACLE1, 0).unwrap();
    assert_eq!(n.get_latest(FEED), None);
}

#[test]
fn safe_read_staleness_boundary() {
    let mut n = ready_network();
    n.create_feed(ADMIN, FEED, price_config(1, 1, 0), vec![ORACLE1]).unwrap();
    n.submit(FEED, 5, 1000, ORACLE1, 1000).unwrap();
    // now - latest_timestamp = 11: absent with max_age 10, present with 11.
    assert_eq!(n.get_latest_safe(FEED, 10, 1011), None);
    assert!(n.get_latest_safe(FEED, 11, 1011).is_some());
    // A clock behind the stored timestamp saturates to age zero.
    assert!(n.get_latest_safe(FEED, 0, 900).is_some());
}

#[test]
fn fallback_read_picks_first_fresh_feed() {
    let mut n = ready_network();
    n.create_feed(ADMIN, FEED, price_config(1, 1, 0), vec![ORACLE1]).unwrap();
    n.create_feed(ADMIN, FALLBACK_FEED, price_config(1, 1, 0), vec![ORACLE1]).unwrap();
    n.submit(FEED, 10, 100, ORACLE1, 100).unwrap();
    n.submit(FALLBACK_FEED, 20, 500, ORACLE1, 500).unwrap();
    // Primary fresh enough: primary wins.
    let (state, used) = n.get_latest_with_fallback(FEED, FALLBACK_FEED, 1000, 1000, 600).unwrap();
    assert_eq!((state.latest_value, used), (10, FEED));
    // Primary stale, fallback fresh: fallback wins.
    let (state, used) = n.get_latest_with_fallback(FEED, FALLBACK_FEED, 100, 200, 600).unwrap();
    assert_eq!((state.latest_value, used), (20, FALLBACK_FEED));
    // Both stale: absent.
    assert_eq!(n.get_latest_with_fallback(FEED, FALLBACK_FEED, 100, 50, 600), None);
}

#[test]
fn initialize_is_effect_once() {
    let mut n = OracleNetwork::new();
    assert!(n.initialize(ADMIN));
    assert!(!n.initialize(ORACLE1));
    // The first admin still rules.
    assert_eq!(n.set_tokens(ORACLE1, 1, 2), Err(Error::Unauthorized));
    n.set_tokens(ADMIN, 1, 2).unwrap();
}

#[test]
fn set_tokens_overwrites_silently() {
    let mut n = ready_network();
    n.set_tokens(ADMIN, 200, 201).unwrap();
    assert_eq!(n.get_tokens(), (Some(200), Some(201)));
}

#[test]
fn set_tokens_requires_initialization() {
    let mut n = OracleNetwork::new();
    assert_eq!(n.set_tokens(ADMIN, 1, 2), Err(Error::NotInitialized));
}

#[test]
fn parts_round_trip_preserves_the_network() {
    let mut n = ready_network();
    n.create_feed(ADMIN, FEED, price_config(2, 2, 7), vec![ORACLE1, ORACLE2]).unwrap();
    n.stake(ORACLE1, 500).unwrap();
    n.submit(FEED, 10, 0, ORACLE1, 0).unwrap();

    let feeds = n.feed_entries().clone();
    let stakes = n.stake_entries().clone();
    let rewards = n.reward_entries().clone();
    let (st, rt) = n.get_tokens();
    let mut rebuilt =
        OracleNetwork::from_parts(n.get_admin(), st, rt, feeds, stakes, rewards).unwrap();

    assert_eq!(rebuilt.get_stake(ORACLE1), 500);
    // The in-flight report survived: the second submission finalizes.
    let update = rebuilt.submit(FEED, 30, 0, ORACLE2, 0).unwrap().unwrap();
    assert_eq!(update.value, 30);
    assert_eq!(update.round_id, 1);
}

#[test]
fn from_parts_refuses_broken_state() {
    // A negative stake is never a valid persisted state.
    assert!(OracleNetwork::from_parts(Some(ADMIN), None, None, vec![], vec![(ORACLE1, -1)], vec![])
        .is_none());
    // A non-normalized feed configuration is refused too.
    let bad_feed = Feed {
        config: OracleFeedConfig {
            feed_type: OracleFeedType::Price,
            description: "raw".to_string(),
            decimals: 0,
            heartbeat_seconds: 0,
            deviation_bps: 5000,
            min_oracles: 1,
            max_oracles: 1,
            reward_per_submission: 0,
        },
        oracles: vec![ORACLE1],
        state: OracleFeedState {
            latest_value: 0,
            latest_round_id: 0,
            latest_timestamp: 0,
            latest_updated_at_ledger: 0,
        },
        reports: vec![],
    };
    assert!(OracleNetwork::from_parts(Some(ADMIN), None, None, vec![(FEED, bad_feed)], vec![], vec![])
        .is_none());
}

#[test]
fn round_id_overflow_aborts_without_effect() {
    let feed = Feed {
        config: price_config(1, 1, 0),
        oracles: vec![ORACLE1],
        state: OracleFeedState {
            latest_value: 9,
            latest_round_id: u64::MAX,
            latest_timestamp: 0,
            latest_updated_at_ledger: 0,
        },
        reports: vec![],
    };
    let mut n =
        OracleNetwork::from_parts(Some(ADMIN), None, None, vec![(FEED, feed)], vec![], vec![])
            .unwrap();
    assert_eq!(n.submit(FEED, 1, 0, ORACLE1, 0), Err(Error::Overflow));
    assert_eq!(n.get_latest(FEED).unwrap().latest_value, 9);
}

#[test]
fn reward_overflow_aborts_without_effect() {
    let feed = Feed {
        config: price_config(2, 2, 10),
        oracles: vec![ORACLE1, ORACLE2],
        state: OracleFeedState {
            latest_value: 0,
            latest_round_id: 0,
            latest_timestamp: 0,
            latest_updated_at_ledger: 0,
        },
        reports: vec![OracleReport { oracle: ORACLE1, value: 50 }],
    };
    let mut n = OracleNetwork::from_parts(
        Some(ADMIN),
        None,
        None,
        vec![(FEED, feed)],
        vec![],
        vec![(ORACLE1, i128::MAX - 5)],
    )
    .unwrap();
    assert_eq!(n.submit(FEED, 60, 0, ORACLE2, 0), Err(Error::Overflow));
    // Nothing moved: the round is still accumulating and no reward landed.
    assert_eq!(n.get_latest(FEED), None);
    assert_eq!(n.get_pending_rewards(ORACLE1), i128::MAX - 5);
    assert_eq!(n.get_pending_rewards(ORACLE2), 0);
}

#[test]
fn claim_with_pending_but_no_reward_token_fails() {
    let mut n = OracleNetwork::from_parts(
        Some(ADMIN),
        None,
        None,
        vec![],
        vec![],
        vec![(ORACLE1, 40)],
    )
    .unwrap();
    assert_eq!(n.claim_rewards(ORACLE1), Err(Error::RewardTokenNotSet));
    assert_eq!(n.get_pending_rewards(ORACLE1), 40);
}

#[test]
fn unstake_without_staking_token_fails_after_balance_check() {
    let mut n = OracleNetwork::from_parts(
        Some(ADMIN),
        None,
        None,
        vec![],
        vec![(ORACLE1, 500)],
        vec![],
    )
    .unwrap();
    // The balance check comes first...
    assert_eq!(n.unstake(ORACLE1, 600), Err(Error::InsufficientStake));
    // ...and only a covered withdrawal trips over the missing token.
    assert_eq!(n.unstake(ORACLE1, 500), Err(Error::StakingTokenNotSet));
    assert_eq!(n.get_stake(ORACLE1), 500);
}

#[test]
fn feed_getters_absent_for_unknown_feeds() {
    let n = ready_network();
    assert!(n.get_feed_config(FEED).is_none());
    assert!(n.get_feed_oracles(FEED).is_none());
}

#[test]
fn rewards_skipped_when_reward_per_submission_is_zero() {
    let mut n = ready_network();
    n.create_feed(ADMIN, FEED, price_config(1, 1, 0), vec![ORACLE1]).unwrap();
    n.submit(FEED, 5, 0, ORACLE1, 0).unwrap();
    assert_eq!(n.get_pending_rewards(ORACLE1), 0);
}
