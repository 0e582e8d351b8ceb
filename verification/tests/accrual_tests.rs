use wagmi_staking::accrual::{need_staking_time_for_reward, update_reward};
use wagmi_staking::decimal::Decimal;
use wagmi_staking::error::ContractError;
use wagmi_staking::staking::TokenInfo;
use wagmi_staking::state::{Cluster, Holder};

const MOCK_TIME: u64 = 1571797419;
const ONE_DAY: u64 = 86400;

fn cluster_of(tokens: Vec<(u64, bool)>) -> Cluster {
    Cluster {
        token_ids: tokens
            .into_iter()
            .enumerate()
            .map(|(i, (kind, common))| TokenInfo {
                token_kind: kind,
                token_id: (i + 1).to_string(),
                is_common: common,
            })
            .collect(),
        last_reward_time: MOCK_TIME,
        last_reward_earned: Decimal::zero(),
        last_reward_release: Decimal::zero(),
    }
}

#[test]
fn test_required_seconds_single() {
    // A single default-rarity item uses its collection's base period.
    assert_eq!(need_staking_time_for_reward(&cluster_of(vec![(0, true)])), Some(84 * ONE_DAY));
    assert_eq!(need_staking_time_for_reward(&cluster_of(vec![(1, true)])), Some(168 * ONE_DAY));
    // A single non-default item uses the collection-A base less one day for
    // either collection: established engine behaviour, deliberately kept.
    assert_eq!(need_staking_time_for_reward(&cluster_of(vec![(0, false)])), Some(83 * ONE_DAY));
    assert_eq!(need_staking_time_for_reward(&cluster_of(vec![(1, false)])), Some(83 * ONE_DAY));
}

#[test]
fn test_required_seconds_blended() {
    // Two default monkeez: 84d / 2 / 2 * 0.9.
    assert_eq!(need_staking_time_for_reward(&cluster_of(vec![(0, true), (0, true)])), Some(
        3265920,
    ));
    // Two default kongz: 168d / 2 / 2 * 0.9.
    assert_eq!(need_staking_time_for_reward(&cluster_of(vec![(1, true), (1, true)])), Some(
        6531840,
    ));
    // One default monkeez and two legendary kongz: the legendaries weigh in
    // on the collection-A side and deduct one day each at the end.
    assert_eq!(
        need_staking_time_for_reward(&cluster_of(vec![(0, true), (1, false), (1, false)])),
        Some(1762560),
    );
    // Five legendary kongz.
    assert_eq!(
        need_staking_time_for_reward(&cluster_of(vec![(1, false); 5])),
        Some(438912),
    );
    // Five default kongz.
    assert_eq!(
        need_staking_time_for_reward(&cluster_of(vec![(1, true); 5])),
        Some(1741824),
    );
    // Five default monkeez.
    assert_eq!(
        need_staking_time_for_reward(&cluster_of(vec![(0, true); 5])),
        Some(870912),
    );
}

#[test]
fn test_accrual_idempotent() {
    let mut holder = Holder { clusters: vec![cluster_of(vec![(0, true), (0, true)])] };
    let t1 = MOCK_TIME + ONE_DAY;
    update_reward(&mut holder, t1).unwrap();
    let earned_once = holder.clusters[0].last_reward_earned;
    assert!(earned_once.atomics > 0);
    // A second pass at the same timestamp sees zero elapsed time.
    update_reward(&mut holder, t1).unwrap();
    assert_eq!(holder.clusters[0].last_reward_earned, earned_once);
    assert_eq!(holder.clusters[0].last_reward_time, t1);
}

#[test]
fn test_accrual_monotonic() {
    let mut holder = Holder { clusters: vec![cluster_of(vec![(1, true)])] };
    let mut previous: u128 = 0;
    for day in 1..=5u64 {
        update_reward(&mut holder, MOCK_TIME + day * ONE_DAY).unwrap();
        let earned = holder.clusters[0].last_reward_earned.atomics;
        assert!(earned >= previous);
        previous = earned;
    }
    // Five one-day passes over a 168-day period, each rounded down to an
    // atomic unit.
    assert_eq!(previous, 5 * (1_000_000_000_000_000_000u128 / 168));
}

#[test]
fn test_accrual_skips_empty_cluster() {
    let mut holder = Holder {
        clusters: vec![Cluster {
            token_ids: vec![],
            last_reward_time: MOCK_TIME,
            last_reward_earned: Decimal::zero(),
            last_reward_release: Decimal::zero(),
        }],
    };
    update_reward(&mut holder, MOCK_TIME + ONE_DAY * 365).unwrap();
    // A frozen cluster accrues nothing and keeps its timestamp.
    assert_eq!(holder.clusters[0].last_reward_earned.atomics, 0);
    assert_eq!(holder.clusters[0].last_reward_time, MOCK_TIME);
}

#[test]
fn test_accrual_overflow() {
    let mut holder = Holder { clusters: vec![cluster_of(vec![(0, true)])] };
    holder.clusters[0].last_reward_earned = Decimal { atomics: u128::MAX };
    let err = update_reward(&mut holder, MOCK_TIME + ONE_DAY).unwrap_err();
    assert_eq!(err, ContractError::ArithmeticOverflow);
    // All-or-nothing: the holder is untouched.
    assert_eq!(holder.clusters[0].last_reward_time, MOCK_TIME);
}
