use wagmi_staking::contract::{execute_claim_reward, execute_stake, query_cluster_reward};
use wagmi_staking::decimal::{Decimal, DECIMAL_FRACTIONAL};
use wagmi_staking::error::ContractError;
use wagmi_staking::selection::{build_transfer_msgs, get_selected_random};
use wagmi_staking::staking::TransferNft;
use wagmi_staking::state::{Cluster, Holder};

const MOCK_TIME: u64 = 1571797419;
const ONE_DAY: u64 = 86400;

fn reward_inventory() -> Vec<String> {
    (1..=90u64).map(|i| i.to_string()).collect()
}

fn transfer(token_id: &str) -> TransferNft {
    TransferNft {
        contract_addr: "REWARD_NFT".to_string(),
        recipient: "creator".to_string(),
        token_id: token_id.to_string(),
    }
}

/// Five legendary kongz items staked together accrue over a 438912-second
/// required period; sixteen days later three whole units are claimable and
/// three transfer instructions are emitted.
#[test]
fn test_claim_reward() {
    let mut holder = Holder { clusters: vec![] };
    for id in 1..=5u64 {
        execute_stake(&mut holder, id.to_string(), 1, false, MOCK_TIME).unwrap();
    }
    let claim_time = MOCK_TIME + ONE_DAY * 16;
    let total = execute_claim_reward(&mut holder, claim_time).unwrap();
    assert_eq!(total, 3);

    let selected = get_selected_random(reward_inventory(), total, claim_time).unwrap();
    let msgs = build_transfer_msgs(
        &"REWARD_NFT".to_string(),
        &"creator".to_string(),
        &selected,
    );
    assert_eq!(msgs, vec![transfer("70"), transfer("44"), transfer("18")]);

    // Claim conservation: released grew by exactly the claimed whole units
    // and still does not exceed earned.
    let c = &holder.clusters[0];
    assert_eq!(c.last_reward_release.atomics, 3 * DECIMAL_FRACTIONAL);
    assert_eq!(c.last_reward_earned.atomics, 3149606299212598425);
    assert!(c.last_reward_release.atomics <= c.last_reward_earned.atomics);

    // A second claim at the same time finds nothing further to release.
    let total = execute_claim_reward(&mut holder, claim_time).unwrap();
    assert_eq!(total, 0);
}

/// Five default-rarity kongz items blend to a 1741824-second required
/// period, longer than sixteen days: nothing is claimable yet.
#[test]
fn test_claim_five_common_kongz() {
    let mut holder = Holder { clusters: vec![] };
    for id in 1..=5u64 {
        execute_stake(&mut holder, id.to_string(), 1, true, MOCK_TIME).unwrap();
    }
    let claim_time = MOCK_TIME + ONE_DAY * 16;
    let total = execute_claim_reward(&mut holder, claim_time).unwrap();
    assert_eq!(total, 0);
    let c = &holder.clusters[0];
    assert_eq!(c.last_reward_earned.atomics, 793650793650793650);
    assert_eq!(c.last_reward_release.atomics, 0);
}

/// Five default-rarity monkeez items blend to an 870912-second required
/// period: sixteen days later the accrued ratio has crossed 1.0 exactly
/// once, so one transfer instruction is emitted and released grows by one
/// whole unit.
#[test]
fn test_claim_five_common_monkeez() {
    let mut holder = Holder { clusters: vec![] };
    for id in 1..=5u64 {
        execute_stake(&mut holder, id.to_string(), 0, true, MOCK_TIME).unwrap();
    }
    let claim_time = MOCK_TIME + ONE_DAY * 16;
    let total = execute_claim_reward(&mut holder, claim_time).unwrap();
    assert_eq!(total, 1);

    let selected = get_selected_random(reward_inventory(), total, claim_time).unwrap();
    let msgs = build_transfer_msgs(
        &"REWARD_NFT".to_string(),
        &"creator".to_string(),
        &selected,
    );
    assert_eq!(msgs.len(), 1);
    assert_eq!(msgs[0].contract_addr, "REWARD_NFT");
    assert_eq!(msgs[0].recipient, "creator");

    let c = &holder.clusters[0];
    assert_eq!(c.last_reward_earned.atomics, 1587301587301587301);
    assert_eq!(c.last_reward_release.atomics, DECIMAL_FRACTIONAL);
}

/// Querying reward for a holder whose only cluster is empty: zero claimable,
/// no estimated time, and no division by the undefined frozen period.
#[test]
fn test_query_reward_empty_cluster() {
    let holder = Holder {
        clusters: vec![Cluster {
            token_ids: vec![],
            last_reward_time: MOCK_TIME,
            last_reward_earned: Decimal::zero(),
            last_reward_release: Decimal::zero(),
        }],
    };
    let res = query_cluster_reward(&holder, MOCK_TIME + ONE_DAY * 100).unwrap();
    assert_eq!(res.claimable_amount, 0);
    assert_eq!(res.cluster_rewards.len(), 1);
    assert_eq!(res.cluster_rewards[0].claimable_num, 0);
    assert_eq!(res.cluster_rewards[0].remain_time, None);
}

#[test]
fn test_query_reward_values() {
    let mut holder = Holder { clusters: vec![] };
    for id in 1..=5u64 {
        execute_stake(&mut holder, id.to_string(), 0, true, MOCK_TIME).unwrap();
    }
    let res = query_cluster_reward(&holder, MOCK_TIME + ONE_DAY * 16).unwrap();
    assert_eq!(res.claimable_amount, 1);
    assert_eq!(res.cluster_rewards.len(), 1);
    assert_eq!(res.cluster_rewards[0].claimable_num, 1);
    // 870912 * (1 - 0.587301587301587301) seconds to the next whole unit.
    assert_eq!(res.cluster_rewards[0].remain_time, Some(359424));
    // The query is a read-only projection: nothing was persisted.
    assert_eq!(holder.clusters[0].last_reward_time, MOCK_TIME);
    assert_eq!(holder.clusters[0].last_reward_earned.atomics, 0);
}

/// Settlement at a stored earned amount already at the representable limit
/// aborts the whole operation and leaves the holder untouched.
#[test]
fn test_claim_overflow() {
    let mut holder = Holder { clusters: vec![] };
    execute_stake(&mut holder, "1".to_string(), 0, true, MOCK_TIME).unwrap();
    holder.clusters[0].last_reward_earned = Decimal { atomics: u128::MAX };
    let err = execute_claim_reward(&mut holder, MOCK_TIME + ONE_DAY * 100).unwrap_err();
    assert_eq!(err, ContractError::ArithmeticOverflow);
    assert_eq!(holder.clusters[0].last_reward_earned.atomics, u128::MAX);
    assert_eq!(holder.clusters[0].last_reward_time, MOCK_TIME);
}
