use wagmi_staking::contract::{
    execute_stake, execute_unstake, execute_update, holder_is_wf, instantiate, query_config,
    query_staked_tokens, receive_stake_kind,
};
use wagmi_staking::error::ContractError;
use wagmi_staking::querier::{is_common_kongz, KongzExtension, KongzMetaData};
use wagmi_staking::staking::{ClusterResponse, InstantiateMsg, TokenInfo, TokensInfoResponse};
use wagmi_staking::state::Holder;

const MOCK_TIME: u64 = 1571797419;

fn init_msg() -> InstantiateMsg {
    InstantiateMsg {
        monkeez_nft: "MONKEEZ_NFT".to_string(),
        kongz_nft: "KONGZ_NFT".to_string(),
        reward_nft: "REWARD_NFT".to_string(),
        tokens_owner: "REWARD_TOKENS_OWNER".to_string(),
    }
}

fn legendary_kongz_extension(k: u64) -> KongzExtension {
    KongzExtension {
        image: format!("KONGZ_IMG{}", k),
        image_data: None,
        external_url: None,
        description: "KONG_DES1".to_string(),
        name: format!("#{}", k),
        attributes: vec![KongzMetaData {
            display_type: None,
            trait_type: "Rarity".to_string(),
            value: "Legendary".to_string(),
        }],
        background_color: None,
        animation_url: None,
        youtube_url: None,
    }
}

#[test]
fn test_general() {
    let config = instantiate(init_msg(), "creator".to_string());
    let cfg = query_config(&config);
    assert_eq!(cfg.owner, "creator");
    assert_eq!(cfg.monkeez_nft, "MONKEEZ_NFT");
    assert_eq!(cfg.kongz_nft, "KONGZ_NFT");
    assert_eq!(cfg.reward_nft, "REWARD_NFT");

    // Stake five kongz items whose metadata marks them legendary.
    let mut holder = Holder { clusters: vec![] };
    for id in 1..=5u64 {
        let is_common = is_common_kongz(&legendary_kongz_extension(id));
        assert!(!is_common);
        execute_stake(&mut holder, id.to_string(), 1, is_common, MOCK_TIME).unwrap();
    }

    let res = query_staked_tokens(&holder);
    let expected_res = TokensInfoResponse {
        clusters: vec![ClusterResponse {
            tokens: vec![
                TokenInfo { token_kind: 1, token_id: "1".to_string(), is_common: false },
                TokenInfo { token_kind: 1, token_id: "2".to_string(), is_common: false },
                TokenInfo { token_kind: 1, token_id: "3".to_string(), is_common: false },
                TokenInfo { token_kind: 1, token_id: "4".to_string(), is_common: false },
                TokenInfo { token_kind: 1, token_id: "5".to_string(), is_common: false },
            ],
        }],
    };
    assert_eq!(res, expected_res);
}

#[test]
fn test_cluster_capacity() {
    let mut holder = Holder { clusters: vec![] };
    for id in 1..=11u64 {
        execute_stake(&mut holder, id.to_string(), 0, true, MOCK_TIME).unwrap();
    }
    // The sixth stake found every cluster full and opened a new one.
    assert_eq!(holder.clusters.len(), 3);
    assert_eq!(holder.clusters[0].token_ids.len(), 5);
    assert_eq!(holder.clusters[1].token_ids.len(), 5);
    assert_eq!(holder.clusters[2].token_ids.len(), 1);
    assert_eq!(holder.clusters[2].token_ids[0].token_id, "11");
    assert!(holder_is_wf(&holder, MOCK_TIME));
}

#[test]
fn test_stake_invalid_kind() {
    let mut holder = Holder { clusters: vec![] };
    let err = execute_stake(&mut holder, "1".to_string(), 2, true, MOCK_TIME).unwrap_err();
    assert_eq!(err, ContractError::InvalidArgument);
    assert_eq!(holder.clusters.len(), 0);
}

#[test]
fn test_unstake() {
    let mut holder = Holder { clusters: vec![] };
    let config = instantiate(init_msg(), "creator".to_string());
    execute_stake(&mut holder, "7".to_string(), 0, true, MOCK_TIME).unwrap();
    execute_stake(&mut holder, "8".to_string(), 1, true, MOCK_TIME).unwrap();

    let sender = "creator".to_string();
    let msg =
        execute_unstake(&mut holder, &sender, 0, &"7".to_string(), &config, MOCK_TIME).unwrap();
    assert_eq!(msg.contract_addr, "MONKEEZ_NFT");
    assert_eq!(msg.recipient, "creator");
    assert_eq!(msg.token_id, "7");
    assert_eq!(holder.clusters.len(), 1);
    assert_eq!(holder.clusters[0].token_ids.len(), 1);
    assert_eq!(holder.clusters[0].token_ids[0].token_id, "8");

    let msg =
        execute_unstake(&mut holder, &sender, 1, &"8".to_string(), &config, MOCK_TIME).unwrap();
    assert_eq!(msg.contract_addr, "KONGZ_NFT");
    // The emptied cluster persists as a placeholder.
    assert_eq!(holder.clusters.len(), 1);
    assert_eq!(holder.clusters[0].token_ids.len(), 0);
}

#[test]
fn test_unstake_not_staked() {
    let mut holder = Holder { clusters: vec![] };
    let config = instantiate(init_msg(), "creator".to_string());
    execute_stake(&mut holder, "7".to_string(), 0, true, MOCK_TIME).unwrap();
    let sender = "creator".to_string();
    let err = execute_unstake(&mut holder, &sender, 1, &"7".to_string(), &config, MOCK_TIME)
        .unwrap_err();
    assert_eq!(err, ContractError::NotStaked);
    let err = execute_unstake(&mut holder, &sender, 5, &"7".to_string(), &config, MOCK_TIME)
        .unwrap_err();
    assert_eq!(err, ContractError::InvalidArgument);
    assert_eq!(holder.clusters[0].token_ids.len(), 1);
}

#[test]
fn test_stake_unstake_round_trip() {
    let mut holder = Holder { clusters: vec![] };
    let config = instantiate(init_msg(), "creator".to_string());
    execute_stake(&mut holder, "1".to_string(), 0, true, MOCK_TIME).unwrap();
    execute_stake(&mut holder, "2".to_string(), 1, false, MOCK_TIME).unwrap();
    let before = query_staked_tokens(&holder);
    let earned_before = holder.clusters[0].last_reward_earned;
    let released_before = holder.clusters[0].last_reward_release;

    let sender = "creator".to_string();
    execute_stake(&mut holder, "9".to_string(), 1, true, MOCK_TIME).unwrap();
    execute_unstake(&mut holder, &sender, 1, &"9".to_string(), &config, MOCK_TIME).unwrap();

    // Item for item, the cluster set is exactly what it was, and the reward
    // state is untouched by the stake/unstake pair.
    assert_eq!(query_staked_tokens(&holder), before);
    assert_eq!(holder.clusters[0].last_reward_earned, earned_before);
    assert_eq!(holder.clusters[0].last_reward_release, released_before);
}

#[test]
fn test_receive_stake_kind() {
    let config = instantiate(init_msg(), "creator".to_string());
    assert_eq!(receive_stake_kind(&config, &"MONKEEZ_NFT".to_string()), Ok(0));
    assert_eq!(receive_stake_kind(&config, &"KONGZ_NFT".to_string()), Ok(1));
    assert_eq!(
        receive_stake_kind(&config, &"MALLORY".to_string()),
        Err(ContractError::Unauthorized)
    );
}

#[test]
fn test_update_config() {
    let mut config = instantiate(init_msg(), "creator".to_string());
    let err = execute_update(
        &mut config,
        &"mallory".to_string(),
        Some("mallory".to_string()),
        None,
        None,
        None,
    )
    .unwrap_err();
    assert_eq!(err, ContractError::Unauthorized);
    assert_eq!(config.owner, "creator");

    execute_update(
        &mut config,
        &"creator".to_string(),
        Some("new_owner".to_string()),
        None,
        Some("KONGZ_NFT_V2".to_string()),
        None,
    )
    .unwrap();
    assert_eq!(config.owner, "new_owner");
    assert_eq!(config.monkeez_nft, "MONKEEZ_NFT");
    assert_eq!(config.kongz_nft, "KONGZ_NFT_V2");
    assert_eq!(config.reward_nft, "REWARD_NFT");
    assert_eq!(config.tokens_owner, "REWARD_TOKENS_OWNER");
}

#[test]
fn test_holder_is_wf() {
    let mut holder = Holder { clusters: vec![] };
    assert!(holder_is_wf(&holder, MOCK_TIME));
    execute_stake(&mut holder, "1".to_string(), 0, true, MOCK_TIME).unwrap();
    assert!(holder_is_wf(&holder, MOCK_TIME));
    // A record settled in the future fails the check.
    assert!(!holder_is_wf(&holder, MOCK_TIME - 1));
    // An item of an unrecognized kind fails the check.
    holder.clusters[0].token_ids[0].token_kind = 9;
    assert!(!holder_is_wf(&holder, MOCK_TIME));
}

#[test]
fn test_error_messages() {
    assert_eq!(ContractError::Unauthorized.message(), "unauthorized");
    assert_eq!(ContractError::NotStaked.message(), "Sender must have staked tokenID");
    assert_eq!(ContractError::InvalidArgument.message(), "token_kind has only 0 or 1");
    assert_eq!(ContractError::ArithmeticOverflow.message(), "arithmetic overflow");
}

#[test]
fn test_staked_nft_addr() {
    let config = instantiate(init_msg(), "creator".to_string());
    assert_eq!(config.staked_nft_addr(0), Some(&"MONKEEZ_NFT".to_string()));
    assert_eq!(config.staked_nft_addr(1), Some(&"KONGZ_NFT".to_string()));
    assert_eq!(config.staked_nft_addr(2), None);
}

#[test]
fn test_is_match() {
    let token = TokenInfo { token_kind: 1, token_id: "42".to_string(), is_common: true };
    assert!(token.is_match(1, &"42".to_string()));
    assert!(!token.is_match(0, &"42".to_string()));
    assert!(!token.is_match(1, &"43".to_string()));
}
