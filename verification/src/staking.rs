//! Protocol data types: requests, responses, and the staked-item record.

use vstd::prelude::*;

verus! {

/// Instantiation parameters: the addresses of the two stakeable collections,
/// the reward-item collection, and the custodian holding unissued reward
/// items.
#[derive(Clone, Debug, PartialEq)]
pub struct InstantiateMsg {
    pub monkeez_nft: String,
    pub kongz_nft: String,
    pub reward_nft: String,
    pub tokens_owner: String,
}

/// Hook request carried by an NFT transfer into the engine.
#[derive(Clone, Debug, PartialEq)]
pub enum Cw721HookMsg {
    Stake {},
}

/// Read-only query surface.
#[derive(Clone, Debug, PartialEq)]
pub enum QueryMsg {
    Config {},
    StakedTokens { owner: String },
    Reward { staker: String },
}

/// Migration request; carries nothing.
#[derive(Clone, Debug)]
pub struct MigrateMsg {}

/// The configuration, with addresses in readable form.
#[derive(Clone, Debug, PartialEq)]
pub struct ConfigResponse {
    pub owner: String,
    pub monkeez_nft: String,
    pub kongz_nft: String,
    pub reward_nft: String,
}

/// Claim projection for one cluster: the whole units currently claimable and
/// the seconds until the next whole unit accrues (absent for a frozen,
/// empty cluster).
#[derive(Clone, Copy, Debug, PartialEq, Eq, Structural)]
pub struct ClusterReward {
    pub claimable_num: u64,
    pub remain_time: Option<u64>,
}

/// Claim projection for a whole holder.
#[derive(Clone, Debug, PartialEq)]
pub struct RewardResponse {
    pub claimable_amount: u64,
    pub cluster_rewards: Vec<ClusterReward>,
}

/// One NFT held in a cluster, tagged by collection kind and rarity tier.
/// `token_kind` 0 is collection A (monkeez), 1 is collection B (kongz);
/// `is_common` marks the default rarity tier.
#[derive(Debug, PartialEq)]
pub struct TokenInfo {
    pub token_kind: u64,
    pub token_id: String,
    pub is_common: bool,
}

/// Mathematical value of a [`TokenInfo`].
#[verifier::ext_equal]
pub ghost struct TokenView {
    pub kind: u64,
    pub id: Seq<char>,
    pub is_common: bool,
}

impl View for TokenInfo {
    type V = TokenView;

    open spec fn view(&self) -> TokenView {
        TokenView { kind: self.token_kind, id: self.token_id@, is_common: self.is_common }
    }
}

/// Whether a token record is the item identified by `(kind, id)`.
pub open spec fn token_matches(t: TokenView, kind: u64, id: Seq<char>) -> bool {
    t.kind == kind && t.id == id
}

impl Clone for TokenInfo {
    fn clone(&self) -> (r: Self)
        ensures
            r == *self,
    {
        TokenInfo {
            token_kind: self.token_kind,
            token_id: self.token_id.clone(),
            is_common: self.is_common,
        }
    }
}

impl TokenInfo {
    /// Whether this record is the staked item identified by `(kind, id)`.
    pub fn is_match(&self, token_kind: u64, token_id: &String) -> (r: bool)
        ensures
            r == token_matches(self@, token_kind, token_id@),
    {
        self.token_kind == token_kind && self.token_id == *token_id
    }
}

/// The staked items of one cluster, in storage order.
#[derive(Clone, Debug, PartialEq)]
pub struct ClusterResponse {
    pub tokens: Vec<TokenInfo>,
}

/// The staked items of all clusters of a holder.
#[derive(Clone, Debug, PartialEq)]
pub struct TokensInfoResponse {
    pub clusters: Vec<ClusterResponse>,
}

/// An outbound instruction to the registry at `contract_addr`: move the NFT
/// `token_id` to `recipient`.
#[derive(Clone, Debug, PartialEq)]
pub struct TransferNft {
    pub contract_addr: String,
    pub recipient: String,
    pub token_id: String,
}

} // verus!
