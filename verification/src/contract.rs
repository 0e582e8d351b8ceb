//! The engine's operations: instantiation, stake, unstake, claim,
//! configuration update, and the read-only query surface.

use vstd::prelude::*;

use vstd::arithmetic::div_mod::lemma_div_pos_is_pos;
use vstd::arithmetic::div_mod::lemma_fundamental_div_mod;
use vstd::arithmetic::div_mod::lemma_mod_bound;
use vstd::arithmetic::mul::lemma_mul_is_commutative;

use vstd::arithmetic::div_mod::lemma_div_is_ordered;
use vstd::arithmetic::div_mod::lemma_div_multiples_vanish;
use vstd::arithmetic::mul::lemma_mul_left_inequality;
use vstd::arithmetic::mul::lemma_mul_nonnegative;
use vstd::arithmetic::mul::lemma_mul_upper_bound;

use crate::accrual::{
    need_staking_time_for_reward, period_view, settle_cluster, settle_clusters, settle_holder,
    settle_overflows, settled_clusters, KONGZ_PERIOD,
};
use crate::decimal::{Decimal, DECIMAL_FRACTIONAL};
use crate::error::ContractError;
use crate::staking::{
    token_matches, ClusterResponse, ClusterReward, ConfigResponse, InstantiateMsg, RewardResponse,
    TokenInfo, TokenView, TokensInfoResponse, TransferNft,
};
use crate::state::{
    holder_times_le, wf_cluster, wf_holder, wf_token, Cluster, ClusterView, Config, Holder,
    HolderView, MAX_CLUSTER_SIZE,
};

verus! {

/// Build the initial configuration from the instantiation request; the
/// sender of the request becomes the owner.
pub fn instantiate(msg: InstantiateMsg, sender: String) -> (c: Config)
    ensures
        c@.owner == sender@,
        c@.monkeez_nft == msg.monkeez_nft@,
        c@.kongz_nft == msg.kongz_nft@,
        c@.reward_nft == msg.reward_nft@,
        c@.tokens_owner == msg.tokens_owner@,
{
    Config {
        owner: sender,
        monkeez_nft: msg.monkeez_nft,
        kongz_nft: msg.kongz_nft,
        reward_nft: msg.reward_nft,
        tokens_owner: msg.tokens_owner,
    }
}

/// The item kind a staking hook carries, decided by which collection
/// registry sent it: the collection-A registry stakes kind 0, the
/// collection-B registry kind 1, and any other sender is rejected.
pub fn receive_stake_kind(config: &Config, sender: &String) -> (r: Result<u64, ContractError>)
    ensures
        sender@ == config@.monkeez_nft ==> r == Ok::<u64, ContractError>(0u64),
        sender@ != config@.monkeez_nft && sender@ == config@.kongz_nft ==> r == Ok::<
            u64,
            ContractError,
        >(1u64),
        sender@ != config@.monkeez_nft && sender@ != config@.kongz_nft ==> r == Err::<
            u64,
            ContractError,
        >(ContractError::Unauthorized),
{
    if *sender == config.monkeez_nft {
        Ok(0)
    } else if *sender == config.kongz_nft {
        Ok(1)
    } else {
        Err(ContractError::Unauthorized)
    }
}

/// Apply an authorized configuration update: each supplied field replaces
/// the stored one, absent fields are unchanged, and a caller other than the
/// recorded owner is rejected without any change.
pub fn execute_update(
    config: &mut Config,
    sender: &String,
    owner: Option<String>,
    monkeez_nft: Option<String>,
    kongz_nft: Option<String>,
    reward_token: Option<String>,
) -> (r: Result<(), ContractError>)
    ensures
        sender@ != old(config)@.owner ==> r == Err::<(), ContractError>(
            ContractError::Unauthorized,
        ) && final(config)@ == old(config)@,
        sender@ == old(config)@.owner ==> {
            &&& r is Ok
            &&& final(config)@.owner == (match owner {
                Some(o) => o@,
                None => old(config)@.owner,
            })
            &&& final(config)@.monkeez_nft == (match monkeez_nft {
                Some(m) => m@,
                None => old(config)@.monkeez_nft,
            })
            &&& final(config)@.kongz_nft == (match kongz_nft {
                Some(k) => k@,
                None => old(config)@.kongz_nft,
            })
            &&& final(config)@.reward_nft == (match reward_token {
                Some(t) => t@,
                None => old(config)@.reward_nft,
            })
            &&& final(config)@.tokens_owner == old(config)@.tokens_owner
        },
{
    if !(*sender == config.owner) {
        return Err(ContractError::Unauthorized);
    }
    if let Some(o) = owner {
        config.owner = o;
    }
    if let Some(m) = monkeez_nft {
        config.monkeez_nft = m;
    }
    if let Some(k) = kongz_nft {
        config.kongz_nft = k;
    }
    if let Some(t) = reward_token {
        config.reward_nft = t;
    }
    Ok(())
}

/// The position of the first cluster with a free slot, or the number of
/// clusters when every cluster is full.
pub open spec fn first_open_idx(cs: Seq<ClusterView>) -> int
    decreases cs.len(),
{
    if cs.len() == 0 {
        0
    } else if cs[0].tokens.len() < MAX_CLUSTER_SIZE {
        0
    } else {
        1 + first_open_idx(cs.drop_first())
    }
}

/// What characterizes the first open position: everything before it is
/// full, and it is open whenever it is in range.
pub proof fn lemma_first_open_idx(cs: Seq<ClusterView>)
    ensures
        0 <= first_open_idx(cs) <= cs.len(),
        forall|j: int|
            0 <= j < first_open_idx(cs) ==> (#[trigger] cs[j]).tokens.len() >= MAX_CLUSTER_SIZE,
        first_open_idx(cs) < cs.len() ==> cs[first_open_idx(cs)].tokens.len() < MAX_CLUSTER_SIZE,
    decreases cs.len(),
{
    if cs.len() > 0 && cs[0].tokens.len() >= MAX_CLUSTER_SIZE {
        let rest = cs.drop_first();
        lemma_first_open_idx(rest);
        assert forall|j: int| 0 <= j < first_open_idx(cs) implies (#[trigger] cs[j]).tokens.len()
            >= MAX_CLUSTER_SIZE by {
            if j > 0 {
                assert(rest[j - 1] == cs[j]);
                assert(rest[j - 1].tokens.len() >= MAX_CLUSTER_SIZE);
            }
        }
        if first_open_idx(cs) < cs.len() {
            assert(rest[first_open_idx(rest)] == cs[first_open_idx(cs)]);
        }
    }
}

/// A fresh cluster created by a stake when every existing cluster is full.
pub open spec fn new_cluster(t: TokenView, now: int) -> ClusterView {
    ClusterView { tokens: seq![t], last_time: now, earned: 0, released: 0 }
}

/// A cluster with one more item appended; its reward state is untouched.
pub open spec fn cluster_with_item(c: ClusterView, t: TokenView) -> ClusterView {
    ClusterView { tokens: c.tokens.push(t), last_time: c.last_time, earned: c.earned, released: c.released }
}

/// Admission of one item into a holder's clusters: the first cluster with a
/// free slot receives it, and when none exists a fresh single-item cluster
/// is appended.
pub open spec fn stake_insert(h: HolderView, t: TokenView, now: int) -> HolderView {
    let i = first_open_idx(h.clusters);
    if i < h.clusters.len() {
        HolderView { clusters: h.clusters.update(i, cluster_with_item(h.clusters[i], t)) }
    } else {
        HolderView { clusters: h.clusters.push(new_cluster(t, now)) }
    }
}

/// Stake one item for a holder at time `now`: settle every cluster first,
/// then admit the item. An unrecognized kind and an arithmetic overflow are
/// rejected with the holder untouched.
pub fn execute_stake(
    holder: &mut Holder,
    token_id: String,
    nft_kind: u64,
    is_common: bool,
    now: u64,
) -> (r: Result<(), ContractError>)
    requires
        wf_holder(old(holder)@),
        holder_times_le(old(holder)@, now as int),
    ensures
        nft_kind >= 2 ==> (r == Err::<(), ContractError>(ContractError::InvalidArgument)
            && final(holder)@ == old(holder)@),
        nft_kind < 2 && settle_overflows(old(holder)@.clusters, now as int) ==> (r == Err::<
            (),
            ContractError,
        >(ContractError::ArithmeticOverflow) && final(holder)@ == old(holder)@),
        nft_kind < 2 && !settle_overflows(old(holder)@.clusters, now as int) ==> {
            &&& r is Ok
            &&& final(holder)@ == stake_insert(
                settle_holder(old(holder)@, now as int),
                TokenView { kind: nft_kind, id: token_id@, is_common },
                now as int,
            )
            &&& wf_holder(final(holder)@)
            &&& holder_times_le(final(holder)@, now as int)
        },
{
    if nft_kind >= 2 {
        return Err(ContractError::InvalidArgument);
    }
    proof {
        assert forall|i: int| 0 <= i < holder.clusters@.len() implies wf_cluster(
            #[trigger] holder.clusters@[i]@,
        ) && holder.clusters@[i]@.last_time <= now as int by {
            assert(holder@.clusters[i] == holder.clusters@[i]@);
        }
    }
    let mut cs = match settled_clusters(&holder.clusters, now) {
        Ok(cs) => cs,
        Err(e) => {
            return Err(e);
        },
    };
    let ghost settled = settle_holder(old(holder)@, now as int);
    proof {
        assert(cs@.map_values(|c: Cluster| c@) == settled.clusters);
        assert forall|i: int| 0 <= i < settled.clusters.len() implies wf_cluster(
            #[trigger] settled.clusters[i],
        ) && settled.clusters[i].last_time <= now as int by {
            crate::accrual::lemma_settle_cluster_wf(old(holder)@.clusters[i], now as int);
            assert(settled.clusters[i] == settle_cluster(old(holder)@.clusters[i], now as int));
        }
        lemma_first_open_idx(settled.clusters);
    }
    let token_info = TokenInfo { token_kind: nft_kind, token_id, is_common };
    let ghost tok = token_info@;
    let n = cs.len();
    let mut i: usize = 0;
    while i < n && cs[i].token_ids.len() >= MAX_CLUSTER_SIZE
        invariant
            0 <= i <= n,
            n == cs@.len(),
            cs@.map_values(|c: Cluster| c@) == settled.clusters,
            forall|j: int|
                0 <= j < i ==> (#[trigger] settled.clusters[j]).tokens.len() >= MAX_CLUSTER_SIZE,
        decreases n - i,
    {
        proof {
            assert(settled.clusters[i as int] == cs@[i as int]@);
        }
        i = i + 1;
    }
    let ghost fo = first_open_idx(settled.clusters);
    proof {
        if i < n {
            assert(settled.clusters[i as int] == cs@[i as int]@);
            assert(settled.clusters[i as int].tokens.len() < MAX_CLUSTER_SIZE);
            if fo < i {
                assert(settled.clusters[fo].tokens.len() >= MAX_CLUSTER_SIZE);
            }
            if i < fo {
                assert(settled.clusters[i as int].tokens.len() >= MAX_CLUSTER_SIZE);
            }
            assert(i == fo);
        } else {
            assert(fo == n) by {
                if fo < n {
                    assert(settled.clusters[fo].tokens.len() >= MAX_CLUSTER_SIZE);
                }
            }
        }
    }
    if i < n {
        let mut target = cs.remove(i);
        target.token_ids.push(token_info);
        cs.insert(i, target);
        proof {
            assert(target@ =~= cluster_with_item(settled.clusters[i as int], tok));
            assert(cs@.map_values(|c: Cluster| c@) =~= settled.clusters.update(
                i as int,
                cluster_with_item(settled.clusters[i as int], tok),
            ));
        }
    } else {
        let mut first_items: Vec<TokenInfo> = Vec::new();
        first_items.push(token_info);
        let fresh = Cluster {
            token_ids: first_items,
            last_reward_time: now,
            last_reward_earned: Decimal::zero(),
            last_reward_release: Decimal::zero(),
        };
        proof {
            assert(fresh@ =~= new_cluster(tok, now as int));
        }
        cs.push(fresh);
        proof {
            assert(cs@.map_values(|c: Cluster| c@) =~= settled.clusters.push(
                new_cluster(tok, now as int),
            ));
        }
    }
    holder.clusters = cs;
    proof {
        assert(holder@ =~= stake_insert(settled, tok, now as int));
        lemma_stake_insert_wf(settled, tok, now as int);
    }
    Ok(())
}

/// Admission preserves the holder invariant and never settles a cluster
/// later than the admission time.
proof fn lemma_stake_insert_wf(h: HolderView, t: TokenView, now: int)
    requires
        wf_holder(h),
        wf_token(t),
        holder_times_le(h, now),
        0 <= now <= u64::MAX,
    ensures
        wf_holder(stake_insert(h, t, now)),
        holder_times_le(stake_insert(h, t, now), now),
{
    lemma_first_open_idx(h.clusters);
}

/// Law: cluster capacity. Admission never grows a cluster beyond five
/// items, and the stake of a holder whose clusters are all full opens a
/// fresh cluster holding exactly the staked item.
pub proof fn lemma_cluster_capacity(h: HolderView, t: TokenView, now: int)
    requires
        wf_holder(h),
        wf_token(t),
        holder_times_le(h, now),
        0 <= now <= u64::MAX,
    ensures
        wf_holder(stake_insert(h, t, now)),
        forall|i: int|
            0 <= i < stake_insert(h, t, now).clusters.len() ==> (#[trigger] stake_insert(
                h,
                t,
                now,
            ).clusters[i]).tokens.len() <= MAX_CLUSTER_SIZE,
        (forall|i: int|
            0 <= i < h.clusters.len() ==> (#[trigger] h.clusters[i]).tokens.len()
                >= MAX_CLUSTER_SIZE) ==> {
            &&& stake_insert(h, t, now).clusters.len() == h.clusters.len() + 1
            &&& stake_insert(h, t, now).clusters.last() == new_cluster(t, now)
        },
{
    lemma_stake_insert_wf(h, t, now);
    lemma_first_open_idx(h.clusters);
    if forall|i: int|
        0 <= i < h.clusters.len() ==> (#[trigger] h.clusters[i]).tokens.len()
            >= MAX_CLUSTER_SIZE {
        assert(first_open_idx(h.clusters) == h.clusters.len()) by {
            if first_open_idx(h.clusters) < h.clusters.len() {
                assert(h.clusters[first_open_idx(h.clusters)].tokens.len() >= MAX_CLUSTER_SIZE);
            }
        }
    }
}

/// Whether some item of the cluster is the staked item `(kind, id)`.
pub open spec fn cluster_matches(c: ClusterView, kind: u64, id: Seq<char>) -> bool {
    exists|j: int| 0 <= j < c.tokens.len() && token_matches(c.tokens[j], kind, id)
}

/// Whether some cluster of the holder contains the staked item `(kind, id)`.
pub open spec fn holder_matches(h: HolderView, kind: u64, id: Seq<char>) -> bool {
    exists|i: int| 0 <= i < h.clusters.len() && cluster_matches(h.clusters[i], kind, id)
}

/// The position of the first cluster containing the item, or the number of
/// clusters when none does.
pub open spec fn first_match_idx(cs: Seq<ClusterView>, kind: u64, id: Seq<char>) -> int
    decreases cs.len(),
{
    if cs.len() == 0 {
        0
    } else if cluster_matches(cs[0], kind, id) {
        0
    } else {
        1 + first_match_idx(cs.drop_first(), kind, id)
    }
}

/// What characterizes the first matching position: no cluster before it
/// matches, and it matches whenever it is in range.
pub proof fn lemma_first_match_idx(cs: Seq<ClusterView>, kind: u64, id: Seq<char>)
    ensures
        0 <= first_match_idx(cs, kind, id) <= cs.len(),
        forall|j: int|
            0 <= j < first_match_idx(cs, kind, id) ==> !cluster_matches(#[trigger] cs[j], kind, id),
        first_match_idx(cs, kind, id) < cs.len() ==> cluster_matches(
            cs[first_match_idx(cs, kind, id)],
            kind,
            id,
        ),
    decreases cs.len(),
{
    if cs.len() > 0 && !cluster_matches(cs[0], kind, id) {
        let rest = cs.drop_first();
        lemma_first_match_idx(rest, kind, id);
        assert forall|j: int| 0 <= j < first_match_idx(cs, kind, id) implies !cluster_matches(
            #[trigger] cs[j],
            kind,
            id,
        ) by {
            if j > 0 {
                assert(rest[j - 1] == cs[j]);
                assert(!cluster_matches(rest[j - 1], kind, id));
            }
        }
        if first_match_idx(cs, kind, id) < cs.len() {
            assert(rest[first_match_idx(rest, kind, id)] == cs[first_match_idx(cs, kind, id)]);
        }
    }
}

/// The predicate an item must meet to survive eviction of `(kind, id)`.
pub open spec fn keeps_item(kind: u64, id: Seq<char>) -> spec_fn(TokenView) -> bool {
    |t: TokenView| !token_matches(t, kind, id)
}

/// The cluster with every copy of the item `(kind, id)` removed; its reward
/// state survives the composition change untouched.
pub open spec fn remove_matching(c: ClusterView, kind: u64, id: Seq<char>) -> ClusterView {
    ClusterView {
        tokens: c.tokens.filter(keeps_item(kind, id)),
        last_time: c.last_time,
        earned: c.earned,
        released: c.released,
    }
}

/// Eviction of the item `(kind, id)`: the first cluster containing it has
/// every matching item removed; a holder without the item is unchanged.
pub open spec fn unstake_remove(h: HolderView, kind: u64, id: Seq<char>) -> HolderView {
    let i = first_match_idx(h.clusters, kind, id);
    if i < h.clusters.len() {
        HolderView { clusters: h.clusters.update(i, remove_matching(h.clusters[i], kind, id)) }
    } else {
        h
    }
}

/// Whether some item of the cluster is the staked item `(kind, id)`.
fn cluster_has_match(c: &Cluster, token_kind: u64, token_id: &String) -> (r: bool)
    ensures
        r == cluster_matches(c@, token_kind, token_id@),
{
    let n = c.token_ids.len();
    let mut j: usize = 0;
    while j < n
        invariant
            0 <= j <= n,
            n == c.token_ids@.len(),
            forall|k: int| 0 <= k < j ==> !token_matches(#[trigger] c@.tokens[k], token_kind, token_id@),
        decreases n - j,
    {
        if c.token_ids[j].is_match(token_kind, token_id) {
            proof {
                assert(token_matches(c@.tokens[j as int], token_kind, token_id@));
            }
            return true;
        }
        j = j + 1;
    }
    false
}

/// Unstake the item `(token_kind, token_id)` for a holder at time `now`:
/// settle every cluster first, then remove every copy of the item from the
/// first cluster containing it, and instruct the collection selected by the
/// kind to return the underlying NFT to the caller. The accrued reward
/// state of the cluster survives; only the accrual rate going forward
/// reflects the new composition. An unrecognized kind, an arithmetic
/// overflow and an item that is not staked are rejected with the holder
/// untouched.
pub fn execute_unstake(
    holder: &mut Holder,
    sender: &String,
    token_kind: u64,
    token_id: &String,
    config: &Config,
    now: u64,
) -> (r: Result<TransferNft, ContractError>)
    requires
        wf_holder(old(holder)@),
        holder_times_le(old(holder)@, now as int),
    ensures
        token_kind >= 2 ==> (r == Err::<TransferNft, ContractError>(ContractError::InvalidArgument)
            && final(holder)@ == old(holder)@),
        token_kind < 2 && settle_overflows(old(holder)@.clusters, now as int) ==> (r == Err::<
            TransferNft,
            ContractError,
        >(ContractError::ArithmeticOverflow) && final(holder)@ == old(holder)@),
        token_kind < 2 && !settle_overflows(old(holder)@.clusters, now as int) && !holder_matches(
            old(holder)@,
            token_kind,
            token_id@,
        ) ==> (r == Err::<TransferNft, ContractError>(ContractError::NotStaked) && final(holder)@
            == old(holder)@),
        token_kind < 2 && !settle_overflows(old(holder)@.clusters, now as int) && holder_matches(
            old(holder)@,
            token_kind,
            token_id@,
        ) ==> {
            &&& r is Ok
            &&& (r matches Ok(msg) ==> {
                &&& final(holder)@ == unstake_remove(
                    settle_holder(old(holder)@, now as int),
                    token_kind,
                    token_id@,
                )
                &&& msg.recipient@ == sender@
                &&& msg.token_id@ == token_id@
                &&& (token_kind == 0 ==> msg.contract_addr@ == config@.monkeez_nft)
                &&& (token_kind == 1 ==> msg.contract_addr@ == config@.kongz_nft)
                &&& wf_holder(final(holder)@)
                &&& holder_times_le(final(holder)@, now as int)
            })
        },
{
    broadcast use vstd::seq_lib::group_filter_ensures;
    broadcast use Seq::lemma_filter_contains_rev;

    if token_kind >= 2 {
        return Err(ContractError::InvalidArgument);
    }
    proof {
        assert forall|i: int| 0 <= i < holder.clusters@.len() implies wf_cluster(
            #[trigger] holder.clusters@[i]@,
        ) && holder.clusters@[i]@.last_time <= now as int by {
            assert(holder@.clusters[i] == holder.clusters@[i]@);
        }
    }
    let mut cs = match settled_clusters(&holder.clusters, now) {
        Ok(cs) => cs,
        Err(e) => {
            return Err(e);
        },
    };
    let ghost settled = settle_holder(old(holder)@, now as int);
    proof {
        assert(cs@.map_values(|c: Cluster| c@) == settled.clusters);
        assert forall|i: int| 0 <= i < settled.clusters.len() implies wf_cluster(
            #[trigger] settled.clusters[i],
        ) && settled.clusters[i].last_time <= now as int && settled.clusters[i].tokens == old(
            holder,
        )@.clusters[i].tokens by {
            crate::accrual::lemma_settle_cluster_wf(old(holder)@.clusters[i], now as int);
            assert(settled.clusters[i] == settle_cluster(old(holder)@.clusters[i], now as int));
        }
        lemma_first_match_idx(settled.clusters, token_kind, token_id@);
    }
    let n = cs.len();
    let mut i: usize = 0;
    while i < n && !cluster_has_match(&cs[i], token_kind, token_id)
        invariant
            0 <= i <= n,
            n == cs@.len(),
            cs@.map_values(|c: Cluster| c@) == settled.clusters,
            forall|j: int|
                0 <= j < i ==> !cluster_matches(#[trigger] settled.clusters[j], token_kind, token_id@),
        decreases n - i,
    {
        proof {
            assert(settled.clusters[i as int] == cs@[i as int]@);
        }
        i = i + 1;
    }
    let ghost fm = first_match_idx(settled.clusters, token_kind, token_id@);
    if i >= n {
        proof {
            assert(!holder_matches(settled, token_kind, token_id@));
            assert forall|j: int| 0 <= j < old(holder)@.clusters.len() implies !cluster_matches(
                #[trigger] old(holder)@.clusters[j],
                token_kind,
                token_id@,
            ) by {
                assert(!cluster_matches(settled.clusters[j], token_kind, token_id@));
                assert(settled.clusters[j].tokens == old(holder)@.clusters[j].tokens);
            }
        }
        return Err(ContractError::NotStaked);
    }
    proof {
        assert(settled.clusters[i as int] == cs@[i as int]@);
        assert(cluster_matches(settled.clusters[i as int], token_kind, token_id@));
        if fm < i {
            assert(!cluster_matches(settled.clusters[fm], token_kind, token_id@));
        }
        if i < fm {
            assert(!cluster_matches(settled.clusters[i as int], token_kind, token_id@));
        }
        assert(i == fm);
        assert(holder_matches(old(holder)@, token_kind, token_id@)) by {
            let j = choose|j: int|
                0 <= j < settled.clusters[i as int].tokens.len() && token_matches(
                    settled.clusters[i as int].tokens[j],
                    token_kind,
                    token_id@,
                );
            assert(cluster_matches(old(holder)@.clusters[i as int], token_kind, token_id@));
        }
    }
    let target = cs.remove(i);
    let ghost pred = keeps_item(token_kind, token_id@);
    let mut kept: Vec<TokenInfo> = Vec::new();
    let m = target.token_ids.len();
    let mut j: usize = 0;
    while j < m
        invariant
            0 <= j <= m,
            m == target.token_ids@.len(),
            pred == keeps_item(token_kind, token_id@),
            kept@.map_values(|t: TokenInfo| t@) == target@.tokens.take(j as int).filter(pred),
            kept@.len() <= j,
        decreases m - j,
    {
        proof {
            reveal(Seq::filter);
            assert(target@.tokens.take(j + 1).drop_last() =~= target@.tokens.take(j as int));
            assert(target@.tokens.take(j + 1).drop_last() == target@.tokens.take(j as int));
            assert(target@.tokens.take(j + 1).last() == target@.tokens[j as int]);
        }
        if !target.token_ids[j].is_match(token_kind, token_id) {
            kept.push(target.token_ids[j].clone());
            proof {
                reveal(Seq::filter);
                assert(pred(target@.tokens[j as int]));
                assert(kept@.map_values(|t: TokenInfo| t@) =~= target@.tokens.take(
                    j + 1,
                ).filter(pred));
            }
        } else {
            proof {
                reveal(Seq::filter);
                assert(!pred(target@.tokens[j as int]));
                assert(kept@.map_values(|t: TokenInfo| t@) =~= target@.tokens.take(
                    j + 1,
                ).filter(pred));
            }
        }
        j = j + 1;
    }
    proof {
        assert(target@.tokens.take(m as int) =~= target@.tokens);
    }
    let trimmed = Cluster {
        token_ids: kept,
        last_reward_time: target.last_reward_time,
        last_reward_earned: target.last_reward_earned,
        last_reward_release: target.last_reward_release,
    };
    proof {
        assert(trimmed@.tokens == kept@.map_values(|t: TokenInfo| t@));
        assert(kept@.map_values(|t: TokenInfo| t@) == settled.clusters[i as int].tokens.filter(
            pred,
        ));
        assert(trimmed@ =~= remove_matching(settled.clusters[i as int], token_kind, token_id@));
    }
    cs.insert(i, trimmed);
    holder.clusters = cs;
    proof {
        assert(holder@ =~= unstake_remove(settle_holder(old(holder)@, now as int), token_kind, token_id@));
        let uh = unstake_remove(settle_holder(old(holder)@, now as int), token_kind, token_id@);
        assert forall|k: int| 0 <= k < uh.clusters.len() implies wf_cluster(
            #[trigger] uh.clusters[k],
        ) && uh.clusters[k].last_time <= now as int by {
            if k == i as int {
                let c0 = settled.clusters[i as int];
                let filtered = c0.tokens.filter(pred);
                assert(filtered.len() <= c0.tokens.len());
                assert forall|x: int| 0 <= x < filtered.len() implies wf_token(
                    #[trigger] filtered[x],
                ) by {
                    assert(filtered.contains(filtered[x]));
                    assert(c0.tokens.contains(filtered[x]));
                    let w = choose|w: int| 0 <= w < c0.tokens.len() && c0.tokens[w] == filtered[x];
                    assert(wf_token(c0.tokens[w]));
                }
            }
        }
    }
    let nft_addr = match token_kind {
        0 => config.monkeez_nft.clone(),
        1 => config.kongz_nft.clone(),
        _ => vstd::pervasive::unreached(),
    };
    Ok(TransferNft {
        contract_addr: nft_addr,
        recipient: sender.clone(),
        token_id: token_id.clone(),
    })
}

/// The whole reward units a cluster can presently convert: the integer part
/// of the accrued-but-unreleased balance.
pub open spec fn claimable_of(c: ClusterView) -> int {
    (c.earned - c.released) / (DECIMAL_FRACTIONAL as int)
}

/// Conversion of a cluster's claimable units: the released amount grows by
/// exactly the converted whole units; everything else is untouched.
pub open spec fn claim_cluster(c: ClusterView) -> ClusterView {
    ClusterView {
        tokens: c.tokens,
        last_time: c.last_time,
        earned: c.earned,
        released: c.released + claimable_of(c) * DECIMAL_FRACTIONAL,
    }
}

/// Conversion applied to every cluster.
pub open spec fn claim_clusters(cs: Seq<ClusterView>) -> Seq<ClusterView> {
    cs.map_values(|c: ClusterView| claim_cluster(c))
}

/// The claimable units summed over a sequence of clusters.
pub open spec fn total_claimable(cs: Seq<ClusterView>) -> int
    decreases cs.len(),
{
    if cs.len() == 0 {
        0
    } else {
        total_claimable(cs.drop_last()) + claimable_of(cs.last())
    }
}

/// Conversion keeps every cluster well-formed: the released amount grows by
/// at most the unreleased balance, so it never exceeds the earned amount.
pub proof fn lemma_claim_cluster_wf(c: ClusterView)
    requires
        wf_cluster(c),
    ensures
        wf_cluster(claim_cluster(c)),
        c.released <= claim_cluster(c).released <= c.earned,
        0 <= claimable_of(c),
        claimable_of(c) * DECIMAL_FRACTIONAL <= c.earned - c.released,
{
    let d = c.earned - c.released;
    let e = DECIMAL_FRACTIONAL as int;
    lemma_div_pos_is_pos(d, e);
    lemma_fundamental_div_mod(d, e);
    lemma_mod_bound(d, e);
    lemma_mul_is_commutative(e, d / e);
}

/// A prefix never sums to more than the whole sequence, because every
/// cluster's claimable count is non-negative.
pub proof fn lemma_total_claimable_prefix(cs: Seq<ClusterView>, k: int)
    requires
        forall|i: int| 0 <= i < cs.len() ==> wf_cluster(#[trigger] cs[i]),
        0 <= k <= cs.len(),
    ensures
        total_claimable(cs.take(k)) <= total_claimable(cs),
        0 <= total_claimable(cs) - total_claimable(cs.take(k)),
    decreases cs.len() - k,
{
    if k == cs.len() {
        assert(cs.take(k) =~= cs);
    } else {
        lemma_total_claimable_prefix(cs, k + 1);
        assert(cs.take(k + 1).drop_last() =~= cs.take(k));
        assert(cs.take(k + 1).last() == cs[k]);
        lemma_claim_cluster_wf(cs[k]);
    }
}

/// Convert the claimable balance of every cluster of a holder at time
/// `now`: settle first, then release the integer part of each cluster's
/// unreleased balance, and report the total count of whole units released.
/// All-or-nothing: on overflow the holder is untouched.
pub fn execute_claim_reward(holder: &mut Holder, now: u64) -> (r: Result<u64, ContractError>)
    requires
        wf_holder(old(holder)@),
        holder_times_le(old(holder)@, now as int),
    ensures
        r is Ok <==> (!settle_overflows(old(holder)@.clusters, now as int) && total_claimable(
            settle_clusters(old(holder)@.clusters, now as int),
        ) <= u64::MAX),
        (r matches Ok(total) ==> {
            &&& total == total_claimable(settle_clusters(old(holder)@.clusters, now as int))
            &&& final(holder)@.clusters == claim_clusters(
                settle_clusters(old(holder)@.clusters, now as int),
            )
            &&& wf_holder(final(holder)@)
            &&& holder_times_le(final(holder)@, now as int)
        }),
        (r matches Err(e) ==> e == ContractError::ArithmeticOverflow && final(holder)@ == old(
            holder,
        )@),
{
    proof {
        assert forall|i: int| 0 <= i < holder.clusters@.len() implies wf_cluster(
            #[trigger] holder.clusters@[i]@,
        ) && holder.clusters@[i]@.last_time <= now as int by {
            assert(holder@.clusters[i] == holder.clusters@[i]@);
        }
    }
    let settled = match settled_clusters(&holder.clusters, now) {
        Ok(cs) => cs,
        Err(e) => {
            return Err(e);
        },
    };
    let ghost sc = settle_clusters(old(holder)@.clusters, now as int);
    proof {
        assert(settled@.map_values(|c: Cluster| c@) == sc);
        assert forall|i: int| 0 <= i < sc.len() implies wf_cluster(#[trigger] sc[i])
            && sc[i].last_time <= now as int by {
            crate::accrual::lemma_settle_cluster_wf(old(holder)@.clusters[i], now as int);
            assert(sc[i] == settle_cluster(old(holder)@.clusters[i], now as int));
        }
    }
    let n = settled.len();
    let mut out: Vec<Cluster> = Vec::new();
    let mut total: u128 = 0;
    let mut i: usize = 0;
    while i < n
        invariant
            0 <= i <= n,
            n == settled@.len(),
            sc == settle_clusters(old(holder)@.clusters, now as int),
            settled@.map_values(|c: Cluster| c@) == sc,
            forall|j: int| 0 <= j < sc.len() ==> wf_cluster(#[trigger] sc[j]),
            forall|j: int| 0 <= j < sc.len() ==> (#[trigger] sc[j]).last_time <= now as int,
            out@.len() == i,
            holder == old(holder),
            forall|j: int| 0 <= j < i ==> (#[trigger] out@[j])@ == claim_cluster(sc[j]),
            total == total_claimable(sc.take(i as int)),
        decreases n - i,
    {
        proof {
            assert(sc[i as int] == settled@[i as int]@);
            lemma_claim_cluster_wf(sc[i as int]);
            assert(sc.take(i + 1).drop_last() =~= sc.take(i as int));
            assert(sc.take(i + 1).last() == sc[i as int]);
        }
        let c = &settled[i];
        let release_reward = c.last_reward_earned.sub(c.last_reward_release);
        let mint_num: u128 = release_reward.floor_units();
        let updated_release = if mint_num > 0 {
            c.last_reward_release.add(Decimal::from_ratio(mint_num, 1))
        } else {
            c.last_reward_release
        };
        out.push(Cluster {
            token_ids: crate::state::clone_tokens(&c.token_ids),
            last_reward_time: c.last_reward_time,
            last_reward_earned: c.last_reward_earned,
            last_reward_release: updated_release,
        });
        proof {
            assert(out@.last()@ =~= claim_cluster(sc[i as int]));
        }
        total = match total.checked_add(mint_num) {
            Some(t) => t,
            None => {
                proof {
                    assert(total_claimable(sc.take(i + 1)) == total_claimable(
                        sc.take(i as int),
                    ) + claimable_of(sc[i as int]));
                    lemma_total_claimable_prefix(sc, i + 1);
                    assert(total_claimable(sc) > u64::MAX);
                }
                return Err(ContractError::ArithmeticOverflow);
            },
        };
        i = i + 1;
    }
    proof {
        assert(sc.take(n as int) =~= sc);
    }
    if total > u64::MAX as u128 {
        return Err(ContractError::ArithmeticOverflow);
    }
    holder.clusters = out;
    proof {
        assert(holder@.clusters =~= claim_clusters(sc));
        assert forall|j: int| 0 <= j < holder@.clusters.len() implies wf_cluster(
            #[trigger] holder@.clusters[j],
        ) && holder@.clusters[j].last_time <= now as int by {
            lemma_claim_cluster_wf(sc[j]);
            assert(holder@.clusters[j] == claim_cluster(sc[j]));
        }
    }
    Ok(total as u64)
}

/// Law: claim conservation. After a claim the released amount of every
/// cluster still never exceeds its earned amount, and the total count of
/// reward units a claim converts (each satisfied by one emitted transfer
/// instruction) equals the sum over the clusters of the integer part of
/// `earned - released` just before the conversion.
pub proof fn lemma_claim_conservation(h: HolderView, now: int)
    requires
        wf_holder(h),
        holder_times_le(h, now),
        0 <= now <= u64::MAX,
        !settle_overflows(h.clusters, now),
    ensures
        wf_holder(HolderView { clusters: claim_clusters(settle_clusters(h.clusters, now)) }),
        forall|i: int|
            0 <= i < h.clusters.len() ==> (#[trigger] claim_clusters(
                settle_clusters(h.clusters, now),
            )[i]).released <= claim_clusters(settle_clusters(h.clusters, now))[i].earned,
        0 <= total_claimable(settle_clusters(h.clusters, now)),
{
    let sc = settle_clusters(h.clusters, now);
    assert forall|i: int| 0 <= i < sc.len() implies wf_cluster(#[trigger] sc[i]) by {
        crate::accrual::lemma_settle_cluster_wf(h.clusters[i], now);
        assert(sc[i] == settle_cluster(h.clusters[i], now));
    }
    assert forall|i: int| 0 <= i < claim_clusters(sc).len() implies wf_cluster(
        #[trigger] claim_clusters(sc)[i],
    ) by {
        lemma_claim_cluster_wf(sc[i]);
        assert(claim_clusters(sc)[i] == claim_cluster(sc[i]));
    }
    lemma_total_claimable_prefix(sc, 0);
    assert(sc.take(0) =~= Seq::<ClusterView>::empty());
}

/// Law: the number of transfer instructions a claim emits equals the total
/// claimable count it converted, whenever the inventory can satisfy it: the
/// selection walk picks exactly that many identifiers.
pub proof fn lemma_claim_transfer_count(h: HolderView, now: int, inventory: Seq<String>, time: int)
    requires
        wf_holder(h),
        holder_times_le(h, now),
        0 <= now <= u64::MAX,
        0 <= time,
        !settle_overflows(h.clusters, now),
        total_claimable(settle_clusters(h.clusters, now)) <= inventory.len(),
    ensures
        crate::selection::select_rec(
            inventory,
            time,
            0,
            total_claimable(settle_clusters(h.clusters, now)),
        ).len() == total_claimable(settle_clusters(h.clusters, now)),
{
    lemma_claim_conservation(h, now);
    crate::selection::lemma_selection_validity(
        inventory,
        time,
        0,
        total_claimable(settle_clusters(h.clusters, now)),
    );
}

/// The current configuration, with the custodian address kept internal.
pub fn query_config(config: &Config) -> (r: ConfigResponse)
    ensures
        r.owner@ == config@.owner,
        r.monkeez_nft@ == config@.monkeez_nft,
        r.kongz_nft@ == config@.kongz_nft,
        r.reward_nft@ == config@.reward_nft,
{
    ConfigResponse {
        owner: config.owner.clone(),
        monkeez_nft: config.monkeez_nft.clone(),
        kongz_nft: config.kongz_nft.clone(),
        reward_nft: config.reward_nft.clone(),
    }
}

/// All clusters of a holder and their items, exactly as stored.
pub fn query_staked_tokens(holder: &Holder) -> (r: TokensInfoResponse)
    ensures
        r.clusters@.len() == holder@.clusters.len(),
        forall|i: int|
            0 <= i < r.clusters@.len() ==> (#[trigger] r.clusters@[i]).tokens@.map_values(
                |t: TokenInfo| t@,
            ) == holder@.clusters[i].tokens,
{
    let mut clusters: Vec<ClusterResponse> = Vec::new();
    let n = holder.clusters.len();
    let mut i: usize = 0;
    while i < n
        invariant
            0 <= i <= n,
            n == holder.clusters@.len(),
            clusters@.len() == i,
            forall|j: int|
                0 <= j < i ==> (#[trigger] clusters@[j]).tokens@.map_values(|t: TokenInfo| t@)
                    == holder@.clusters[j].tokens,
        decreases n - i,
    {
        clusters.push(ClusterResponse {
            tokens: crate::state::clone_tokens(&holder.clusters[i].token_ids),
        });
        proof {
            assert(holder@.clusters[i as int] == holder.clusters@[i as int]@);
        }
        i = i + 1;
    }
    TokensInfoResponse { clusters }
}

/// The seconds left until a non-empty cluster accrues its next whole
/// reward unit, estimated from its fractional balance.
pub open spec fn remain_time_of(c: ClusterView) -> int {
    (period_view(c.tokens) * (DECIMAL_FRACTIONAL - (c.earned - c.released) % (
    DECIMAL_FRACTIONAL as int))) / (DECIMAL_FRACTIONAL as int)
}

/// The claim projection of one settled cluster.
pub open spec fn cluster_reward_of(c: ClusterView) -> ClusterReward {
    ClusterReward {
        claimable_num: claimable_of(c) as u64,
        remain_time: if c.tokens.len() > 0 {
            Some(remain_time_of(c) as u64)
        } else {
            None
        },
    }
}

/// Reward projection for a holder at time `now`: accrual is run as a
/// read-only projection, nothing is persisted, and each cluster reports its
/// claimable count and the estimated seconds to its next whole unit (absent
/// for a frozen, empty cluster).
pub fn query_cluster_reward(holder: &Holder, now: u64) -> (r: Result<
    RewardResponse,
    ContractError,
>)
    requires
        wf_holder(holder@),
        holder_times_le(holder@, now as int),
    ensures
        r is Ok <==> (!settle_overflows(holder@.clusters, now as int) && total_claimable(
            settle_clusters(holder@.clusters, now as int),
        ) <= u64::MAX),
        (r matches Ok(resp) ==> {
            &&& resp.cluster_rewards@.len() == holder@.clusters.len()
            &&& (forall|i: int|
                0 <= i < holder@.clusters.len() ==> #[trigger] resp.cluster_rewards@[i]
                    == cluster_reward_of(settle_cluster(holder@.clusters[i], now as int)))
            &&& resp.claimable_amount == total_claimable(
                settle_clusters(holder@.clusters, now as int),
            )
        }),
        (r matches Err(e) ==> e == ContractError::ArithmeticOverflow),
{
    proof {
        assert forall|i: int| 0 <= i < holder.clusters@.len() implies wf_cluster(
            #[trigger] holder.clusters@[i]@,
        ) && holder.clusters@[i]@.last_time <= now as int by {
            assert(holder@.clusters[i] == holder.clusters@[i]@);
        }
    }
    let settled = match settled_clusters(&holder.clusters, now) {
        Ok(cs) => cs,
        Err(e) => {
            return Err(e);
        },
    };
    let ghost sc = settle_clusters(holder@.clusters, now as int);
    proof {
        assert(settled@.map_values(|c: Cluster| c@) == sc);
        assert forall|i: int| 0 <= i < sc.len() implies wf_cluster(#[trigger] sc[i])
            && sc[i].last_time <= now as int by {
            crate::accrual::lemma_settle_cluster_wf(holder@.clusters[i], now as int);
            assert(sc[i] == settle_cluster(holder@.clusters[i], now as int));
        }
    }
    let n = settled.len();
    let mut cluster_rewards: Vec<ClusterReward> = Vec::new();
    let mut total: u128 = 0;
    let mut i: usize = 0;
    while i < n
        invariant
            0 <= i <= n,
            n == settled@.len(),
            sc == settle_clusters(holder@.clusters, now as int),
            settled@.map_values(|c: Cluster| c@) == sc,
            forall|j: int| 0 <= j < sc.len() ==> wf_cluster(#[trigger] sc[j]),
            cluster_rewards@.len() == i,
            forall|j: int|
                0 <= j < i ==> #[trigger] cluster_rewards@[j] == cluster_reward_of(sc[j]),
            total == total_claimable(sc.take(i as int)),
        decreases n - i,
    {
        proof {
            assert(sc[i as int] == settled@[i as int]@);
            lemma_claim_cluster_wf(sc[i as int]);
            assert(sc.take(i + 1).drop_last() =~= sc.take(i as int));
            assert(sc.take(i + 1).last() == sc[i as int]);
        }
        let c = &settled[i];
        let release_reward = c.last_reward_earned.sub(c.last_reward_release);
        let rewardable_num: u128 = release_reward.floor_units();
        if rewardable_num > u64::MAX as u128 {
            proof {
                assert(total_claimable(sc.take(i + 1)) == total_claimable(sc.take(i as int))
                    + claimable_of(sc[i as int]));
                lemma_total_claimable_prefix(sc, i + 1);
                assert(0 <= total_claimable(sc.take(i as int))) by {
                    lemma_total_claimable_prefix(sc.take(i as int), 0);
                    assert(sc.take(i as int).take(0) =~= Seq::<ClusterView>::empty());
                }
                assert(total_claimable(sc) > u64::MAX);
            }
            return Err(ContractError::ArithmeticOverflow);
        }
        let remain_time: Option<u64> = if c.token_ids.len() > 0 {
            let secs = match need_staking_time_for_reward(c) {
                Some(s) => s,
                None => vstd::pervasive::unreached(),
            };
            let rem: u128 = release_reward.fraction_atomics();
            proof {
                lemma_mod_bound(
                    sc[i as int].earned - sc[i as int].released,
                    DECIMAL_FRACTIONAL as int,
                );
                lemma_mul_upper_bound(
                    secs as int,
                    KONGZ_PERIOD as int,
                    (DECIMAL_FRACTIONAL - rem) as int,
                    DECIMAL_FRACTIONAL as int,
                );
                lemma_mul_nonnegative(secs as int, (DECIMAL_FRACTIONAL - rem) as int);
                lemma_mul_left_inequality(
                    secs as int,
                    (DECIMAL_FRACTIONAL - rem) as int,
                    DECIMAL_FRACTIONAL as int,
                );
                lemma_div_is_ordered(
                    secs as int * (DECIMAL_FRACTIONAL - rem) as int,
                    secs as int * DECIMAL_FRACTIONAL as int,
                    DECIMAL_FRACTIONAL as int,
                );
                lemma_mul_is_commutative(secs as int, DECIMAL_FRACTIONAL as int);
                lemma_div_multiples_vanish(secs as int, DECIMAL_FRACTIONAL as int);
            }
            let rt: u128 = (secs as u128) * (DECIMAL_FRACTIONAL - rem) / DECIMAL_FRACTIONAL;
            Some(rt as u64)
        } else {
            None
        };
        cluster_rewards.push(ClusterReward { claimable_num: rewardable_num as u64, remain_time });
        proof {
            assert(cluster_rewards@.last() == cluster_reward_of(sc[i as int]));
        }
        total = match total.checked_add(rewardable_num) {
            Some(t) => t,
            None => {
                proof {
                    assert(total_claimable(sc.take(i + 1)) == total_claimable(
                        sc.take(i as int),
                    ) + claimable_of(sc[i as int]));
                    lemma_total_claimable_prefix(sc, i + 1);
                    assert(total_claimable(sc) > u64::MAX);
                }
                return Err(ContractError::ArithmeticOverflow);
            },
        };
        i = i + 1;
    }
    proof {
        assert(sc.take(n as int) =~= sc);
    }
    if total > u64::MAX as u128 {
        return Err(ContractError::ArithmeticOverflow);
    }
    Ok(RewardResponse { claimable_amount: total as u64, cluster_rewards })
}

/// Whether the stored holder record satisfies the engine's invariant and
/// was never settled later than `now`; the surrounding environment checks
/// this before every operation.
pub fn holder_is_wf(holder: &Holder, now: u64) -> (b: bool)
    ensures
        b == (wf_holder(holder@) && holder_times_le(holder@, now as int)),
{
    let n = holder.clusters.len();
    let mut i: usize = 0;
    while i < n
        invariant
            0 <= i <= n,
            n == holder.clusters@.len(),
            forall|j: int|
                0 <= j < i ==> wf_cluster(#[trigger] holder@.clusters[j]) && holder@.clusters[
                    j
                ].last_time <= now as int,
        decreases n - i,
    {
        let c = &holder.clusters[i];
        proof {
            assert(holder@.clusters[i as int] == holder.clusters@[i as int]@);
        }
        if c.token_ids.len() > MAX_CLUSTER_SIZE {
            return false;
        }
        if c.last_reward_time > now {
            return false;
        }
        if c.last_reward_release.atomics > c.last_reward_earned.atomics {
            return false;
        }
        let m = c.token_ids.len();
        let mut j: usize = 0;
        while j < m
            invariant
                0 <= j <= m,
                m == c.token_ids@.len(),
                c == holder.clusters@[i as int],
                i < holder.clusters@.len(),
                forall|k: int| 0 <= k < j ==> wf_token(#[trigger] c@.tokens[k]),
            decreases m - j,
        {
            if c.token_ids[j].token_kind >= 2 {
                proof {
                    assert(holder@.clusters[i as int] == holder.clusters@[i as int]@);
                    assert(!wf_token(holder@.clusters[i as int].tokens[j as int]));
                }
                return false;
            }
            j = j + 1;
        }
        proof {
            assert(wf_cluster(holder@.clusters[i as int]));
        }
        i = i + 1;
    }
    true
}

/// A filter drops a pushed element its predicate rejects.
proof fn lemma_filter_push_out(s: Seq<TokenView>, pred: spec_fn(TokenView) -> bool, t: TokenView)
    requires
        !pred(t),
    ensures
        s.push(t).filter(pred) == s.filter(pred),
{
    reveal(Seq::filter);
    assert(s.push(t).drop_last() =~= s);
    assert(s.push(t).last() == t);
}

/// Keeping every element, a filter keeps the whole sequence.
proof fn lemma_filter_all_keep(s: Seq<TokenView>, pred: spec_fn(TokenView) -> bool)
    requires
        forall|i: int| 0 <= i < s.len() ==> pred(#[trigger] s[i]),
    ensures
        s.filter(pred) == s,
    decreases s.len(),
{
    reveal(Seq::filter);
    if s.len() > 0 {
        let prefix = s.drop_last();
        assert(forall|i: int| 0 <= i < prefix.len() ==> pred(#[trigger] prefix[i])) by {
            assert(forall|i: int| 0 <= i < prefix.len() ==> #[trigger] prefix[i] == s[i]);
        }
        lemma_filter_all_keep(prefix, pred);
        assert(s.filter(pred) =~= s);
    } else {
        assert(s.filter(pred) =~= s);
    }
}

/// Law: round trip. Staking an item the holder does not hold and
/// immediately unstaking it leaves the holder's cluster set item-for-item
/// as settlement alone would have left it; the reward state of every
/// cluster is untouched by the stake/unstake pair itself. When the stake
/// had opened a fresh cluster, that cluster remains as an empty placeholder
/// with no reward state. The one composition left out: when the stake
/// refills a previously emptied cluster whose frozen timestamp is older
/// than `now`, the pair retroactively accrues reward over the frozen gap,
/// so the item must land in a cluster settled to `now`.
#[verifier::rlimit(100)]
pub proof fn lemma_stake_unstake_round_trip(h: HolderView, t: TokenView, now: int)
    requires
        wf_holder(h),
        wf_token(t),
        holder_times_le(h, now),
        0 <= now <= u64::MAX,
        !holder_matches(h, t.kind, t.id),
        !settle_overflows(h.clusters, now),
        ({
            let s = settle_holder(h, now);
            let i = first_open_idx(s.clusters);
            (i < s.clusters.len() && s.clusters[i].tokens.len() == 0) ==> s.clusters[i].last_time
                == now
        }),
    ensures
        ({
            let s = settle_holder(h, now);
            let staked = stake_insert(s, t, now);
            let back = unstake_remove(settle_holder(staked, now), t.kind, t.id);
            &&& s.clusters.len() <= back.clusters.len() <= s.clusters.len() + 1
            &&& (forall|i: int|
                0 <= i < s.clusters.len() ==> #[trigger] back.clusters[i] == s.clusters[i])
            &&& (back.clusters.len() == s.clusters.len() + 1 ==> back.clusters.last() == (
            ClusterView { tokens: Seq::empty(), last_time: now, earned: 0, released: 0 }))
        }),
{
    let s = settle_holder(h, now);
    let len = s.clusters.len() as int;
    assert forall|i: int| 0 <= i < len implies wf_cluster(#[trigger] s.clusters[i])
        && s.clusters[i].tokens == h.clusters[i].tokens && (s.clusters[i].tokens.len() > 0
        ==> s.clusters[i].last_time == now) && s.clusters[i].last_time <= now by {
        crate::accrual::lemma_settle_cluster_wf(h.clusters[i], now);
        assert(s.clusters[i] == settle_cluster(h.clusters[i], now));
    }
    assert forall|i: int| 0 <= i < len implies !cluster_matches(
        #[trigger] s.clusters[i],
        t.kind,
        t.id,
    ) by {
        if cluster_matches(s.clusters[i], t.kind, t.id) {
            assert(cluster_matches(h.clusters[i], t.kind, t.id));
            assert(holder_matches(h, t.kind, t.id));
        }
    }
    let i0 = first_open_idx(s.clusters);
    lemma_first_open_idx(s.clusters);
    let staked = stake_insert(s, t, now);
    let pred = keeps_item(t.kind, t.id);
    assert(!pred(t));
    // Every cluster of the staked holder is either empty or settled to now,
    // so the second settlement pass changes nothing.
    assert forall|i: int| 0 <= i < staked.clusters.len() implies settle_cluster(
        #[trigger] staked.clusters[i],
        now,
    ) == staked.clusters[i] by {
        if i0 < len && i == i0 {
            assert(staked.clusters[i] == cluster_with_item(s.clusters[i0], t));
            crate::accrual::lemma_settle_noop(staked.clusters[i], now);
        } else if i < len {
            assert(staked.clusters[i] == s.clusters[i]);
            crate::accrual::lemma_settle_noop(staked.clusters[i], now);
        } else {
            assert(staked.clusters[i] == new_cluster(t, now));
            crate::accrual::lemma_settle_noop(staked.clusters[i], now);
        }
    }
    assert(settle_holder(staked, now) =~~= staked) by {
        assert(settle_clusters(staked.clusters, now) =~= staked.clusters);
    }
    let fm = first_match_idx(staked.clusters, t.kind, t.id);
    lemma_first_match_idx(staked.clusters, t.kind, t.id);
    if i0 < len {
        // The item joined the first open cluster; eviction finds exactly it.
        assert(staked.clusters[i0] == cluster_with_item(s.clusters[i0], t));
        assert(staked.clusters[i0].tokens.last() == t);
        assert(cluster_matches(staked.clusters[i0], t.kind, t.id));
        assert forall|j: int| 0 <= j < staked.clusters.len() && j != i0 implies #[trigger] staked
            .clusters[j] == s.clusters[j] by {}
        if fm < i0 {
            assert(!cluster_matches(staked.clusters[fm], t.kind, t.id));
        }
        if i0 < fm {
            assert(!cluster_matches(staked.clusters[i0], t.kind, t.id));
        }
        assert(fm == i0);
        let c0 = s.clusters[i0];
        assert(forall|j: int| 0 <= j < c0.tokens.len() ==> pred(#[trigger] c0.tokens[j]));
        lemma_filter_all_keep(c0.tokens, pred);
        lemma_filter_push_out(c0.tokens, pred, t);
        assert(c0.tokens.push(t).filter(pred) == c0.tokens);
        let back = unstake_remove(settle_holder(staked, now), t.kind, t.id);
        assert(remove_matching(staked.clusters[i0], t.kind, t.id) =~= c0);
        assert forall|i: int| 0 <= i < len implies #[trigger] back.clusters[i]
            == s.clusters[i] by {}
    } else {
        // Every cluster was full: the stake opened a fresh cluster, and the
        // eviction empties it again, leaving a placeholder.
        assert(staked.clusters == s.clusters.push(new_cluster(t, now)));
        assert(staked.clusters[len] == new_cluster(t, now));
        assert(staked.clusters[len].tokens[0] == t);
        assert(cluster_matches(staked.clusters[len], t.kind, t.id));
        assert forall|j: int| 0 <= j < len implies #[trigger] staked.clusters[j]
            == s.clusters[j] by {}
        if fm < len {
            assert(!cluster_matches(staked.clusters[fm], t.kind, t.id));
        }
        assert(fm == len);
        let fresh = new_cluster(t, now);
        assert(fresh.tokens =~= Seq::<TokenView>::empty().push(t));
        lemma_filter_all_keep(Seq::<TokenView>::empty(), pred);
        lemma_filter_push_out(Seq::<TokenView>::empty(), pred, t);
        assert(fresh.tokens.filter(pred) =~= Seq::<TokenView>::empty());
        let back = unstake_remove(settle_holder(staked, now), t.kind, t.id);
        assert(remove_matching(fresh, t.kind, t.id) =~= (ClusterView {
            tokens: Seq::empty(),
            last_time: now,
            earned: 0,
            released: 0,
        }));
        assert forall|i: int| 0 <= i < len implies #[trigger] back.clusters[i]
            == s.clusters[i] by {}
        assert(back.clusters.last() == (ClusterView {
            tokens: Seq::<TokenView>::empty(),
            last_time: now,
            earned: 0,
            released: 0,
        }));
    }
}

} // verus!
