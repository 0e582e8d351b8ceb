//! Persistent records of the engine: the configuration, one holder's
//! clusters, and their well-formedness invariants.

use vstd::prelude::*;

use crate::decimal::Decimal;
use crate::staking::{TokenInfo, TokenView};

verus! {

/// A cluster holds at most this many staked items.
pub const MAX_CLUSTER_SIZE: usize = 5;

/// Process-wide configuration, set once at instantiation and mutated only by
/// its owner.
#[derive(Clone, Debug, PartialEq)]
pub struct Config {
    pub owner: String,
    pub monkeez_nft: String,
    pub kongz_nft: String,
    pub reward_nft: String,
    pub tokens_owner: String,
}

/// Mathematical value of a [`Config`].
#[verifier::ext_equal]
pub ghost struct ConfigView {
    pub owner: Seq<char>,
    pub monkeez_nft: Seq<char>,
    pub kongz_nft: Seq<char>,
    pub reward_nft: Seq<char>,
    pub tokens_owner: Seq<char>,
}

impl View for Config {
    type V = ConfigView;

    open spec fn view(&self) -> ConfigView {
        ConfigView {
            owner: self.owner@,
            monkeez_nft: self.monkeez_nft@,
            kongz_nft: self.kongz_nft@,
            reward_nft: self.reward_nft@,
            tokens_owner: self.tokens_owner@,
        }
    }
}

impl Config {
    /// The staked-collection address selected by an item kind: 0 selects
    /// collection A (monkeez), 1 selects collection B (kongz).
    pub fn staked_nft_addr(&self, selector: u64) -> (r: Option<&String>)
        ensures
            selector == 0 ==> (r matches Some(a) && a@ == self@.monkeez_nft),
            selector == 1 ==> (r matches Some(a) && a@ == self@.kongz_nft),
            selector >= 2 ==> r is None,
    {
        match selector {
            0 => Some(&self.monkeez_nft),
            1 => Some(&self.kongz_nft),
            _ => None,
        }
    }
}

/// A bounded group of staked items accruing reward as one unit.
///
/// `last_reward_earned` grows on every settlement pass of a non-empty
/// cluster; `last_reward_release` records how much of it was already
/// converted to distributed reward units and never exceeds it.
#[derive(Debug, PartialEq)]
pub struct Cluster {
    pub token_ids: Vec<TokenInfo>,
    pub last_reward_time: u64,
    pub last_reward_earned: Decimal,
    pub last_reward_release: Decimal,
}

/// Mathematical value of a [`Cluster`]: the item records, the timestamp of
/// the last settlement, and the earned/released amounts in atomic units.
#[verifier::ext_equal]
pub ghost struct ClusterView {
    pub tokens: Seq<TokenView>,
    pub last_time: int,
    pub earned: int,
    pub released: int,
}

impl View for Cluster {
    type V = ClusterView;

    open spec fn view(&self) -> ClusterView {
        ClusterView {
            tokens: self.token_ids@.map_values(|t: TokenInfo| t@),
            last_time: self.last_reward_time as int,
            earned: self.last_reward_earned@,
            released: self.last_reward_release@,
        }
    }
}

/// A staking participant's aggregate state: all of their clusters.
#[derive(Debug, PartialEq)]
pub struct Holder {
    pub clusters: Vec<Cluster>,
}

/// Mathematical value of a [`Holder`].
#[verifier::ext_equal]
pub ghost struct HolderView {
    pub clusters: Seq<ClusterView>,
}

impl View for Holder {
    type V = HolderView;

    open spec fn view(&self) -> HolderView {
        HolderView { clusters: self.clusters@.map_values(|c: Cluster| c@) }
    }
}

/// An item record is well-formed when its kind names one of the two
/// admissible collections.
pub open spec fn wf_token(t: TokenView) -> bool {
    t.kind == 0 || t.kind == 1
}

/// Cluster invariant: at most five well-formed items, and the released
/// amount never exceeds the earned amount; all amounts and the timestamp
/// stay in their representable ranges.
pub open spec fn wf_cluster(c: ClusterView) -> bool {
    &&& c.tokens.len() <= MAX_CLUSTER_SIZE
    &&& (forall|i: int| 0 <= i < c.tokens.len() ==> wf_token(#[trigger] c.tokens[i]))
    &&& 0 <= c.released <= c.earned <= u128::MAX
    &&& 0 <= c.last_time <= u64::MAX
}

/// Holder invariant: every cluster is well-formed.
pub open spec fn wf_holder(h: HolderView) -> bool {
    forall|i: int| 0 <= i < h.clusters.len() ==> wf_cluster(#[trigger] h.clusters[i])
}

/// Whether no cluster of the holder was settled later than `now`; every
/// operation at time `now` requires this of the stored state.
pub open spec fn holder_times_le(h: HolderView, now: int) -> bool {
    forall|i: int| 0 <= i < h.clusters.len() ==> (#[trigger] h.clusters[i]).last_time <= now
}

/// The number of items in the cluster that are of the non-default rarity
/// tier.
pub open spec fn legendary_count(tokens: Seq<TokenView>) -> int
    decreases tokens.len(),
{
    if tokens.len() == 0 {
        0
    } else {
        legendary_count(tokens.drop_last()) + if !tokens.last().is_common {
            1int
        } else {
            0int
        }
    }
}

impl Cluster {
    /// How many of the cluster's items are of the non-default rarity tier.
    pub fn count_legendary(&self) -> (r: u64)
        requires
            self@.tokens.len() <= MAX_CLUSTER_SIZE,
        ensures
            r == legendary_count(self@.tokens),
    {
        let mut count: u64 = 0;
        let mut i: usize = 0;
        let n = self.token_ids.len();
        while i < n
            invariant
                0 <= i <= n,
                n == self@.tokens.len() <= MAX_CLUSTER_SIZE,
                n == self.token_ids.len(),
                count == legendary_count(self@.tokens.take(i as int)),
                count <= i,
            decreases n - i,
        {
            proof {
                assert(self@.tokens.take(i + 1).drop_last() =~= self@.tokens.take(i as int));
                assert(self@.tokens.take(i + 1).last() == self@.tokens[i as int]);
            }
            if !self.token_ids[i].is_common {
                count = count + 1;
            }
            i = i + 1;
        }
        proof {
            assert(self@.tokens.take(n as int) =~= self@.tokens);
        }
        count
    }
}

/// Clone of an item list, preserving every record.
pub fn clone_tokens(tokens: &Vec<TokenInfo>) -> (r: Vec<TokenInfo>)
    ensures
        r@ =~= tokens@,
{
    let mut out: Vec<TokenInfo> = Vec::new();
    let mut i: usize = 0;
    let n = tokens.len();
    while i < n
        invariant
            0 <= i <= n,
            n == tokens@.len(),
            out@ =~= tokens@.take(i as int),
        decreases n - i,
    {
        out.push(tokens[i].clone());
        i = i + 1;
    }
    proof {
        assert(tokens@.take(n as int) =~= tokens@);
    }
    out
}

impl Clone for Cluster {
    fn clone(&self) -> (r: Self)
        ensures
            r@ == self@,
    {
        let r = Cluster {
            token_ids: clone_tokens(&self.token_ids),
            last_reward_time: self.last_reward_time,
            last_reward_earned: self.last_reward_earned,
            last_reward_release: self.last_reward_release,
        };
        proof {
            assert(r@ =~= self@);
        }
        r
    }
}

} // verus!
