//! The reward-accrual engine: the required staking period of a cluster and
//! the settlement pass that advances earned reward with elapsed time.

use vstd::prelude::*;

use vstd::arithmetic::div_mod::lemma_div_of0;
use vstd::arithmetic::div_mod::lemma_div_pos_is_pos;
use vstd::arithmetic::mul::lemma_mul_nonnegative;
use vstd::arithmetic::mul::lemma_mul_upper_bound;

use crate::decimal::{Decimal, DECIMAL_FRACTIONAL};
use crate::error::ContractError;
use crate::staking::TokenView;
use crate::state::{
    clone_tokens, holder_times_le, legendary_count, wf_cluster, wf_holder, wf_token, Cluster,
    ClusterView, Holder, HolderView, MAX_CLUSTER_SIZE,
};

verus! {

/// One calendar day, in seconds.
pub const SECONDS_PER_DAY: u64 = 86400;

/// Base reward period of a single default-rarity collection-A (monkeez)
/// item: 84 days.
pub const MONKEEZ_PERIOD: u64 = 84 * 86400;

/// Base reward period of a single default-rarity collection-B (kongz) item:
/// 168 days.
pub const KONGZ_PERIOD: u64 = 168 * 86400;

/// How many items carry the collection-A base period in the blended
/// formula: collection-A items, and every non-default-rarity item of either
/// collection.
pub open spec fn monkeez_count(tokens: Seq<TokenView>) -> int
    decreases tokens.len(),
{
    if tokens.len() == 0 {
        0
    } else {
        monkeez_count(tokens.drop_last()) + if tokens.last().kind == 0 || !tokens.last().is_common {
            1int
        } else {
            0int
        }
    }
}

/// How many items carry the collection-B base period in the blended
/// formula: default-rarity collection-B items.
pub open spec fn kongz_count(tokens: Seq<TokenView>) -> int
    decreases tokens.len(),
{
    if tokens.len() == 0 {
        0
    } else {
        kongz_count(tokens.drop_last()) + if tokens.last().kind == 1 && tokens.last().is_common {
            1int
        } else {
            0int
        }
    }
}

/// Required period of a single-item cluster. A non-default-rarity item uses
/// the collection-A base period less one day for either collection; this
/// asymmetry is the engine's established accrual behaviour, deliberately
/// kept rather than corrected.
pub open spec fn single_period(t: TokenView) -> int {
    if t.kind == 0 {
        if t.is_common {
            MONKEEZ_PERIOD as int
        } else {
            MONKEEZ_PERIOD - SECONDS_PER_DAY
        }
    } else {
        if t.is_common {
            KONGZ_PERIOD as int
        } else {
            MONKEEZ_PERIOD - SECONDS_PER_DAY
        }
    }
}

/// Size-weighted blend of the two base periods over a cluster of `n` items,
/// `a` of them collection-A-weighted and `b` collection-B-weighted, in
/// atomic fixed-point units: `(B0*a + B1*b) / n` with each ratio rounded
/// down to an atomic unit.
pub open spec fn blended_t1(a: int, b: int, n: int) -> int {
    (MONKEEZ_PERIOD * a * DECIMAL_FRACTIONAL) / n + (KONGZ_PERIOD * b * DECIMAL_FRACTIONAL) / n
}

/// Required period of a cluster of `n >= 2` items: the blend divided once
/// more by `n`, discounted by `1 - (n-1)/10` (with a fixed one-day fallback
/// where the discount factor reaches zero), truncated to whole seconds, less
/// one day per non-default-rarity item.
pub open spec fn blended_period(a: int, b: int, n: int, rare: int) -> int {
    if n >= 11 {
        SECONDS_PER_DAY as int
    } else {
        (((blended_t1(a, b, n) / n) * (11 - n)) / 10) / (DECIMAL_FRACTIONAL as int)
            - SECONDS_PER_DAY * rare
    }
}

/// The required staking period of a non-empty cluster, in seconds: the
/// number of seconds over which the cluster accrues one whole reward unit.
pub open spec fn period_view(tokens: Seq<TokenView>) -> int {
    if tokens.len() == 1 {
        single_period(tokens[0])
    } else {
        blended_period(
            monkeez_count(tokens),
            kongz_count(tokens),
            tokens.len() as int,
            legendary_count(tokens),
        )
    }
}

/// The two weighting counts partition a well-formed item list, and the
/// non-default-rarity items are all collection-A-weighted.
pub proof fn lemma_counts(tokens: Seq<TokenView>)
    requires
        forall|i: int| 0 <= i < tokens.len() ==> wf_token(#[trigger] tokens[i]),
    ensures
        0 <= monkeez_count(tokens),
        0 <= kongz_count(tokens),
        monkeez_count(tokens) + kongz_count(tokens) == tokens.len(),
        0 <= legendary_count(tokens) <= monkeez_count(tokens),
    decreases tokens.len(),
{
    if tokens.len() > 0 {
        let prefix = tokens.drop_last();
        assert(forall|i: int| 0 <= i < prefix.len() ==> wf_token(#[trigger] prefix[i])) by {
            assert(forall|i: int|
                0 <= i < prefix.len() ==> #[trigger] prefix[i] == tokens[i]);
        }
        lemma_counts(prefix);
        assert(wf_token(tokens.last()));
    }
}

/// Bounds of the blended formula over every admissible cluster composition,
/// including every intermediate value the executable computation forms.
pub proof fn lemma_blended_bounds(a: int, b: int, n: int, rare: int)
    requires
        0 <= a,
        0 <= b,
        a + b == n,
        2 <= n <= MAX_CLUSTER_SIZE,
        0 <= rare <= a,
    ensures
        0 <= blended_t1(a, b, n) <= 14515200 * DECIMAL_FRACTIONAL,
        0 <= blended_t1(a, b, n) / n <= 7257600 * DECIMAL_FRACTIONAL,
        SECONDS_PER_DAY * rare + SECONDS_PER_DAY <= (((blended_t1(a, b, n) / n) * (11 - n)) / 10)
            / (DECIMAL_FRACTIONAL as int),
        (((blended_t1(a, b, n) / n) * (11 - n)) / 10) / (DECIMAL_FRACTIONAL as int)
            <= KONGZ_PERIOD,
        SECONDS_PER_DAY <= blended_period(a, b, n, rare) <= KONGZ_PERIOD,
{
    if n == 2 {
        if a == 0 {
            assert(blended_t1(0, 2, 2) == 14515200000000000000000000);
            assert(14515200000000000000000000int / 2 == 7257600000000000000000000);
            assert((7257600000000000000000000int * 9) / 10 == 6531840000000000000000000);
            assert(6531840000000000000000000int / (DECIMAL_FRACTIONAL as int) == 6531840);
        } else if a == 1 {
            assert(blended_t1(1, 1, 2) == 10886400000000000000000000);
            assert(10886400000000000000000000int / 2 == 5443200000000000000000000);
            assert((5443200000000000000000000int * 9) / 10 == 4898880000000000000000000);
            assert(4898880000000000000000000int / (DECIMAL_FRACTIONAL as int) == 4898880);
        } else {
            assert(blended_t1(2, 0, 2) == 7257600000000000000000000);
            assert(7257600000000000000000000int / 2 == 3628800000000000000000000);
            assert((3628800000000000000000000int * 9) / 10 == 3265920000000000000000000);
            assert(3265920000000000000000000int / (DECIMAL_FRACTIONAL as int) == 3265920);
        }
    } else if n == 3 {
        if a == 0 {
            assert(blended_t1(0, 3, 3) == 14515200000000000000000000);
            assert(14515200000000000000000000int / 3 == 4838400000000000000000000);
            assert((4838400000000000000000000int * 8) / 10 == 3870720000000000000000000);
            assert(3870720000000000000000000int / (DECIMAL_FRACTIONAL as int) == 3870720);
        } else if a == 1 {
            assert(blended_t1(1, 2, 3) == 12096000000000000000000000);
            assert(12096000000000000000000000int / 3 == 4032000000000000000000000);
            assert((4032000000000000000000000int * 8) / 10 == 3225600000000000000000000);
            assert(3225600000000000000000000int / (DECIMAL_FRACTIONAL as int) == 3225600);
        } else if a == 2 {
            assert(blended_t1(2, 1, 3) == 9676800000000000000000000);
            assert(9676800000000000000000000int / 3 == 3225600000000000000000000);
            assert((3225600000000000000000000int * 8) / 10 == 2580480000000000000000000);
            assert(2580480000000000000000000int / (DECIMAL_FRACTIONAL as int) == 2580480);
        } else {
            assert(blended_t1(3, 0, 3) == 7257600000000000000000000);
            assert(7257600000000000000000000int / 3 == 2419200000000000000000000);
            assert((2419200000000000000000000int * 8) / 10 == 1935360000000000000000000);
            assert(1935360000000000000000000int / (DECIMAL_FRACTIONAL as int) == 1935360);
        }
    } else if n == 4 {
        if a == 0 {
            assert(blended_t1(0, 4, 4) == 14515200000000000000000000);
            assert(14515200000000000000000000int / 4 == 3628800000000000000000000);
            assert((3628800000000000000000000int * 7) / 10 == 2540160000000000000000000);
            assert(2540160000000000000000000int / (DECIMAL_FRACTIONAL as int) == 2540160);
        } else if a == 1 {
            assert(blended_t1(1, 3, 4) == 12700800000000000000000000);
            assert(12700800000000000000000000int / 4 == 3175200000000000000000000);
            assert((3175200000000000000000000int * 7) / 10 == 2222640000000000000000000);
            assert(2222640000000000000000000int / (DECIMAL_FRACTIONAL as int) == 2222640);
        } else if a == 2 {
            assert(blended_t1(2, 2, 4) == 10886400000000000000000000);
            assert(10886400000000000000000000int / 4 == 2721600000000000000000000);
            assert((2721600000000000000000000int * 7) / 10 == 1905120000000000000000000);
            assert(1905120000000000000000000int / (DECIMAL_FRACTIONAL as int) == 1905120);
        } else if a == 3 {
            assert(blended_t1(3, 1, 4) == 9072000000000000000000000);
            assert(9072000000000000000000000int / 4 == 2268000000000000000000000);
            assert((2268000000000000000000000int * 7) / 10 == 1587600000000000000000000);
            assert(1587600000000000000000000int / (DECIMAL_FRACTIONAL as int) == 1587600);
        } else {
            assert(blended_t1(4, 0, 4) == 7257600000000000000000000);
            assert(7257600000000000000000000int / 4 == 1814400000000000000000000);
            assert((1814400000000000000000000int * 7) / 10 == 1270080000000000000000000);
            assert(1270080000000000000000000int / (DECIMAL_FRACTIONAL as int) == 1270080);
        }
    } else {
        if a == 0 {
            assert(blended_t1(0, 5, 5) == 14515200000000000000000000);
            assert(14515200000000000000000000int / 5 == 2903040000000000000000000);
            assert((2903040000000000000000000int * 6) / 10 == 1741824000000000000000000);
            assert(1741824000000000000000000int / (DECIMAL_FRACTIONAL as int) == 1741824);
        } else if a == 1 {
            assert(blended_t1(1, 4, 5) == 13063680000000000000000000);
            assert(13063680000000000000000000int / 5 == 2612736000000000000000000);
            assert((2612736000000000000000000int * 6) / 10 == 1567641600000000000000000);
            assert(1567641600000000000000000int / (DECIMAL_FRACTIONAL as int) == 1567641);
        } else if a == 2 {
            assert(blended_t1(2, 3, 5) == 11612160000000000000000000);
            assert(11612160000000000000000000int / 5 == 2322432000000000000000000);
            assert((2322432000000000000000000int * 6) / 10 == 1393459200000000000000000);
            assert(1393459200000000000000000int / (DECIMAL_FRACTIONAL as int) == 1393459);
        } else if a == 3 {
            assert(blended_t1(3, 2, 5) == 10160640000000000000000000);
            assert(10160640000000000000000000int / 5 == 2032128000000000000000000);
            assert((2032128000000000000000000int * 6) / 10 == 1219276800000000000000000);
            assert(1219276800000000000000000int / (DECIMAL_FRACTIONAL as int) == 1219276);
        } else if a == 4 {
            assert(blended_t1(4, 1, 5) == 8709120000000000000000000);
            assert(8709120000000000000000000int / 5 == 1741824000000000000000000);
            assert((1741824000000000000000000int * 6) / 10 == 1045094400000000000000000);
            assert(1045094400000000000000000int / (DECIMAL_FRACTIONAL as int) == 1045094);
        } else {
            assert(blended_t1(5, 0, 5) == 7257600000000000000000000);
            assert(7257600000000000000000000int / 5 == 1451520000000000000000000);
            assert((1451520000000000000000000int * 6) / 10 == 870912000000000000000000);
            assert(870912000000000000000000int / (DECIMAL_FRACTIONAL as int) == 870912);
        }
    }
}

/// The required period of every well-formed non-empty cluster lies between
/// one day and the collection-B base period.
pub proof fn lemma_period_bounds(tokens: Seq<TokenView>)
    requires
        1 <= tokens.len() <= MAX_CLUSTER_SIZE,
        forall|i: int| 0 <= i < tokens.len() ==> wf_token(#[trigger] tokens[i]),
    ensures
        SECONDS_PER_DAY <= period_view(tokens) <= KONGZ_PERIOD,
{
    if tokens.len() == 1 {
        assert(wf_token(tokens[0]));
    } else {
        lemma_counts(tokens);
        lemma_blended_bounds(
            monkeez_count(tokens),
            kongz_count(tokens),
            tokens.len() as int,
            legendary_count(tokens),
        );
    }
}

/// The required staking period of a cluster, in seconds; `None` is never
/// produced for a well-formed cluster and mirrors the formula's undefined
/// single-item case for an unrecognized item kind.
pub fn need_staking_time_for_reward(cluster: &Cluster) -> (r: Option<u64>)
    requires
        wf_cluster(cluster@),
        cluster@.tokens.len() >= 1,
    ensures
        (r matches Some(p) && p == period_view(cluster@.tokens)),
        SECONDS_PER_DAY <= period_view(cluster@.tokens) <= KONGZ_PERIOD,
{
    proof {
        lemma_period_bounds(cluster@.tokens);
    }
    let token_list = &cluster.token_ids;
    let staked_count: usize = token_list.len();
    if staked_count == 1 {
        let t = &token_list[0];
        return match t.token_kind {
            0 => {
                if t.is_common {
                    Some(MONKEEZ_PERIOD)
                } else {
                    Some(MONKEEZ_PERIOD - SECONDS_PER_DAY)
                }
            },
            1 => {
                if t.is_common {
                    Some(KONGZ_PERIOD)
                } else {
                    Some(MONKEEZ_PERIOD - SECONDS_PER_DAY)
                }
            },
            _ => {
                proof {
                    assert(wf_token(cluster@.tokens[0]));
                }
                vstd::pervasive::unreached()
            },
        };
    }
    let ghost toks = cluster@.tokens;
    let mut monkeez: u64 = 0;
    let mut kongz: u64 = 0;
    let mut i: usize = 0;
    while i < staked_count
        invariant
            0 <= i <= staked_count,
            toks == cluster@.tokens,
            staked_count == toks.len() <= MAX_CLUSTER_SIZE,
            staked_count == token_list@.len(),
            token_list == cluster.token_ids,
            monkeez == monkeez_count(toks.take(i as int)),
            kongz == kongz_count(toks.take(i as int)),
            monkeez <= i,
            kongz <= i,
        decreases staked_count - i,
    {
        proof {
            assert(toks.take(i + 1).drop_last() =~= toks.take(i as int));
            assert(toks.take(i + 1).last() == toks[i as int]);
        }
        let t = &token_list[i];
        if t.token_kind == 0 || !t.is_common {
            monkeez = monkeez + 1;
        }
        if t.token_kind == 1 && t.is_common {
            kongz = kongz + 1;
        }
        i = i + 1;
    }
    proof {
        assert(toks.take(staked_count as int) =~= toks);
        lemma_counts(toks);
        lemma_blended_bounds(
            monkeez as int,
            kongz as int,
            staked_count as int,
            legendary_count(toks),
        );
    }
    let n_u: u128 = staked_count as u128;
    let a_u: u128 = monkeez as u128;
    let b_u: u128 = kongz as u128;
    let t1: u128 = (MONKEEZ_PERIOD as u128) * a_u * DECIMAL_FRACTIONAL / n_u
        + (KONGZ_PERIOD as u128) * b_u * DECIMAL_FRACTIONAL / n_u;
    let t2: u128 = t1 / n_u;
    if staked_count >= 11 {
        // The linear discount factor has reached zero: fixed one-day period.
        return Some(SECONDS_PER_DAY);
    }
    proof {
        lemma_mul_upper_bound(t2 as int, 7257600 * DECIMAL_FRACTIONAL, 11 - n_u, 9int);
        lemma_mul_nonnegative(t2 as int, 11 - n_u);
    }
    let t3: u128 = t2 * (11 - n_u) / 10;
    let t5: u128 = t3 / DECIMAL_FRACTIONAL;
    let rare: u64 = cluster.count_legendary();
    let t6: u128 = t5 - (SECONDS_PER_DAY as u128) * (rare as u128);
    Some(t6 as u64)
}

/// The reward one settlement pass at `now` adds to a non-empty cluster, in
/// atomic units: the fixed-point ratio of elapsed seconds to the required
/// period, rounded down to an atomic unit.
pub open spec fn accrual_amount(c: ClusterView, now: int) -> int {
    ((now - c.last_time) * DECIMAL_FRACTIONAL) / period_view(c.tokens)
}

/// One settlement pass over one cluster: an empty cluster is frozen and
/// unchanged; a non-empty cluster accrues the elapsed ratio and records the
/// pass time.
pub open spec fn settle_cluster(c: ClusterView, now: int) -> ClusterView {
    if c.tokens.len() == 0 {
        c
    } else {
        ClusterView {
            tokens: c.tokens,
            last_time: now,
            earned: c.earned + accrual_amount(c, now),
            released: c.released,
        }
    }
}

/// Whether settling this cluster at `now` would push its earned amount out
/// of the representable range.
pub open spec fn settle_cluster_overflow(c: ClusterView, now: int) -> bool {
    c.tokens.len() > 0 && c.earned + accrual_amount(c, now) > u128::MAX
}

/// One settlement pass over a sequence of clusters.
pub open spec fn settle_clusters(cs: Seq<ClusterView>, now: int) -> Seq<ClusterView> {
    cs.map_values(|c: ClusterView| settle_cluster(c, now))
}

/// Whether settling any cluster of the sequence at `now` would overflow.
pub open spec fn settle_overflows(cs: Seq<ClusterView>, now: int) -> bool {
    exists|i: int| 0 <= i < cs.len() && settle_cluster_overflow(cs[i], now)
}

/// One settlement pass over a holder's whole state.
pub open spec fn settle_holder(h: HolderView, now: int) -> HolderView {
    HolderView { clusters: settle_clusters(h.clusters, now) }
}

/// The view of a vector of clusters.
pub open spec fn cluster_views(cs: Seq<Cluster>) -> Seq<ClusterView> {
    cs.map_values(|c: Cluster| c@)
}

/// Settlement of a well-formed cluster preserves well-formedness, keeps the
/// items and the released amount, and never decreases the earned amount.
pub proof fn lemma_settle_cluster_wf(c: ClusterView, now: int)
    requires
        wf_cluster(c),
        c.last_time <= now <= u64::MAX,
        !settle_cluster_overflow(c, now),
    ensures
        wf_cluster(settle_cluster(c, now)),
        settle_cluster(c, now).tokens == c.tokens,
        settle_cluster(c, now).released == c.released,
        settle_cluster(c, now).earned >= c.earned,
        settle_cluster(c, now).last_time <= now,
        c.tokens.len() > 0 ==> 0 <= accrual_amount(c, now),
{
    if c.tokens.len() > 0 {
        lemma_period_bounds(c.tokens);
        lemma_mul_nonnegative(now - c.last_time, DECIMAL_FRACTIONAL as int);
        lemma_div_pos_is_pos((now - c.last_time) * DECIMAL_FRACTIONAL, period_view(c.tokens));
    }
}

/// One settlement pass over every cluster of a vector, all-or-nothing: the
/// result is either every cluster settled or an overflow error with the
/// input untouched.
pub fn settled_clusters(clusters: &Vec<Cluster>, now: u64) -> (r: Result<
    Vec<Cluster>,
    ContractError,
>)
    requires
        forall|i: int| 0 <= i < clusters@.len() ==> wf_cluster(#[trigger] clusters@[i]@),
        forall|i: int| 0 <= i < clusters@.len() ==> (#[trigger] clusters@[i]@).last_time <= now,
    ensures
        (r matches Ok(cs) ==> {
            &&& !settle_overflows(cluster_views(clusters@), now as int)
            &&& cluster_views(cs@) == settle_clusters(cluster_views(clusters@), now as int)
        }),
        (r matches Err(e) ==> {
            &&& e == ContractError::ArithmeticOverflow
            &&& settle_overflows(cluster_views(clusters@), now as int)
        }),
        r is Ok <==> !settle_overflows(cluster_views(clusters@), now as int),
{
    let mut out: Vec<Cluster> = Vec::new();
    let n = clusters.len();
    let mut i: usize = 0;
    while i < n
        invariant
            0 <= i <= n,
            n == clusters@.len(),
            forall|j: int| 0 <= j < n ==> wf_cluster(#[trigger] clusters@[j]@),
            forall|j: int| 0 <= j < n ==> (#[trigger] clusters@[j]@).last_time <= now,
            out@.len() == i,
            forall|j: int|
                0 <= j < i ==> (#[trigger] out@[j])@ == settle_cluster(
                    clusters@[j]@,
                    now as int,
                ),
            forall|j: int|
                0 <= j < i ==> !settle_cluster_overflow(#[trigger] clusters@[j]@, now as int),
        decreases n - i,
    {
        let c = &clusters[i];
        if c.token_ids.len() == 0 {
            out.push(c.clone());
        } else {
            let secs = match need_staking_time_for_reward(c) {
                Some(s) => s,
                None => vstd::pervasive::unreached(),
            };
            let diff: u64 = now - c.last_reward_time;
            let reward = Decimal::from_ratio(diff as u128, secs as u128);
            proof {
                assert(reward@ == accrual_amount(c@, now as int));
            }
            match c.last_reward_earned.checked_add(reward) {
                Some(earned) => {
                    let settled = Cluster {
                        token_ids: clone_tokens(&c.token_ids),
                        last_reward_time: now,
                        last_reward_earned: earned,
                        last_reward_release: c.last_reward_release,
                    };
                    proof {
                        assert(settled@ =~= settle_cluster(c@, now as int));
                    }
                    out.push(settled);
                },
                None => {
                    proof {
                        assert(cluster_views(clusters@)[i as int] == clusters@[i as int]@);
                        assert(settle_cluster_overflow(
                            cluster_views(clusters@)[i as int],
                            now as int,
                        ));
                        assert(settle_overflows(cluster_views(clusters@), now as int));
                    }
                    return Err(ContractError::ArithmeticOverflow);
                },
            }
        }
        i = i + 1;
    }
    proof {
        assert(cluster_views(out@) =~= settle_clusters(cluster_views(clusters@), now as int));
        assert forall|j: int| 0 <= j < clusters@.len() implies !settle_cluster_overflow(
            #[trigger] cluster_views(clusters@)[j],
            now as int,
        ) by {
            assert(cluster_views(clusters@)[j] == clusters@[j]@);
        }
    }
    Ok(out)
}

/// Settle all of a holder's clusters to `now`, all-or-nothing: on an
/// arithmetic overflow the holder is left untouched and the operation
/// reports the failure.
pub fn update_reward(holder: &mut Holder, now: u64) -> (r: Result<(), ContractError>)
    requires
        wf_holder(old(holder)@),
        holder_times_le(old(holder)@, now as int),
    ensures
        (r matches Ok(u) ==> {
            &&& !settle_overflows(old(holder)@.clusters, now as int)
            &&& final(holder)@ == settle_holder(old(holder)@, now as int)
            &&& wf_holder(final(holder)@)
            &&& holder_times_le(final(holder)@, now as int)
        }),
        (r matches Err(e) ==> {
            &&& e == ContractError::ArithmeticOverflow
            &&& settle_overflows(old(holder)@.clusters, now as int)
            &&& final(holder)@ == old(holder)@
        }),
        r is Ok <==> !settle_overflows(old(holder)@.clusters, now as int),
{
    proof {
        assert forall|i: int| 0 <= i < holder.clusters@.len() implies wf_cluster(
            #[trigger] holder.clusters@[i]@,
        ) && holder.clusters@[i]@.last_time <= now as int by {
            assert(holder@.clusters[i] == holder.clusters@[i]@);
            assert(wf_cluster(holder@.clusters[i]));
            assert(holder@.clusters[i].last_time <= now as int);
        }
    }
    match settled_clusters(&holder.clusters, now) {
        Ok(cs) => {
            holder.clusters = cs;
            proof {
                assert(holder@ =~= settle_holder(old(holder)@, now as int));
                assert forall|i: int| 0 <= i < holder@.clusters.len() implies wf_cluster(
                    #[trigger] holder@.clusters[i],
                ) && holder@.clusters[i].last_time <= now by {
                    lemma_settle_cluster_wf(old(holder)@.clusters[i], now as int);
                }
            }
            Ok(())
        },
        Err(e) => Err(e),
    }
}

/// A settlement pass at a time a cluster is already settled to, or on an
/// empty cluster, changes nothing.
pub proof fn lemma_settle_noop(c: ClusterView, now: int)
    requires
        c.tokens.len() <= MAX_CLUSTER_SIZE,
        forall|i: int| 0 <= i < c.tokens.len() ==> wf_token(#[trigger] c.tokens[i]),
        c.tokens.len() > 0 ==> c.last_time == now,
    ensures
        settle_cluster(c, now) == c,
{
    if c.tokens.len() > 0 {
        lemma_period_bounds(c.tokens);
        lemma_div_of0(period_view(c.tokens));
        assert(accrual_amount(c, now) == 0);
        assert(settle_cluster(c, now) =~= c);
    }
}

/// Law: a settlement pass never decreases the earned amount, and repeated
/// passes at non-decreasing timestamps produce non-decreasing earned
/// amounts.
pub proof fn lemma_accrual_monotonic(c: ClusterView, t1: int, t2: int)
    requires
        c.tokens.len() <= MAX_CLUSTER_SIZE,
        forall|i: int| 0 <= i < c.tokens.len() ==> wf_token(#[trigger] c.tokens[i]),
        c.last_time <= t1 <= t2,
    ensures
        settle_cluster(c, t1).earned >= c.earned,
        settle_cluster(settle_cluster(c, t1), t2).earned >= settle_cluster(c, t1).earned,
{
    if c.tokens.len() > 0 {
        lemma_period_bounds(c.tokens);
        lemma_mul_nonnegative(t1 - c.last_time, DECIMAL_FRACTIONAL as int);
        lemma_div_pos_is_pos((t1 - c.last_time) * DECIMAL_FRACTIONAL, period_view(c.tokens));
        let c1 = settle_cluster(c, t1);
        lemma_mul_nonnegative(t2 - c1.last_time, DECIMAL_FRACTIONAL as int);
        lemma_div_pos_is_pos((t2 - c1.last_time) * DECIMAL_FRACTIONAL, period_view(c1.tokens));
    }
}

/// Law: settling a cluster twice at the same timestamp is the same as
/// settling it once; the second pass sees zero elapsed time and adds
/// nothing.
pub proof fn lemma_accrual_idempotent(c: ClusterView, now: int)
    requires
        c.tokens.len() <= MAX_CLUSTER_SIZE,
        forall|i: int| 0 <= i < c.tokens.len() ==> wf_token(#[trigger] c.tokens[i]),
    ensures
        settle_cluster(settle_cluster(c, now), now) == settle_cluster(c, now),
{
    let c1 = settle_cluster(c, now);
    if c.tokens.len() > 0 {
        lemma_period_bounds(c.tokens);
        lemma_div_of0(period_view(c1.tokens));
        assert(accrual_amount(c1, now) == 0);
        assert(settle_cluster(c1, now) =~= c1);
    }
}

} // verus!
