//! The deterministic selection procedure of the distribution engine.
//!
//! Selection is seeded by the block timestamp and walks the inventory with a
//! remove-and-shrink index: it is intentionally simple and predictable by
//! anyone who knows the pending timestamp, not a source of secure
//! randomness.

use vstd::prelude::*;

use vstd::arithmetic::mul::lemma_mul_inequality;
use vstd::arithmetic::mul::lemma_mul_is_commutative;
use vstd::arithmetic::mul::lemma_mul_nonnegative;
use vstd::multiset::Multiset;
use vstd::seq_lib::lemma_multiset_commutative;

use crate::error::ContractError;
use crate::staking::TransferNft;

verus! {

/// The identifiers the selection walk picks from the working list `work`,
/// starting at iteration `i` of `num`: iteration `i` removes the element at
/// index `(time * (i+1)) mod |work|` and appends it to the result.
pub open spec fn select_rec(work: Seq<String>, time: int, i: int, num: int) -> Seq<String>
    decreases num - i,
{
    if i >= num || work.len() == 0 {
        Seq::empty()
    } else {
        let k = (time * (i + 1)) % (work.len() as int);
        seq![work[k]] + select_rec(work.remove(k), time, i + 1, num)
    }
}

/// Law: the selection walk picks exactly the requested number of
/// identifiers, and never picks any inventory position twice — its result
/// is a sub-multiset of the inventory, so an identifier is picked at most
/// as often as the inventory holds it.
pub proof fn lemma_selection_validity(work: Seq<String>, time: int, i: int, num: int)
    requires
        0 <= i <= num,
        num - i <= work.len(),
        0 <= time,
    ensures
        select_rec(work, time, i, num).len() == num - i,
        select_rec(work, time, i, num).to_multiset().subset_of(work.to_multiset()),
    decreases num - i,
{
    broadcast use vstd::seq_lib::group_to_multiset_ensures;
    broadcast use vstd::multiset::group_multiset_axioms;

    if i >= num {
        assert(select_rec(work, time, i, num).to_multiset().len() == 0);
    } else {
        lemma_mul_nonnegative(time, i + 1);
        let k = (time * (i + 1)) % (work.len() as int);
        let rest = work.remove(k);
        lemma_selection_validity(rest, time, i + 1, num);
        let picked = seq![work[k]];
        let sub = select_rec(rest, time, i + 1, num);
        lemma_multiset_commutative(picked, sub);
        assert(picked.to_multiset() =~= Multiset::<String>::empty().insert(work[k]));
        assert(rest.to_multiset() == work.to_multiset().remove(work[k]));
        assert(work.to_multiset().count(work[k]) >= 1) by {
            assert(work.to_multiset().contains(work[k]));
        }
        assert forall|v: String|
            #[trigger] select_rec(work, time, i, num).to_multiset().count(v)
                <= work.to_multiset().count(v) by {
            if v == work[k] {
                assert(sub.to_multiset().count(v) <= rest.to_multiset().count(v));
            } else {
                assert(sub.to_multiset().count(v) <= rest.to_multiset().count(v));
            }
        }
    }
}

/// Deterministic selection of `num` inventory identifiers, seeded by the
/// block timestamp: repeatedly pick index `(time * (i+1)) mod L` of the
/// shrinking working list. Fails when more identifiers are requested than
/// the inventory holds, or when the index computation would overflow.
pub fn get_selected_random(token_ids: Vec<String>, num: u64, time: u64) -> (r: Result<
    Vec<String>,
    ContractError,
>)
    ensures
        (r matches Ok(sel) ==> {
            &&& num <= token_ids@.len()
            &&& time * num <= u64::MAX
            &&& sel@ == select_rec(token_ids@, time as int, 0, num as int)
            &&& sel@.len() == num
            &&& sel@.to_multiset().subset_of(token_ids@.to_multiset())
        }),
        (r matches Err(e) ==> ((e == ContractError::InvalidArgument && num > token_ids@.len())
            || (e == ContractError::ArithmeticOverflow && num <= token_ids@.len() && time * num
            > u64::MAX))),
        r is Ok <==> (num <= token_ids@.len() && time * num <= u64::MAX),
{
    let ghost ids0 = token_ids@;
    let len: usize = token_ids.len();
    if num > len as u64 {
        return Err(ContractError::InvalidArgument);
    }
    if time.checked_mul(num).is_none() {
        return Err(ContractError::ArithmeticOverflow);
    }
    let mut work = token_ids;
    let mut sel_token_ids: Vec<String> = Vec::new();
    let mut i: u64 = 0;
    while i < num
        invariant
            0 <= i <= num,
            num <= ids0.len(),
            len == ids0.len(),
            time * num <= u64::MAX,
            work@.len() == ids0.len() - i,
            sel_token_ids@.len() == i,
            sel_token_ids@ + select_rec(work@, time as int, i as int, num as int) == select_rec(
                ids0,
                time as int,
                0,
                num as int,
            ),
        decreases num - i,
    {
        proof {
            lemma_mul_inequality(i + 1, num as int, time as int);
            lemma_mul_is_commutative(i + 1, time as int);
            lemma_mul_is_commutative(num as int, time as int);
            lemma_mul_nonnegative(time as int, i + 1);
        }
        let ghost work_before = work@;
        let ghost sel_before = sel_token_ids@;
        let k64: u64 = time * (i + 1) % ((len - i as usize) as u64);
        let k: usize = k64 as usize;
        sel_token_ids.push(work[k].clone());
        work.remove(k);
        proof {
            let ghost kk = (time as int * (i + 1)) % (work_before.len() as int);
            assert(kk == k64 as int);
            assert(select_rec(work_before, time as int, i as int, num as int) == seq![
                work_before[kk],
            ] + select_rec(work_before.remove(kk), time as int, i + 1, num as int));
            assert(sel_before + (seq![work_before[kk]] + select_rec(
                work_before.remove(kk),
                time as int,
                i + 1,
                num as int,
            )) =~= (sel_before + seq![work_before[kk]]) + select_rec(
                work_before.remove(kk),
                time as int,
                i + 1,
                num as int,
            ));
            assert(sel_token_ids@ =~= sel_before + seq![work_before[kk]]);
        }
        i = i + 1;
    }
    proof {
        assert(select_rec(work@, time as int, num as int, num as int) =~= Seq::empty());
        assert(sel_token_ids@ + Seq::<String>::empty() =~= sel_token_ids@);
        lemma_selection_validity(ids0, time as int, 0, num as int);
    }
    Ok(sel_token_ids)
}

/// One outbound transfer instruction per selected identifier, each moving
/// that reward item out of the reward registry to the claiming holder.
pub fn build_transfer_msgs(reward_nft: &String, recipient: &String, token_ids: &Vec<String>) -> (r:
    Vec<TransferNft>)
    ensures
        r@.len() == token_ids@.len(),
        forall|i: int|
            0 <= i < r@.len() ==> {
                &&& (#[trigger] r@[i]).contract_addr == reward_nft
                &&& r@[i].recipient == recipient
                &&& r@[i].token_id == token_ids@[i]
            },
{
    let mut msgs: Vec<TransferNft> = Vec::new();
    let mut i: usize = 0;
    let n = token_ids.len();
    while i < n
        invariant
            0 <= i <= n,
            n == token_ids@.len(),
            msgs@.len() == i,
            forall|j: int|
                0 <= j < i ==> {
                    &&& (#[trigger] msgs@[j]).contract_addr == reward_nft
                    &&& msgs@[j].recipient == recipient
                    &&& msgs@[j].token_id == token_ids@[j]
                },
        decreases n - i,
    {
        msgs.push(TransferNft {
            contract_addr: reward_nft.clone(),
            recipient: recipient.clone(),
            token_id: token_ids[i].clone(),
        });
        i = i + 1;
    }
    msgs
}

} // verus!
