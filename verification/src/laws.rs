//! Global laws of the ledger, stated and proved once over any well-formed
//! state.  The per-operation guarantees (exact balance changes, the
//! withdrawal bound, the monotone checkpoint) live in the contracts of the
//! operations themselves.

use crate::ledger::{
    id_slot, lemma_element_le_sum, sum_stakes, AccrualMode, RewardLedger, StakingContract,
};
use vstd::arithmetic::div_mod::lemma_div_of0;
use vstd::prelude::*;

verus! {

/// The balance sheet of a well-formed ledger: the recorded total stake is
/// exactly the sum of all account stakes, every account's stake is at most
/// the total, and no stake, pending-reward or total-stake value is ever
/// negative.
pub proof fn lemma_balance_sheet(s: RewardLedger)
    requires
        s.wf(),
    ensures
        s.total_staked() as int == sum_stakes(s.accounts@),
        s.total_staked() >= 0,
        forall|id: u64| 0 <= #[trigger] s.stake_of(id) && s.stake_of(id) <= s.total_staked(),
        forall|id: u64| 0 <= #[trigger] s.rewards_of(id),
{
    assert forall|id: u64| 0 <= #[trigger] s.stake_of(id) && s.stake_of(id)
        <= s.total_staked() by {
        if s.has_account(id) {
            let i = id_slot(s.accounts@, id);
            assert(0 <= i < s.accounts@.len() && s.accounts@[i].id == id);
            lemma_element_le_sum(s.accounts@, i);
        }
    }
}

/// A claim with no elapsed time pays nothing: in a state whose relevant
/// checkpoint already equals the current time and whose caller has no
/// pending rewards — exactly the state any claim leaves behind — the amount
/// a second claim would pay out is zero.
pub proof fn lemma_second_claim_pays_nothing(s: RewardLedger, caller: u64, now: u64)
    requires
        s.rewards_of(caller) == 0,
        s.checkpoint_time() == now,
        s.policy() == AccrualMode::PerAccount ==> s.checkpoint_of(caller) == now,
    ensures
        s.rewards_of(caller) + s.accrual_share(caller, now) == 0,
{
    assert(s.elapsed_for(caller, now) == 0);
    if s.total_stake != 0 {
        assert(s.reward_speed * 0int * s.stake_of(caller) == 0);
        lemma_div_of0(s.total_stake as int);
    }
}

} // verus!
