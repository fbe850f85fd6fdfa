//! The reward ledger: global state, per-account state, and the
//! stake / withdraw / claim operations with their accrual procedure.

use vstd::arithmetic::div_mod::lemma_div_of0;
use vstd::prelude::*;

verus! {

/// Reward units accrued per elapsed time unit in the ledger created by
/// [`StakingContract::init`].
pub const DEFAULT_REWARD_SPEED: u128 = 300000;

/// How the accrual procedure measures elapsed time.
///
/// `GlobalCheckpoint` advances one global checkpoint on every accrual, so
/// when two accounts accrue at the same time unit, the one served second
/// sees zero elapsed time and earns nothing for that window: reward
/// distribution is order-sensitive.  `PerAccount` keeps a checkpoint per
/// account instead, so each account is credited for the time elapsed since
/// its own last accrual, whatever the order of the calls.
#[derive(Clone, Copy, Debug, PartialEq, Eq, Structural)]
pub enum AccrualMode {
    GlobalCheckpoint,
    PerAccount,
}

/// One account of the ledger.  Accounts materialize with zero balances the
/// first time an identity interacts and are never removed.
#[derive(Clone, Copy, Debug, PartialEq, Eq, Structural)]
pub struct Account {
    /// The identity the account belongs to.
    pub id: u64,
    /// Deposited and not yet withdrawn principal.
    pub stake: u128,
    /// Accrued and not yet claimed rewards.
    pub pending_rewards: u128,
    /// The time unit of this account's last accrual (used by
    /// `AccrualMode::PerAccount`).
    pub last_accrual: u64,
}

/// Why an operation was refused.  A refused operation changes no state.
#[derive(Clone, Copy, Debug, PartialEq, Eq, Structural)]
pub enum StakingError {
    /// A withdrawal asked for more than the caller's current stake.
    InsufficientStake,
    /// The host could not complete the outbound asset transfer.  The ledger
    /// itself never returns this; the host reports it after rolling back.
    TransferFailure,
}

/// Sum of all stakes recorded in `s`.
pub open spec fn sum_stakes(s: Seq<Account>) -> int
    decreases s.len(),
{
    if s.len() == 0 {
        0
    } else {
        sum_stakes(s.drop_last()) + s.last().stake
    }
}

/// No two accounts share an identity.
pub open spec fn distinct_ids(s: Seq<Account>) -> bool {
    forall|i: int, j: int| 0 <= i < j < s.len() ==> s[i].id != s[j].id
}

/// Some account in `s` belongs to `id`.
pub open spec fn has_id(s: Seq<Account>, id: u64) -> bool {
    exists|i: int| 0 <= i < s.len() && s[i].id == id
}

/// The position of `id`'s account in `s` (meaningful only when
/// `has_id(s, id)` holds and the ids are distinct).
pub open spec fn id_slot(s: Seq<Account>, id: u64) -> int {
    choose|i: int| 0 <= i < s.len() && s[i].id == id
}

/// The reward credited to one account by a single accrual: the pool earned
/// `speed * elapsed` reward units over the window, and the account receives
/// its stake-proportional share, with integer division truncating toward
/// zero (the lost fraction is accepted dust).  An empty pool earns nothing.
pub open spec fn share_amount(speed: int, elapsed: int, stake: int, total: int) -> int {
    if total == 0 {
        0
    } else {
        (speed * elapsed * stake) / total
    }
}

proof fn lemma_sum_nonneg(s: Seq<Account>)
    ensures
        sum_stakes(s) >= 0,
    decreases s.len(),
{
    if s.len() > 0 {
        lemma_sum_nonneg(s.drop_last());
    }
}

/// Every single stake is at most the sum of all stakes.
pub proof fn lemma_element_le_sum(s: Seq<Account>, i: int)
    requires
        0 <= i < s.len(),
    ensures
        s[i].stake <= sum_stakes(s),
    decreases s.len(),
{
    lemma_sum_nonneg(s.drop_last());
    if i < s.len() - 1 {
        lemma_element_le_sum(s.drop_last(), i);
    }
}

proof fn lemma_sum_update(s: Seq<Account>, i: int, a: Account)
    requires
        0 <= i < s.len(),
    ensures
        sum_stakes(s.update(i, a)) == sum_stakes(s) - s[i].stake + a.stake,
    decreases s.len(),
{
    let t = s.update(i, a);
    if i == s.len() - 1 {
        assert(t.drop_last() =~= s.drop_last());
    } else {
        assert(t.drop_last() =~= s.drop_last().update(i, a));
        lemma_sum_update(s.drop_last(), i, a);
    }
}

proof fn lemma_sum_push(s: Seq<Account>, a: Account)
    ensures
        sum_stakes(s.push(a)) == sum_stakes(s) + a.stake,
{
    assert(s.push(a).drop_last() =~= s);
}

/// With distinct ids, any position holding `id` is the one `id_slot` picks.
pub proof fn lemma_slot_unique(s: Seq<Account>, id: u64, i: int)
    requires
        distinct_ids(s),
        0 <= i < s.len(),
        s[i].id == id,
    ensures
        has_id(s, id),
        id_slot(s, id) == i,
{
    assert(has_id(s, id));
    let j = id_slot(s, id);
    if j < i {
        assert(s[j].id != s[i].id);
    } else if i < j {
        assert(s[i].id != s[j].id);
    }
}

/// Replacing the account at position `k` by one with the same id keeps the
/// ids distinct and leaves every other identity's account untouched.
proof fn lemma_update_preserves(s: Seq<Account>, k: int, a: Account)
    requires
        distinct_ids(s),
        0 <= k < s.len(),
        a.id == s[k].id,
    ensures
        distinct_ids(s.update(k, a)),
        has_id(s.update(k, a), a.id),
        id_slot(s.update(k, a), a.id) == k,
        forall|id: u64| id != a.id ==> has_id(s.update(k, a), id) == has_id(s, id),
        forall|id: u64|
            id != a.id && has_id(s, id) ==> s.update(k, a)[id_slot(s.update(k, a), id)] == s[id_slot(s, id)],
{
    let t = s.update(k, a);
    assert(distinct_ids(t)) by {
        assert forall|i: int, j: int| 0 <= i < j < t.len() implies t[i].id != t[j].id by {
            assert(s[i].id != s[j].id);
        }
    }
    lemma_slot_unique(t, a.id, k);
    assert forall|id: u64| id != a.id implies has_id(t, id) == has_id(s, id) by {
        if has_id(s, id) {
            let i = id_slot(s, id);
            assert(0 <= i < s.len() && s[i].id == id);
            assert(t[i].id == id);
            assert(has_id(t, id));
        }
        if has_id(t, id) {
            let i = id_slot(t, id);
            assert(0 <= i < t.len() && t[i].id == id);
            assert(i != k);
            assert(s[i].id == id);
            assert(has_id(s, id));
        }
    }
    assert forall|id: u64| id != a.id && has_id(s, id) implies t[id_slot(t, id)] == s[id_slot(s, id)] by {
        let i = id_slot(s, id);
        assert(0 <= i < s.len() && s[i].id == id);
        assert(i != k);
        assert(t[i].id == id);
        lemma_slot_unique(t, id, i);
    }
}

/// Appending an account with a fresh id keeps the ids distinct and leaves
/// every other identity's account untouched.
proof fn lemma_push_preserves(s: Seq<Account>, a: Account)
    requires
        distinct_ids(s),
        !has_id(s, a.id),
    ensures
        distinct_ids(s.push(a)),
        has_id(s.push(a), a.id),
        id_slot(s.push(a), a.id) == s.len(),
        forall|id: u64| id != a.id ==> has_id(s.push(a), id) == has_id(s, id),
        forall|id: u64|
            id != a.id && has_id(s, id) ==> s.push(a)[id_slot(s.push(a), id)] == s[id_slot(s, id)],
{
    let t = s.push(a);
    assert(distinct_ids(t)) by {
        assert forall|i: int, j: int| 0 <= i < j < t.len() implies t[i].id != t[j].id by {
            if j < s.len() {
                assert(s[i].id != s[j].id);
            } else {
                assert(t[j].id == a.id);
                assert(t[i].id == s[i].id);
                if s[i].id == a.id {
                    assert(has_id(s, a.id));
                }
            }
        }
    }
    lemma_slot_unique(t, a.id, s.len() as int);
    assert forall|id: u64| id != a.id implies has_id(t, id) == has_id(s, id) by {
        if has_id(s, id) {
            let i = id_slot(s, id);
            assert(0 <= i < s.len() && s[i].id == id);
            assert(t[i].id == id);
            assert(has_id(t, id));
        }
        if has_id(t, id) {
            let i = id_slot(t, id);
            assert(0 <= i < t.len() && t[i].id == id);
            assert(i != s.len());
            assert(s[i].id == id);
            assert(has_id(s, id));
        }
    }
    assert forall|id: u64| id != a.id && has_id(s, id) implies t[id_slot(t, id)] == s[id_slot(s, id)] by {
        let i = id_slot(s, id);
        assert(0 <= i < s.len() && s[i].id == id);
        assert(t[i].id == id);
        lemma_slot_unique(t, id, i);
    }
}

/// The interface of the proportional staking-reward ledger.
///
/// The host environment is injected: operations take the caller identity
/// and the current time as plain values, and return the amount of the
/// underlying asset the host must transfer out.  The spec functions are the
/// abstract state the operation contracts are written over.
pub trait StakingContract: Sized {
    /// Well-formedness of the ledger state; every operation preserves it.
    spec fn wf(self) -> bool;

    /// The identity has interacted before.
    spec fn has_account(self, id: u64) -> bool;

    /// `id`'s stake; zero for an identity that never interacted.
    spec fn stake_of(self, id: u64) -> int;

    /// `id`'s pending rewards; zero for an identity that never interacted.
    spec fn rewards_of(self, id: u64) -> int;

    /// `id`'s last-accrual time; zero for an identity that never interacted.
    spec fn checkpoint_of(self, id: u64) -> int;

    /// Reward units the whole pool earns per elapsed time unit.
    spec fn speed_of(self) -> u128;

    /// The recorded total of all staked balances.
    spec fn total_staked(self) -> u128;

    /// The last time unit at which any accrual ran.
    spec fn checkpoint_time(self) -> u64;

    /// Which checkpoint the accrual procedure reads.
    spec fn policy(self) -> AccrualMode;

    /// The elapsed-time window an accrual for `id` at time `now` covers.
    spec fn elapsed_for(self, id: u64, now: u64) -> int;

    /// The reward one accrual for `id` at time `now` would credit.
    spec fn accrual_share(self, id: u64, now: u64) -> int;

    /// Creates the ledger with the fixed default reward speed and the
    /// global-checkpoint accrual policy.  Called once, before any other
    /// operation.
    fn init() -> (s: Self)
        ensures
            s.wf(),
            s.speed_of() == DEFAULT_REWARD_SPEED,
            s.policy() == AccrualMode::GlobalCheckpoint,
            s.total_staked() == 0,
            s.checkpoint_time() == 0,
            forall|id: u64| !s.has_account(id),
            forall|id: u64|
                s.stake_of(id) == 0 && s.rewards_of(id) == 0 && s.checkpoint_of(id) == 0,
    ;

    /// The accrual procedure: credits `address` its stake-proportional share
    /// of the rewards the whole pool earned over the elapsed window, then
    /// advances the checkpoint to `current_time`.  Runs as the first step of
    /// every state-changing operation; stakes and the total are untouched.
    fn update_rewards(&mut self, address: u64, current_time: u64)
        requires
            old(self).wf(),
            current_time >= old(self).checkpoint_time(),
            old(self).speed_of() * old(self).elapsed_for(address, current_time) * old(self).stake_of(address) <= u128::MAX,
            old(self).rewards_of(address) + old(self).accrual_share(address, current_time)
                <= u128::MAX,
        ensures
            final(self).wf(),
            final(self).speed_of() == old(self).speed_of(),
            final(self).policy() == old(self).policy(),
            final(self).total_staked() == old(self).total_staked(),
            final(self).checkpoint_time() == current_time,
            final(self).checkpoint_time() >= old(self).checkpoint_time(),
            final(self).has_account(address),
            final(self).stake_of(address) == old(self).stake_of(address),
            final(self).rewards_of(address) == old(self).rewards_of(address) + old(self).accrual_share(address, current_time),
            final(self).checkpoint_of(address) == current_time,
            forall|other: u64|
                other != address ==> #[trigger] final(self).stake_of(other) == old(self).stake_of(other),
            forall|other: u64|
                other != address ==> #[trigger] final(self).rewards_of(other) == old(self).rewards_of(other),
            forall|other: u64|
                other != address ==> #[trigger] final(self).checkpoint_of(other) == old(self).checkpoint_of(other),
            forall|other: u64|
                other != address ==> #[trigger] final(self).has_account(other) == old(self).has_account(other),
    ;

    /// Deposits `amount`, already received from the caller by the host.
    /// Accrues the caller's rewards first, then raises the caller's stake
    /// and the total stake by `amount`.  A zero amount is accepted and is a
    /// no-op on balances beyond the accrual checkpoint update.
    fn stake(&mut self, caller: u64, amount: u128, current_time: u64)
        requires
            old(self).wf(),
            current_time >= old(self).checkpoint_time(),
            old(self).speed_of() * old(self).elapsed_for(caller, current_time) * old(self).stake_of(caller) <= u128::MAX,
            old(self).rewards_of(caller) + old(self).accrual_share(caller, current_time)
                <= u128::MAX,
            old(self).total_staked() + amount <= u128::MAX,
        ensures
            final(self).wf(),
            final(self).speed_of() == old(self).speed_of(),
            final(self).policy() == old(self).policy(),
            final(self).total_staked() == old(self).total_staked() + amount,
            final(self).checkpoint_time() == current_time,
            final(self).checkpoint_time() >= old(self).checkpoint_time(),
            final(self).has_account(caller),
            final(self).stake_of(caller) == old(self).stake_of(caller) + amount,
            final(self).rewards_of(caller) == old(self).rewards_of(caller) + old(self).accrual_share(caller, current_time),
            final(self).checkpoint_of(caller) == current_time,
            forall|other: u64|
                other != caller ==> #[trigger] final(self).stake_of(other) == old(self).stake_of(other),
            forall|other: u64|
                other != caller ==> #[trigger] final(self).rewards_of(other) == old(self).rewards_of(other),
            forall|other: u64|
                other != caller ==> #[trigger] final(self).checkpoint_of(other) == old(self).checkpoint_of(other),
            forall|other: u64|
                other != caller ==> #[trigger] final(self).has_account(other) == old(self).has_account(other),
    ;

    /// Withdraws `amount` of the caller's staked principal.  Fails with
    /// `InsufficientStake`, changing nothing, exactly when `amount` exceeds
    /// the caller's current stake; otherwise accrues the caller's rewards,
    /// lowers the caller's stake and the total stake by `amount`, and
    /// returns the amount the host must transfer back to the caller.
    fn withdraw(&mut self, caller: u64, amount: u128, current_time: u64) -> (r: Result<
        u128,
        StakingError,
    >)
        requires
            old(self).wf(),
            current_time >= old(self).checkpoint_time(),
            amount <= old(self).stake_of(caller) ==> old(self).speed_of() * old(self).elapsed_for(caller, current_time) * old(self).stake_of(caller) <= u128::MAX,
            amount <= old(self).stake_of(caller) ==> old(self).rewards_of(caller) + old(self).accrual_share(caller, current_time) <= u128::MAX,
        ensures
            r is Ok <==> amount <= old(self).stake_of(caller),
            final(self).wf(),
            final(self).checkpoint_time() >= old(self).checkpoint_time(),
            match r {
                Ok(paid) => {
                    &&& paid == amount
                    &&& final(self).speed_of() == old(self).speed_of()
                    &&& final(self).policy() == old(self).policy()
                    &&& final(self).total_staked() == old(self).total_staked() - amount
                    &&& final(self).checkpoint_time() == current_time
                    &&& final(self).stake_of(caller) == old(self).stake_of(caller) - amount
                    &&& final(self).rewards_of(caller) == old(self).rewards_of(caller) + old(self).accrual_share(caller, current_time)
                    &&& final(self).checkpoint_of(caller) == current_time
                    &&& forall|other: u64|
                        other != caller ==> #[trigger] final(self).stake_of(other) == old(self).stake_of(other)
                    &&& forall|other: u64|
                        other != caller ==> #[trigger] final(self).rewards_of(other) == old(self).rewards_of(other)
                    &&& forall|other: u64|
                        other != caller ==> #[trigger] final(self).checkpoint_of(other) == old(self).checkpoint_of(other)
                    &&& forall|other: u64|
                        other != caller ==> #[trigger] final(self).has_account(other) == old(self).has_account(other)
                },
                Err(e) => e == StakingError::InsufficientStake && *final(self) == *old(self),
            },
    ;

    /// Pays out the caller's full pending reward balance.  Accrues the
    /// caller's rewards first, then zeroes the balance and returns the
    /// amount the host must transfer to the caller (possibly zero).
    fn claim_rewards(&mut self, caller: u64, current_time: u64) -> (r: u128)
        requires
            old(self).wf(),
            current_time >= old(self).checkpoint_time(),
            old(self).speed_of() * old(self).elapsed_for(caller, current_time) * old(self).stake_of(caller) <= u128::MAX,
            old(self).rewards_of(caller) + old(self).accrual_share(caller, current_time)
                <= u128::MAX,
        ensures
            r == old(self).rewards_of(caller) + old(self).accrual_share(caller, current_time),
            final(self).wf(),
            final(self).speed_of() == old(self).speed_of(),
            final(self).policy() == old(self).policy(),
            final(self).total_staked() == old(self).total_staked(),
            final(self).checkpoint_time() == current_time,
            final(self).checkpoint_time() >= old(self).checkpoint_time(),
            final(self).has_account(caller),
            final(self).stake_of(caller) == old(self).stake_of(caller),
            final(self).rewards_of(caller) == 0,
            final(self).checkpoint_of(caller) == current_time,
            forall|other: u64|
                other != caller ==> #[trigger] final(self).stake_of(other) == old(self).stake_of(other),
            forall|other: u64|
                other != caller ==> #[trigger] final(self).rewards_of(other) == old(self).rewards_of(other),
            forall|other: u64|
                other != caller ==> #[trigger] final(self).checkpoint_of(other) == old(self).checkpoint_of(other),
            forall|other: u64|
                other != caller ==> #[trigger] final(self).has_account(other) == old(self).has_account(other),
    ;

    /// The caller-visible view of `address`'s staked balance: the amount,
    /// or `None` for an identity that never interacted (callers treat
    /// `None` as zero).
    fn get_stake(&self, address: u64) -> (r: Option<u128>)
        requires
            self.wf(),
        ensures
            match r {
                Some(v) => self.has_account(address) && v as int == self.stake_of(address),
                None => !self.has_account(address),
            },
    ;

    /// The caller-visible view of `address`'s pending rewards: the amount,
    /// or `None` for an identity that never interacted (callers treat
    /// `None` as zero).
    fn get_rewards(&self, address: u64) -> (r: Option<u128>)
        requires
            self.wf(),
        ensures
            match r {
                Some(v) => self.has_account(address) && v as int == self.rewards_of(address),
                None => !self.has_account(address),
            },
    ;

    /// The fixed reward speed of the pool.
    fn get_global_reward_speed(&self) -> (r: u128)
        ensures
            r == self.speed_of(),
    ;

    /// The sum of all staked balances.
    fn get_total_stake(&self) -> (r: u128)
        ensures
            r == self.total_staked(),
    ;

    /// The time unit of the last accrual.
    fn get_last_block(&self) -> (r: u64)
        ensures
            r == self.checkpoint_time(),
    ;
}

/// The ledger state: the global scalars and the account store.
#[derive(Clone, Debug)]
pub struct RewardLedger {
    /// Reward units the whole pool earns per elapsed time unit; fixed at
    /// initialization.
    pub reward_speed: u128,
    /// Always equal to the sum of all account stakes.
    pub total_stake: u128,
    /// The last time unit at which any accrual ran; never decreases.
    pub last_checkpoint: u64,
    /// Which checkpoint the accrual procedure reads.
    pub mode: AccrualMode,
    /// All accounts that ever interacted, with distinct ids.
    pub accounts: Vec<Account>,
}

impl RewardLedger {
    /// `id`'s account (meaningful only when `has_account(id)` holds).
    pub open spec fn account_at(self, id: u64) -> Account {
        self.accounts@[id_slot(self.accounts@, id)]
    }

    /// Creates an empty ledger with the given reward speed and accrual
    /// policy.  Called once, before any other operation.
    pub fn new(reward_speed: u128, mode: AccrualMode) -> (s: RewardLedger)
        ensures
            s.wf(),
            s.reward_speed == reward_speed,
            s.mode == mode,
            s.total_stake == 0,
            s.last_checkpoint == 0,
            forall|id: u64| !s.has_account(id),
            forall|id: u64|
                s.stake_of(id) == 0 && s.rewards_of(id) == 0 && s.checkpoint_of(id) == 0,
    {
        RewardLedger {
            reward_speed,
            total_stake: 0,
            last_checkpoint: 0,
            mode,
            accounts: Vec::new(),
        }
    }

    /// Index of `id`'s account, if the identity has interacted before.
    fn find_index(&self, id: u64) -> (r: Option<usize>)
        ensures
            match r {
                Some(i) => i < self.accounts@.len() && self.accounts@[i as int].id == id,
                None => !has_id(self.accounts@, id),
            },
    {
        let mut i: usize = 0;
        while i < self.accounts.len()
            invariant
                i <= self.accounts@.len(),
                forall|j: int| 0 <= j < i ==> self.accounts@[j].id != id,
            decreases self.accounts@.len() - i,
        {
            if self.accounts[i].id == id {
                return Some(i);
            }
            i = i + 1;
        }
        None
    }

    /// Finds `id`'s account, materializing it with zero balances on the
    /// identity's first interaction, and returns its index.
    fn ensure_account(&mut self, id: u64) -> (i: usize)
        requires
            old(self).wf(),
        ensures
            final(self).wf(),
            final(self).reward_speed == old(self).reward_speed,
            final(self).mode == old(self).mode,
            final(self).total_stake == old(self).total_stake,
            final(self).last_checkpoint == old(self).last_checkpoint,
            i < final(self).accounts@.len(),
            final(self).accounts@[i as int].id == id,
            final(self).has_account(id),
            id_slot(final(self).accounts@, id) == i,
            final(self).accounts@[i as int].stake as int == old(self).stake_of(id),
            final(self).accounts@[i as int].pending_rewards as int == old(self).rewards_of(id),
            final(self).accounts@[i as int].last_accrual as int == old(self).checkpoint_of(id),
            forall|x: u64| #[trigger] final(self).stake_of(x) == old(self).stake_of(x),
            forall|x: u64| #[trigger] final(self).rewards_of(x) == old(self).rewards_of(x),
            forall|x: u64| #[trigger] final(self).checkpoint_of(x) == old(self).checkpoint_of(x),
            forall|x: u64|
                x != id ==> #[trigger] final(self).has_account(x) == old(self).has_account(x),
    {
        match self.find_index(id) {
            Some(i) => {
                proof {
                    lemma_slot_unique(self.accounts@, id, i as int);
                }
                i
            },
            None => {
                let i = self.accounts.len();
                let fresh = Account { id, stake: 0, pending_rewards: 0, last_accrual: 0 };
                proof {
                    lemma_push_preserves(self.accounts@, fresh);
                    lemma_sum_push(self.accounts@, fresh);
                }
                self.accounts.push(fresh);
                i
            },
        }
    }

    /// Index of `caller`'s account when it is known to exist.
    fn slot_of(&self, caller: u64) -> (idx: usize)
        requires
            self.wf(),
            self.has_account(caller),
        ensures
            idx < self.accounts@.len(),
            self.accounts@[idx as int].id == caller,
            id_slot(self.accounts@, caller) == idx,
    {
        match self.find_index(caller) {
            Some(i) => {
                proof {
                    lemma_slot_unique(self.accounts@, caller, i as int);
                }
                i
            },
            None => {
                proof {
                    assert(false);
                }
                0
            },
        }
    }

    /// Frame chaining: an update at the caller's slot after an accrual that
    /// started from `pre` leaves every other identity's view unchanged.
    proof fn lemma_frame_after_update(&self, mid: RewardLedger, pre: RewardLedger, caller: u64)
        requires
            distinct_ids(mid.accounts@),
            id_slot(mid.accounts@, caller) < mid.accounts@.len(),
            0 <= id_slot(mid.accounts@, caller),
            mid.accounts@[id_slot(mid.accounts@, caller)].id == caller,
            self.accounts@ == mid.accounts@.update(
                id_slot(mid.accounts@, caller),
                self.accounts@[id_slot(mid.accounts@, caller)],
            ),
            self.accounts@[id_slot(mid.accounts@, caller)].id == caller,
            forall|other: u64|
                other != caller ==> #[trigger] mid.stake_of(other) == pre.stake_of(other),
            forall|other: u64|
                other != caller ==> #[trigger] mid.rewards_of(other) == pre.rewards_of(other),
            forall|other: u64|
                other != caller ==> #[trigger] mid.checkpoint_of(other) == pre.checkpoint_of(other),
            forall|other: u64|
                other != caller ==> #[trigger] mid.has_account(other) == pre.has_account(other),
        ensures
            forall|other: u64|
                other != caller ==> #[trigger] self.stake_of(other) == pre.stake_of(other),
            forall|other: u64|
                other != caller ==> #[trigger] self.rewards_of(other) == pre.rewards_of(other),
            forall|other: u64|
                other != caller ==> #[trigger] self.checkpoint_of(other) == pre.checkpoint_of(other),
            forall|other: u64|
                other != caller ==> #[trigger] self.has_account(other) == pre.has_account(other),
    {
        let k = id_slot(mid.accounts@, caller);
        let a = self.accounts@[k];
        lemma_update_preserves(mid.accounts@, k, a);
        assert forall|other: u64| other != caller implies #[trigger] self.has_account(other)
            == pre.has_account(other) by {
            assert(mid.has_account(other) == pre.has_account(other));
            assert(has_id(self.accounts@, other) == has_id(mid.accounts@, other));
        }
        assert forall|other: u64| other != caller implies #[trigger] self.stake_of(other)
            == pre.stake_of(other) by {
            assert(mid.stake_of(other) == pre.stake_of(other));
            assert(has_id(self.accounts@, other) == has_id(mid.accounts@, other));
            if has_id(mid.accounts@, other) {
                assert(self.accounts@[id_slot(self.accounts@, other)] == mid.accounts@[id_slot(
                    mid.accounts@,
                    other,
                )]);
            }
        }
        assert forall|other: u64| other != caller implies #[trigger] self.rewards_of(other)
            == pre.rewards_of(other) by {
            assert(mid.rewards_of(other) == pre.rewards_of(other));
            assert(has_id(self.accounts@, other) == has_id(mid.accounts@, other));
            if has_id(mid.accounts@, other) {
                assert(self.accounts@[id_slot(self.accounts@, other)] == mid.accounts@[id_slot(
                    mid.accounts@,
                    other,
                )]);
            }
        }
        assert forall|other: u64| other != caller implies #[trigger] self.checkpoint_of(other)
            == pre.checkpoint_of(other) by {
            assert(mid.checkpoint_of(other) == pre.checkpoint_of(other));
            assert(has_id(self.accounts@, other) == has_id(mid.accounts@, other));
            if has_id(mid.accounts@, other) {
                assert(self.accounts@[id_slot(self.accounts@, other)] == mid.accounts@[id_slot(
                    mid.accounts@,
                    other,
                )]);
            }
        }
    }
}

impl StakingContract for RewardLedger {
    /// Well-formedness: ids are distinct, the recorded total is the sum of
    /// the stakes, and no per-account checkpoint is ahead of the global one.
    open spec fn wf(self) -> bool {
        &&& distinct_ids(self.accounts@)
        &&& self.total_stake as int == sum_stakes(self.accounts@)
        &&& forall|i: int|
            0 <= i < self.accounts@.len() ==> #[trigger] self.accounts@[i].last_accrual
                <= self.last_checkpoint
    }

    open spec fn has_account(self, id: u64) -> bool {
        has_id(self.accounts@, id)
    }

    open spec fn stake_of(self, id: u64) -> int {
        if self.has_account(id) {
            self.account_at(id).stake as int
        } else {
            0
        }
    }

    open spec fn rewards_of(self, id: u64) -> int {
        if self.has_account(id) {
            self.account_at(id).pending_rewards as int
        } else {
            0
        }
    }

    open spec fn checkpoint_of(self, id: u64) -> int {
        if self.has_account(id) {
            self.account_at(id).last_accrual as int
        } else {
            0
        }
    }

    open spec fn speed_of(self) -> u128 {
        self.reward_speed
    }

    open spec fn total_staked(self) -> u128 {
        self.total_stake
    }

    open spec fn checkpoint_time(self) -> u64 {
        self.last_checkpoint
    }

    open spec fn policy(self) -> AccrualMode {
        self.mode
    }

    open spec fn elapsed_for(self, id: u64, now: u64) -> int {
        match self.mode {
            AccrualMode::GlobalCheckpoint => now - self.last_checkpoint,
            AccrualMode::PerAccount => now - self.checkpoint_of(id),
        }
    }

    open spec fn accrual_share(self, id: u64, now: u64) -> int {
        share_amount(
            self.reward_speed as int,
            self.elapsed_for(id, now),
            self.stake_of(id),
            self.total_stake as int,
        )
    }

    fn init() -> (s: Self) {
        RewardLedger::new(DEFAULT_REWARD_SPEED, AccrualMode::GlobalCheckpoint)
    }

    fn update_rewards(&mut self, address: u64, current_time: u64) {
        let ghost pre = *old(self);
        let idx = self.ensure_account(address);
        let ghost mid = *self;
        let acct = self.accounts[idx];
        let last: u64 = match self.mode {
            AccrualMode::GlobalCheckpoint => self.last_checkpoint,
            AccrualMode::PerAccount => acct.last_accrual,
        };
        let delta: u64 = current_time - last;
        assert(delta as int == pre.elapsed_for(address, current_time));
        let share: u128;
        if acct.stake == 0 || self.total_stake == 0 {
            share = 0;
            proof {
                if pre.total_stake != 0 {
                    assert(pre.reward_speed * delta * 0int == 0);
                    lemma_div_of0(pre.total_stake as int);
                }
                assert(share as int == pre.accrual_share(address, current_time));
            }
        } else {
            proof {
                let speed = pre.reward_speed as int;
                let el = delta as int;
                let st = acct.stake as int;
                assert(speed * el <= speed * el * st) by (nonlinear_arith)
                    requires
                        speed >= 0,
                        el >= 0,
                        st >= 1,
                ;
            }
            let pool: u128 = self.reward_speed * (delta as u128);
            let scaled: u128 = pool * acct.stake;
            share = scaled / self.total_stake;
            assert(share as int == pre.accrual_share(address, current_time));
        }
        let new_rewards: u128 = acct.pending_rewards + share;
        let mut updated = acct;
        updated.pending_rewards = new_rewards;
        updated.last_accrual = current_time;
        proof {
            lemma_update_preserves(self.accounts@, idx as int, updated);
            lemma_sum_update(self.accounts@, idx as int, updated);
        }
        self.accounts[idx] = updated;
        self.last_checkpoint = current_time;
        proof {
            self.lemma_frame_after_update(mid, pre, address);
        }
    }

    fn stake(&mut self, caller: u64, amount: u128, current_time: u64) {
        let ghost pre = *old(self);
        self.update_rewards(caller, current_time);
        let ghost mid = *self;
        let idx = self.slot_of(caller);
        proof {
            lemma_element_le_sum(self.accounts@, idx as int);
        }
        let acct = self.accounts[idx];
        let mut updated = acct;
        updated.stake = acct.stake + amount;
        proof {
            lemma_update_preserves(self.accounts@, idx as int, updated);
            lemma_sum_update(self.accounts@, idx as int, updated);
        }
        self.accounts[idx] = updated;
        self.total_stake = self.total_stake + amount;
        proof {
            self.lemma_frame_after_update(mid, pre, caller);
        }
    }

    fn withdraw(&mut self, caller: u64, amount: u128, current_time: u64) -> (r: Result<
        u128,
        StakingError,
    >) {
        let current_stake: u128 = match self.find_index(caller) {
            Some(i) => {
                proof {
                    lemma_slot_unique(self.accounts@, caller, i as int);
                }
                self.accounts[i].stake
            },
            None => 0,
        };
        if amount > current_stake {
            return Err(StakingError::InsufficientStake);
        }
        let ghost pre = *old(self);
        self.update_rewards(caller, current_time);
        let ghost mid = *self;
        let idx = self.slot_of(caller);
        proof {
            lemma_element_le_sum(self.accounts@, idx as int);
        }
        let acct = self.accounts[idx];
        let mut updated = acct;
        updated.stake = acct.stake - amount;
        proof {
            lemma_update_preserves(self.accounts@, idx as int, updated);
            lemma_sum_update(self.accounts@, idx as int, updated);
        }
        self.accounts[idx] = updated;
        self.total_stake = self.total_stake - amount;
        proof {
            self.lemma_frame_after_update(mid, pre, caller);
        }
        Ok(amount)
    }

    fn claim_rewards(&mut self, caller: u64, current_time: u64) -> (r: u128) {
        let ghost pre = *old(self);
        self.update_rewards(caller, current_time);
        let ghost mid = *self;
        let idx = self.slot_of(caller);
        let acct = self.accounts[idx];
        let rewards = acct.pending_rewards;
        let mut updated = acct;
        updated.pending_rewards = 0;
        proof {
            lemma_update_preserves(self.accounts@, idx as int, updated);
            lemma_sum_update(self.accounts@, idx as int, updated);
        }
        self.accounts[idx] = updated;
        proof {
            self.lemma_frame_after_update(mid, pre, caller);
        }
        rewards
    }

    fn get_stake(&self, address: u64) -> (r: Option<u128>) {
        match self.find_index(address) {
            Some(i) => {
                proof {
                    lemma_slot_unique(self.accounts@, address, i as int);
                }
                Some(self.accounts[i].stake)
            },
            None => None,
        }
    }

    fn get_rewards(&self, address: u64) -> (r: Option<u128>) {
        match self.find_index(address) {
            Some(i) => {
                proof {
                    lemma_slot_unique(self.accounts@, address, i as int);
                }
                Some(self.accounts[i].pending_rewards)
            },
            None => None,
        }
    }

    fn get_global_reward_speed(&self) -> (r: u128) {
        self.reward_speed
    }

    fn get_total_stake(&self) -> (r: u128) {
        self.total_stake
    }

    fn get_last_block(&self) -> (r: u64) {
        self.last_checkpoint
    }
}

} // verus!
