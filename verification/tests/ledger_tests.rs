use staking::ledger::{AccrualMode, RewardLedger, StakingContract, StakingError};

// A lone staker earns the whole pool: stake 1000 at time 0, claim at time
// 10 with reward speed 300000 per time unit: 300000 * 10 * 1000 / 1000.
#[test]
fn single_staker_earns_full_pool() {
    let mut c = RewardLedger::init();
    c.stake(1, 1000, 0);
    let reward = c.claim_rewards(1, 10);
    assert_eq!(reward, 3_000_000);
}

// Under the global checkpoint policy the first claim of a time unit takes
// its share and advances the checkpoint, so a claim served second in the
// same time unit earns nothing for that window.
#[test]
fn global_checkpoint_claims_are_order_sensitive() {
    let mut c = RewardLedger::init();
    c.stake(1, 1000, 0);
    c.stake(2, 1000, 0);
    let first = c.claim_rewards(1, 10);
    assert_eq!(first, 1_500_000);
    let second = c.claim_rewards(2, 10);
    assert_eq!(second, 0);
}

// Under the per-account checkpoint policy both stakers of an identical
// position receive the same share regardless of claim order.
#[test]
fn per_account_checkpoint_splits_fairly() {
    let mut c = RewardLedger::new(300_000, AccrualMode::PerAccount);
    c.stake(1, 1000, 0);
    c.stake(2, 1000, 0);
    let first = c.claim_rewards(1, 10);
    assert_eq!(first, 1_500_000);
    let second = c.claim_rewards(2, 10);
    assert_eq!(second, 1_500_000);
}

// Withdrawing more than the staked balance fails with InsufficientStake
// and leaves every balance and the checkpoint unchanged.
#[test]
fn overdraw_fails_and_changes_nothing() {
    let mut c = RewardLedger::init();
    c.stake(7, 500, 0);
    let r = c.withdraw(7, 501, 3);
    assert_eq!(r, Err(StakingError::InsufficientStake));
    assert_eq!(c.get_stake(7), Some(500));
    assert_eq!(c.get_total_stake(), 500);
    assert_eq!(c.get_rewards(7), Some(0));
    assert_eq!(c.get_last_block(), 0);
}

// A withdrawal of at most the staked balance succeeds and lowers the
// caller's stake and the total stake by exactly the amount.
#[test]
fn withdraw_within_balance_succeeds() {
    let mut c = RewardLedger::init();
    c.stake(7, 500, 0);
    let r = c.withdraw(7, 500, 0);
    assert_eq!(r, Ok(500));
    assert_eq!(c.get_stake(7), Some(0));
    assert_eq!(c.get_total_stake(), 0);
    let again = c.withdraw(7, 1, 0);
    assert_eq!(again, Err(StakingError::InsufficientStake));
}

// A zero-amount stake is accepted: balances are untouched but the accrual
// checkpoint still advances for that call.
#[test]
fn zero_stake_advances_checkpoint_only() {
    let mut c = RewardLedger::init();
    c.stake(1, 0, 7);
    assert_eq!(c.get_stake(1), Some(0));
    assert_eq!(c.get_total_stake(), 0);
    assert_eq!(c.get_rewards(1), Some(0));
    assert_eq!(c.get_last_block(), 7);
}

// Claiming twice with zero elapsed time between the calls yields zero on
// the second claim.
#[test]
fn second_claim_with_no_elapsed_time_pays_nothing() {
    let mut c = RewardLedger::init();
    c.stake(1, 1000, 0);
    let first = c.claim_rewards(1, 10);
    assert_eq!(first, 3_000_000);
    let second = c.claim_rewards(1, 10);
    assert_eq!(second, 0);
}

// The reward division truncates toward zero: 7 * 1 * 3 / 10 = 2, and the
// lost fraction is never credited to anyone.
#[test]
fn reward_division_truncates() {
    let mut c = RewardLedger::new(7, AccrualMode::GlobalCheckpoint);
    c.stake(1, 3, 0);
    c.stake(2, 7, 0);
    let reward = c.claim_rewards(1, 1);
    assert_eq!(reward, 2);
}

// Across a mixed sequence of operations the recorded total stake always
// equals the sum of the individual stakes, no reported value is ever
// negative (they are unsigned), and the checkpoint never decreases.
#[test]
fn total_matches_sum_and_checkpoint_is_monotone() {
    let mut c = RewardLedger::init();
    let ids = [1u64, 2, 3];
    let mut last_block = c.get_last_block();
    let steps: [(u8, u64, u128, u64); 8] = [
        (0, 1, 400, 1),
        (0, 2, 250, 2),
        (1, 1, 150, 2),
        (0, 3, 0, 4),
        (2, 2, 0, 5),
        (1, 3, 999, 5),
        (0, 1, 1, 6),
        (2, 1, 0, 9),
    ];
    for (op, id, amount, time) in steps {
        match op {
            0 => c.stake(id, amount, time),
            1 => {
                let _ = c.withdraw(id, amount, time);
            }
            _ => {
                let _ = c.claim_rewards(id, time);
            }
        }
        let sum: u128 = ids.iter().map(|i| c.get_stake(*i).unwrap_or(0)).sum();
        assert_eq!(c.get_total_stake(), sum);
        assert!(c.get_last_block() >= last_block);
        last_block = c.get_last_block();
    }
}

// Queries on a freshly initialized ledger: the global slots are set, and
// identities that never interacted are absent.
#[test]
fn fresh_ledger_queries() {
    let c = RewardLedger::init();
    assert_eq!(c.get_global_reward_speed(), 300_000);
    assert_eq!(c.get_total_stake(), 0);
    assert_eq!(c.get_last_block(), 0);
    assert_eq!(c.get_stake(42), None);
    assert_eq!(c.get_rewards(42), None);
}

// The accrual procedure alone materializes the account and advances the
// checkpoint, crediting nothing to an empty pool.
#[test]
fn accrual_materializes_account() {
    let mut c = RewardLedger::init();
    c.update_rewards(5, 8);
    assert_eq!(c.get_stake(5), Some(0));
    assert_eq!(c.get_rewards(5), Some(0));
    assert_eq!(c.get_last_block(), 8);
}
