use staking_ledger::AccountId;
use staking_ledger::StakeError;
use staking_ledger::StakingContract;

fn account(name: &str) -> AccountId {
    AccountId::from_bytes(name.as_bytes().to_vec())
}

#[test]
fn new_starts_empty() {
    let owner = account("owner.near");
    let alice = account("alice.near");
    let c = StakingContract::new(&owner);
    assert_eq!(c.get_total_staked(), 0);
    assert_eq!(c.get_user_staked(&owner), 0);
    assert_eq!(c.get_user_staked(&alice), 0);
}

#[test]
fn stake_credits_balance_and_total() {
    let owner = account("owner.near");
    let alice = account("alice.near");
    let mut c = StakingContract::new(&owner);
    let balance = c.stake(&alice, 100);
    assert_eq!(balance, 100);
    assert_eq!(c.get_user_staked(&alice), 100);
    assert_eq!(c.get_total_staked(), 100);
}

#[test]
fn stake_accumulates_per_account() {
    let owner = account("owner.near");
    let alice = account("alice.near");
    let bob = account("bob.near");
    let mut c = StakingContract::new(&owner);
    assert_eq!(c.stake(&alice, 100), 100);
    assert_eq!(c.stake(&bob, 30), 30);
    assert_eq!(c.stake(&alice, 50), 150);
    assert_eq!(c.get_user_staked(&alice), 150);
    assert_eq!(c.get_user_staked(&bob), 30);
    assert_eq!(c.get_total_staked(), 180);
}

#[test]
fn stake_saturates_at_the_maximum() {
    let owner = account("owner.near");
    let alice = account("alice.near");
    let mut c = StakingContract::new(&owner);
    assert_eq!(c.stake(&alice, u128::MAX), u128::MAX);
    assert_eq!(c.stake(&alice, 1), u128::MAX);
    assert_eq!(c.get_user_staked(&alice), u128::MAX);
    assert_eq!(c.get_total_staked(), u128::MAX);
}

#[test]
fn unstake_part_of_the_balance_sends_that_amount() {
    let owner = account("owner.near");
    let alice = account("alice.near");
    let mut c = StakingContract::new(&owner);
    c.stake(&alice, 100);
    let transfer = c.unstake(&alice, 40).unwrap().unwrap();
    assert!(transfer.to.same_as(&alice));
    assert_eq!(transfer.amount, 40);
    assert_eq!(c.get_user_staked(&alice), 60);
    assert_eq!(c.get_total_staked(), 60);
}

#[test]
fn unstake_beyond_the_balance_sends_the_prior_balance() {
    let owner = account("owner.near");
    let alice = account("alice.near");
    let mut c = StakingContract::new(&owner);
    c.stake(&alice, 100);
    let transfer = c.unstake(&alice, 150).unwrap().unwrap();
    assert_eq!(transfer.amount, 100);
    assert!(transfer.to.same_as(&alice));
    assert_eq!(c.get_user_staked(&alice), 0);
    assert_eq!(c.get_total_staked(), 0);
}

#[test]
fn unstake_exactly_the_balance_sends_it_all() {
    let owner = account("owner.near");
    let alice = account("alice.near");
    let mut c = StakingContract::new(&owner);
    c.stake(&alice, 100);
    let transfer = c.unstake(&alice, 100).unwrap().unwrap();
    assert_eq!(transfer.amount, 100);
    assert_eq!(c.get_user_staked(&alice), 0);
}

#[test]
fn unstake_zero_is_rejected_and_changes_nothing() {
    let owner = account("owner.near");
    let alice = account("alice.near");
    let mut c = StakingContract::new(&owner);
    c.stake(&alice, 100);
    let r = c.unstake(&alice, 0);
    assert_eq!(r.unwrap_err(), StakeError::ZeroAmount);
    assert_eq!(c.get_user_staked(&alice), 100);
    assert_eq!(c.get_total_staked(), 100);
}

#[test]
fn unstake_without_an_entry_reports_no_transfer() {
    let owner = account("owner.near");
    let alice = account("alice.near");
    let mut c = StakingContract::new(&owner);
    let r = c.unstake(&alice, 10).unwrap();
    assert!(r.is_none());
    assert_eq!(c.get_total_staked(), 0);
}

#[test]
fn zeroed_entry_still_matches_and_transfers_zero() {
    let owner = account("owner.near");
    let alice = account("alice.near");
    let mut c = StakingContract::new(&owner);
    assert_eq!(c.stake(&alice, 100), 100);
    assert_eq!(c.get_total_staked(), 100);
    let first = c.unstake(&alice, 150).unwrap().unwrap();
    assert_eq!(first.amount, 100);
    assert_eq!(c.get_user_staked(&alice), 0);
    assert_eq!(c.get_total_staked(), 0);
    // The zeroed entry is still present, so a further unstake matches it and
    // pays the whole remaining balance: nothing.
    let second = c.unstake(&alice, 1).unwrap();
    let transfer = second.expect("the zeroed entry still matches");
    assert!(transfer.to.same_as(&alice));
    assert_eq!(transfer.amount, 0);
    assert_eq!(c.get_user_staked(&alice), 0);
    assert_eq!(c.get_total_staked(), 0);
}

#[test]
fn initialize_fills_the_slot_once() {
    let first = account("owner.near");
    let second = account("intruder.near");
    let mut slot: Option<StakingContract> = None;
    assert!(StakingContract::initialize(&mut slot, &first).is_ok());
    let r = StakingContract::initialize(&mut slot, &second);
    assert_eq!(r.unwrap_err(), StakeError::AlreadyInitialized);
    // The slot still holds the first caller's ledger: only the first caller
    // passes the airdrop owner check.
    let c = slot.as_mut().unwrap();
    assert_eq!(c.airdrop(&second, 1).unwrap_err(), StakeError::NotOwner);
    assert!(c.airdrop(&first, 1).is_ok());
}

#[test]
fn airdrop_by_anyone_but_the_owner_is_rejected() {
    let owner = account("owner.near");
    let alice = account("alice.near");
    let mut c = StakingContract::new(&owner);
    c.stake(&alice, 100);
    let r = c.airdrop(&alice, 10);
    assert_eq!(r.unwrap_err(), StakeError::NotOwner);
    assert_eq!(c.get_user_staked(&alice), 100);
    assert_eq!(c.get_total_staked(), 100);
}

#[test]
fn airdrop_reaches_every_recorded_account() {
    let owner = account("owner.near");
    let alice = account("alice.near");
    let bob = account("bob.near");
    let mut c = StakingContract::new(&owner);
    c.stake(&alice, 100);
    c.stake(&bob, 50);
    // Zero alice's balance out; her entry must still receive the airdrop.
    c.unstake(&alice, 100).unwrap().unwrap();
    assert_eq!(c.get_user_staked(&alice), 0);
    let transfers = c.airdrop(&owner, 7).unwrap();
    assert_eq!(transfers.len(), 2);
    assert!(transfers[0].to.same_as(&alice));
    assert_eq!(transfers[0].amount, 7);
    assert!(transfers[1].to.same_as(&bob));
    assert_eq!(transfers[1].amount, 7);
    // The airdrop itself touches no ledger state.
    assert_eq!(c.get_user_staked(&alice), 0);
    assert_eq!(c.get_user_staked(&bob), 50);
    assert_eq!(c.get_total_staked(), 50);
}

#[test]
fn account_ids_compare_by_contents() {
    let a = account("alice.near");
    let b = account("alice.near");
    let d = account("bob.near");
    assert!(a.same_as(&b));
    assert!(!a.same_as(&d));
    let copy = a.duplicate();
    assert!(copy.same_as(&a));
    assert_eq!(b.into_bytes(), "alice.near".as_bytes().to_vec());
}

#[test]
fn interleaved_calls_never_exceed_the_deposits() {
    let owner = account("owner.near");
    let alice = account("alice.near");
    let mut c = StakingContract::new(&owner);
    assert_eq!(c.stake(&alice, 50), 50);
    c.unstake(&alice, 20).unwrap().unwrap();
    assert_eq!(c.get_user_staked(&alice), 30);
    assert_eq!(c.stake(&alice, 30), 60);
    assert!(c.get_user_staked(&alice) <= 80);
    let transfer = c.unstake(&alice, 100).unwrap().unwrap();
    assert_eq!(transfer.amount, 60);
    assert_eq!(c.get_user_staked(&alice), 0);
}

#[test]
fn total_matches_the_sum_when_unstakes_stay_within_balances() {
    let owner = account("owner.near");
    let alice = account("alice.near");
    let bob = account("bob.near");
    let mut c = StakingContract::new(&owner);
    c.stake(&alice, 70);
    c.stake(&bob, 30);
    c.unstake(&alice, 20).unwrap().unwrap();
    c.unstake(&bob, 30).unwrap().unwrap();
    let sum = c.get_user_staked(&alice) + c.get_user_staked(&bob);
    assert_eq!(c.get_total_staked(), sum);
    assert_eq!(c.get_total_staked(), 50);
}
