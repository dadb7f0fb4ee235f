//! Laws that span whole sequences of ledger calls.

use vstd::prelude::*;

use crate::ledger::sat_add;
use crate::ledger::sat_sub;

verus! {

/// One call a single account can make against its own stake: staking a
/// deposit, or unstaking a requested amount.
pub enum UserCall {
    /// A stake call carrying this attached deposit.
    Stake(u128),
    /// An unstake call requesting this amount.
    Unstake(u128),
}

/// The account's stored balance after a sequence of calls, starting from
/// `start`. Each stake credits its deposit and each unstake debits its
/// requested amount, both saturating — exactly how the `ensures` of
/// `StakingContract::stake` and `StakingContract::unstake` move `staked` for
/// the calling account.
pub open spec fn balance_after(start: u128, calls: Seq<UserCall>) -> u128
    decreases calls.len(),
{
    if calls.len() == 0 {
        start
    } else {
        let before = balance_after(start, calls.drop_last());
        match calls.last() {
            UserCall::Stake(deposit) => sat_add(before, deposit),
            UserCall::Unstake(amount) => sat_sub(before, amount),
        }
    }
}

/// The sum of all deposits staked over a sequence of calls.
pub open spec fn deposits_sum(calls: Seq<UserCall>) -> int
    decreases calls.len(),
{
    if calls.len() == 0 {
        0
    } else {
        deposits_sum(calls.drop_last()) + (match calls.last() {
            UserCall::Stake(deposit) => deposit as int,
            UserCall::Unstake(_) => 0,
        })
    }
}

/// However a single account interleaves stake and unstake calls, its stored
/// balance never drops below zero — unstaking saturates at zero — and never
/// exceeds its starting balance plus the sum of everything it deposited
/// (staking saturates at the type's maximum rather than exceeding it).
pub proof fn lemma_user_balance_bounded(start: u128, calls: Seq<UserCall>)
    ensures
        0 <= balance_after(start, calls) <= start + deposits_sum(calls),
    decreases calls.len(),
{
    if calls.len() > 0 {
        lemma_user_balance_bounded(start, calls.drop_last());
    }
}

} // verus!
