//! The staking ledger: one owner, a balance per staking account, and a
//! running total, all updated with saturating arithmetic.

use vstd::prelude::*;

use crate::account::AccountId;

verus! {

/// Saturating addition on 128-bit amounts: clamps at the maximum instead of
/// overflowing.
pub open spec fn sat_add(a: u128, b: u128) -> u128 {
    if a + b > u128::MAX {
        u128::MAX
    } else {
        (a + b) as u128
    }
}

/// Saturating subtraction on 128-bit amounts: clamps at zero instead of
/// underflowing.
pub open spec fn sat_sub(a: u128, b: u128) -> u128 {
    if a < b {
        0u128
    } else {
        (a - b) as u128
    }
}

/// What `unstake` pays out of a stored balance: the whole balance when the
/// requested amount reaches or exceeds it (the request drives the balance to
/// zero), and exactly the requested amount otherwise.
pub open spec fn unstake_payout(balance: u128, amount: u128) -> u128 {
    if amount >= balance {
        balance
    } else {
        amount
    }
}

/// The sum of a sequence of staked amounts, as an unbounded integer.
pub open spec fn stake_sum(s: Seq<u128>) -> int
    decreases s.len(),
{
    if s.len() == 0 {
        0
    } else {
        stake_sum(s.drop_last()) + s.last()
    }
}

/// Why a call was rejected. A rejected call leaves the ledger unchanged and
/// performs no transfer.
#[derive(Clone, Copy, Debug, PartialEq, Eq, Structural)]
pub enum StakeError {
    /// `unstake` was asked to withdraw nothing.
    ZeroAmount,
    /// A ledger already exists; it is created exactly once.
    AlreadyInitialized,
    /// `airdrop` was called by somebody other than the owner.
    NotOwner,
}

/// A native-currency payment the host must perform on the ledger's behalf.
#[derive(Debug)]
pub struct Transfer {
    /// The receiving account.
    pub to: AccountId,
    /// The amount to send.
    pub amount: u128,
}

/// The staking ledger.
///
/// Its abstract state is the owner's identifier, the sequence of staker
/// identifiers in order of first stake (`stake_keys`), the balance of each
/// (`balances`), and the running total (`total`). An account that once staked
/// keeps its entry forever, even at balance zero.
pub struct StakingContract {
    owner: AccountId,
    stake_accounts: Vec<AccountId>,
    stake_amounts: Vec<u128>,
    total_staked: u128,
}

impl StakingContract {
    /// The owner's identifier.
    pub closed spec fn owner_id(self) -> Seq<u8> {
        self.owner@
    }

    /// The identifiers of all accounts that ever staked, in order of first
    /// stake.
    pub closed spec fn stake_keys(self) -> Seq<Seq<u8>> {
        self.stake_accounts@.map_values(|a: AccountId| a@)
    }

    /// The stored balances, in the same order as `stake_keys`.
    pub closed spec fn amounts(self) -> Seq<u128> {
        self.stake_amounts@
    }

    /// The running total of staked funds.
    pub closed spec fn total(self) -> u128 {
        self.total_staked
    }

    /// The stored balances as a map from identifier to amount.
    pub open spec fn balances(self) -> Map<Seq<u8>, u128> {
        Map::new(
            |k: Seq<u8>| self.stake_keys().contains(k),
            |k: Seq<u8>| self.amounts()[self.stake_keys().index_of(k)],
        )
    }

    /// The balance the ledger reports for `k`: the stored amount, or zero for
    /// an account that never staked.
    pub open spec fn staked(self, k: Seq<u8>) -> u128 {
        if self.stake_keys().contains(k) {
            self.balances()[k]
        } else {
            0u128
        }
    }

    /// Well-formedness: one balance per key, and no key twice.
    pub open spec fn wf(self) -> bool {
        &&& self.stake_keys().len() == self.amounts().len()
        &&& forall|i: int, j: int|
            0 <= i < j < self.stake_keys().len() ==> self.stake_keys()[i] != self.stake_keys()[j]
    }

    /// The accounting invariant: the running total equals the sum of all
    /// stored balances.
    pub open spec fn accounted(self) -> bool {
        self.total() == stake_sum(self.amounts())
    }

    /// Constructs the ledger: `caller` becomes the owner, no balances, zero
    /// total.
    pub fn new(caller: &AccountId) -> (r: StakingContract)
        ensures
            r.wf(),
            r.accounted(),
            r.owner_id() == caller@,
            r.stake_keys() == Seq::<Seq<u8>>::empty(),
            r.amounts() == Seq::<u128>::empty(),
            r.balances() == Map::<Seq<u8>, u128>::empty(),
            r.total() == 0,
    {
        let c = StakingContract {
            owner: caller.duplicate(),
            stake_accounts: Vec::new(),
            stake_amounts: Vec::new(),
            total_staked: 0,
        };
        proof {
            assert(c.stake_keys() =~= Seq::<Seq<u8>>::empty());
            assert(c.balances() =~= Map::<Seq<u8>, u128>::empty());
        }
        c
    }

    /// The running total of staked funds.
    pub fn get_total_staked(&self) -> (r: u128)
        ensures
            r == self.total(),
    {
        self.total_staked
    }

    /// The balance stored for `caller`, or zero if `caller` never staked.
    pub fn get_user_staked(&self, caller: &AccountId) -> (r: u128)
        requires
            self.wf(),
        ensures
            r == self.staked(caller@),
    {
        match self.find_staker(caller) {
            Some(i) => {
                proof {
                    self.lemma_balance_at(i as int);
                }
                self.stake_amounts[i]
            },
            None => 0,
        }
    }

    /// Looks the caller's entry up: the index of its key, if it has one.
    fn find_staker(&self, user: &AccountId) -> (r: Option<usize>)
        requires
            self.wf(),
        ensures
            (match r {
                Some(i) => i < self.stake_keys().len() && self.stake_keys()[i as int] == user@,
                None => !self.stake_keys().contains(user@),
            }),
    {
        let mut i: usize = 0;
        while i < self.stake_accounts.len()
            invariant
                self.wf(),
                i <= self.stake_accounts@.len(),
                forall|j: int| 0 <= j < i ==> self.stake_keys()[j] != user@,
            decreases self.stake_accounts@.len() - i,
        {
            if self.stake_accounts[i].same_as(user) {
                return Some(i);
            }
            i = i + 1;
        }
        None
    }

    /// With distinct keys, the chosen index of the key at `i` is `i` itself.
    proof fn lemma_index_of_key(self, i: int)
        requires
            self.wf(),
            0 <= i < self.stake_keys().len(),
        ensures
            self.stake_keys().index_of(self.stake_keys()[i]) == i,
    {
        let keys = self.stake_keys();
        let k = keys[i];
        assert(keys.contains(k));
        let j = keys.index_of(k);
        assert(0 <= j < keys.len() && keys[j] == k);
        if i < j {
            assert(keys[i] != keys[j]);
        }
        if j < i {
            assert(keys[j] != keys[i]);
        }
    }

    /// The balance map agrees with the stored amount at every index.
    proof fn lemma_balance_at(self, i: int)
        requires
            self.wf(),
            0 <= i < self.stake_keys().len(),
        ensures
            self.stake_keys().contains(self.stake_keys()[i]),
            self.balances()[self.stake_keys()[i]] == self.amounts()[i],
            self.staked(self.stake_keys()[i]) == self.amounts()[i],
    {
        self.lemma_index_of_key(i);
    }

    /// Overwriting one stored amount rewrites exactly that key's balance.
    proof fn lemma_set_amount(pre: StakingContract, post: StakingContract, i: int, v: u128)
        requires
            pre.wf(),
            0 <= i < pre.stake_keys().len(),
            post.stake_keys() == pre.stake_keys(),
            post.amounts() == pre.amounts().update(i, v),
        ensures
            post.wf(),
            post.balances() == pre.balances().insert(pre.stake_keys()[i], v),
            post.staked(pre.stake_keys()[i]) == v,
    {
        let keys = pre.stake_keys();
        let k = keys[i];
        pre.lemma_index_of_key(i);
        post.lemma_index_of_key(i);
        assert forall|k2: Seq<u8>| #[trigger] keys.contains(k2) implies post.balances()[k2]
            == pre.balances().insert(k, v)[k2] by {
            let j = keys.index_of(k2);
            assert(0 <= j < keys.len() && keys[j] == k2);
            if k2 == k {
                pre.lemma_index_of_key(i);
            } else {
                assert(j != i);
            }
        }
        assert(post.balances() =~= pre.balances().insert(k, v));
    }

    /// Appending a fresh key and amount adds exactly that entry.
    proof fn lemma_push_entry(pre: StakingContract, post: StakingContract, k: Seq<u8>, v: u128)
        requires
            pre.wf(),
            !pre.stake_keys().contains(k),
            post.stake_keys() == pre.stake_keys().push(k),
            post.amounts() == pre.amounts().push(v),
        ensures
            post.wf(),
            post.balances() == pre.balances().insert(k, v),
            post.staked(k) == v,
    {
        let keys = pre.stake_keys();
        let n = keys.len() as int;
        assert(post.stake_keys()[n] == k);
        assert forall|i: int, j: int|
            0 <= i < j < post.stake_keys().len() implies post.stake_keys()[i]
            != post.stake_keys()[j] by {
            if j == n {
                assert(keys.contains(keys[i]));
            }
        }
        assert(post.wf());
        post.lemma_index_of_key(n);
        assert(post.staked(k) == v);
        assert forall|k2: Seq<u8>| #[trigger] post.stake_keys().contains(k2) implies post.balances()[k2]
            == pre.balances().insert(k, v)[k2] by {
            let j = post.stake_keys().index_of(k2);
            assert(0 <= j < post.stake_keys().len() && post.stake_keys()[j] == k2);
            if k2 == k {
                post.lemma_index_of_key(j);
            } else {
                assert(j < n);
                assert(keys[j] == k2);
                assert(keys.contains(k2));
                let j2 = keys.index_of(k2);
                assert(0 <= j2 < keys.len() && keys[j2] == k2);
                if j < j2 {
                    assert(keys[j] != keys[j2]);
                }
                if j2 < j {
                    assert(keys[j2] != keys[j]);
                }
                assert(pre.balances()[k2] == pre.amounts()[j]);
            }
        }
        assert forall|k2: Seq<u8>| pre.stake_keys().contains(k2) || k2 == k implies #[trigger] post.stake_keys().contains(
            k2,
        ) by {
            if k2 == k {
                assert(post.stake_keys()[n] == k2);
            } else {
                let j2 = keys.index_of(k2);
                assert(0 <= j2 < keys.len() && keys[j2] == k2);
                assert(post.stake_keys()[j2] == k2);
            }
        }
        assert(post.balances() =~= pre.balances().insert(k, v));
    }

    /// Stakes `deposit` for `caller`: credits it to the caller's balance and
    /// to the running total, both saturating, and returns the new balance. An
    /// account staking for the first time gets a fresh entry, appended after
    /// all earlier stakers.
    ///
    /// The deposit itself is already held by the contract's account by virtue
    /// of the call mechanism, so no transfer is owed.
    pub fn stake(&mut self, caller: &AccountId, deposit: u128) -> (r: u128)
        requires
            old(self).wf(),
        ensures
            final(self).wf(),
            final(self).owner_id() == old(self).owner_id(),
            r == sat_add(old(self).staked(caller@), deposit),
            final(self).staked(caller@) == r,
            final(self).balances() == old(self).balances().insert(
                caller@,
                sat_add(old(self).staked(caller@), deposit),
            ),
            final(self).stake_keys() == (if old(self).stake_keys().contains(caller@) {
                old(self).stake_keys()
            } else {
                old(self).stake_keys().push(caller@)
            }),
            final(self).total() == sat_add(old(self).total(), deposit),
            old(self).accounted() && old(self).total() + deposit <= u128::MAX
                ==> final(self).accounted(),
    {
        match self.find_staker(caller) {
            Some(i) => {
                proof {
                    old(self).lemma_balance_at(i as int);
                }
                let balance = self.stake_amounts[i];
                let new_balance = balance.saturating_add(deposit);
                self.stake_amounts[i] = new_balance;
                self.total_staked = self.total_staked.saturating_add(deposit);
                proof {
                    StakingContract::lemma_set_amount(*old(self), *self, i as int, new_balance);
                    if old(self).accounted() && old(self).total() + deposit <= u128::MAX {
                        lemma_stake_sum_le(old(self).amounts(), i as int);
                        lemma_stake_sum_update(
                            old(self).amounts(),
                            i as int,
                            new_balance,
                        );
                    }
                }
                new_balance
            },
            None => {
                let new_balance = deposit;
                self.stake_accounts.push(caller.duplicate());
                self.stake_amounts.push(new_balance);
                self.total_staked = self.total_staked.saturating_add(deposit);
                proof {
                    assert(self.stake_keys() =~= old(self).stake_keys().push(caller@));
                    StakingContract::lemma_push_entry(*old(self), *self, caller@, new_balance);
                    assert(self.amounts().drop_last() =~= old(self).amounts());
                }
                new_balance
            },
        }
    }

    /// Withdraws `amount` from the caller's stake. A zero `amount` is
    /// rejected outright and an account without an entry gets `Ok(None)`;
    /// both leave the ledger untouched. Otherwise the stored balance and the
    /// running total each shrink by `amount`, saturating at zero, and the
    /// caller is owed one transfer:
    /// the whole prior balance when the balance was driven to zero (however
    /// large `amount` was), and exactly `amount` when some balance remains.
    /// The entry itself stays, even at zero.
    pub fn unstake(&mut self, caller: &AccountId, amount: u128) -> (r: Result<Option<Transfer>, StakeError>)
        requires
            old(self).wf(),
        ensures
            final(self).wf(),
            final(self).owner_id() == old(self).owner_id(),
            final(self).stake_keys() == old(self).stake_keys(),
            amount == 0
                ==> r == Err::<Option<Transfer>, StakeError>(StakeError::ZeroAmount),
            amount == 0 ==> *final(self) == *old(self),
            amount > 0 && !old(self).stake_keys().contains(caller@)
                ==> r == Ok::<Option<Transfer>, StakeError>(None),
            amount > 0 && !old(self).stake_keys().contains(caller@)
                ==> *final(self) == *old(self),
            amount > 0 && old(self).stake_keys().contains(caller@)
                ==> (r matches Ok(Some(p)) && p.to@ == caller@
                    && p.amount == unstake_payout(old(self).staked(caller@), amount)),
            amount > 0 && old(self).stake_keys().contains(caller@)
                ==> final(self).balances()
                    == old(self).balances().insert(caller@, sat_sub(old(self).staked(caller@), amount)),
            amount > 0 && old(self).stake_keys().contains(caller@)
                ==> final(self).staked(caller@) == sat_sub(old(self).staked(caller@), amount),
            amount > 0 && old(self).stake_keys().contains(caller@)
                ==> final(self).total() == sat_sub(old(self).total(), amount),
            amount >= old(self).staked(caller@) && amount > 0
                && old(self).stake_keys().contains(caller@)
                ==> (r matches Ok(Some(p)) && p.amount == old(self).staked(caller@))
                    && final(self).staked(caller@) == 0,
            0 < amount < old(self).staked(caller@)
                ==> (r matches Ok(Some(p)) && p.amount == amount)
                    && final(self).staked(caller@) == old(self).staked(caller@) - amount,
            old(self).accounted() && amount <= old(self).staked(caller@)
                ==> final(self).accounted(),
    {
        if amount == 0 {
            return Err(StakeError::ZeroAmount);
        }
        match self.find_staker(caller) {
            Some(i) => {
                proof {
                    old(self).lemma_balance_at(i as int);
                }
                let balance = self.stake_amounts[i];
                let new_balance = balance.saturating_sub(amount);
                self.stake_amounts[i] = new_balance;
                self.total_staked = self.total_staked.saturating_sub(amount);
                let payout = if new_balance == 0 {
                    balance
                } else {
                    amount
                };
                proof {
                    StakingContract::lemma_set_amount(*old(self), *self, i as int, new_balance);
                    if old(self).accounted() && amount <= old(self).staked(caller@) {
                        lemma_stake_sum_le(old(self).amounts(), i as int);
                        lemma_stake_sum_update(old(self).amounts(), i as int, new_balance);
                    }
                }
                Ok(Some(Transfer { to: caller.duplicate(), amount: payout }))
            },
            None => Ok(None),
        }
    }

    /// Fans `amount` out to every account that ever staked, in order of first
    /// stake and regardless of current balance — zero-balance entries
    /// included. Only the owner may call it; anybody else is rejected. The
    /// ledger itself (balances and total alike) is left untouched either way.
    pub fn airdrop(&mut self, caller: &AccountId, amount: u128) -> (r: Result<Vec<Transfer>, StakeError>)
        requires
            old(self).wf(),
        ensures
            *final(self) == *old(self),
            caller@ != old(self).owner_id()
                ==> r == Err::<Vec<Transfer>, StakeError>(StakeError::NotOwner),
            caller@ == old(self).owner_id()
                ==> (r matches Ok(ts) && ts@.len() == old(self).stake_keys().len()
                    && (forall|i: int| 0 <= i < ts@.len()
                        ==> (#[trigger] ts@[i]).to@ == old(self).stake_keys()[i]
                            && ts@[i].amount == amount)),
    {
        if !caller.same_as(&self.owner) {
            return Err(StakeError::NotOwner);
        }
        let mut transfers: Vec<Transfer> = Vec::new();
        let mut i: usize = 0;
        while i < self.stake_accounts.len()
            invariant
                i <= self.stake_accounts@.len(),
                transfers@.len() == i,
                forall|j: int|
                    0 <= j < i ==> (#[trigger] transfers@[j]).to@ == self.stake_keys()[j]
                        && transfers@[j].amount == amount,
            decreases self.stake_accounts@.len() - i,
        {
            transfers.push(Transfer { to: self.stake_accounts[i].duplicate(), amount: amount });
            i = i + 1;
        }
        Ok(transfers)
    }

    /// Creates the ledger in the host's storage slot, once. The first call
    /// fills the slot with a fresh ledger owned by `caller`; any later call
    /// is rejected and leaves the slot untouched.
    pub fn initialize(slot: &mut Option<StakingContract>, caller: &AccountId) -> (r: Result<(), StakeError>)
        ensures
            (*old(slot)) is Some
                ==> r == Err::<(), StakeError>(StakeError::AlreadyInitialized),
            (*old(slot)) is Some ==> *final(slot) == *old(slot),
            (*old(slot)) is None ==> r == Ok::<(), StakeError>(()),
            (*old(slot)) is None
                ==> (*final(slot) matches Some(c) && c.wf() && c.accounted()
                    && c.owner_id() == caller@
                    && c.stake_keys() == Seq::<Seq<u8>>::empty()
                    && c.balances() == Map::<Seq<u8>, u128>::empty()
                    && c.total() == 0),
    {
        match slot {
            Some(_) => Err(StakeError::AlreadyInitialized),
            None => {
                *slot = Some(StakingContract::new(caller));
                Ok(())
            },
        }
    }
}

/// The sum of stored amounts is never negative.
proof fn lemma_stake_sum_nonneg(s: Seq<u128>)
    ensures
        stake_sum(s) >= 0,
    decreases s.len(),
{
    if s.len() > 0 {
        lemma_stake_sum_nonneg(s.drop_last());
    }
}

/// Every stored amount is at most the sum of all of them.
proof fn lemma_stake_sum_le(s: Seq<u128>, i: int)
    requires
        0 <= i < s.len(),
    ensures
        s[i] <= stake_sum(s),
    decreases s.len(),
{
    if i == s.len() - 1 {
        lemma_stake_sum_nonneg(s.drop_last());
    } else {
        lemma_stake_sum_le(s.drop_last(), i);
    }
}

/// Overwriting one amount changes the sum by the difference.
proof fn lemma_stake_sum_update(s: Seq<u128>, i: int, v: u128)
    requires
        0 <= i < s.len(),
    ensures
        stake_sum(s.update(i, v)) == stake_sum(s) - s[i] + v,
    decreases s.len(),
{
    if i == s.len() - 1 {
        assert(s.update(i, v).drop_last() =~= s.drop_last());
        assert(s.update(i, v).last() == v);
    } else {
        lemma_stake_sum_update(s.drop_last(), i, v);
        assert(s.update(i, v).drop_last() =~= s.drop_last().update(i, v));
        assert(s.update(i, v).last() == s.last());
    }
}

} // verus!
