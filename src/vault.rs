//! The vault: a share ledger over pooled deposits, with the routing of all
//! pooled capital into one current pool.
//!
//! Liquidity is moved by an outside provider. The vault decides and books;
//! the caller performs each provider call the vault asks for and reports
//! back (see `rebalance` and `complete_migration`).
use vstd::prelude::*;
use crate::entries::{
    Entry, keys_unique, as_map, has_key, sum_of, find_key, lemma_map_index, lemma_map_update,
    lemma_map_remove, lemma_map_push, lemma_sum_update, lemma_sum_remove, lemma_sum_bounds,
    lemma_sum_prepend, lemma_unique_prepend,
};
use crate::registry::{Pool, PoolRegistry, best_name, lemma_best_name};
use crate::shares::{
    SharePrice, minted_for, payout_for, scaled, price_num, price_den, price_of, mint_quote,
    payout_quote, scale,
};

verus! {

/// A user's position.
#[derive(Clone, Copy, Debug, PartialEq, Eq)]
pub struct UserAccount {
    /// Principal contributed, reduced in proportion on each withdrawal.
    pub initial_deposit: u64,
    /// Shares held; never zero for a stored account.
    pub shares: u64,
}

/// The provider call that failed.
#[derive(Clone, Copy, Debug, PartialEq, Eq)]
pub enum ProviderOperation {
    AddLiquidity,
    RemoveLiquidity,
    UserBalances,
}

#[derive(Clone, Debug, PartialEq, Eq)]
pub enum VaultError {
    /// The amount is zero, or out of the range the ledger can book.
    InvalidAmount,
    /// The user holds no shares.
    UserNotFound,
    /// The user holds fewer shares than requested.
    InsufficientShares,
    /// The liquidity provider failed; the ledger change before it stands.
    ProviderError { pool: String, operation: ProviderOperation, amount: u64 },
    /// No pool is, or can be, selected.
    NoPoolSelected,
}

/// What a deposit booked.
#[derive(Clone, Copy, Debug, PartialEq, Eq)]
pub struct DepositResponse {
    pub deposit_amount: u64,
    pub shares: u64,
    /// The deposit selected the first pool, as no pool was current.
    pub rebalanced: bool,
}

/// What a withdrawal booked. The user redeemed `burned` of the `held`
/// shares that they had, out of `outstanding` shares in the vault.
#[derive(Clone, Copy, Debug, PartialEq, Eq)]
pub struct WithdrawResponse {
    pub withdraw_amount: u64,
    pub burned: u64,
    pub held: u64,
    /// Shares outstanding in the vault before the withdrawal.
    pub outstanding: u64,
}

/// The provider calls that a rebalance needs.
#[derive(Clone, Debug)]
pub struct RebalancePlan {
    pub target: String,
    /// Each source pool, with the amount to move out of it into `target`.
    pub migrations: Vec<Entry<u64>>,
}

/// A snapshot of the vault.
#[derive(Clone, Debug)]
pub struct VaultInfo {
    pub total_balance: u64,
    pub total_shares: u64,
    pub share_price: SharePrice,
    pub allocations: Vec<Entry<u64>>,
    /// Yield of the current pool; None when no pool is current.
    pub apy: Option<u64>,
}

/// A user's position with its value at the current share price.
#[derive(Clone, Copy, Debug, PartialEq, Eq)]
pub struct UserAccountInfo {
    pub initial_deposit: u64,
    pub shares: u64,
    /// `shares` times the share price, rounded down.
    pub current_value: u64,
}

pub open spec fn shares_fn() -> spec_fn(UserAccount) -> nat {
    |a: UserAccount| a.shares as nat
}

pub open spec fn amount_fn() -> spec_fn(u64) -> nat {
    |x: u64| x as nat
}

/// The account after a deposit of `amount` minting `minted` shares.
pub open spec fn credited(acct: Option<UserAccount>, amount: nat, minted: nat) -> UserAccount {
    match acct {
        Some(a) => UserAccount {
            initial_deposit: (a.initial_deposit + amount) as u64,
            shares: (a.shares + minted) as u64,
        },
        None => UserAccount { initial_deposit: amount as u64, shares: minted as u64 },
    }
}

pub struct Vault {
    registry: PoolRegistry,
    total_balance: u64,
    total_shares: u64,
    allocations: Vec<Entry<u64>>,
    user_accounts: Vec<Entry<UserAccount>>,
    current_pool: Option<String>,
}

impl Vault {
    /// Units booked in the vault.
    pub closed spec fn balance(&self) -> nat {
        self.total_balance as nat
    }

    /// Shares outstanding.
    pub closed spec fn shares(&self) -> nat {
        self.total_shares as nat
    }

    /// The account records, one per user holding shares.
    pub closed spec fn account_list(&self) -> Seq<Entry<UserAccount>> {
        self.user_accounts@
    }

    /// The allocation records, one per pool holding liquidity, in the
    /// order in which withdrawals draw on them after the current pool.
    pub closed spec fn allocation_list(&self) -> Seq<Entry<u64>> {
        self.allocations@
    }

    /// The accounts, by user.
    pub open spec fn accounts(&self) -> Map<Seq<char>, UserAccount> {
        as_map(self.account_list())
    }

    /// The liquidity placed in each pool, by pool name.
    pub open spec fn allocation_map(&self) -> Map<Seq<char>, u64> {
        as_map(self.allocation_list())
    }

    /// Shares held over all accounts.
    pub open spec fn shares_held(&self) -> nat {
        sum_of(self.account_list(), shares_fn())
    }

    /// Liquidity placed over all pools.
    pub open spec fn allocated_total(&self) -> nat {
        sum_of(self.allocation_list(), amount_fn())
    }

    /// The name of the pool receiving new capital.
    pub closed spec fn current(&self) -> Option<Seq<char>> {
        match self.current_pool {
            Some(p) => Some(p@),
            None => None,
        }
    }

    /// The candidate pools, sorted by name.
    pub closed spec fn pools(&self) -> Seq<Pool> {
        self.registry@
    }

    /// Liquidity placed in pool `k`; zero where none is.
    pub open spec fn allocated(&self, k: Seq<char>) -> nat {
        if self.allocation_map().contains_key(k) {
            self.allocation_map()[k] as nat
        } else {
            0
        }
    }

    pub closed spec fn wf(&self) -> bool {
        &&& self.registry.wf()
        &&& keys_unique(self.user_accounts@)
        &&& keys_unique(self.allocations@)
        &&& forall|i: int| 0 <= i < self.user_accounts@.len() ==> #[trigger] self.user_accounts@[i].value.shares > 0
        &&& forall|i: int| 0 <= i < self.allocations@.len() ==> #[trigger] self.allocations@[i].value > 0
        &&& self.total_shares as nat == sum_of(self.user_accounts@, shares_fn())
        &&& self.total_balance as nat == sum_of(self.allocations@, amount_fn())
        &&& (self.total_balance == 0) == (self.total_shares == 0)
        &&& self.current_pool is None ==> self.allocations@.len() == 0
    }

    /// Shares that a deposit of `amount` mints.
    pub open spec fn minted(&self, amount: nat) -> nat {
        minted_for(self.balance(), self.shares(), amount)
    }

    /// A deposit of `amount` by `user` is refused: the amount is zero, mints
    /// no share, or would take a total past `u64::MAX`.
    pub open spec fn deposit_invalid(&self, user: Seq<char>, amount: nat) -> bool {
        ||| amount == 0
        ||| self.minted(amount) == 0
        ||| self.balance() + amount > u64::MAX
        ||| self.shares() + self.minted(amount) > u64::MAX
        ||| (self.accounts().contains_key(user) && self.accounts()[user].initial_deposit + amount > u64::MAX)
    }

    /// The pool that a deposit routes capital to.
    pub open spec fn deposit_target(&self) -> Seq<char> {
        match self.current() {
            Some(p) => p,
            None => best_name(self.pools()),
        }
    }

    /// The vault holds no capital and no shares.
    pub open spec fn is_empty(&self) -> bool {
        &&& self.balance() == 0
        &&& self.shares() == 0
        &&& self.accounts() == Map::<Seq<char>, UserAccount>::empty()
        &&& self.allocation_map() == Map::<Seq<char>, u64>::empty()
        &&& self.current() is None
    }

    /// An empty vault over the pools of `registry`.
    pub fn new(registry: PoolRegistry) -> (r: Self)
        requires
            registry.wf(),
        ensures
            r.wf(),
            r.is_empty(),
            r.pools() == registry@,
    {
        let r = Vault {
            registry,
            total_balance: 0,
            total_shares: 0,
            allocations: Vec::new(),
            user_accounts: Vec::new(),
            current_pool: None,
        };
        assert(r.accounts() =~= Map::<Seq<char>, UserAccount>::empty());
        assert(r.allocation_map() =~= Map::<Seq<char>, u64>::empty());
        r
    }

    /// Adds `amount` of pool `name`'s liquidity to the allocations.
    fn allocate(&mut self, name: String, amount: u64)
        requires
            keys_unique(old(self).allocations@),
            forall|i: int| 0 <= i < old(self).allocations@.len() ==> #[trigger] old(self).allocations@[i].value > 0,
            amount > 0,
            sum_of(old(self).allocations@, amount_fn()) + amount <= u64::MAX,
        ensures
            keys_unique(final(self).allocations@),
            forall|i: int| 0 <= i < final(self).allocations@.len() ==> #[trigger] final(self).allocations@[i].value > 0,
            sum_of(final(self).allocations@, amount_fn()) == sum_of(old(self).allocations@, amount_fn()) + amount,
            final(self).allocation_map() == old(self).allocation_map().insert(name@, (old(self).allocated(name@) + amount) as u64),
            final(self).allocations@.len() > 0,
            final(self).registry == old(self).registry,
            final(self).total_balance == old(self).total_balance,
            final(self).total_shares == old(self).total_shares,
            final(self).user_accounts == old(self).user_accounts,
            final(self).current_pool == old(self).current_pool,
    {
        let ghost s = self.allocations@;
        match find_key(&self.allocations, &name) {
            Some(i) => {
                proof {
                    lemma_sum_bounds(s, amount_fn(), i as int);
                    lemma_map_index(s, i as int);
                }
                let e = Entry { key: name, value: self.allocations[i].value + amount };
                let ghost eg = e;
                self.allocations.set(i, e);
                proof {
                    lemma_map_update(s, i as int, eg);
                    lemma_sum_update(s, amount_fn(), i as int, eg);
                }
            },
            None => {
                let e = Entry { key: name, value: amount };
                let ghost eg = e;
                self.allocations.push(e);
                proof {
                    lemma_map_push(s, eg);
                    assert(s.push(eg).drop_last() =~= s);
                }
            },
        }
    }

    /// Books a deposit of `amount` by `user`: mints shares at the price
    /// before the deposit, credits the user's account, and places the
    /// capital in the current pool. With no current pool the best pool is
    /// selected first.
    pub fn deposit(&mut self, user: &String, amount: u64) -> (r: Result<DepositResponse, VaultError>)
        requires
            old(self).wf(),
        ensures
            final(self).wf(),
            final(self).pools() == old(self).pools(),
            old(self).deposit_invalid(user@, amount as nat) ==> r == Err::<DepositResponse, VaultError>(VaultError::InvalidAmount),
            !old(self).deposit_invalid(user@, amount as nat) && old(self).current() is None && old(self).pools().len() == 0
                ==> r == Err::<DepositResponse, VaultError>(VaultError::NoPoolSelected),
            r is Err ==> *final(self) == *old(self),
            r is Ok <==> !old(self).deposit_invalid(user@, amount as nat) && (old(self).current() is Some || old(self).pools().len() > 0),
            r matches Ok(resp) ==> {
                &&& resp.deposit_amount == amount
                &&& resp.shares == old(self).minted(amount as nat)
                &&& resp.rebalanced == old(self).current() is None
                &&& final(self).balance() == old(self).balance() + amount
                &&& final(self).shares() == old(self).shares() + old(self).minted(amount as nat)
                &&& final(self).accounts() == old(self).accounts().insert(
                    user@,
                    credited(
                        if old(self).accounts().contains_key(user@) { Some(old(self).accounts()[user@]) } else { None },
                        amount as nat,
                        old(self).minted(amount as nat),
                    ),
                )
                &&& final(self).current() == Some(old(self).deposit_target())
                &&& final(self).allocation_map() == old(self).allocation_map().insert(
                    old(self).deposit_target(),
                    (old(self).allocated(old(self).deposit_target()) + amount) as u64,
                )
            },
    {
        if amount == 0 {
            return Err(VaultError::InvalidAmount);
        }
        let minted = mint_quote(self.total_balance, self.total_shares, amount);
        if minted == 0 || amount > u64::MAX - self.total_balance || minted > (u64::MAX - self.total_shares) as u128 {
            return Err(VaultError::InvalidAmount);
        }
        let minted = minted as u64;
        let found = find_key(&self.user_accounts, user);
        proof {
            if self.accounts().contains_key(user@) {
                let j = choose|j: int| 0 <= j < self.user_accounts@.len() && #[trigger] self.user_accounts@[j].key@ == user@;
                assert(found is Some);
            }
        }
        if let Some(i) = found {
            proof {
                lemma_map_index(self.user_accounts@, i as int);
            }
            if self.user_accounts[i].value.initial_deposit > u64::MAX - amount {
                return Err(VaultError::InvalidAmount);
            }
        }
        let rebalanced = self.current_pool.is_none();
        let target: String = match &self.current_pool {
            Some(p) => p.clone(),
            None => match self.registry.best_pool() {
                Some(b) => {
                    proof {
                        lemma_best_name(self.registry@, b as int);
                    }
                    self.registry.list_pools()[b].name.clone()
                },
                None => {
                    return Err(VaultError::NoPoolSelected);
                },
            },
        };
        assert(target@ == self.deposit_target());
        let ghost pre = *self;
        let ghost s = self.user_accounts@;
        self.total_balance = self.total_balance + amount;
        self.total_shares = self.total_shares + minted;
        match found {
            Some(i) => {
                let a = self.user_accounts[i].value;
                proof {
                    lemma_sum_bounds(s, shares_fn(), i as int);
                }
                let e = Entry {
                    key: user.clone(),
                    value: UserAccount { initial_deposit: a.initial_deposit + amount, shares: a.shares + minted },
                };
                let ghost eg = e;
                self.user_accounts.set(i, e);
                proof {
                    lemma_map_update(s, i as int, eg);
                    lemma_sum_update(s, shares_fn(), i as int, eg);
                }
            },
            None => {
                let e = Entry { key: user.clone(), value: UserAccount { initial_deposit: amount, shares: minted } };
                let ghost eg = e;
                self.user_accounts.push(e);
                proof {
                    lemma_map_push(s, eg);
                    assert(s.push(eg).drop_last() =~= s);
                }
            },
        }
        self.allocate(target.clone(), amount);
        self.current_pool = Some(target);
        Ok(DepositResponse { deposit_amount: amount, shares: minted, rebalanced })
    }

    /// Takes `amount` out of the allocations: from pool `current` first,
    /// then from the other pools in order.
    fn draw_payout(&mut self, current: &String, amount: u64)
        requires
            keys_unique(old(self).allocations@),
            forall|i: int| 0 <= i < old(self).allocations@.len() ==> #[trigger] old(self).allocations@[i].value > 0,
            amount <= sum_of(old(self).allocations@, amount_fn()),
        ensures
            keys_unique(final(self).allocations@),
            forall|i: int| 0 <= i < final(self).allocations@.len() ==> #[trigger] final(self).allocations@[i].value > 0,
            sum_of(final(self).allocations@, amount_fn()) + amount == sum_of(old(self).allocations@, amount_fn()),
            final(self).allocations@ == draw_from(current_first(old(self).allocations@, current@), amount as nat),
            final(self).registry == old(self).registry,
            final(self).total_balance == old(self).total_balance,
            final(self).total_shares == old(self).total_shares,
            final(self).user_accounts == old(self).user_accounts,
            final(self).current_pool == old(self).current_pool,
    {
        let ghost s = self.allocations@;
        match find_key(&self.allocations, current) {
            Some(i) => {
                proof {
                    lemma_map_remove(s, i as int);
                    lemma_sum_remove(s, amount_fn(), i as int);
                    lemma_current_first(s, current@, i as int);
                    assert(!has_key(s.remove(i as int), s[i as int].key@)) by {
                        assert(!as_map(s.remove(i as int)).contains_key(s[i as int].key@));
                    }
                    lemma_unique_prepend(s[i as int], s.remove(i as int));
                    lemma_sum_prepend(s[i as int], s.remove(i as int), amount_fn());
                }
                let e = self.allocations.remove(i);
                self.allocations.insert(0, e);
                proof {
                    assert(self.allocations@ =~= seq![s[i as int]] + s.remove(i as int));
                    assert forall|j: int| 0 <= j < self.allocations@.len() implies #[trigger] self.allocations@[j].value > 0 by {
                        if j == 0 {
                        } else if j - 1 < i {
                            assert(self.allocations@[j] == s[j - 1]);
                        } else {
                            assert(self.allocations@[j] == s[j]);
                        }
                    }
                }
            },
            None => {
                proof {
                    assert(!(exists|j: int| 0 <= j < s.len() && #[trigger] s[j].key@ == current@));
                }
            },
        }
        let ghost start = self.allocations@;
        let mut left: u64 = amount;
        while left > 0 && self.allocations.len() > 0
            invariant
                keys_unique(self.allocations@),
                forall|i: int| 0 <= i < self.allocations@.len() ==> #[trigger] self.allocations@[i].value > 0,
                sum_of(self.allocations@, amount_fn()) + (amount - left) == sum_of(s, amount_fn()),
                left <= amount,
                left <= sum_of(self.allocations@, amount_fn()),
                draw_from(self.allocations@, left as nat) == draw_from(start, amount as nat),
                start == current_first(s, current@),
                self.registry == old(self).registry,
                self.total_balance == old(self).total_balance,
                self.total_shares == old(self).total_shares,
                self.user_accounts == old(self).user_accounts,
                self.current_pool == old(self).current_pool,
            decreases self.allocations@.len() + (if left > 0 { 1int } else { 0int }),
        {
            let ghost cur = self.allocations@;
            let v = self.allocations[0].value;
            if v <= left {
                self.allocations.remove(0);
                left = left - v;
                proof {
                    lemma_map_remove(cur, 0);
                    lemma_sum_remove(cur, amount_fn(), 0);
                    assert(cur.remove(0) =~= cur.drop_first());
                    assert forall|j: int| 0 <= j < self.allocations@.len() implies #[trigger] self.allocations@[j].value > 0 by {
                        assert(self.allocations@[j] == cur[j + 1]);
                    }
                }
            } else {
                let e = Entry { key: self.allocations[0].key.clone(), value: v - left };
                let ghost eg = e;
                self.allocations.set(0, e);
                proof {
                    lemma_map_update(cur, 0, eg);
                    lemma_sum_update(cur, amount_fn(), 0, eg);
                    assert(seq![eg] + cur.drop_first() =~= cur.update(0, eg));
                    assert(draw_from(cur, left as nat) == cur.update(0, eg));
                }
                left = 0;
            }
        }
        proof {
            if self.allocations@.len() == 0 {
                assert(sum_of(self.allocations@, amount_fn()) == 0);
            }
        }
    }

    /// Books a withdrawal of `shares` shares by `user`: pays out at the
    /// price before the withdrawal, reduces the user's principal in
    /// proportion, and takes the payout out of the allocations: from the
    /// current pool first, then from pools whose migration is still to
    /// complete. An account left without shares is removed.
    pub fn withdraw(&mut self, user: &String, shares: u64) -> (r: Result<WithdrawResponse, VaultError>)
        requires
            old(self).wf(),
        ensures
            final(self).wf(),
            final(self).pools() == old(self).pools(),
            r is Err ==> *final(self) == *old(self),
            (r == Err::<WithdrawResponse, VaultError>(VaultError::UserNotFound)) <==> !old(self).accounts().contains_key(user@),
            (r == Err::<WithdrawResponse, VaultError>(VaultError::InvalidAmount)) <==> old(self).accounts().contains_key(user@) && shares == 0,
            (r == Err::<WithdrawResponse, VaultError>(VaultError::InsufficientShares)) <==> old(self).accounts().contains_key(user@)
                && shares > old(self).accounts()[user@].shares,
            r is Ok <==> old(self).withdraw_allowed(user@, shares as nat),
            r matches Ok(resp) ==> {
                let held = old(self).accounts()[user@];
                let out = old(self).payout(shares as nat);
                &&& old(self).current() is Some
                &&& resp.withdraw_amount == out
                &&& resp.burned == shares
                &&& resp.held == held.shares
                &&& final(self).balance() == old(self).balance() - out
                &&& final(self).shares() == old(self).shares() - shares
                &&& final(self).accounts() == if shares == held.shares {
                    old(self).accounts().remove(user@)
                } else {
                    old(self).accounts().insert(user@, debited(held, shares as nat))
                }
                &&& final(self).current() == old(self).current()
                &&& resp.outstanding == old(self).shares()
                &&& final(self).allocation_list()
                    == draw_from(current_first(old(self).allocation_list(), old(self).current().unwrap()), out)
            },
    {
        let ghost s = self.user_accounts@;
        let i = match find_key(&self.user_accounts, user) {
            Some(i) => i,
            None => {
                proof {
                    if self.accounts().contains_key(user@) {
                        assert(has_key(s, user@));
                    }
                }
                return Err(VaultError::UserNotFound);
            },
        };
        proof {
            lemma_map_index(s, i as int);
        }
        let a = self.user_accounts[i].value;
        if shares == 0 {
            return Err(VaultError::InvalidAmount);
        }
        if shares > a.shares {
            return Err(VaultError::InsufficientShares);
        }
        proof {
            lemma_sum_bounds(s, shares_fn(), i as int);
            if self.allocations@.len() == 0 {
                assert(sum_of(self.allocations@, amount_fn()) == 0);
            }
        }
        let out = payout_quote(self.total_balance, self.total_shares, shares);
        let current = match &self.current_pool {
            Some(p) => p.clone(),
            None => {
                return Err(VaultError::NoPoolSelected);
            },
        };
        proof {
            crate::shares::lemma_payout_whole_or_part(self.total_balance as nat, self.total_shares as nat, shares as nat);
        }
        self.total_balance = self.total_balance - out;
        self.total_shares = self.total_shares - shares;
        if shares == a.shares {
            self.user_accounts.remove(i);
            proof {
                lemma_map_remove(s, i as int);
                lemma_sum_remove(s, shares_fn(), i as int);
                assert(self.user_accounts@ == s.remove(i as int));
                assert forall|j: int| 0 <= j < self.user_accounts@.len() implies #[trigger] self.user_accounts@[j].value.shares > 0 by {
                    if j >= i {
                        assert(self.user_accounts@[j] == s[j + 1]);
                        assert(s[j + 1].value.shares > 0);
                    } else {
                        assert(self.user_accounts@[j] == s[j]);
                        assert(s[j].value.shares > 0);
                    }
                }
            }
        } else {
            let cut = scale(a.initial_deposit, shares, a.shares);
            let e = Entry {
                key: user.clone(),
                value: UserAccount { initial_deposit: a.initial_deposit - cut, shares: a.shares - shares },
            };
            let ghost eg = e;
            self.user_accounts.set(i, e);
            proof {
                lemma_map_update(s, i as int, eg);
                lemma_sum_update(s, shares_fn(), i as int, eg);
            }
        }
        let outstanding = self.total_shares + shares;
        self.draw_payout(&current, out);
        Ok(WithdrawResponse { withdraw_amount: out, burned: shares, held: a.shares, outstanding })
    }

    /// Units paid out for `burned` shares at the current price.
    pub open spec fn payout(&self, burned: nat) -> nat {
        payout_for(self.balance(), self.shares(), burned)
    }

    /// A withdrawal of `shares` by `user` is booked.
    pub open spec fn withdraw_allowed(&self, user: Seq<char>, shares: nat) -> bool {
        &&& self.accounts().contains_key(user)
        &&& shares > 0
        &&& shares <= self.accounts()[user].shares
    }

    /// Selects the best pool as the current one and plans the migration of
    /// every other pool's allocation into it. Allocations change only as
    /// the caller reports each migration done (`complete_migration`).
    pub fn rebalance(&mut self) -> (r: Result<RebalancePlan, VaultError>)
        requires
            old(self).wf(),
        ensures
            final(self).wf(),
            final(self).pools() == old(self).pools(),
            final(self).balance() == old(self).balance(),
            final(self).shares() == old(self).shares(),
            final(self).accounts() == old(self).accounts(),
            final(self).allocation_map() == old(self).allocation_map(),
            r is Err <==> old(self).pools().len() == 0,
            r is Err ==> r == Err::<RebalancePlan, VaultError>(VaultError::NoPoolSelected) && *final(self) == *old(self),
            r matches Ok(plan) ==> {
                &&& plan.target@ == best_name(old(self).pools())
                &&& final(self).current() == Some(plan.target@)
                &&& keys_unique(plan.migrations@)
                &&& as_map(plan.migrations@) == old(self).allocation_map().remove(plan.target@)
            },
    {
        let b = match self.registry.best_pool() {
            Some(b) => b,
            None => {
                return Err(VaultError::NoPoolSelected);
            },
        };
        proof {
            lemma_best_name(self.registry@, b as int);
        }
        let target = self.registry.list_pools()[b].name.clone();
        let ghost s = self.allocations@;
        let mut migrations: Vec<Entry<u64>> = Vec::new();
        let mut i: usize = 0;
        while i < self.allocations.len()
            invariant
                s == self.allocations@,
                keys_unique(s),
                i <= s.len(),
                keys_unique(migrations@),
                as_map(migrations@) == as_map(s.take(i as int)).remove(target@),
            decreases s.len() - i,
        {
            let ghost m0 = migrations@;
            proof {
                lemma_take_unique(s, i as int + 1);
                lemma_take_unique(s, i as int);
                assert(s.take(i as int + 1) =~= s.take(i as int).push(s[i as int]));
                assert(!as_map(s.take(i as int)).contains_key(s[i as int].key@)) by {
                    if has_key(s.take(i as int), s[i as int].key@) {
                        let j = choose|j: int| 0 <= j < i && #[trigger] s.take(i as int)[j].key@ == s[i as int].key@;
                        assert(s[j].key@ == s[i as int].key@);
                    }
                }
                lemma_map_push(s.take(i as int), s[i as int]);
            }
            if self.allocations[i].key != target {
                let e = Entry { key: self.allocations[i].key.clone(), value: self.allocations[i].value };
                let ghost eg = e;
                migrations.push(e);
                proof {
                    assert(!as_map(m0).contains_key(eg.key@));
                    lemma_map_push(m0, eg);
                }
            }
            proof {
                assert(as_map(migrations@) =~= as_map(s.take(i as int + 1)).remove(target@));
            }
            i += 1;
        }
        proof {
            assert(s.take(s.len() as int) =~= s);
        }
        self.current_pool = Some(target.clone());
        Ok(RebalancePlan { target, migrations })
    }

    /// Books a completed migration: the whole allocation of pool `source`
    /// moves to the current pool. False, with no change, when there is no
    /// current pool, `source` is the current pool, or `source` holds
    /// nothing.
    pub fn complete_migration(&mut self, source: &String) -> (moved: bool)
        requires
            old(self).wf(),
        ensures
            final(self).wf(),
            final(self).pools() == old(self).pools(),
            final(self).balance() == old(self).balance(),
            final(self).shares() == old(self).shares(),
            final(self).accounts() == old(self).accounts(),
            final(self).current() == old(self).current(),
            moved == (old(self).current() is Some && old(self).current().unwrap() != source@
                && old(self).allocation_map().contains_key(source@)),
            !moved ==> *final(self) == *old(self),
            moved ==> final(self).allocation_map() == migrated(old(self).allocation_map(), source@, old(self).current().unwrap()),
    {
        let target = match &self.current_pool {
            Some(p) => p.clone(),
            None => {
                return false;
            },
        };
        if target == *source {
            return false;
        }
        let ghost s = self.allocations@;
        let i = match find_key(&self.allocations, source) {
            Some(i) => i,
            None => {
                proof {
                    if self.allocation_map().contains_key(source@) {
                        assert(has_key(s, source@));
                    }
                }
                return false;
            },
        };
        proof {
            lemma_map_index(s, i as int);
            lemma_map_remove(s, i as int);
            lemma_sum_remove(s, amount_fn(), i as int);
        }
        let e = self.allocations.remove(i);
        proof {
            assert forall|j: int| 0 <= j < self.allocations@.len() implies #[trigger] self.allocations@[j].value > 0 by {
                if j >= i {
                    assert(self.allocations@[j] == s[j + 1]);
                }
            }
        }
        self.allocate(target, e.value);
        proof {
            assert(self.allocation_map() =~= migrated(old(self).allocation_map(), source@, old(self).current().unwrap()));
        }
        true
    }

    /// Total balance over total shares; exactly one while no share is
    /// outstanding.
    pub fn share_price(&self) -> (r: SharePrice)
        ensures
            r.numerator == price_num(self.balance(), self.shares()),
            r.denominator == price_den(self.balance(), self.shares()),
    {
        price_of(self.total_balance, self.total_shares)
    }

    pub fn total_balance(&self) -> (r: u64)
        ensures
            r == self.balance(),
    {
        self.total_balance
    }

    pub fn total_shares(&self) -> (r: u64)
        ensures
            r == self.shares(),
    {
        self.total_shares
    }

    /// The name of the pool receiving new capital, if one was selected.
    pub fn current_pool(&self) -> (r: &Option<String>)
        ensures
            r is None <==> self.current() is None,
            r matches Some(p) ==> self.current() == Some(p@),
    {
        &self.current_pool
    }

    /// The candidate pools.
    pub fn registry(&self) -> (r: &PoolRegistry)
        ensures
            r@ == self.pools(),
            r.wf() <== self.wf(),
    {
        &self.registry
    }

    /// Records a new reported yield for pool `name`; false, with no
    /// change, when no such pool is listed.
    pub fn refresh_apy(&mut self, name: &String, apy: u64) -> (updated: bool)
        requires
            old(self).wf(),
        ensures
            final(self).wf(),
            updated == crate::registry::has_pool(old(self).pools(), name@),
            !updated ==> final(self).pools() == old(self).pools(),
            updated ==> exists|i: int|
                0 <= i < old(self).pools().len() && old(self).pools()[i].name@ == name@
                    && final(self).pools() == old(self).pools().update(i, Pool { apy, ..old(self).pools()[i] }),
            final(self).balance() == old(self).balance(),
            final(self).shares() == old(self).shares(),
            final(self).accounts() == old(self).accounts(),
            final(self).allocation_map() == old(self).allocation_map(),
            final(self).current() == old(self).current(),
    {
        let updated = self.registry.set_apy(name, apy);
        proof {
            if updated {
                let i = choose|i: int|
                    0 <= i < old(self).registry@.len() && old(self).registry@[i].name@ == name@
                        && self.registry@ == old(self).registry@.update(i, Pool { apy, ..old(self).registry@[i] });
                assert(old(self).pools()[i].name@ == name@);
                assert(self.pools() == old(self).pools().update(i, Pool { apy, ..old(self).pools()[i] }));
            }
        }
        updated
    }

    /// The account of `user`, if they hold shares.
    pub fn user_account(&self, user: &String) -> (r: Option<UserAccount>)
        requires
            self.wf(),
        ensures
            r is None <==> !self.accounts().contains_key(user@),
            r matches Some(a) ==> a == self.accounts()[user@],
    {
        match find_key(&self.user_accounts, user) {
            Some(i) => {
                proof {
                    lemma_map_index(self.user_accounts@, i as int);
                }
                Some(self.user_accounts[i].value)
            },
            None => {
                proof {
                    if self.accounts().contains_key(user@) {
                        assert(has_key(self.user_accounts@, user@));
                    }
                }
                None
            },
        }
    }

    /// The position of `user` valued at the current share price; None
    /// when they hold no shares.
    pub fn get_user_account(&self, user: &String) -> (r: Option<UserAccountInfo>)
        requires
            self.wf(),
        ensures
            r is None <==> !self.accounts().contains_key(user@),
            r matches Some(info) ==> {
                &&& info.initial_deposit == self.accounts()[user@].initial_deposit
                &&& info.shares == self.accounts()[user@].shares
                &&& info.current_value == self.payout(info.shares as nat)
            },
    {
        match find_key(&self.user_accounts, user) {
            Some(i) => {
                proof {
                    lemma_map_index(self.user_accounts@, i as int);
                    lemma_sum_bounds(self.user_accounts@, shares_fn(), i as int);
                }
                let a = self.user_accounts[i].value;
                let value = payout_quote(self.total_balance, self.total_shares, a.shares);
                Some(UserAccountInfo { initial_deposit: a.initial_deposit, shares: a.shares, current_value: value })
            },
            None => {
                proof {
                    if self.accounts().contains_key(user@) {
                        assert(has_key(self.user_accounts@, user@));
                    }
                }
                None
            },
        }
    }

    /// Totals, share price, allocations, and the yield of the current pool.
    pub fn get_info(&self) -> (r: VaultInfo)
        requires
            self.wf(),
        ensures
            r.total_balance == self.balance(),
            r.total_shares == self.shares(),
            r.share_price.numerator == price_num(self.balance(), self.shares()),
            r.share_price.denominator == price_den(self.balance(), self.shares()),
            as_map(r.allocations@) == self.allocation_map(),
            self.current() is None ==> r.apy is None,
            self.current() matches Some(p) ==> (r.apy is None <==> !crate::registry::has_pool(self.pools(), p)),
            r.apy matches Some(a) ==> exists|i: int|
                0 <= i < self.pools().len() && self.current() is Some && self.pools()[i].name@ == self.current().unwrap() && self.pools()[i].apy == a,
    {
        let mut copy: Vec<Entry<u64>> = Vec::new();
        let mut i: usize = 0;
        while i < self.allocations.len()
            invariant
                i <= self.allocations@.len(),
                copy@ == self.allocations@.take(i as int),
            decreases self.allocations@.len() - i,
        {
            copy.push(Entry { key: self.allocations[i].key.clone(), value: self.allocations[i].value });
            proof {
                assert(copy@ =~= self.allocations@.take(i as int + 1));
            }
            i += 1;
        }
        proof {
            assert(self.allocations@.take(self.allocations@.len() as int) =~= self.allocations@);
        }
        let apy = match &self.current_pool {
            Some(p) => {
                let r = self.registry.apy_of(p);
                proof {
                    if r is Some {
                        let i = choose|i: int|
                            0 <= i < self.registry@.len() && self.registry@[i].name@ == p@ && self.registry@[i].apy == r.unwrap();
                        assert(self.pools()[i].name@ == self.current().unwrap());
                    }
                }
                r
            },
            None => None,
        };
        VaultInfo {
            total_balance: self.total_balance,
            total_shares: self.total_shares,
            share_price: price_of(self.total_balance, self.total_shares),
            allocations: copy,
            apy,
        }
    }

    /// The liquidity placed in each pool.
    pub fn allocations(&self) -> (r: &Vec<Entry<u64>>)
        requires
            self.wf(),
        ensures
            keys_unique(r@),
            as_map(r@) == self.allocation_map(),
    {
        &self.allocations
    }
}

impl WithdrawResponse {
    /// The provider's LP tokens to redeem for this withdrawal: `total_lp`
    /// scaled by the fraction of the position redeemed, rounded down.
    pub fn lp_to_withdraw(&self, total_lp: u64) -> (r: u64)
        requires
            0 < self.held,
            self.burned <= self.held,
        ensures
            r == scaled(total_lp as nat, self.burned as nat, self.held as nat),
            r <= total_lp,
    {
        scale(total_lp, self.burned, self.held)
    }

    /// The LP tokens to redeem out of the vault's whole position
    /// `vault_lp`: scaled by the fraction of all shares burned.
    pub fn vault_lp_to_withdraw(&self, vault_lp: u64) -> (r: u64)
        requires
            0 < self.outstanding,
            self.burned <= self.outstanding,
        ensures
            r == scaled(vault_lp as nat, self.burned as nat, self.outstanding as nat),
            r <= vault_lp,
    {
        scale(vault_lp, self.burned, self.outstanding)
    }
}

/// The account after `burned` of its shares are redeemed: principal is
/// reduced by the same fraction, rounded down.
pub open spec fn debited(a: UserAccount, burned: nat) -> UserAccount {
    UserAccount {
        initial_deposit: (a.initial_deposit - scaled(a.initial_deposit as nat, burned, a.shares as nat)) as u64,
        shares: (a.shares - burned) as u64,
    }
}

/// The records with the one keyed `k`, if any, moved to the front.
pub open spec fn current_first(s: Seq<Entry<u64>>, k: Seq<char>) -> Seq<Entry<u64>> {
    if exists|i: int| 0 <= i < s.len() && #[trigger] s[i].key@ == k {
        let i = choose|i: int| 0 <= i < s.len() && #[trigger] s[i].key@ == k;
        seq![s[i]] + s.remove(i)
    } else {
        s
    }
}

/// The records after `amount` is drawn from them front to back; a record
/// drawn to nothing is dropped.
pub open spec fn draw_from(s: Seq<Entry<u64>>, amount: nat) -> Seq<Entry<u64>>
    decreases s.len(),
{
    if s.len() == 0 || amount == 0 {
        s
    } else if s[0].value <= amount {
        draw_from(s.drop_first(), (amount - s[0].value) as nat)
    } else {
        seq![Entry { key: s[0].key, value: (s[0].value - amount) as u64 }] + s.drop_first()
    }
}

proof fn lemma_current_first(s: Seq<Entry<u64>>, k: Seq<char>, i: int)
    requires
        keys_unique(s),
        0 <= i < s.len(),
        s[i].key@ == k,
    ensures
        current_first(s, k) == seq![s[i]] + s.remove(i),
{
    let j = choose|j: int| 0 <= j < s.len() && #[trigger] s[j].key@ == k;
    assert(i == j);
}

/// The allocations after the whole of pool `source` moved to `target`.
pub open spec fn migrated(m: Map<Seq<char>, u64>, source: Seq<char>, target: Seq<char>) -> Map<Seq<char>, u64> {
    if m.contains_key(source) && source != target {
        let held = if m.contains_key(target) { m[target] as nat } else { 0 };
        m.remove(source).insert(target, (held + m[source]) as u64)
    } else {
        m
    }
}

/// The allocations after the migrations out of `sources` completed, in order.
pub open spec fn migrated_all(m: Map<Seq<char>, u64>, sources: Seq<Seq<char>>, target: Seq<char>) -> Map<Seq<char>, u64>
    decreases sources.len(),
{
    if sources.len() == 0 {
        m
    } else {
        migrated_all(migrated(m, sources[0], target), sources.drop_first(), target)
    }
}

proof fn lemma_take_unique<V>(s: Seq<Entry<V>>, n: int)
    requires
        keys_unique(s),
        0 <= n <= s.len(),
    ensures
        keys_unique(s.take(n)),
{
    assert forall|a: int, b: int| 0 <= a < n && 0 <= b < n && a != b implies #[trigger] s.take(n)[a].key@ != #[trigger] s.take(n)[b].key@ by {
        assert(s[a].key@ != s[b].key@);
    }
}

proof fn lemma_migrated_all_keys(m: Map<Seq<char>, u64>, sources: Seq<Seq<char>>, target: Seq<char>, k: Seq<char>)
    requires
        k != target,
        migrated_all(m, sources, target).contains_key(k),
    ensures
        m.contains_key(k),
        !sources.contains(k),
    decreases sources.len(),
{
    if sources.len() > 0 {
        lemma_migrated_all_keys(migrated(m, sources[0], target), sources.drop_first(), target, k);
        assert(sources =~= seq![sources[0]] + sources.drop_first());
    }
}

proof fn lemma_migrated_all_settled(m: Map<Seq<char>, u64>, sources: Seq<Seq<char>>, target: Seq<char>)
    requires
        forall|k: Seq<char>| #[trigger] m.contains_key(k) ==> k == target,
    ensures
        migrated_all(m, sources, target) == m,
    decreases sources.len(),
{
    if sources.len() > 0 {
        lemma_migrated_all_settled(m, sources.drop_first(), target);
    }
}

/// Rebalancing twice with unchanged yields: once every migration of the
/// first plan has completed, the second plan (the allocations outside the
/// target) is empty, so it makes no provider call, and the allocations
/// stay as the first rebalance left them.
pub proof fn lemma_rebalance_idempotent(m: Map<Seq<char>, u64>, sources: Seq<Seq<char>>, target: Seq<char>, again: Seq<Seq<char>>)
    requires
        forall|k: Seq<char>| #[trigger] m.contains_key(k) && k != target ==> sources.contains(k),
    ensures
        migrated_all(m, sources, target).remove(target) == Map::<Seq<char>, u64>::empty(),
        migrated_all(migrated_all(m, sources, target), again, target) == migrated_all(m, sources, target),
{
    let after = migrated_all(m, sources, target);
    assert forall|k: Seq<char>| #[trigger] after.contains_key(k) implies k == target by {
        if k != target {
            lemma_migrated_all_keys(m, sources, target, k);
        }
    }
    assert(after.remove(target) =~= Map::<Seq<char>, u64>::empty());
    lemma_migrated_all_settled(after, again, target);
}

/// The sum of a run of amounts.
pub open spec fn total_of(amounts: Seq<nat>) -> nat
    decreases amounts.len(),
{
    if amounts.len() == 0 {
        0
    } else {
        total_of(amounts.drop_last()) + amounts.last()
    }
}

/// Shares outstanding are always the sum of the shares in the accounts.
pub proof fn lemma_shares_held(v: Vault)
    requires
        v.wf(),
    ensures
        v.shares() == v.shares_held(),
{
}

/// Over a run of deposits with no withdrawal, each booking `amounts[i]`,
/// the balance grows by exactly the sum of the amounts, and the shares
/// outstanding stay the sum of the shares in the accounts.
pub proof fn lemma_deposit_run(states: Seq<Vault>, amounts: Seq<nat>)
    requires
        states.len() == amounts.len() + 1,
        forall|i: int| 0 <= i < states.len() ==> #[trigger] states[i].wf(),
        forall|i: int| 0 <= i < amounts.len() ==> #[trigger] states[i + 1].balance() == states[i].balance() + amounts[i],
    ensures
        states.last().balance() == states[0].balance() + total_of(amounts),
        states.last().shares() == states.last().shares_held(),
    decreases amounts.len(),
{
    if amounts.len() > 0 {
        let n = amounts.len() as int;
        lemma_deposit_run(states.take(n), amounts.drop_last());
        assert(states.take(n).last() == states[n - 1]);
        assert(states[n].balance() == states[n - 1].balance() + amounts[n - 1]);
    }
    lemma_shares_held(states.last());
}

/// The ledger's standing invariants, as a caller sees them: account and
/// allocation keys are unique and their amounts positive; the shares
/// outstanding are the sum over the accounts and the balance the sum over
/// the allocations; the balance is zero exactly when no share is
/// outstanding; no account or allocation exceeds its total; without a
/// current pool nothing is allocated; the pools are sorted by name.
pub proof fn lemma_invariants(v: Vault)
    requires
        v.wf(),
    ensures
        keys_unique(v.account_list()),
        keys_unique(v.allocation_list()),
        forall|i: int| 0 <= i < v.account_list().len() ==> #[trigger] v.account_list()[i].value.shares > 0,
        forall|i: int| 0 <= i < v.allocation_list().len() ==> #[trigger] v.allocation_list()[i].value > 0,
        v.shares() == v.shares_held(),
        v.balance() == v.allocated_total(),
        (v.balance() == 0) == (v.shares() == 0),
        v.balance() <= u64::MAX,
        v.shares() <= u64::MAX,
        forall|u: Seq<char>| #[trigger] v.accounts().contains_key(u) ==> 0 < v.accounts()[u].shares <= v.shares(),
        forall|k: Seq<char>| #[trigger] v.allocated(k) <= v.balance(),
        v.current() is None ==> v.allocation_map() == Map::<Seq<char>, u64>::empty() && v.balance() == 0,
        crate::registry::sorted_by_name(v.pools()),
{
    let s = v.account_list();
    assert forall|u: Seq<char>| #[trigger] v.accounts().contains_key(u) implies 0 < v.accounts()[u].shares <= v.shares() by {
        let i = choose|i: int| 0 <= i < s.len() && #[trigger] s[i].key@ == u;
        lemma_map_index(s, i);
        lemma_sum_bounds(s, shares_fn(), i);
    }
    let a = v.allocation_list();
    assert forall|k: Seq<char>| #[trigger] v.allocated(k) <= v.balance() by {
        if v.allocation_map().contains_key(k) {
            let i = choose|i: int| 0 <= i < a.len() && #[trigger] a[i].key@ == k;
            lemma_map_index(a, i);
            lemma_sum_bounds(a, amount_fn(), i);
        }
    }
    if v.current() is None {
        assert(a.len() == 0);
        assert(v.allocation_map() =~= Map::<Seq<char>, u64>::empty());
    }
    v.registry.lemma_sorted();
}

/// A deposit never lowers the share price: from any valid vault, the
/// balance and shares that a deposit books give a price at least the one
/// before; into a vault without shares the price after is exactly one.
pub proof fn lemma_deposit_never_lowers_price(before: Vault, after: Vault, amount: nat)
    requires
        before.wf(),
        amount > 0,
        after.balance() == before.balance() + amount,
        after.shares() == before.shares() + before.minted(amount),
    ensures
        price_num(before.balance(), before.shares()) * price_den(after.balance(), after.shares())
            <= price_num(after.balance(), after.shares()) * price_den(before.balance(), before.shares()),
        before.shares() == 0 ==> price_num(after.balance(), after.shares()) == price_den(after.balance(), after.shares()),
{
    lemma_invariants(before);
    crate::shares::lemma_deposit_price_monotone(before.balance(), before.shares(), amount);
}

/// Depositing `amount` and at once withdrawing every share it minted: the
/// withdrawal is allowed, and pays out no more than `amount`, short of it
/// by less than the price before the deposit plus one unit; at a share
/// price of one it pays out exactly `amount`.
pub proof fn lemma_deposit_withdraw_round_trip(before: Vault, after: Vault, user: Seq<char>, amount: nat)
    requires
        before.wf(),
        amount > 0,
        before.minted(amount) > 0,
        after.balance() == before.balance() + amount,
        after.shares() == before.shares() + before.minted(amount),
        after.accounts().contains_key(user),
        after.accounts()[user].shares >= before.minted(amount),
    ensures
        after.withdraw_allowed(user, before.minted(amount)),
        after.payout(before.minted(amount)) <= amount,
        (amount - after.payout(before.minted(amount))) * after.shares() < before.balance() + after.shares(),
        before.balance() == before.shares() ==> before.minted(amount) == amount && after.payout(before.minted(amount)) == amount,
{
    lemma_invariants(before);
    crate::shares::lemma_round_trip(before.balance(), before.shares(), amount);
    if before.balance() == before.shares() && before.shares() > 0 {
        let s = before.shares();
        vstd::arithmetic::div_mod::lemma_div_by_multiple(amount as int, s as int);
        assert(amount * s / s == amount);
    }
}

} // verus!
