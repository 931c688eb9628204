use yield_vault::entries::Entry;
use yield_vault::order::name_less;
use yield_vault::registry::{Pool, PoolRegistry};
use yield_vault::shares::{mint_quote, payout_quote, price_of, scale, SharePrice};
use yield_vault::vault::{Vault, VaultError};

fn pool(name: &str, apy: u64) -> Pool {
    Pool {
        provider_id: "dex".to_string(),
        name: name.to_string(),
        token0: "ICP".to_string(),
        token1: "ckUSDC".to_string(),
        apy,
    }
}

fn registry(pools: &[(&str, u64)]) -> PoolRegistry {
    let mut r = PoolRegistry::new();
    for (n, a) in pools {
        assert!(r.add_pool(pool(n, *a)));
    }
    r
}

fn vault() -> Vault {
    Vault::new(registry(&[("alpha", 500), ("beta", 700), ("gamma", 300)]))
}

fn amount_in(v: &Vault, pool: &str) -> Option<u64> {
    v.allocations().iter().find(|e| e.key == pool).map(|e| e.value)
}

fn u1() -> String {
    "U1".to_string()
}

#[test]
fn first_deposit_mints_at_price_one() {
    let mut v = vault();
    let r = v.deposit(&u1(), 1000).unwrap();
    assert_eq!(r.shares, 1000);
    assert_eq!(r.deposit_amount, 1000);
    assert!(r.rebalanced);
    assert_eq!(v.total_balance(), 1000);
    assert_eq!(v.total_shares(), 1000);
    assert_eq!(v.share_price(), SharePrice { numerator: 1000, denominator: 1000 });
    assert_eq!(v.current_pool().as_deref(), Some("beta"));
    assert_eq!(amount_in(&v, "beta"), Some(1000));
    let a = v.user_account(&u1()).unwrap();
    assert_eq!((a.initial_deposit, a.shares), (1000, 1000));
    // a second deposit routes into the current pool without rebalancing
    let r2 = v.deposit(&u1(), 10).unwrap();
    assert!(!r2.rebalanced);
}

#[test]
fn partial_withdrawal_at_price_one() {
    let mut v = vault();
    v.deposit(&u1(), 1000).unwrap();
    let w = v.withdraw(&u1(), 400).unwrap();
    assert_eq!(w.withdraw_amount, 400);
    assert_eq!((w.burned, w.held), (400, 1000));
    let a = v.user_account(&u1()).unwrap();
    assert_eq!(a.shares, 600);
    assert_eq!(a.initial_deposit, 600);
    assert_eq!(v.total_balance(), 600);
    assert_eq!(v.total_shares(), 600);
    assert_eq!(amount_in(&v, "beta"), Some(600));
}

#[test]
fn full_withdrawal_removes_account() {
    let mut v = vault();
    v.deposit(&u1(), 1000).unwrap();
    v.withdraw(&u1(), 400).unwrap();
    let w = v.withdraw(&u1(), 600).unwrap();
    assert_eq!(w.withdraw_amount, 600);
    assert!(v.user_account(&u1()).is_none());
    assert!(v.get_user_account(&u1()).is_none());
    assert_eq!(v.total_shares(), 0);
    assert_eq!(v.total_balance(), 0);
    assert_eq!(v.share_price(), SharePrice { numerator: 1, denominator: 1 });
    assert!(v.allocations().is_empty());
}

#[test]
fn overdrawn_withdrawal_changes_nothing() {
    let mut v = vault();
    v.deposit(&u1(), 1000).unwrap();
    v.withdraw(&u1(), 400).unwrap();
    assert_eq!(v.withdraw(&u1(), 700), Err(VaultError::InsufficientShares));
    let a = v.user_account(&u1()).unwrap();
    assert_eq!((a.initial_deposit, a.shares), (600, 600));
    assert_eq!(v.total_balance(), 600);
    assert_eq!(v.total_shares(), 600);
    assert_eq!(amount_in(&v, "beta"), Some(600));
}

#[test]
fn ledger_errors() {
    let mut v = vault();
    assert_eq!(v.deposit(&u1(), 0), Err(VaultError::InvalidAmount));
    assert_eq!(v.withdraw(&u1(), 5), Err(VaultError::UserNotFound));
    assert_eq!(v.withdraw(&u1(), 0), Err(VaultError::UserNotFound));
    v.deposit(&u1(), 100).unwrap();
    assert_eq!(v.withdraw(&u1(), 0), Err(VaultError::InvalidAmount));
    assert_eq!(v.withdraw(&"U2".to_string(), 5), Err(VaultError::UserNotFound));
    assert_eq!(v.withdraw(&"U2".to_string(), 0), Err(VaultError::UserNotFound));
    assert_eq!(v.deposit(&u1(), u64::MAX), Err(VaultError::InvalidAmount));
    assert_eq!(v.total_balance(), 100);
}

#[test]
fn deposit_without_pools() {
    let mut v = Vault::new(PoolRegistry::new());
    assert_eq!(v.deposit(&u1(), 10), Err(VaultError::NoPoolSelected));
    assert_eq!(v.total_balance(), 0);
    assert!(v.rebalance().is_err());
}

#[test]
fn deposits_sum_exactly() {
    let mut v = vault();
    let amounts = [1000u64, 250, 3, 77, 1000];
    let users = ["U1", "U2", "U1", "U3", "U2"];
    for (u, a) in users.iter().zip(amounts.iter()) {
        v.deposit(&u.to_string(), *a).unwrap();
    }
    assert_eq!(v.total_balance(), amounts.iter().sum::<u64>());
    let held: u64 = ["U1", "U2", "U3"]
        .iter()
        .map(|u| v.user_account(&u.to_string()).unwrap().shares)
        .sum();
    assert_eq!(v.total_shares(), held);
    assert_eq!(v.user_account(&u1()).unwrap().initial_deposit, 1003);
}

#[test]
fn share_arithmetic_at_other_prices() {
    // price 3/2: 90 units mint 60 shares, and 60 shares pay 90 units
    assert_eq!(mint_quote(300, 200, 90), 60);
    assert_eq!(payout_quote(300, 200, 60), 90);
    // a deposit worth less than one share mints nothing
    assert_eq!(mint_quote(300, 200, 1), 0);
    // rounding down keeps the remainder in the vault
    assert_eq!(payout_quote(10, 3, 1), 3);
    assert_eq!(mint_quote(0, 0, 42), 42);
}

#[test]
fn price_never_falls_on_deposit() {
    let cases = [(0u64, 0u64, 5u64), (100, 100, 7), (300, 200, 91), (10, 3, 4), (7, 5, 1000)];
    for (b, s, a) in cases {
        let m = mint_quote(b, s, a) as u64;
        let before = price_of(b, s);
        let after = price_of(b + a, s + m);
        assert!(
            (before.numerator as u128) * (after.denominator as u128)
                <= (after.numerator as u128) * (before.denominator as u128)
        );
    }
    assert_eq!(price_of(0, 0), SharePrice { numerator: 1, denominator: 1 });
    assert_eq!(price_of(5, 5), SharePrice { numerator: 5, denominator: 5 });
}

#[test]
fn round_trip_returns_the_deposit_at_price_one() {
    let mut v = vault();
    let r = v.deposit(&u1(), 1234).unwrap();
    let w = v.withdraw(&u1(), r.shares).unwrap();
    assert_eq!(w.withdraw_amount, 1234);
}

#[test]
fn round_trip_loses_under_one_price_plus_one() {
    // balance 10 over shares 3: price 10/3
    let (b, s, a) = (10u64, 3u64, 20u64);
    let m = mint_quote(b, s, a) as u64;
    assert_eq!(m, 6);
    let out = payout_quote(b + a, s + m, m);
    assert_eq!(out, 20);
    let (b, s, a) = (10u64, 3u64, 11u64);
    let m = mint_quote(b, s, a) as u64;
    assert_eq!(m, 3);
    let out = payout_quote(b + a, s + m, m);
    assert_eq!(out, 10);
    assert!(out <= a && (a - out) * (s + m) < b + s + m);
}

#[test]
fn proportional_cost_basis() {
    let mut v = vault();
    v.deposit(&u1(), 1000).unwrap();
    v.withdraw(&u1(), 333).unwrap();
    let a = v.user_account(&u1()).unwrap();
    assert_eq!(a.shares, 667);
    assert_eq!(a.initial_deposit, 667);
    assert_eq!(scale(1000, 1, 3), 333);
    assert_eq!(scale(7, 3, 3), 7);
}

#[test]
fn lp_share_of_withdrawal() {
    let mut v = vault();
    v.deposit(&u1(), 1000).unwrap();
    let w = v.withdraw(&u1(), 250).unwrap();
    assert_eq!(w.lp_to_withdraw(80), 20);
    assert_eq!(w.lp_to_withdraw(3), 0);
}

#[test]
fn rebalance_moves_everything_to_best_pool() {
    let mut v = vault();
    v.deposit(&u1(), 1000).unwrap();
    assert!(v.refresh_apy(&"gamma".to_string(), 900));
    assert!(!v.refresh_apy(&"delta".to_string(), 900));
    let plan = v.rebalance().unwrap();
    assert_eq!(plan.target, "gamma");
    assert_eq!(plan.migrations, vec![Entry { key: "beta".to_string(), value: 1000 }]);
    assert_eq!(v.current_pool().as_deref(), Some("gamma"));
    // nothing moves until the caller reports the migration done
    assert_eq!(amount_in(&v, "beta"), Some(1000));
    assert!(v.complete_migration(&"beta".to_string()));
    assert_eq!(amount_in(&v, "beta"), None);
    assert_eq!(amount_in(&v, "gamma"), Some(1000));
    assert!(!v.complete_migration(&"beta".to_string()));
    assert!(!v.complete_migration(&"gamma".to_string()));
}

#[test]
fn rebalance_twice_is_quiet() {
    let mut v = vault();
    v.deposit(&u1(), 500).unwrap();
    v.refresh_apy(&"alpha".to_string(), 800);
    let first = v.rebalance().unwrap();
    for m in &first.migrations {
        assert!(v.complete_migration(&m.key));
    }
    let after_first: Vec<(String, u64)> = v.allocations().iter().map(|e| (e.key.clone(), e.value)).collect();
    let second = v.rebalance().unwrap();
    assert_eq!(second.target, first.target);
    assert!(second.migrations.is_empty());
    let after_second: Vec<(String, u64)> = v.allocations().iter().map(|e| (e.key.clone(), e.value)).collect();
    assert_eq!(after_first, after_second);
    assert_eq!(after_second, vec![("alpha".to_string(), 500)]);
}

#[test]
fn failed_migration_leaves_entry_and_withdrawal_draws_on_it() {
    let mut v = vault();
    v.deposit(&u1(), 1000).unwrap();
    v.refresh_apy(&"gamma".to_string(), 900);
    let _plan = v.rebalance().unwrap();
    // the migration out of beta failed: it is not reported
    v.deposit(&"U2".to_string(), 100).unwrap();
    assert_eq!(amount_in(&v, "beta"), Some(1000));
    assert_eq!(amount_in(&v, "gamma"), Some(100));
    // the payout comes from the current pool first, then from beta
    let w = v.withdraw(&u1(), 500).unwrap();
    assert_eq!(w.withdraw_amount, 500);
    assert_eq!(amount_in(&v, "gamma"), None);
    assert_eq!(amount_in(&v, "beta"), Some(600));
    assert_eq!(v.total_balance(), 600);
    assert_eq!(v.user_account(&u1()).unwrap().shares, 500);
    // a small withdrawal after fresh capital comes from the current pool
    v.deposit(&"U2".to_string(), 50).unwrap();
    v.withdraw(&"U2".to_string(), 30).unwrap();
    assert_eq!(amount_in(&v, "gamma"), Some(20));
    assert_eq!(amount_in(&v, "beta"), Some(600));
    // the retry succeeds
    let plan = v.rebalance().unwrap();
    assert_eq!(plan.migrations, vec![Entry { key: "beta".to_string(), value: 600 }]);
    assert!(v.complete_migration(&"beta".to_string()));
    assert_eq!(amount_in(&v, "gamma"), Some(620));
    assert_eq!(v.total_balance(), 620);
}

#[test]
fn lp_share_of_vault_position() {
    let mut v = vault();
    v.deposit(&u1(), 1000).unwrap();
    v.deposit(&"U2".to_string(), 1000).unwrap();
    let w = v.withdraw(&u1(), 500).unwrap();
    assert_eq!((w.burned, w.held, w.outstanding), (500, 1000, 2000));
    assert_eq!(w.vault_lp_to_withdraw(400), 100);
    assert_eq!(w.lp_to_withdraw(400), 200);
}

#[test]
fn tie_goes_to_first_name() {
    for _ in 0..3 {
        let mut r = PoolRegistry::new();
        assert!(r.add_pool(pool("zeta", 600)));
        assert!(r.add_pool(pool("eta", 600)));
        assert!(r.add_pool(pool("theta", 100)));
        let b = r.best_pool().unwrap();
        assert_eq!(r.list_pools()[b].name, "eta");
        let mut v = Vault::new(r);
        assert_eq!(v.rebalance().unwrap().target, "eta");
    }
}

#[test]
fn registry_sorted_and_unique() {
    let mut r = registry(&[("m", 1), ("b", 2), ("x", 3), ("ba", 4)]);
    assert!(!r.add_pool(pool("b", 9)));
    let names: Vec<&str> = r.list_pools().iter().map(|p| p.name.as_str()).collect();
    assert_eq!(names, vec!["b", "ba", "m", "x"]);
    assert_eq!(r.apy_of(&"ba".to_string()), Some(4));
    assert_eq!(r.apy_of(&"q".to_string()), None);
    assert!(r.set_apy(&"m".to_string(), 50));
    assert_eq!(r.apy_of(&"m".to_string()), Some(50));
    assert_eq!(r.pool_named(&"x".to_string()).unwrap().apy, 3);
    assert_eq!(r.best_pool(), Some(2));
    assert!(r.best_pool().is_some());
    assert_eq!(PoolRegistry::new().best_pool(), None);
}

#[test]
fn name_order() {
    let s = |x: &str| x.to_string();
    assert!(name_less(&s("abc"), &s("abd")));
    assert!(name_less(&s("ab"), &s("abc")));
    assert!(!name_less(&s("abc"), &s("ab")));
    assert!(!name_less(&s("abc"), &s("abc")));
    assert!(name_less(&s(""), &s("a")));
    assert!(name_less(&s("B"), &s("a")));
}

#[test]
fn info_and_user_value() {
    let mut v = vault();
    assert_eq!(v.get_info().apy, None);
    v.deposit(&u1(), 900).unwrap();
    let info = v.get_info();
    assert_eq!(info.total_balance, 900);
    assert_eq!(info.total_shares, 900);
    assert_eq!(info.apy, Some(700));
    assert_eq!(info.allocations, vec![Entry { key: "beta".to_string(), value: 900 }]);
    let u = v.get_user_account(&u1()).unwrap();
    assert_eq!((u.initial_deposit, u.shares, u.current_value), (900, 900, 900));
}
