//! Share arithmetic: the share price as an exact ratio, shares minted for
//! a deposit, the payout for burned shares, and proportional scaling.
use vstd::prelude::*;
use vstd::arithmetic::div_mod::{lemma_fundamental_div_mod, lemma_div_by_multiple, lemma_div_is_ordered};

verus! {

/// Shares minted for a deposit of `amount`, at the price before the deposit.
/// The first deposit into an empty vault mints one share per unit.
pub open spec fn minted_for(balance: nat, shares: nat, amount: nat) -> nat {
    if balance == 0 || shares == 0 {
        amount
    } else {
        amount * shares / balance
    }
}

/// Units paid out for `burned` shares, at the price before the withdrawal.
pub open spec fn payout_for(balance: nat, shares: nat, burned: nat) -> nat {
    if shares == 0 {
        burned
    } else {
        burned * balance / shares
    }
}

/// `whole` scaled by the fraction `part / of`, rounded down.
pub open spec fn scaled(whole: nat, part: nat, of: nat) -> nat {
    whole * part / of
}

/// Numerator of the share price: balance per share, or one when no
/// shares are outstanding.
pub open spec fn price_num(balance: nat, shares: nat) -> nat {
    if shares == 0 { 1 } else { balance }
}

/// Denominator of the share price.
pub open spec fn price_den(balance: nat, shares: nat) -> nat {
    if shares == 0 { 1 } else { shares }
}

/// The share price as an exact ratio `numerator / denominator`.
#[derive(Clone, Copy, Debug, PartialEq, Eq)]
pub struct SharePrice {
    pub numerator: u64,
    pub denominator: u64,
}

/// The share price of a vault holding `balance` units over `shares` shares.
pub fn price_of(balance: u64, shares: u64) -> (r: SharePrice)
    ensures
        r.numerator == price_num(balance as nat, shares as nat),
        r.denominator == price_den(balance as nat, shares as nat),
        r.denominator > 0,
{
    if shares > 0 {
        SharePrice { numerator: balance, denominator: shares }
    } else {
        SharePrice { numerator: 1, denominator: 1 }
    }
}

/// Shares minted for `amount` (as a wide integer: it may exceed `u64`).
pub fn mint_quote(balance: u64, shares: u64, amount: u64) -> (r: u128)
    ensures
        r == minted_for(balance as nat, shares as nat, amount as nat),
{
    if balance == 0 || shares == 0 {
        amount as u128
    } else {
        proof {
            lemma_wide_product(amount, shares);
        }
        let p = (amount as u128) * (shares as u128);
        p / (balance as u128)
    }
}

/// Units paid for `burned` shares; never more than `balance`.
pub fn payout_quote(balance: u64, shares: u64, burned: u64) -> (r: u64)
    requires
        0 < burned <= shares,
    ensures
        r == payout_for(balance as nat, shares as nat, burned as nat),
        r <= balance,
{
    let r = scale(balance, burned, shares);
    r
}

/// `whole * part / of`, rounded down; never more than `whole`.
pub fn scale(whole: u64, part: u64, of: u64) -> (r: u64)
    requires
        part <= of,
        of > 0,
    ensures
        r == scaled(whole as nat, part as nat, of as nat),
        r <= whole,
{
    proof {
        lemma_wide_product(whole, part);
    }
    let p = (whole as u128) * (part as u128);
    proof {
        assert(whole as nat * part as nat <= whole as nat * of as nat) by (nonlinear_arith)
            requires part <= of;
        assert((whole as nat * part as nat) / (of as nat) <= (whole as nat * of as nat) / (of as nat)) by {
            lemma_div_is_ordered((whole as nat * part as nat) as int, (whole as nat * of as nat) as int, of as int);
        }
        lemma_div_by_multiple(whole as int, of as int);
    }
    (p / (of as u128)) as u64
}

proof fn lemma_wide_product(x: u64, y: u64)
    ensures
        (x as nat) * (y as nat) <= u128::MAX,
{
    assert((x as nat) * (y as nat) <= (u64::MAX as nat) * (u64::MAX as nat)) by (nonlinear_arith)
        requires x <= u64::MAX, y <= u64::MAX;
}

proof fn lemma_floor(x: nat, d: nat)
    requires
        d > 0,
    ensures
        (x / d) * d <= x,
        x < (x / d) * d + d,
{
    lemma_fundamental_div_mod(x as int, d as int);
    assert((x / d) * d == d * (x / d)) by (nonlinear_arith);
}

/// A deposit never lowers the share price, and into a vault without
/// shares it leaves the price at exactly one.
pub proof fn lemma_deposit_price_monotone(balance: nat, shares: nat, amount: nat)
    requires
        (balance == 0) == (shares == 0),
        amount > 0,
    ensures
        ({
            let m = minted_for(balance, shares, amount);
            price_num(balance, shares) * price_den(balance + amount, shares + m)
                <= price_num(balance + amount, shares + m) * price_den(balance, shares)
        }),
        shares == 0 ==> price_num(balance + amount, shares + minted_for(balance, shares, amount))
            == price_den(balance + amount, shares + minted_for(balance, shares, amount)),
{
    let m = minted_for(balance, shares, amount);
    if shares > 0 {
        lemma_floor(amount * shares, balance);
        assert(m * balance <= amount * shares);
        assert(balance * (shares + m) <= (balance + amount) * shares) by (nonlinear_arith)
            requires m * balance <= amount * shares;
        assert(price_num(balance, shares) == balance);
        assert(price_den(balance, shares) == shares);
        assert(price_num(balance + amount, shares + m) == balance + amount);
        assert(price_den(balance + amount, shares + m) == shares + m);
        assert(price_num(balance, shares) * price_den(balance + amount, shares + m)
            <= price_num(balance + amount, shares + m) * price_den(balance, shares));
    } else {
        assert(m == amount);
        assert(price_num(balance + amount, shares + m) == amount);
        assert(price_den(balance + amount, shares + m) == amount);
        assert(price_num(balance, shares) == 1);
        assert(price_den(balance, shares) == 1);
        assert(price_num(balance, shares) * price_den(balance + amount, shares + m) == amount) by (nonlinear_arith)
            requires price_num(balance, shares) == 1, price_den(balance + amount, shares + m) == amount;
        assert(price_num(balance + amount, shares + m) * price_den(balance, shares) == amount) by (nonlinear_arith)
            requires price_den(balance, shares) == 1, price_num(balance + amount, shares + m) == amount;
    }
}

/// Depositing `amount` and at once withdrawing every share it minted pays
/// out no more than `amount`, and less by under one share price plus one
/// unit; at a share price of one it pays out exactly `amount`.
pub proof fn lemma_round_trip(balance: nat, shares: nat, amount: nat)
    requires
        (balance == 0) == (shares == 0),
        amount > 0,
        minted_for(balance, shares, amount) > 0,
    ensures
        ({
            let m = minted_for(balance, shares, amount);
            let out = payout_for(balance + amount, shares + m, m);
            &&& out <= amount
            &&& (amount - out) * (shares + m) < balance + shares + m
            &&& price_num(balance, shares) == price_den(balance, shares) ==> out == amount
        }),
{
    let m = minted_for(balance, shares, amount);
    let out = payout_for(balance + amount, shares + m, m);
    let b = balance;
    let s = shares;
    let a = amount;
    lemma_floor(m * (b + a), s + m);
    assert(out * (s + m) <= m * (b + a));
    assert(m * (b + a) < out * (s + m) + (s + m));
    if s == 0 {
        assert(m == a);
        assert(m * (b + a) == a * a);
        assert(s + m == a);
        lemma_div_by_multiple(a as int, a as int);
        assert(a * a / a == a) by {
            assert(a * a == a * a);
        }
        assert(out == a);
        assert((a - out) * (s + m) == 0) by (nonlinear_arith)
            requires out == a;
    } else {
        lemma_floor(a * s, b);
        assert(m * b <= a * s);
        assert(a * s < m * b + b);
        assert(m * (b + a) <= a * (s + m)) by (nonlinear_arith)
            requires m * b <= a * s;
        assert(out <= a) by (nonlinear_arith)
            requires out * (s + m) <= m * (b + a), m * (b + a) <= a * (s + m), s + m > 0;
        assert((a - out) * (s + m) < b + s + m) by (nonlinear_arith)
            requires
                m * (b + a) < out * (s + m) + (s + m),
                a * s < m * b + b,
                out <= a;
        if b == s {
            assert(m == a) by {
                lemma_div_by_multiple(a as int, s as int);
                assert(a * s / b == a);
            }
            assert(m * (b + a) == a * (s + m)) by (nonlinear_arith)
                requires m == a, b == s;
            lemma_div_by_multiple(a as int, (s + m) as int);
            assert(out == a);
        }
    }
}

/// Burning every share pays out the whole balance; burning fewer pays out
/// less than the whole.
pub proof fn lemma_payout_whole_or_part(balance: nat, shares: nat, burned: nat)
    requires
        0 < burned <= shares,
        balance > 0,
    ensures
        burned == shares ==> payout_for(balance, shares, burned) == balance,
        burned < shares ==> payout_for(balance, shares, burned) < balance,
{
    if burned == shares {
        lemma_div_by_multiple(balance as int, shares as int);
        assert(burned * balance == balance * shares) by (nonlinear_arith)
            requires burned == shares;
    } else {
        lemma_floor(burned * balance, shares);
        let q = burned * balance / shares;
        assert(q < balance) by (nonlinear_arith)
            requires q * shares <= burned * balance, burned < shares, balance > 0, shares > 0;
    }
}

} // verus!
