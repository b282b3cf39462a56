//! Shared claim-settlement arithmetic.
//!
//! Both engine variants release funds the same way: walk the due checkpoints
//! in ascending order and, for each one, release `floor(remaining * percent /
//! 10000)` of the balance still held, shrinking the remainder as they go.
//! This module defines that fold as a spec function, proves its fundamental
//! laws (bounds, conservation across split claims, monotonicity in the
//! balance, exact exhaustion by a 100% checkpoint), and provides the
//! verified executable fold.

use vstd::arithmetic::div_mod::{
    lemma_div_by_multiple, lemma_div_is_ordered, lemma_div_pos_is_pos, lemma_fundamental_div_mod,
    lemma_hoist_over_denominator, lemma_mod_bound,
};
use vstd::arithmetic::mul::{lemma_mul_nonnegative, lemma_mul_upper_bound};
use vstd::arithmetic::power::{lemma_pow0, lemma_pow1, lemma_pow_adds, lemma_pow_positive, pow};
use vstd::prelude::*;

verus! {

/// One whole, in basis points: a percent of `BPS_SCALE` releases everything.
pub const BPS_SCALE: u32 = 10000;

/// The largest balance the settlement arithmetic accepts: any larger balance
/// could overflow `i128` when scaled by `BPS_SCALE`.
pub const MAX_BALANCE: i128 = 17014118346046923173168730371588410;

/// How much one checkpoint releases from a balance still held.
pub open spec fn release_of(balance: int, percent: int) -> int {
    (balance * percent) / 10000
}

/// The balance still held after applying `percents` in order, each to what
/// the previous ones left.
pub open spec fn remaining_after(balance: int, percents: Seq<int>) -> int
    decreases percents.len(),
{
    if percents.len() == 0 {
        balance
    } else {
        remaining_after(balance - release_of(balance, percents[0]), percents.skip(1))
    }
}

/// The total a claim over `percents` releases from `balance`.
pub open spec fn claimed_total(balance: int, percents: Seq<int>) -> int {
    balance - remaining_after(balance, percents)
}

/// A percent is a basis-point share of the whole.
pub open spec fn valid_percent(p: int) -> bool {
    0 <= p <= 10000
}

pub open spec fn all_valid_percents(ps: Seq<int>) -> bool {
    forall|i: int| 0 <= i < ps.len() ==> valid_percent(#[trigger] ps[i])
}

/// A balance the settlement arithmetic accepts.
pub open spec fn valid_balance(balance: int) -> bool {
    0 <= balance <= MAX_BALANCE as int
}

/// One checkpoint releases something between nothing and the whole balance.
pub proof fn lemma_release_bounds(balance: int, percent: int)
    requires
        0 <= balance,
        valid_percent(percent),
    ensures
        0 <= release_of(balance, percent) <= balance,
{
    lemma_mul_nonnegative(balance, percent);
    lemma_div_pos_is_pos(balance * percent, 10000);
    assert(balance * percent <= balance * 10000) by (nonlinear_arith)
        requires
            0 <= balance,
            percent <= 10000,
    ;
    lemma_div_is_ordered(balance * percent, balance * 10000, 10000);
    lemma_div_by_multiple(balance, 10000);
}

/// A claim never overdraws and never mints: what remains stays between
/// nothing and the starting balance.
pub proof fn lemma_remaining_bounds(balance: int, ps: Seq<int>)
    requires
        0 <= balance,
        all_valid_percents(ps),
    ensures
        0 <= remaining_after(balance, ps) <= balance,
    decreases ps.len(),
{
    if ps.len() > 0 {
        lemma_release_bounds(balance, ps[0]);
        lemma_remaining_bounds(balance - release_of(balance, ps[0]), ps.skip(1));
    }
}

/// Conservation across split claims: settling `s1` and then settling `s2`
/// against what `s1` left is the same as settling `s1 + s2` in one call. In
/// particular the amounts released by successive claims sum to the amount a
/// single combined claim would release.
pub proof fn lemma_remaining_after_append(balance: int, s1: Seq<int>, s2: Seq<int>)
    ensures
        remaining_after(balance, s1 + s2) == remaining_after(remaining_after(balance, s1), s2),
    decreases s1.len(),
{
    if s1.len() == 0 {
        assert(s1 + s2 =~= s2);
    } else {
        assert((s1 + s2)[0] == s1[0]);
        assert((s1 + s2).skip(1) =~= s1.skip(1) + s2);
        lemma_remaining_after_append(balance - release_of(balance, s1[0]), s1.skip(1), s2);
    }
}

/// A checkpoint of one whole leaves nothing behind: a claim whose percents
/// end in 10000 releases the entire balance, with no rounding residue.
pub proof fn lemma_full_release_exhausts(balance: int, ps: Seq<int>)
    requires
        0 <= balance,
        all_valid_percents(ps),
        ps.len() > 0,
        ps.last() == 10000,
    ensures
        remaining_after(balance, ps) == 0,
        claimed_total(balance, ps) == balance,
{
    let pre = ps.drop_last();
    let single = seq![ps.last()];
    assert(ps =~= pre + single);
    lemma_remaining_after_append(balance, pre, single);
    assert(all_valid_percents(pre));
    lemma_remaining_bounds(balance, pre);
    let r = remaining_after(balance, pre);
    assert(single[0] == 10000);
    lemma_div_by_multiple(r, 10000);
    assert(release_of(r, 10000) == r);
    assert(remaining_after(r, single) == remaining_after(r - release_of(r, single[0]), single.skip(1)));
    assert(single.skip(1) =~= Seq::<int>::empty());
    assert(remaining_after(0, single.skip(1)) == 0);
}

/// Growing the balance can only grow both what a claim releases and what it
/// leaves, and neither grows by more than the balance did. In particular a
/// deposit made before a claim is captured by it: the claim releases at
/// least as much as it would have without the deposit.
pub proof fn lemma_remaining_difference(b1: int, b2: int, ps: Seq<int>)
    requires
        0 <= b1 <= b2,
        all_valid_percents(ps),
    ensures
        0 <= remaining_after(b2, ps) - remaining_after(b1, ps) <= b2 - b1,
        0 <= claimed_total(b2, ps) - claimed_total(b1, ps) <= b2 - b1,
    decreases ps.len(),
{
    if ps.len() == 0 {
    } else {
        let p = ps[0];
        let r1 = release_of(b1, p);
        let r2 = release_of(b2, p);
        lemma_release_bounds(b1, p);
        lemma_release_bounds(b2, p);
        assert(r1 <= r2) by {
            assert(b1 * p <= b2 * p) by (nonlinear_arith)
                requires
                    b1 <= b2,
                    0 <= p,
            ;
            lemma_div_is_ordered(b1 * p, b2 * p, 10000);
        }
        assert(r2 <= r1 + (b2 - b1)) by {
            assert(b2 * p <= b1 * p + (b2 - b1) * 10000) by (nonlinear_arith)
                requires
                    b1 <= b2,
                    0 <= p <= 10000,
            ;
            lemma_div_is_ordered(b2 * p, b1 * p + (b2 - b1) * 10000, 10000);
            lemma_hoist_over_denominator(b1 * p, b2 - b1, 10000nat);
        }
        lemma_remaining_difference(b1 - r1, b2 - r2, ps.skip(1));
    }
}

/// What exact rational settlement would scale a balance by, kept in
/// integers: the product of `10000 - p` over the percents, in units of
/// `10000` per checkpoint.
pub open spec fn scale_product(ps: Seq<int>) -> int
    decreases ps.len(),
{
    if ps.len() == 0 {
        1
    } else {
        (10000 - ps[0]) * scale_product(ps.skip(1))
    }
}

proof fn lemma_scale_product_bounds(ps: Seq<int>)
    requires
        all_valid_percents(ps),
    ensures
        0 <= scale_product(ps) <= pow(10000, ps.len()),
    decreases ps.len(),
{
    if ps.len() == 0 {
        lemma_pow0(10000);
    } else {
        assert(all_valid_percents(ps.skip(1))) by {
            assert forall|i: int| 0 <= i < ps.skip(1).len() implies valid_percent(
                #[trigger] ps.skip(1)[i],
            ) by {
                assert(ps.skip(1)[i] == ps[i + 1]);
            }
        }
        lemma_scale_product_bounds(ps.skip(1));
        let rest = scale_product(ps.skip(1));
        lemma_mul_nonnegative(10000 - ps[0], rest);
        lemma_mul_upper_bound(10000 - ps[0], 10000, rest, pow(10000, ps.skip(1).len()));
        lemma_pow1(10000);
        lemma_pow_adds(10000, 1, ps.skip(1).len());
        assert(ps.len() == 1 + ps.skip(1).len());
        assert(pow(10000, ps.len()) == 10000 * pow(10000, ps.skip(1).len()));
    }
}

/// Law (bounded rounding loss): floor division loses, against exact
/// rational settlement, less than one smallest unit per checkpoint applied.
/// Scaled by `10000^k` to stay in integers: what a claim leaves behind is
/// never below the exact remainder `balance * scale_product / 10000^k`, and
/// exceeds it by less than the number of checkpoints — so what the claim
/// releases falls short of the exact release by less than one unit per
/// checkpoint.
pub proof fn lemma_rounding_loss_bound(balance: int, ps: Seq<int>)
    requires
        0 <= balance,
        all_valid_percents(ps),
    ensures
        balance * scale_product(ps) <= remaining_after(balance, ps) * pow(10000, ps.len()),
        remaining_after(balance, ps) * pow(10000, ps.len()) <= balance * scale_product(ps)
            + ps.len() * pow(10000, ps.len()),
    decreases ps.len(),
{
    if ps.len() == 0 {
        lemma_pow0(10000);
    } else {
        let p = ps[0];
        let rel = release_of(balance, p);
        let b1 = balance - rel;
        let rest = ps.skip(1);
        lemma_release_bounds(balance, p);
        assert(all_valid_percents(rest)) by {
            assert forall|i: int| 0 <= i < rest.len() implies valid_percent(#[trigger] rest[i]) by {
                assert(rest[i] == ps[i + 1]);
            }
        }
        lemma_rounding_loss_bound(b1, rest);
        lemma_scale_product_bounds(rest);
        let big_r = remaining_after(b1, rest);
        let pr = scale_product(rest);
        let q = pow(10000, rest.len());
        let k1 = rest.len() as int;
        lemma_pow_positive(10000, rest.len());
        lemma_pow1(10000);
        lemma_pow_adds(10000, 1, rest.len());
        assert(ps.len() == 1 + rest.len());
        assert(pow(10000, ps.len()) == 10000 * q);
        assert(remaining_after(balance, ps) == big_r);

        // one floor step, made exact: b1 * 10000 == balance * (10000 - p) + m
        lemma_fundamental_div_mod(balance * p, 10000);
        lemma_mod_bound(balance * p, 10000);
        let m = (balance * p) % 10000;
        assert(b1 * 10000 == balance * (10000 - p) + m) by (nonlinear_arith)
            requires
                b1 == balance - (balance * p) / 10000,
                balance * p == 10000 * ((balance * p) / 10000) + m,
        ;

        // lower bound: exact settlement never beats the computed remainder
        assert(balance * scale_product(ps) <= big_r * (10000 * q)) by (nonlinear_arith)
            requires
                b1 * pr <= big_r * q,
                b1 * 10000 == balance * (10000 - p) + m,
                scale_product(ps) == (10000 - p) * pr,
                0 <= m,
                0 <= pr,
                0 <= q,
        ;

        // upper bound: the computed remainder exceeds exact settlement by
        // less than one scaled unit per checkpoint
        assert(m * pr <= 9999 * q) by {
            lemma_mul_upper_bound(m, 9999, pr, q);
        }
        assert(big_r * (10000 * q) <= balance * scale_product(ps) + (k1 + 1) * (10000 * q))
            by (nonlinear_arith)
            requires
                big_r * q <= b1 * pr + k1 * q,
                b1 * 10000 == balance * (10000 - p) + m,
                scale_product(ps) == (10000 - p) * pr,
                m * pr <= 9999 * q,
                0 <= q,
                0 <= k1,
        ;
        assert(ps.len() as int == k1 + 1);
    }
}

/// The verified settlement fold: applies each percent, in order, to the
/// balance the earlier ones left, and returns the total released.
pub fn apply_unlock_percents(balance: i128, percents: &Vec<u64>) -> (claimed: i128)
    requires
        valid_balance(balance as int),
        forall|i: int| 0 <= i < percents@.len() ==> #[trigger] percents@[i] <= 10000,
    ensures
        claimed == claimed_total(balance as int, percents@.map_values(|p: u64| p as int)),
        0 <= claimed <= balance,
{
    let ghost ps = percents@.map_values(|p: u64| p as int);
    let mut remaining: i128 = balance;
    let mut i: usize = 0;
    proof {
        assert(ps.skip(0) =~= ps);
    }
    while i < percents.len()
        invariant
            0 <= i <= percents@.len(),
            0 <= remaining <= balance,
            valid_balance(balance as int),
            ps == percents@.map_values(|p: u64| p as int),
            forall|j: int| 0 <= j < percents@.len() ==> #[trigger] percents@[j] <= 10000,
            remaining_after(balance as int, ps) == remaining_after(
                remaining as int,
                ps.skip(i as int),
            ),
        decreases percents@.len() - i,
    {
        let p = percents[i];
        proof {
            assert(ps[i as int] == p as int);
            lemma_release_bounds(remaining as int, p as int);
            lemma_mul_upper_bound(remaining as int, MAX_BALANCE as int, p as int, 10000);
            assert(MAX_BALANCE as int * 10000 <= i128::MAX as int);
            assert(ps.skip(i as int).skip(1) =~= ps.skip(i + 1));
        }
        let release = ((remaining as u128) * (p as u128) / 10000) as i128;
        assert(release == release_of(remaining as int, p as int));
        remaining = remaining - release;
        i = i + 1;
    }
    proof {
        assert(ps.skip(ps.len() as int) =~= Seq::<int>::empty());
        lemma_remaining_bounds(balance as int, ps);
    }
    balance - remaining
}

} // verus!
