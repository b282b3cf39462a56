use token_lockup::contract::TokenLockup;
use token_lockup::errors::TokenLockupError;
use token_lockup::types::{Address, Unlock};

fn addr(id: u64) -> Address {
    Address { id }
}

fn u(time: u64, percent: u32) -> Unlock {
    Unlock { time, percent }
}

/// Claims for the given tokens at `now`, moves the released amounts from the
/// lockup's balances to the owner's, and returns the released amounts.
fn claim_and_transfer(
    lockup: &mut TokenLockup,
    owner: Address,
    tokens: &[Address],
    lockup_balances: &mut [i128],
    owner_balances: &mut [i128],
    now: u64,
) {
    let token_vec: Vec<Address> = tokens.to_vec();
    let balance_vec: Vec<i128> = lockup_balances.to_vec();
    let amounts = lockup
        .claim(owner, &token_vec, &balance_vec, now)
        .expect("claim should succeed for the owner");
    assert_eq!(amounts.len(), tokens.len());
    for i in 0..tokens.len() {
        lockup_balances[i] -= amounts[i];
        owner_balances[i] += amounts[i];
    }
}

/// Half of the tokens at a first cliff after 10k seconds, then the remaining
/// half in 10 installments every 1k seconds: eleven tranches in all.
fn eleven_tranche_schedule(now: u64) -> Vec<Unlock> {
    vec![
        u(now + 10000, 5000),
        u(now + 11000, 10000 / 10),
        u(now + 12000, 10000 / 9),
        u(now + 13000, 10000 / 8),
        u(now + 14000, 10000 / 7),
        u(now + 15000, 10000 / 6),
        u(now + 16000, 10000 / 5),
        u(now + 17000, 10000 / 4),
        u(now + 18000, 10000 / 3),
        u(now + 19000, 10000 / 2),
        u(now + 20000, 10000),
    ]
}

#[test]
fn test_claim_test_lockup_claim() {
    let bombadil = addr(1);
    let frodo = addr(2);
    let token_1 = addr(10);
    let token_2 = addr(11);
    let now: u64 = 1441065600;

    let unlocks = eleven_tranche_schedule(now);
    let mut lockup = TokenLockup::new();
    lockup.initialize(bombadil, frodo, unlocks, now).unwrap();

    // send tokens to lockup
    let token_1_total: i128 = 1_000 * 10i128.pow(7);
    let token_2_total: i128 = 400_000 * 10i128.pow(7);
    let mut lockup_bal = [token_1_total, token_2_total];
    let mut frodo_bal = [0i128, 0i128];
    let both = [token_1, token_2];

    // verify owner cannot claim early: nothing is due yet
    let t = now + 5000;
    claim_and_transfer(&mut lockup, frodo, &both, &mut lockup_bal, &mut frodo_bal, t);

    // validate claim requires the owner
    let result = lockup.claim(bombadil, &both.to_vec(), &lockup_bal.to_vec(), t);
    assert_eq!(result, Err(TokenLockupError::UnauthorizedError));

    // validate no tokens moved
    assert_eq!(frodo_bal[0], 0);
    assert_eq!(frodo_bal[1], 0);
    assert_eq!(lockup_bal[0], token_1_total);
    assert_eq!(lockup_bal[1], token_2_total);

    // claim after first tranche
    let t = now + 10000;
    claim_and_transfer(&mut lockup, frodo, &both, &mut lockup_bal, &mut frodo_bal, t);
    assert_eq!(frodo_bal[0], token_1_total / 2);
    assert_eq!(frodo_bal[1], token_2_total / 2);
    assert_eq!(lockup_bal[0], token_1_total / 2);
    assert_eq!(lockup_bal[1], token_2_total / 2);

    // verify duplicate claims within the same tranche don't send tokens
    let t = now + 10999;
    claim_and_transfer(&mut lockup, frodo, &both, &mut lockup_bal, &mut frodo_bal, t);
    assert_eq!(frodo_bal[0], token_1_total / 2);
    assert_eq!(frodo_bal[1], token_2_total / 2);
    assert_eq!(lockup_bal[0], token_1_total / 2);
    assert_eq!(lockup_bal[1], token_2_total / 2);

    // claim after second tranche and verify individual token claims
    let t = now + 11099;
    claim_and_transfer(&mut lockup, frodo, &both, &mut lockup_bal, &mut frodo_bal, t);
    assert_eq!(frodo_bal[0], token_1_total / 2 + token_1_total / 20);
    assert_eq!(frodo_bal[1], token_2_total / 2 + token_2_total / 20);
    assert_eq!(lockup_bal[0], token_1_total / 2 - token_1_total / 20);
    assert_eq!(lockup_bal[1], token_2_total / 2 - token_2_total / 20);

    // claim only token 1 for the third tranche and verify token 2 does not
    // miss its payment when the fourth tranche is claimed
    let t = now + 12099;
    {
        let tokens = [token_1];
        let mut lb = [lockup_bal[0]];
        let mut fb = [frodo_bal[0]];
        claim_and_transfer(&mut lockup, frodo, &tokens, &mut lb, &mut fb, t);
        lockup_bal[0] = lb[0];
        frodo_bal[0] = fb[0];
    }
    // rounding of 10000 / 9
    assert_eq!(
        frodo_bal[0],
        token_1_total / 2 + 2 * token_1_total / 20 - 50000
    );
    assert_eq!(frodo_bal[1], token_2_total / 2 + token_2_total / 20);
    assert_eq!(
        lockup_bal[0],
        token_1_total / 2 - 2 * token_1_total / 20 + 50000
    );
    assert_eq!(lockup_bal[1], token_2_total / 2 - token_2_total / 20);

    // claim both tokens for the 4th tranche; rounding of 10000 / 9 still
    // leaves numbers off
    let t = now + 13099;
    claim_and_transfer(&mut lockup, frodo, &both, &mut lockup_bal, &mut frodo_bal, t);
    assert_eq!(
        frodo_bal[0],
        token_1_total / 2 + 3 * token_1_total / 20 - 43750
    );
    assert_eq!(
        frodo_bal[1],
        token_2_total / 2 + 3 * token_2_total / 20 - 17500000
    );
    assert_eq!(
        lockup_bal[0],
        token_1_total / 2 - 3 * token_1_total / 20 + 43750
    );
    assert_eq!(
        lockup_bal[1],
        token_2_total / 2 - 3 * token_2_total / 20 + 17500000
    );

    // claim the next 5 tranches (to the 9th tranche) at once
    let t = now + 18099;
    claim_and_transfer(&mut lockup, frodo, &both, &mut lockup_bal, &mut frodo_bal, t);
    assert_eq!(
        frodo_bal[0],
        token_1_total / 2 + 8 * token_1_total / 20 - 209183
    );
    assert_eq!(
        frodo_bal[1],
        token_2_total / 2 + 8 * token_2_total / 20 - 83672718
    );
    assert_eq!(
        lockup_bal[0],
        token_1_total / 2 - 8 * token_1_total / 20 + 209183
    );
    assert_eq!(
        lockup_bal[1],
        token_2_total / 2 - 8 * token_2_total / 20 + 83672718
    );

    // inflate token 2's balance. Two claims are left: the next is 50% of the
    // remainder, the last is everything
    let inflation_amount = 5000 * 10i128.pow(7);
    lockup_bal[1] += inflation_amount;
    let t = now + 19099;
    claim_and_transfer(&mut lockup, frodo, &both, &mut lockup_bal, &mut frodo_bal, t);
    assert_eq!(
        frodo_bal[0],
        token_1_total / 2 + 9 * token_1_total / 20 - 104592
    );
    assert_eq!(
        frodo_bal[1],
        token_2_total / 2 + 9 * token_2_total / 20 + inflation_amount / 2 - 41836359
    );
    assert_eq!(
        lockup_bal[0],
        token_1_total / 2 - 9 * token_1_total / 20 + 104592
    );
    assert_eq!(
        lockup_bal[1],
        token_2_total / 2 - 9 * token_2_total / 20 + inflation_amount / 2 + 41836359
    );

    // validate everything, rounding losses included, is claimed after all
    // unlocks are done
    let t = now + 20000;
    claim_and_transfer(&mut lockup, frodo, &both, &mut lockup_bal, &mut frodo_bal, t);
    assert_eq!(frodo_bal[0], token_1_total);
    assert_eq!(frodo_bal[1], token_2_total + inflation_amount);
    assert_eq!(lockup_bal[0], 0);
    assert_eq!(lockup_bal[1], 0);
}

#[test]
fn test_lockup_claim_at_end() {
    let bombadil = addr(1);
    let frodo = addr(2);
    let token_1 = addr(10);
    let token_2 = addr(11);
    let now: u64 = 1441065600;

    let unlocks = eleven_tranche_schedule(now);
    let mut lockup = TokenLockup::new();
    lockup.initialize(bombadil, frodo, unlocks, now).unwrap();

    let token_1_total: i128 = 1_000 * 10i128.pow(7);
    let token_2_total: i128 = 400_000 * 10i128.pow(7);
    let mut lockup_bal = [token_1_total, token_2_total];
    let mut frodo_bal = [0i128, 0i128];
    let both = [token_1, token_2];

    // validate everything gets claimed
    let t = now + 20000;
    claim_and_transfer(&mut lockup, frodo, &both, &mut lockup_bal, &mut frodo_bal, t);
    assert_eq!(frodo_bal[0], token_1_total);
    assert_eq!(frodo_bal[1], token_2_total);
    assert_eq!(lockup_bal[0], 0);
    assert_eq!(lockup_bal[1], 0);

    // time travel and validate any future tokens can be claimed by the owner
    let t = t + 999999999999;
    let inflation_amount: i128 = 1_000 * 10i128.pow(7);
    lockup_bal[0] += inflation_amount;
    {
        let tokens = [token_1];
        let mut lb = [lockup_bal[0]];
        let mut fb = [frodo_bal[0]];
        claim_and_transfer(&mut lockup, frodo, &tokens, &mut lb, &mut fb, t);
        lockup_bal[0] = lb[0];
        frodo_bal[0] = fb[0];
    }
    assert_eq!(frodo_bal[0], token_1_total + inflation_amount);
}

#[test]
fn two_checkpoint_schedule_releases_half_then_rest() {
    let admin = addr(1);
    let owner = addr(2);
    let asset = addr(10);
    let t: u64 = 1000;
    let unlocks = vec![u(t + 10000, 5000), u(t + 20000, 10000)];
    let mut lockup = TokenLockup::new();
    lockup.initialize(admin, owner, unlocks, t).unwrap();

    let mut balance: i128 = 1_000_000_000;
    let amounts = lockup
        .claim(owner, &vec![asset], &vec![balance], t + 10000)
        .unwrap();
    assert_eq!(amounts, vec![500_000_000]);
    balance -= amounts[0];
    assert_eq!(balance, 500_000_000);

    // the second claim takes the fully unlocked path and leaves nothing
    let amounts = lockup
        .claim(owner, &vec![asset], &vec![balance], t + 20000)
        .unwrap();
    assert_eq!(amounts, vec![500_000_000]);
    balance -= amounts[0];
    assert_eq!(balance, 0);
}

#[test]
fn claim_twice_without_time_advance_releases_nothing() {
    let admin = addr(1);
    let owner = addr(2);
    let asset = addr(10);
    let t: u64 = 50;
    let unlocks = vec![u(100, 5000), u(200, 10000)];
    let mut lockup = TokenLockup::new();
    lockup.initialize(admin, owner, unlocks, t).unwrap();

    let mut balance: i128 = 1_000_000;
    let amounts = lockup.claim(owner, &vec![asset], &vec![balance], 150).unwrap();
    assert_eq!(amounts, vec![500_000]);
    balance -= amounts[0];

    let amounts = lockup.claim(owner, &vec![asset], &vec![balance], 150).unwrap();
    assert_eq!(amounts, vec![0]);
}

#[test]
fn late_deposit_is_captured_by_later_checkpoints() {
    let admin = addr(1);
    let owner = addr(2);
    let asset = addr(10);
    let t: u64 = 0;
    let unlocks = vec![u(100, 5000), u(200, 5000), u(300, 10000)];
    let mut lockup = TokenLockup::new();
    lockup.initialize(admin, owner, unlocks, t).unwrap();

    let mut balance: i128 = 1000;
    let amounts = lockup.claim(owner, &vec![asset], &vec![balance], 100).unwrap();
    assert_eq!(amounts, vec![500]);
    balance -= amounts[0];
    assert_eq!(balance, 500);

    // a deposit after the first checkpoint joins the unvested remainder
    balance += 1000;
    let amounts = lockup.claim(owner, &vec![asset], &vec![balance], 200).unwrap();
    assert_eq!(amounts, vec![750]);
}

#[test]
fn split_claims_release_the_same_total_as_one_claim() {
    let admin = addr(1);
    let owner = addr(2);
    let asset = addr(10);
    let unlocks = vec![u(10, 3333), u(20, 3333), u(30, 10000)];

    // claim checkpoint by checkpoint
    let mut lockup = TokenLockup::new();
    lockup.initialize(admin, owner, unlocks.clone(), 0).unwrap();
    let mut balance: i128 = 1000;
    let mut released: i128 = 0;
    for now in [10u64, 20, 30] {
        let amounts = lockup.claim(owner, &vec![asset], &vec![balance], now).unwrap();
        balance -= amounts[0];
        released += amounts[0];
    }
    assert_eq!(released, 1000);
    assert_eq!(balance, 0);

    // one claim over the first two checkpoints equals the two instalments
    let mut lockup = TokenLockup::new();
    lockup.initialize(admin, owner, unlocks.clone(), 0).unwrap();
    let once = lockup.claim(owner, &vec![asset], &vec![1000], 25).unwrap();

    let mut lockup = TokenLockup::new();
    lockup.initialize(admin, owner, unlocks, 0).unwrap();
    let first = lockup.claim(owner, &vec![asset], &vec![1000], 10).unwrap();
    let second = lockup
        .claim(owner, &vec![asset], &vec![1000 - first[0]], 20)
        .unwrap();
    assert_eq!(first[0], 333);
    assert_eq!(second[0], 222);
    assert_eq!(once[0], first[0] + second[0]);
}

#[test]
fn claiming_one_token_keeps_other_watermarks() {
    let admin = addr(1);
    let owner = addr(2);
    let asset_a = addr(10);
    let asset_b = addr(11);
    let unlocks = vec![u(100, 5000), u(200, 10000)];
    let mut lockup = TokenLockup::new();
    lockup.initialize(admin, owner, unlocks, 0).unwrap();

    let amounts = lockup.claim(owner, &vec![asset_a], &vec![1000], 150).unwrap();
    assert_eq!(amounts, vec![500]);
    assert_eq!(lockup.get_last_claim(asset_a), 150);
    assert_eq!(lockup.get_last_claim(asset_b), 0);

    // the second asset still collects the first checkpoint later
    let amounts = lockup.claim(owner, &vec![asset_b], &vec![2000], 150).unwrap();
    assert_eq!(amounts, vec![1000]);
}
