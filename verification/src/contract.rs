//! The time-watermarked lockup engine.
//!
//! The schedule is fixed while claiming: progress is tracked per asset as a
//! watermark, the time of that asset's last claim. A claim releases, for
//! every checkpoint that lies strictly after the watermark and at or before
//! the current time, the checkpoint's share of the balance the earlier
//! checkpoints left; once the final checkpoint has been reached the whole
//! live balance is released. Claiming always moves the watermark to the
//! current time, so an immediate second claim releases nothing.

use vstd::prelude::*;

use crate::errors::TokenLockupError;
use crate::settlement::{
    all_valid_percents, claimed_total, lemma_release_bounds, lemma_remaining_after_append,
    lemma_remaining_bounds, lemma_remaining_difference, release_of, remaining_after, valid_balance,
    MAX_BALANCE,
};
use crate::types::{Address, Unlock};
use crate::validation::{
    percents_in_range, previous_view, replacement_allowed, require_valid_unlocks,
    times_strictly_ascending, valid_schedule, validate_unlocks_spec,
};

verus! {

/// The schedule's final checkpoint has been reached: everything is claimable.
pub open spec fn fully_unlocked(unlocks: Seq<Unlock>, now: u64) -> bool {
    unlocks.len() > 0 && unlocks.last().time <= now
}

/// The percents of the checkpoints a claim at `now` settles: those strictly
/// after the `last_claim` watermark and not after `now`, in schedule order.
pub open spec fn due_percents(unlocks: Seq<Unlock>, last_claim: u64, now: u64) -> Seq<int>
    decreases unlocks.len(),
{
    if unlocks.len() == 0 {
        Seq::empty()
    } else {
        let rest = due_percents(unlocks.skip(1), last_claim, now);
        if last_claim < unlocks[0].time && unlocks[0].time <= now {
            seq![unlocks[0].percent as int] + rest
        } else {
            rest
        }
    }
}

/// What one claim releases for one asset: the full live balance once the
/// schedule is fully unlocked, otherwise the settlement fold over the due
/// checkpoints.
pub open spec fn claim_amount_spec(
    unlocks: Seq<Unlock>,
    last_claim: u64,
    now: u64,
    balance: int,
) -> int {
    if fully_unlocked(unlocks, now) {
        balance
    } else {
        claimed_total(balance, due_percents(unlocks, last_claim, now))
    }
}

/// The watermark in force for position `i` of a claim's asset list: `now` if
/// an earlier position already claimed the same asset, else the stored one.
pub open spec fn effective_watermark(
    state: TokenLockup,
    tokens: Seq<Address>,
    now: u64,
    i: int,
) -> u64 {
    if tokens.take(i).contains(tokens[i]) {
        now
    } else {
        state.last_claim_spec(tokens[i])
    }
}

pub proof fn lemma_due_percents_valid(unlocks: Seq<Unlock>, last_claim: u64, now: u64)
    requires
        percents_in_range(unlocks),
    ensures
        all_valid_percents(due_percents(unlocks, last_claim, now)),
    decreases unlocks.len(),
{
    if unlocks.len() > 0 {
        assert(percents_in_range(unlocks.skip(1))) by {
            assert forall|i: int| 0 <= i < unlocks.skip(1).len() implies 0 < (#[trigger] unlocks.skip(
                1,
            )[i]).percent <= 10000 by {
                assert(unlocks.skip(1)[i] == unlocks[i + 1]);
            }
        }
        lemma_due_percents_valid(unlocks.skip(1), last_claim, now);
        let rest = due_percents(unlocks.skip(1), last_claim, now);
        if last_claim < unlocks[0].time && unlocks[0].time <= now {
            let whole = seq![unlocks[0].percent as int] + rest;
            assert forall|i: int| 0 <= i < whole.len() implies 0 <= #[trigger] whole[i]
                <= 10000 by {
                if i > 0 {
                    assert(whole[i] == rest[i - 1]);
                }
            }
        }
    }
}

/// A claim releases something between nothing and the live balance.
pub proof fn lemma_claim_amount_bounds(unlocks: Seq<Unlock>, last_claim: u64, now: u64, balance: int)
    requires
        percents_in_range(unlocks),
        0 <= balance,
    ensures
        0 <= claim_amount_spec(unlocks, last_claim, now, balance) <= balance,
{
    if !fully_unlocked(unlocks, now) {
        lemma_due_percents_valid(unlocks, last_claim, now);
        lemma_remaining_bounds(balance, due_percents(unlocks, last_claim, now));
    }
}

/// Computes what a claim at `now` releases for one asset holding `balance`,
/// given the asset's `last_claim` watermark.
pub fn claimable_amount(unlocks: &Vec<Unlock>, last_claim: u64, now: u64, balance: i128) -> (r:
    i128)
    requires
        unlocks@.len() > 0,
        percents_in_range(unlocks@),
        valid_balance(balance as int),
    ensures
        r == claim_amount_spec(unlocks@, last_claim, now, balance as int),
        0 <= r <= balance,
{
    proof {
        lemma_claim_amount_bounds(unlocks@, last_claim, now, balance as int);
    }
    if unlocks[unlocks.len() - 1].time <= now {
        return balance;
    }
    let ghost dps = due_percents(unlocks@, last_claim, now);
    let mut remaining: i128 = balance;
    let mut i: usize = 0;
    proof {
        assert(unlocks@.skip(0) =~= unlocks@);
    }
    while i < unlocks.len()
        invariant
            0 <= i <= unlocks@.len(),
            0 <= remaining <= balance,
            valid_balance(balance as int),
            percents_in_range(unlocks@),
            dps == due_percents(unlocks@, last_claim, now),
            remaining_after(balance as int, dps) == remaining_after(
                remaining as int,
                due_percents(unlocks@.skip(i as int), last_claim, now),
            ),
        decreases unlocks@.len() - i,
    {
        let u = unlocks[i];
        let ghost tail = due_percents(unlocks@.skip(i as int), last_claim, now);
        proof {
            assert(unlocks@.skip(i as int)[0] == unlocks@[i as int]);
            assert(unlocks@.skip(i as int).skip(1) =~= unlocks@.skip(i + 1));
        }
        if last_claim < u.time && u.time <= now {
            proof {
                let rest = due_percents(unlocks@.skip(i + 1), last_claim, now);
                assert(tail == seq![u.percent as int] + rest);
                assert(tail[0] == u.percent as int);
                assert(tail.skip(1) =~= rest);
                lemma_release_bounds(remaining as int, u.percent as int);
                assert(remaining as int * u.percent as int <= MAX_BALANCE as int * 10000)
                    by (nonlinear_arith)
                    requires
                        0 <= remaining as int <= MAX_BALANCE as int,
                        0 <= u.percent as int <= 10000,
                ;
                assert(MAX_BALANCE as int * 10000 <= i128::MAX as int);
            }
            let release = ((remaining as u128) * (u.percent as u128) / 10000) as i128;
            assert(release == release_of(remaining as int, u.percent as int));
            remaining = remaining - release;
        }
        i = i + 1;
    }
    proof {
        assert(unlocks@.skip(unlocks@.len() as int) =~= Seq::<Unlock>::empty());
    }
    balance - remaining
}

/// The watermark an asset carries in an association list of last-claim
/// times: the value at its first entry, or the epoch if it has none.
pub closed spec fn lookup_last_claim(s: Seq<(Address, u64)>, token: Address) -> u64
    decreases s.len(),
{
    if s.len() == 0 {
        0
    } else if s[0].0 == token {
        s[0].1
    } else {
        lookup_last_claim(s.skip(1), token)
    }
}

proof fn lemma_lookup_update(s: Seq<(Address, u64)>, i: int, token: Address, time: u64, q: Address)
    requires
        0 <= i < s.len(),
        s[i].0 == token,
        forall|j: int| 0 <= j < i ==> (#[trigger] s[j]).0 != token,
    ensures
        lookup_last_claim(s.update(i, (token, time)), q) == if q == token {
            time
        } else {
            lookup_last_claim(s, q)
        },
    decreases i,
{
    let t = s.update(i, (token, time));
    if i == 0 {
        assert(t[0] == (token, time));
        if q != token {
            assert(t.skip(1) =~= s.skip(1));
        }
    } else {
        assert(t[0] == s[0]);
        assert(s[0].0 != token);
        if q == s[0].0 {
        } else {
            assert(t.skip(1) =~= s.skip(1).update(i - 1, (token, time)));
            assert(s.skip(1)[i - 1].0 == token);
            assert forall|j: int| 0 <= j < i - 1 implies (#[trigger] s.skip(1)[j]).0 != token by {
                assert(s.skip(1)[j] == s[j + 1]);
            }
            lemma_lookup_update(s.skip(1), i - 1, token, time, q);
        }
    }
}

proof fn lemma_lookup_push(s: Seq<(Address, u64)>, token: Address, time: u64, q: Address)
    requires
        forall|j: int| 0 <= j < s.len() ==> (#[trigger] s[j]).0 != token,
    ensures
        lookup_last_claim(s.push((token, time)), q) == if q == token {
            time
        } else {
            lookup_last_claim(s, q)
        },
    decreases s.len(),
{
    let t = s.push((token, time));
    if s.len() == 0 {
        assert(t[0] == (token, time));
        if q != token {
            assert(t.skip(1) =~= Seq::<(Address, u64)>::empty());
            assert(lookup_last_claim(t.skip(1), q) == 0);
            assert(lookup_last_claim(t, q) == 0);
            assert(lookup_last_claim(s, q) == 0);
        }
    } else {
        assert(s[0].0 != token);
        assert(t[0] == s[0]);
        if q == s[0].0 {
            assert(lookup_last_claim(t, q) == s[0].1);
            assert(lookup_last_claim(s, q) == s[0].1);
        } else {
            assert(t.skip(1) =~= s.skip(1).push((token, time)));
            assert forall|j: int| 0 <= j < s.skip(1).len() implies (#[trigger] s.skip(1)[j]).0
                != token by {
                assert(s.skip(1)[j] == s[j + 1]);
            }
            lemma_lookup_push(s.skip(1), token, time, q);
            assert(lookup_last_claim(t, q) == lookup_last_claim(t.skip(1), q));
            assert(lookup_last_claim(s, q) == lookup_last_claim(s.skip(1), q));
        }
    }
}

proof fn lemma_take_one_more_contains(s: Seq<Address>, i: int, t: Address)
    requires
        0 <= i < s.len(),
    ensures
        s.take(i + 1).contains(t) <==> (s.take(i).contains(t) || t == s[i]),
{
    assert(s.take(i + 1) =~= s.take(i).push(s[i]));
    if s.take(i).contains(t) {
        let k = choose|k: int| 0 <= k < s.take(i).len() && #[trigger] s.take(i)[k] == t;
        assert(s.take(i + 1)[k] == t);
    }
    if t == s[i] {
        assert(s.take(i + 1)[i] == t);
    }
    if s.take(i + 1).contains(t) && t != s[i] {
        let k = choose|k: int| 0 <= k < s.take(i + 1).len() && #[trigger] s.take(i + 1)[k] == t;
        assert(k < i);
        assert(s.take(i)[k] == t);
    }
}

/// The time-watermarked token lockup: an admin manages the schedule, the
/// owner claims, and each asset carries a watermark of its last claim time.
pub struct TokenLockup {
    initialized: bool,
    admin: Address,
    owner: Address,
    unlocks: Vec<Unlock>,
    last_claims: Vec<(Address, u64)>,
}

impl TokenLockup {
    pub closed spec fn is_init(self) -> bool {
        self.initialized
    }

    pub closed spec fn admin_spec(self) -> Address {
        self.admin
    }

    pub closed spec fn owner_spec(self) -> Address {
        self.owner
    }

    pub closed spec fn unlocks_seq(self) -> Seq<Unlock> {
        self.unlocks@
    }

    /// The watermark stored for `token`: the epoch if it never claimed.
    pub closed spec fn last_claim_spec(self, token: Address) -> u64 {
        lookup_last_claim(self.last_claims@, token)
    }

    /// An initialized lockup always holds a valid schedule.
    pub open spec fn wf(self) -> bool {
        self.is_init() ==> valid_schedule(self.unlocks_seq())
    }

    /// A fresh, uninitialized lockup.
    pub fn new() -> (s: Self)
        ensures
            !s.is_init(),
            s.wf(),
            forall|t: Address| s.last_claim_spec(t) == 0u64,
    {
        TokenLockup {
            initialized: false,
            admin: Address { id: 0 },
            owner: Address { id: 0 },
            unlocks: Vec::new(),
            last_claims: Vec::new(),
        }
    }

    /// Initialize the lockup with its admin, its owner and its schedule.
    /// Fails with `AlreadyInitializedError` on a second call and with the
    /// validator's error on an invalid schedule; on failure nothing changes.
    pub fn initialize(
        &mut self,
        admin: Address,
        owner: Address,
        unlocks: Vec<Unlock>,
        now: u64,
    ) -> (r: Result<(), TokenLockupError>)
        requires
            old(self).wf(),
        ensures
            final(self).wf(),
            old(self).is_init() ==> r == Result::<(), TokenLockupError>::Err(
                TokenLockupError::AlreadyInitializedError,
            ) && *final(self) == *old(self),
            !old(self).is_init() ==> r == validate_unlocks_spec(unlocks@, None, now),
            !old(self).is_init() ==> (r is Ok <==> valid_schedule(unlocks@)),
            r is Ok ==> {
                &&& final(self).is_init()
                &&& final(self).admin_spec() == admin
                &&& final(self).owner_spec() == owner
                &&& final(self).unlocks_seq() == unlocks@
                &&& forall|t: Address| final(self).last_claim_spec(t) == old(self).last_claim_spec(
                    t,
                )
            },
            r is Err ==> *final(self) == *old(self),
    {
        if self.initialized {
            return Err(TokenLockupError::AlreadyInitializedError);
        }
        proof {
            assert(previous_view(Option::<&Vec<Unlock>>::None) == Option::<Seq<Unlock>>::None);
        }
        let vr = require_valid_unlocks(&unlocks, None, now);
        if vr.is_ok() {
            self.unlocks = unlocks;
            self.admin = admin;
            self.owner = owner;
            self.initialized = true;
        }
        vr
    }

    /// Get the unlocks of the lockup.
    pub fn unlocks(&self) -> (r: Vec<Unlock>)
        ensures
            r@ == self.unlocks_seq(),
    {
        let mut out: Vec<Unlock> = Vec::new();
        let mut i: usize = 0;
        proof {
            assert(out@ =~= self.unlocks@.take(0));
        }
        while i < self.unlocks.len()
            invariant
                0 <= i <= self.unlocks@.len(),
                out@ == self.unlocks@.take(i as int),
            decreases self.unlocks@.len() - i,
        {
            out.push(self.unlocks[i]);
            proof {
                assert(out@ =~= self.unlocks@.take(i + 1));
            }
            i = i + 1;
        }
        proof {
            assert(out@ =~= self.unlocks@);
        }
        out
    }

    /// Get the admin address.
    pub fn admin(&self) -> (r: Address)
        ensures
            r == self.admin_spec(),
    {
        self.admin
    }

    /// Get the owner address.
    pub fn owner(&self) -> (r: Address)
        ensures
            r == self.owner_spec(),
    {
        self.owner
    }

    /// The watermark stored for `token`, the epoch if it never claimed.
    pub fn get_last_claim(&self, token: Address) -> (r: u64)
        ensures
            r == self.last_claim_spec(token),
    {
        let mut i: usize = 0;
        proof {
            assert(self.last_claims@.skip(0) =~= self.last_claims@);
        }
        while i < self.last_claims.len()
            invariant
                0 <= i <= self.last_claims@.len(),
                lookup_last_claim(self.last_claims@, token) == lookup_last_claim(
                    self.last_claims@.skip(i as int),
                    token,
                ),
                forall|j: int| 0 <= j < i ==> (#[trigger] self.last_claims@[j]).0 != token,
            decreases self.last_claims@.len() - i,
        {
            proof {
                assert(self.last_claims@.skip(i as int)[0] == self.last_claims@[i as int]);
                assert(self.last_claims@.skip(i as int).skip(1) =~= self.last_claims@.skip(i + 1));
            }
            let entry = self.last_claims[i];
            if entry.0.id == token.id {
                proof {
                    assert(entry.0 == token);
                }
                return entry.1;
            }
            i = i + 1;
        }
        proof {
            assert(self.last_claims@.skip(self.last_claims@.len() as int) =~= Seq::<(
                Address,
                u64,
            )>::empty());
        }
        0
    }

    /// Record `time` as the watermark for `token`, leaving every other
    /// asset's watermark and the rest of the state unchanged.
    pub fn set_last_claim(&mut self, token: Address, time: u64)
        ensures
            final(self).last_claim_spec(token) == time,
            forall|q: Address| q != token ==> final(self).last_claim_spec(q) == old(
                self,
            ).last_claim_spec(q),
            final(self).is_init() == old(self).is_init(),
            final(self).admin_spec() == old(self).admin_spec(),
            final(self).owner_spec() == old(self).owner_spec(),
            final(self).unlocks_seq() == old(self).unlocks_seq(),
    {
        let n = self.last_claims.len();
        let mut i: usize = 0;
        while i < n
            invariant
                0 <= i <= n,
                n == self.last_claims@.len(),
                self == old(self),
                forall|j: int| 0 <= j < i ==> (#[trigger] self.last_claims@[j]).0 != token,
            decreases n - i,
        {
            let entry = self.last_claims[i];
            if entry.0.id == token.id {
                proof {
                    assert(entry.0 == token);
                }
                self.last_claims[i] = (token, time);
                proof {
                    assert(self.last_claims@ == old(self).last_claims@.update(
                        i as int,
                        (token, time),
                    ));
                    assert forall|q: Address| true implies self.last_claim_spec(q) == (if q
                        == token {
                        time
                    } else {
                        old(self).last_claim_spec(q)
                    }) by {
                        lemma_lookup_update(old(self).last_claims@, i as int, token, time, q);
                    }
                }
                return ;
            }
            i = i + 1;
        }
        self.last_claims.push((token, time));
        proof {
            assert forall|q: Address| true implies self.last_claim_spec(q) == (if q == token {
                time
            } else {
                old(self).last_claim_spec(q)
            }) by {
                lemma_lookup_push(old(self).last_claims@, token, time, q);
            }
        }
    }

    /// (Only admin) Set new unlocks for the lockup. The new unlocks must be
    /// a valid schedule and retain any existing unlocks that have already
    /// passed their unlock time; a fully unlocked schedule cannot be
    /// replaced at all. On failure nothing changes.
    pub fn set_unlocks(&mut self, caller: Address, new_unlocks: Vec<Unlock>, now: u64) -> (r:
        Result<(), TokenLockupError>)
        requires
            old(self).wf(),
            old(self).is_init(),
        ensures
            final(self).wf(),
            caller != old(self).admin_spec() ==> r == Result::<(), TokenLockupError>::Err(
                TokenLockupError::UnauthorizedError,
            ) && *final(self) == *old(self),
            caller == old(self).admin_spec() ==> r == validate_unlocks_spec(
                new_unlocks@,
                Some(old(self).unlocks_seq()),
                now,
            ),
            caller == old(self).admin_spec() ==> (r is Ok <==> valid_schedule(new_unlocks@)
                && replacement_allowed(old(self).unlocks_seq(), new_unlocks@, now)),
            r is Ok ==> {
                &&& final(self).unlocks_seq() == new_unlocks@
                &&& final(self).is_init() == old(self).is_init()
                &&& final(self).admin_spec() == old(self).admin_spec()
                &&& final(self).owner_spec() == old(self).owner_spec()
                &&& forall|t: Address| final(self).last_claim_spec(t) == old(self).last_claim_spec(
                    t,
                )
            },
            r is Err ==> *final(self) == *old(self),
    {
        if caller.id != self.admin.id {
            return Err(TokenLockupError::UnauthorizedError);
        }
        proof {
            assert(caller == self.admin);
            assert(previous_view(Some(&self.unlocks)) == Some(old(self).unlocks_seq()));
        }
        let vr = require_valid_unlocks(&new_unlocks, Some(&self.unlocks), now);
        if vr.is_ok() {
            self.unlocks = new_unlocks;
        }
        vr
    }

    /// (Only owner) Claim the unlocked tokens. For each listed asset,
    /// `balances` holds its live balance; the result holds, per asset, the
    /// amount to transfer to the owner. Every listed asset's watermark is
    /// moved to `now`, whether or not anything was released for it.
    pub fn claim(&mut self, caller: Address, tokens: &Vec<Address>, balances: &Vec<i128>, now: u64)
        -> (r: Result<Vec<i128>, TokenLockupError>)
        requires
            old(self).wf(),
            old(self).is_init(),
            balances@.len() == tokens@.len(),
            forall|i: int| 0 <= i < balances@.len() ==> valid_balance(#[trigger] balances@[i] as int),
        ensures
            final(self).wf(),
            caller != old(self).owner_spec() ==> r == Result::<Vec<i128>, TokenLockupError>::Err(
                TokenLockupError::UnauthorizedError,
            ) && *final(self) == *old(self),
            caller == old(self).owner_spec() ==> (r matches Ok(amounts) && {
                &&& amounts@.len() == tokens@.len()
                &&& forall|i: int| 0 <= i < tokens@.len() ==> #[trigger] amounts@[i]
                    == claim_amount_spec(
                    old(self).unlocks_seq(),
                    effective_watermark(*old(self), tokens@, now, i),
                    now,
                    balances@[i] as int,
                )
                &&& forall|i: int| 0 <= i < tokens@.len() ==> 0 <= #[trigger] amounts@[i]
                    <= balances@[i]
                &&& forall|t: Address| final(self).last_claim_spec(t) == (if tokens@.contains(t) {
                    now
                } else {
                    old(self).last_claim_spec(t)
                })
                &&& final(self).unlocks_seq() == old(self).unlocks_seq()
                &&& final(self).is_init() && final(self).admin_spec() == old(self).admin_spec()
                    && final(self).owner_spec() == old(self).owner_spec()
            }),
    {
        if caller.id != self.owner.id {
            return Err(TokenLockupError::UnauthorizedError);
        }
        proof {
            assert(caller == self.owner);
        }
        let n = tokens.len();
        let mut amounts: Vec<i128> = Vec::new();
        let mut i: usize = 0;
        proof {
            assert(tokens@.take(0) =~= Seq::<Address>::empty());
        }
        while i < n
            invariant
                0 <= i <= n,
                n == tokens@.len(),
                balances@.len() == tokens@.len(),
                forall|k: int| 0 <= k < balances@.len() ==> valid_balance(
                    #[trigger] balances@[k] as int,
                ),
                amounts@.len() == i,
                old(self).wf(),
                old(self).is_init(),
                self.unlocks_seq() == old(self).unlocks_seq(),
                self.is_init() == old(self).is_init(),
                self.admin_spec() == old(self).admin_spec(),
                self.owner_spec() == old(self).owner_spec(),
                forall|t: Address| self.last_claim_spec(t) == (if tokens@.take(i as int).contains(t) {
                    now
                } else {
                    old(self).last_claim_spec(t)
                }),
                forall|j: int| 0 <= j < i ==> #[trigger] amounts@[j] == claim_amount_spec(
                    old(self).unlocks_seq(),
                    effective_watermark(*old(self), tokens@, now, j),
                    now,
                    balances@[j] as int,
                ),
                forall|j: int| 0 <= j < i ==> 0 <= #[trigger] amounts@[j] <= balances@[j],
            decreases n - i,
        {
            let token = tokens[i];
            let wm = self.get_last_claim(token);
            proof {
                assert(wm == effective_watermark(*old(self), tokens@, now, i as int));
            }
            let amount = claimable_amount(&self.unlocks, wm, now, balances[i]);
            self.set_last_claim(token, now);
            amounts.push(amount);
            proof {
                assert forall|t: Address| true implies self.last_claim_spec(t) == (if tokens@.take(
                    i + 1,
                ).contains(t) {
                    now
                } else {
                    old(self).last_claim_spec(t)
                }) by {
                    lemma_take_one_more_contains(tokens@, i as int, t);
                }
            }
            i = i + 1;
        }
        proof {
            assert(tokens@.take(n as int) =~= tokens@);
        }
        Ok(amounts)
    }
}

/// Law (full disbursement): once the final checkpoint's time has been
/// reached, a claim releases exactly the asset's full live balance,
/// whatever the watermark.
pub proof fn lemma_full_disbursement(unlocks: Seq<Unlock>, last_claim: u64, now: u64, balance: int)
    requires
        unlocks.len() > 0,
        unlocks.last().time <= now,
    ensures
        claim_amount_spec(unlocks, last_claim, now, balance) == balance,
{
}

/// Law (idempotent no-op): a claim moves the watermark to `now`; claiming
/// again at the same time, against the balance the first claim left,
/// releases nothing.
pub proof fn lemma_repeat_claim_releases_nothing(
    unlocks: Seq<Unlock>,
    last_claim: u64,
    now: u64,
    balance: int,
)
    requires
        unlocks.len() > 0,
        percents_in_range(unlocks),
        0 <= balance,
    ensures
        claim_amount_spec(
            unlocks,
            now,
            now,
            balance - claim_amount_spec(unlocks, last_claim, now, balance),
        ) == 0,
{
    lemma_claim_amount_bounds(unlocks, last_claim, now, balance);
    let left = balance - claim_amount_spec(unlocks, last_claim, now, balance);
    if fully_unlocked(unlocks, now) {
        assert(left == 0);
    }
    lemma_due_percents_empty_when_no_advance(unlocks, now);
    assert(claimed_total(left, due_percents(unlocks, now, now)) == left - left);
}

proof fn lemma_due_percents_empty_when_no_advance(unlocks: Seq<Unlock>, now: u64)
    ensures
        due_percents(unlocks, now, now) =~= Seq::<int>::empty(),
    decreases unlocks.len(),
{
    if unlocks.len() > 0 {
        lemma_due_percents_empty_when_no_advance(unlocks.skip(1), now);
    }
}

/// Law (late-deposit capture): a claim settles against the live balance, so
/// a larger balance — for instance after a deposit made since the last
/// claim — never releases less.
pub proof fn lemma_claim_monotone_in_balance(
    unlocks: Seq<Unlock>,
    last_claim: u64,
    now: u64,
    b1: int,
    b2: int,
)
    requires
        percents_in_range(unlocks),
        0 <= b1 <= b2,
    ensures
        claim_amount_spec(unlocks, last_claim, now, b1) <= claim_amount_spec(
            unlocks,
            last_claim,
            now,
            b2,
        ),
{
    if !fully_unlocked(unlocks, now) {
        lemma_due_percents_valid(unlocks, last_claim, now);
        lemma_remaining_difference(b1, b2, due_percents(unlocks, last_claim, now));
    }
}

/// A watermark below every unlock time gates nothing: any two such
/// watermarks leave the same checkpoints due.
proof fn lemma_due_percents_watermark_irrelevant(unlocks: Seq<Unlock>, w1: u64, w2: u64, now: u64)
    requires
        forall|i: int| 0 <= i < unlocks.len() ==> (#[trigger] unlocks[i]).time > w1
            && (#[trigger] unlocks[i]).time > w2,
    ensures
        due_percents(unlocks, w1, now) == due_percents(unlocks, w2, now),
    decreases unlocks.len(),
{
    if unlocks.len() > 0 {
        assert forall|i: int| 0 <= i < unlocks.skip(1).len() implies (#[trigger] unlocks.skip(
            1,
        )[i]).time > w1 && unlocks.skip(1)[i].time > w2 by {
            assert(unlocks.skip(1)[i] == unlocks[i + 1]);
        }
        lemma_due_percents_watermark_irrelevant(unlocks.skip(1), w1, w2, now);
    }
}

/// Checkpoints all beyond `now` leave nothing due.
proof fn lemma_due_percents_none_due(unlocks: Seq<Unlock>, last_claim: u64, now: u64)
    requires
        forall|i: int| 0 <= i < unlocks.len() ==> (#[trigger] unlocks[i]).time > now,
    ensures
        due_percents(unlocks, last_claim, now) == Seq::<int>::empty(),
    decreases unlocks.len(),
{
    if unlocks.len() > 0 {
        assert forall|i: int| 0 <= i < unlocks.skip(1).len() implies (#[trigger] unlocks.skip(
            1,
        )[i]).time > now by {
            assert(unlocks.skip(1)[i] == unlocks[i + 1]);
        }
        lemma_due_percents_none_due(unlocks.skip(1), last_claim, now);
    }
}

/// With ascending unlock times, what falls due over `(wm, t2]` is what falls
/// due over `(wm, t1]` followed by what falls due over `(t1, t2]`.
proof fn lemma_due_percents_split(unlocks: Seq<Unlock>, wm: u64, t1: u64, t2: u64)
    requires
        times_strictly_ascending(unlocks),
        wm <= t1 <= t2,
    ensures
        due_percents(unlocks, wm, t2) == due_percents(unlocks, wm, t1) + due_percents(
            unlocks,
            t1,
            t2,
        ),
    decreases unlocks.len(),
{
    if unlocks.len() == 0 {
        assert(due_percents(unlocks, wm, t1) + due_percents(unlocks, t1, t2) =~= Seq::<
            int,
        >::empty());
    } else {
        let rest = unlocks.skip(1);
        let u = unlocks[0];
        assert(times_strictly_ascending(rest)) by {
            assert forall|i: int| 1 <= i < rest.len() implies rest[i - 1].time
                < (#[trigger] rest[i]).time by {
                assert(rest[i] == unlocks[i + 1]);
                assert(rest[i - 1] == unlocks[i]);
            }
            if rest.len() > 0 {
                assert(rest[0] == unlocks[1]);
            }
        }
        assert forall|i: int| 0 <= i < rest.len() implies (#[trigger] rest[i]).time > u.time by {
            assert(rest[i] == unlocks[i + 1]);
            crate::validation::lemma_schedule_times_increase(unlocks, 0, i + 1);
        }
        lemma_due_percents_split(rest, wm, t1, t2);
        if wm < u.time && u.time <= t1 {
            assert(due_percents(unlocks, wm, t2) == seq![u.percent as int] + due_percents(
                rest,
                wm,
                t2,
            ));
            assert(due_percents(unlocks, t1, t2) == due_percents(rest, t1, t2));
            assert(seq![u.percent as int] + (due_percents(rest, wm, t1) + due_percents(
                rest,
                t1,
                t2,
            )) =~= (seq![u.percent as int] + due_percents(rest, wm, t1)) + due_percents(
                rest,
                t1,
                t2,
            ));
        } else if t1 < u.time && u.time <= t2 {
            assert(due_percents(unlocks, wm, t1) == due_percents(rest, wm, t1));
            assert forall|i: int| 0 <= i < rest.len() implies (#[trigger] rest[i]).time > t1 by {}
            lemma_due_percents_none_due(rest, wm, t1);
            lemma_due_percents_watermark_irrelevant(rest, wm, t1, t2);
            assert(due_percents(unlocks, wm, t1) =~= Seq::<int>::empty());
            assert(due_percents(unlocks, wm, t1) + due_percents(unlocks, t1, t2) =~= due_percents(
                unlocks,
                t1,
                t2,
            ));
            assert(due_percents(unlocks, wm, t2) == seq![u.percent as int] + due_percents(
                rest,
                wm,
                t2,
            ));
            assert(due_percents(unlocks, t1, t2) == seq![u.percent as int] + due_percents(
                rest,
                t1,
                t2,
            ));
        } else {
            assert(due_percents(unlocks, wm, t2) == due_percents(rest, wm, t2));
            assert(due_percents(unlocks, wm, t1) == due_percents(rest, wm, t1));
            assert(due_percents(unlocks, t1, t2) == due_percents(rest, t1, t2));
        }
    }
}

/// Law (conservation): claiming at `t1` and then again at `t2`, against the
/// balance the first claim left, releases in total exactly what one claim
/// at `t2` would have released. Entitlement is neither lost nor created by
/// claiming in instalments.
pub proof fn lemma_split_claim_conservation(
    unlocks: Seq<Unlock>,
    wm: u64,
    t1: u64,
    t2: u64,
    balance: int,
)
    requires
        unlocks.len() > 0,
        percents_in_range(unlocks),
        times_strictly_ascending(unlocks),
        wm <= t1 <= t2,
        0 <= balance,
    ensures
        claim_amount_spec(unlocks, wm, t1, balance) + claim_amount_spec(
            unlocks,
            t1,
            t2,
            balance - claim_amount_spec(unlocks, wm, t1, balance),
        ) == claim_amount_spec(unlocks, wm, t2, balance),
{
    lemma_claim_amount_bounds(unlocks, wm, t1, balance);
    let c1 = claim_amount_spec(unlocks, wm, t1, balance);
    let left = balance - c1;
    if fully_unlocked(unlocks, t2) {
        if fully_unlocked(unlocks, t1) {
            assert(c1 == balance);
        }
        assert(claim_amount_spec(unlocks, t1, t2, left) == left);
    } else {
        assert(!fully_unlocked(unlocks, t1));
        lemma_due_percents_split(unlocks, wm, t1, t2);
        lemma_remaining_after_append(
            balance,
            due_percents(unlocks, wm, t1),
            due_percents(unlocks, t1, t2),
        );
    }
}

/// Law: the fully-unlocked shortcut agrees with checkpoint-by-checkpoint
/// settlement. For a valid schedule on an asset that never claimed before
/// its first checkpoint, settling every checkpoint releases the whole
/// balance exactly: the final checkpoint of one whole leaves no residue.
pub proof fn lemma_settlement_exhausts_schedule(
    unlocks: Seq<Unlock>,
    last_claim: u64,
    now: u64,
    balance: int,
)
    requires
        valid_schedule(unlocks),
        last_claim < unlocks[0].time,
        unlocks.last().time <= now,
        0 <= balance,
    ensures
        claimed_total(balance, due_percents(unlocks, last_claim, now)) == balance,
{
    assert forall|i: int| 0 <= i < unlocks.len() implies (#[trigger] unlocks[i]).time <= now by {
        if i < unlocks.len() - 1 {
            crate::validation::lemma_schedule_times_increase(unlocks, i, unlocks.len() - 1);
        }
    }
    lemma_all_due(unlocks, last_claim, now);
    lemma_due_percents_valid(unlocks, last_claim, now);
    let dps = due_percents(unlocks, last_claim, now);
    let m = unlocks.map_values(|u: Unlock| u.percent as int);
    assert(dps == m);
    assert(m.len() == unlocks.len());
    assert(m[unlocks.len() - 1] == unlocks[unlocks.len() - 1].percent as int);
    assert(dps.last() == 10000);
    crate::settlement::lemma_full_release_exhausts(balance, dps);
}

/// When every checkpoint lies strictly after the watermark and at or before
/// `now`, the due percents are exactly the schedule's percents in order.
proof fn lemma_all_due(unlocks: Seq<Unlock>, last_claim: u64, now: u64)
    requires
        times_strictly_ascending(unlocks),
        unlocks.len() > 0 ==> last_claim < unlocks[0].time,
        forall|i: int| 0 <= i < unlocks.len() ==> (#[trigger] unlocks[i]).time <= now,
    ensures
        due_percents(unlocks, last_claim, now) =~= unlocks.map_values(|u: Unlock| u.percent as int),
    decreases unlocks.len(),
{
    if unlocks.len() > 0 {
        let rest = unlocks.skip(1);
        assert(times_strictly_ascending(rest)) by {
            assert forall|i: int| 1 <= i < rest.len() implies rest[i - 1].time
                < (#[trigger] rest[i]).time by {
                assert(rest[i] == unlocks[i + 1]);
                assert(rest[i - 1] == unlocks[i]);
            }
            if rest.len() > 0 {
                assert(rest[0] == unlocks[1]);
            }
        }
        assert(rest.len() > 0 ==> last_claim < rest[0].time) by {
            if rest.len() > 0 {
                assert(rest[0] == unlocks[1]);
            }
        }
        assert forall|i: int| 0 <= i < rest.len() implies (#[trigger] rest[i]).time <= now by {
            assert(rest[i] == unlocks[i + 1]);
        }
        lemma_all_due(rest, last_claim, now);
        assert(last_claim < unlocks[0].time && unlocks[0].time <= now);
    }
}

} // verus!
