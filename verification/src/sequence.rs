//! The sequence-consuming lockup engine.
//!
//! Checkpoints are keyed by a ledger sequence number and edited one at a
//! time; there is no per-asset progress. A claim names an existing
//! checkpoint at or before the current sequence, settles for every listed
//! asset the percents of all checkpoints up to and including it, and then
//! removes that whole prefix from the schedule for good: the consumed prefix
//! is shared, so assets left out of the call lose it.

use vstd::prelude::*;

use crate::errors::TokenLockupError;
use crate::settlement::{apply_unlock_percents, claimed_total, valid_balance};
use crate::types::Address;
use crate::unlocks::{
    entries_sorted, find_unlock_with_sequence, lemma_lookup_absent, lemma_lookup_at,
    lemma_lookup_exists, lemma_sorted_key_at_least_index, lookup_entry, remove_past_unlocks,
    UnlockMap,
};

verus! {

/// The percents of the checkpoints at or before `sequence`, in key order.
pub open spec fn percents_upto(s: Seq<(u32, u64)>, sequence: u32) -> Seq<int>
    decreases s.len(),
{
    if s.len() == 0 {
        Seq::empty()
    } else {
        let rest = percents_upto(s.skip(1), sequence);
        if s[0].0 <= sequence {
            seq![s[0].1 as int] + rest
        } else {
            rest
        }
    }
}

proof fn lemma_percents_upto_none(s: Seq<(u32, u64)>, sequence: u32)
    requires
        forall|j: int| 0 <= j < s.len() ==> (#[trigger] s[j]).0 > sequence,
    ensures
        percents_upto(s, sequence) =~= Seq::<int>::empty(),
    decreases s.len(),
{
    if s.len() > 0 {
        assert forall|j: int| 0 <= j < s.skip(1).len() implies (#[trigger] s.skip(1)[j]).0
            > sequence by {
            assert(s.skip(1)[j] == s[j + 1]);
        }
        lemma_percents_upto_none(s.skip(1), sequence);
    }
}

/// In a sorted entry list the checkpoints at or before `sequence` are
/// exactly the prefix ending at its position.
proof fn lemma_percents_upto_prefix(s: Seq<(u32, u64)>, sequence: u32, idx: int)
    requires
        entries_sorted(s),
        0 <= idx < s.len(),
        s[idx].0 <= sequence,
        idx + 1 == s.len() || s[idx + 1].0 > sequence,
    ensures
        percents_upto(s, sequence) == s.take(idx + 1).map_values(|e: (u32, u64)| e.1 as int),
    decreases s.len(),
{
    assert(s[0].0 <= sequence) by {
        if idx > 0 {
            assert(s[0].0 < s[idx].0);
        }
    }
    let rest = s.skip(1);
    if idx == 0 {
        assert forall|j: int| 0 <= j < rest.len() implies (#[trigger] rest[j]).0 > sequence by {
            assert(rest[j] == s[j + 1]);
            if j > 0 {
                assert(s[1].0 < s[j + 1].0);
            }
        }
        lemma_percents_upto_none(rest, sequence);
        assert(percents_upto(s, sequence) =~= s.take(1).map_values(|e: (u32, u64)| e.1 as int));
    } else {
        assert(entries_sorted(rest)) by {
            assert forall|a: int, b: int| 0 <= a < b < rest.len() implies (#[trigger] rest[a]).0
                < (#[trigger] rest[b]).0 by {
                assert(rest[a] == s[a + 1] && rest[b] == s[b + 1]);
            }
        }
        assert(rest[idx - 1] == s[idx]);
        assert(idx == s.len() - 1 || rest[idx] == s[idx + 1]);
        lemma_percents_upto_prefix(rest, sequence, idx - 1);
        assert(percents_upto(s, sequence) =~= s.take(idx + 1).map_values(
            |e: (u32, u64)| e.1 as int,
        )) by {
            let lhs = seq![s[0].1 as int] + rest.take(idx).map_values(|e: (u32, u64)| e.1 as int);
            assert(percents_upto(s, sequence) == lhs);
            assert forall|m: int| 0 <= m < idx + 1 implies lhs[m] == (#[trigger] s.take(idx + 1)[m]).1
                as int by {
                if m > 0 {
                    assert(rest.take(idx)[m - 1] == s[m]);
                }
            }
        }
    }
}

/// Claiming a checkpoint leaves exactly the later checkpoints behind: the
/// percents due up to `k2` are those due up to `k1` followed by those due up
/// to `k2` of what remains after `k1`'s prefix is consumed.
proof fn lemma_percents_upto_split(s: Seq<(u32, u64)>, idx: int, k1: u32, k2: u32)
    requires
        entries_sorted(s),
        0 <= idx < s.len(),
        s[idx].0 == k1,
        k1 <= k2,
    ensures
        percents_upto(s, k2) == percents_upto(s, k1) + percents_upto(s.skip(idx + 1), k2),
    decreases s.len(),
{
    let rest = s.skip(1);
    assert(entries_sorted(rest)) by {
        assert forall|a: int, b: int| 0 <= a < b < rest.len() implies (#[trigger] rest[a]).0
            < (#[trigger] rest[b]).0 by {
            assert(rest[a] == s[a + 1] && rest[b] == s[b + 1]);
        }
    }
    if idx == 0 {
        assert(s[0].0 == k1 && k1 <= k2);
        assert forall|j: int| 0 <= j < rest.len() implies (#[trigger] rest[j]).0 > k1 by {
            assert(rest[j] == s[j + 1]);
        }
        lemma_percents_upto_none(rest, k1);
        assert(percents_upto(s, k1) =~= seq![s[0].1 as int]);
        assert(s.skip(idx + 1) == rest);
        assert(percents_upto(s, k2) == seq![s[0].1 as int] + percents_upto(rest, k2));
        assert(seq![s[0].1 as int] + percents_upto(rest, k2) =~= percents_upto(s, k1)
            + percents_upto(s.skip(idx + 1), k2));
    } else {
        assert(s[0].0 < s[idx].0 == k1);
        assert(rest[idx - 1] == s[idx]);
        lemma_percents_upto_split(rest, idx - 1, k1, k2);
        assert(rest.skip(idx) =~= s.skip(idx + 1));
        assert(percents_upto(s, k2) == seq![s[0].1 as int] + percents_upto(rest, k2));
        assert(percents_upto(s, k1) == seq![s[0].1 as int] + percents_upto(rest, k1));
        assert(seq![s[0].1 as int] + (percents_upto(rest, k1) + percents_upto(rest.skip(idx), k2))
            =~= (seq![s[0].1 as int] + percents_upto(rest, k1)) + percents_upto(rest.skip(idx), k2));
    }
}

/// Law (conservation, consumed prefix): claiming checkpoint `k1` and then,
/// against what it left, claiming a later checkpoint `k2` of the shrunken
/// schedule releases in total exactly what one claim of `k2` would have
/// released from the full schedule.
pub proof fn lemma_consumed_prefix_conservation(
    s: Seq<(u32, u64)>,
    idx: int,
    k1: u32,
    k2: u32,
    balance: int,
)
    requires
        entries_sorted(s),
        0 <= idx < s.len(),
        s[idx].0 == k1,
        k1 <= k2,
    ensures
        claimed_total(balance, percents_upto(s, k1)) + claimed_total(
            balance - claimed_total(balance, percents_upto(s, k1)),
            percents_upto(s.skip(idx + 1), k2),
        ) == claimed_total(balance, percents_upto(s, k2)),
{
    lemma_percents_upto_split(s, idx, k1, k2);
    crate::settlement::lemma_remaining_after_append(
        balance,
        percents_upto(s, k1),
        percents_upto(s.skip(idx + 1), k2),
    );
}

/// The sequence-consuming token lockup: an admin edits checkpoints keyed by
/// ledger sequence number, the owner claims, and each claim permanently
/// consumes the schedule prefix it settles.
pub struct TokenLockup {
    initialized: bool,
    admin: Address,
    owner: Address,
    unlocks: UnlockMap,
}

impl TokenLockup {
    pub closed spec fn is_init(self) -> bool {
        self.initialized
    }

    pub closed spec fn admin_spec(self) -> Address {
        self.admin
    }

    pub closed spec fn owner_spec(self) -> Address {
        self.owner
    }

    /// The schedule's map of unlocks.
    pub closed spec fn unlocks_map(self) -> UnlockMap {
        self.unlocks
    }

    /// The schedule's entries, sorted by sequence number.
    pub open spec fn unlock_entries(self) -> Seq<(u32, u64)> {
        self.unlocks_map().entries_seq()
    }

    /// The percent stored for a sequence number, if any.
    pub open spec fn unlock_of(self, sequence: u32) -> Option<u64> {
        lookup_entry(self.unlock_entries(), sequence)
    }

    /// The schedule is sorted by key and every percent is in range.
    pub open spec fn wf(self) -> bool {
        self.unlocks_map().wf()
    }

    /// A fresh, uninitialized lockup with an empty schedule.
    pub fn new() -> (s: Self)
        ensures
            !s.is_init(),
            s.wf(),
            s.unlock_entries() == Seq::<(u32, u64)>::empty(),
            forall|k: u32| s.unlock_of(k) is None,
    {
        TokenLockup {
            initialized: false,
            admin: Address { id: 0 },
            owner: Address { id: 0 },
            unlocks: UnlockMap::new(),
        }
    }

    /// Initialize the contract with the admin and owner addresses. Fails
    /// with `AlreadyInitializedError` on a second call, changing nothing.
    pub fn initialize(&mut self, admin: Address, owner: Address) -> (r: Result<
        (),
        TokenLockupError,
    >)
        requires
            old(self).wf(),
        ensures
            final(self).wf(),
            old(self).is_init() ==> r == Result::<(), TokenLockupError>::Err(
                TokenLockupError::AlreadyInitializedError,
            ) && *final(self) == *old(self),
            !old(self).is_init() ==> {
                &&& r is Ok
                &&& final(self).is_init()
                &&& final(self).admin_spec() == admin
                &&& final(self).owner_spec() == owner
                &&& final(self).unlock_entries() == old(self).unlock_entries()
            },
    {
        if self.initialized {
            return Err(TokenLockupError::AlreadyInitializedError);
        }
        self.initialized = true;
        self.admin = admin;
        self.owner = owner;
        Ok(())
    }

    /// (Only admin) Update the owner address.
    pub fn update_owner(&mut self, caller: Address, new_owner: Address) -> (r: Result<
        (),
        TokenLockupError,
    >)
        requires
            old(self).wf(),
            old(self).is_init(),
        ensures
            final(self).wf(),
            caller != old(self).admin_spec() ==> r == Result::<(), TokenLockupError>::Err(
                TokenLockupError::UnauthorizedError,
            ) && *final(self) == *old(self),
            caller == old(self).admin_spec() ==> {
                &&& r is Ok
                &&& final(self).owner_spec() == new_owner
                &&& final(self).admin_spec() == old(self).admin_spec()
                &&& final(self).is_init() == old(self).is_init()
                &&& final(self).unlock_entries() == old(self).unlock_entries()
            },
    {
        if caller.id != self.admin.id {
            return Err(TokenLockupError::UnauthorizedError);
        }
        proof {
            assert(caller == self.admin);
        }
        self.owner = new_owner;
        Ok(())
    }

    /// Get the owner address.
    pub fn get_owner(&self) -> (r: Address)
        ensures
            r == self.owner_spec(),
    {
        self.owner
    }

    /// (Only admin) Update the admin address.
    pub fn update_admin(&mut self, caller: Address, new_admin: Address) -> (r: Result<
        (),
        TokenLockupError,
    >)
        requires
            old(self).wf(),
            old(self).is_init(),
        ensures
            final(self).wf(),
            caller != old(self).admin_spec() ==> r == Result::<(), TokenLockupError>::Err(
                TokenLockupError::UnauthorizedError,
            ) && *final(self) == *old(self),
            caller == old(self).admin_spec() ==> {
                &&& r is Ok
                &&& final(self).admin_spec() == new_admin
                &&& final(self).owner_spec() == old(self).owner_spec()
                &&& final(self).is_init() == old(self).is_init()
                &&& final(self).unlock_entries() == old(self).unlock_entries()
            },
    {
        if caller.id != self.admin.id {
            return Err(TokenLockupError::UnauthorizedError);
        }
        proof {
            assert(caller == self.admin);
        }
        self.admin = new_admin;
        Ok(())
    }

    /// Get the admin address.
    pub fn get_admin(&self) -> (r: Address)
        ensures
            r == self.admin_spec(),
    {
        self.admin
    }

    /// (Only admin) Add a new unlock sequence and percent; if the sequence
    /// already has an unlock, its percent is updated. Rejects a percent
    /// above the basis-point scale.
    pub fn add_unlock(&mut self, caller: Address, sequence: u32, percent: u64) -> (r: Result<
        (),
        TokenLockupError,
    >)
        requires
            old(self).wf(),
            old(self).is_init(),
        ensures
            final(self).wf(),
            caller != old(self).admin_spec() ==> r == Result::<(), TokenLockupError>::Err(
                TokenLockupError::UnauthorizedError,
            ) && *final(self) == *old(self),
            caller == old(self).admin_spec() && percent > 10000 ==> r == Result::<
                (),
                TokenLockupError,
            >::Err(TokenLockupError::InvalidPercentError) && *final(self) == *old(self),
            caller == old(self).admin_spec() && percent <= 10000 ==> {
                &&& r is Ok
                &&& final(self).unlock_of(sequence) == Some(percent)
                &&& forall|q: u32| q != sequence ==> final(self).unlock_of(q) == old(
                    self,
                ).unlock_of(q)
                &&& final(self).admin_spec() == old(self).admin_spec()
                &&& final(self).owner_spec() == old(self).owner_spec()
                &&& final(self).is_init() == old(self).is_init()
            },
    {
        if caller.id != self.admin.id {
            return Err(TokenLockupError::UnauthorizedError);
        }
        proof {
            assert(caller == self.admin);
        }
        if percent > 10000 {
            return Err(TokenLockupError::InvalidPercentError);
        }
        self.unlocks.set(sequence, percent);
        proof {
            assert forall|q: u32| q != sequence implies self.unlock_of(q) == old(self).unlock_of(
                q,
            ) by {
                assert(self.unlocks.spec_get(q) == old(self).unlocks.spec_get(q));
            }
        }
        Ok(())
    }

    /// (Only admin) Remove an unlock; fails with
    /// `InvalidUnlockSequenceError` if the sequence has none.
    pub fn remove_unlock(&mut self, caller: Address, sequence: u32) -> (r: Result<
        (),
        TokenLockupError,
    >)
        requires
            old(self).wf(),
            old(self).is_init(),
        ensures
            final(self).wf(),
            caller != old(self).admin_spec() ==> r == Result::<(), TokenLockupError>::Err(
                TokenLockupError::UnauthorizedError,
            ) && *final(self) == *old(self),
            caller == old(self).admin_spec() && old(self).unlock_of(sequence) is None ==> r
                == Result::<(), TokenLockupError>::Err(TokenLockupError::InvalidUnlockSequenceError)
                && *final(self) == *old(self),
            caller == old(self).admin_spec() && old(self).unlock_of(sequence) is Some ==> {
                &&& r is Ok
                &&& final(self).unlock_of(sequence) is None
                &&& forall|q: u32| q != sequence ==> final(self).unlock_of(q) == old(
                    self,
                ).unlock_of(q)
                &&& final(self).admin_spec() == old(self).admin_spec()
                &&& final(self).owner_spec() == old(self).owner_spec()
                &&& final(self).is_init() == old(self).is_init()
            },
    {
        if caller.id != self.admin.id {
            return Err(TokenLockupError::UnauthorizedError);
        }
        proof {
            assert(caller == self.admin);
        }
        if self.unlocks.contains_key(sequence) {
            self.unlocks.remove(sequence);
            proof {
                assert forall|q: u32| q != sequence implies self.unlock_of(q) == old(
                    self,
                ).unlock_of(q) by {
                    assert(self.unlocks.spec_get(q) == old(self).unlocks.spec_get(q));
                }
            }
            Ok(())
        } else {
            Err(TokenLockupError::InvalidUnlockSequenceError)
        }
    }

    /// Get the unlock percentage for a given sequence number.
    pub fn get_unlock(&self, sequence: u32) -> (r: Option<u64>)
        ensures
            r == self.unlock_of(sequence),
    {
        self.unlocks.get(sequence)
    }

    /// (Only owner) Claim unlocked assets at a given sequence number.
    ///
    /// The sequence must name an existing checkpoint at or before
    /// `current_sequence`. For each listed asset, `balances` holds its live
    /// balance and the result the amount to transfer to the owner: the
    /// settlement fold of every checkpoint percent up to and including the
    /// named one. That whole prefix is then removed from the schedule, for
    /// every asset alike.
    pub fn claim(
        &mut self,
        caller: Address,
        sequence: u32,
        asset_ids: &Vec<Address>,
        balances: &Vec<i128>,
        current_sequence: u32,
    ) -> (r: Result<Vec<i128>, TokenLockupError>)
        requires
            old(self).wf(),
            old(self).is_init(),
            balances@.len() == asset_ids@.len(),
            forall|i: int| 0 <= i < balances@.len() ==> valid_balance(#[trigger] balances@[i] as int),
        ensures
            final(self).wf(),
            caller != old(self).owner_spec() ==> r == Result::<Vec<i128>, TokenLockupError>::Err(
                TokenLockupError::UnauthorizedError,
            ) && *final(self) == *old(self),
            caller == old(self).owner_spec() && (sequence > current_sequence || old(self).unlock_of(
                sequence,
            ) is None) ==> r == Result::<Vec<i128>, TokenLockupError>::Err(
                TokenLockupError::InvalidUnlockSequenceError,
            ) && *final(self) == *old(self),
            caller == old(self).owner_spec() && sequence <= current_sequence && old(
                self,
            ).unlock_of(sequence) is Some ==> (r matches Ok(amounts) && {
                &&& amounts@.len() == asset_ids@.len()
                &&& forall|i: int| 0 <= i < amounts@.len() ==> #[trigger] amounts@[i]
                    == claimed_total(
                    balances@[i] as int,
                    percents_upto(old(self).unlock_entries(), sequence),
                )
                &&& forall|i: int| 0 <= i < amounts@.len() ==> 0 <= #[trigger] amounts@[i]
                    <= balances@[i]
                &&& forall|q: u32| final(self).unlock_of(q) == (if q > sequence {
                    old(self).unlock_of(q)
                } else {
                    Option::<u64>::None
                })
                &&& final(self).admin_spec() == old(self).admin_spec()
                &&& final(self).owner_spec() == old(self).owner_spec()
                &&& final(self).is_init() == old(self).is_init()
            }),
    {
        if caller.id != self.owner.id {
            return Err(TokenLockupError::UnauthorizedError);
        }
        proof {
            assert(caller == self.owner);
        }
        if sequence > current_sequence {
            return Err(TokenLockupError::InvalidUnlockSequenceError);
        }
        if !self.unlocks.contains_key(sequence) {
            return Err(TokenLockupError::InvalidUnlockSequenceError);
        }
        let ghost s = self.unlocks.entries_seq();
        let n = self.unlocks.len();
        let keys = self.unlocks.keys();
        proof {
            lemma_lookup_exists(s, sequence);
            assert forall|a: int, b: int| 0 <= a < b < keys@.len() implies keys@[a] < keys@[b] by {
                assert(keys@[a] == s[a].0 && keys@[b] == s[b].0);
            }
            if s.len() > 0 {
                lemma_sorted_key_at_least_index(s, s.len() - 1);
            }
        }
        let index: u32 = match find_unlock_with_sequence(sequence, &keys) {
            Some(i) => i,
            None => {
                proof {
                    let j = choose|j: int| 0 <= j < s.len() && (#[trigger] s[j]).0 == sequence;
                    assert(keys@[j] == sequence);
                    if j > 0 {
                        assert(keys@[0] < keys@[j]);
                    }
                    assert(!(sequence < keys@[0]));
                    assert(false);
                }
                return Err(TokenLockupError::InvalidUnlockSequenceError);
            },
        };
        proof {
            let j = choose|j: int| 0 <= j < s.len() && (#[trigger] s[j]).0 == sequence;
            assert(keys@[j] == sequence);
            if j < index as int {
                assert(keys@[j] < keys@[index as int]);
            }
            if j > index as int {
                assert(index as int + 1 < s.len() ==> keys@[index as int + 1] <= keys@[j]) by {
                    if index as int + 1 < j {
                        assert(keys@[index as int + 1] < keys@[j]);
                    }
                }
                assert(false);
            }
            assert(s[index as int].0 == sequence);
            lemma_percents_upto_prefix(s, sequence, index as int);
        }
        let count = index as usize + 1;
        let mut percents: Vec<u64> = Vec::new();
        let mut i: usize = 0;
        proof {
            assert(percents@ =~= s.take(0).map_values(|e: (u32, u64)| e.1));
        }
        while i < count
            invariant
                0 <= i <= count,
                count <= self.unlocks.entries_seq().len(),
                self.unlocks.entries_seq() == s,
                percents@ == s.take(i as int).map_values(|e: (u32, u64)| e.1),
            decreases count - i,
        {
            percents.push(self.unlocks.percent_at(i));
            proof {
                assert(percents@ =~= s.take(i + 1).map_values(|e: (u32, u64)| e.1));
            }
            i = i + 1;
        }
        proof {
            assert forall|m: int| 0 <= m < percents@.len() implies #[trigger] percents@[m]
                <= 10000 by {
                assert(percents@[m] == s.take(count as int)[m].1);
                assert(s.take(count as int)[m] == s[m]);
            }
            assert(percents@.map_values(|p: u64| p as int) =~= percents_upto(s, sequence));
        }
        remove_past_unlocks(index, &mut self.unlocks);
        proof {
            let t = self.unlocks.entries_seq();
            assert(t == s.skip(index as int + 1));
            assert forall|q: u32|
                lookup_entry(t, q) == (if q > sequence {
                    lookup_entry(s, q)
                } else {
                    Option::<u64>::None
                }) by {
                lemma_consumed_prefix_lookup(s, index as int, sequence, q);
            }
        }
        let m = asset_ids.len();
        let mut amounts: Vec<i128> = Vec::new();
        let mut a: usize = 0;
        while a < m
            invariant
                0 <= a <= m,
                m == asset_ids@.len(),
                balances@.len() == asset_ids@.len(),
                forall|k: int| 0 <= k < balances@.len() ==> valid_balance(
                    #[trigger] balances@[k] as int,
                ),
                amounts@.len() == a,
                forall|k: int| 0 <= k < percents@.len() ==> #[trigger] percents@[k] <= 10000,
                percents@.map_values(|p: u64| p as int) == percents_upto(s, sequence),
                forall|k: int| 0 <= k < a ==> #[trigger] amounts@[k] == claimed_total(
                    balances@[k] as int,
                    percents_upto(s, sequence),
                ),
                forall|k: int| 0 <= k < a ==> 0 <= #[trigger] amounts@[k] <= balances@[k],
            decreases m - a,
        {
            let amount = apply_unlock_percents(balances[a], &percents);
            amounts.push(amount);
            a = a + 1;
        }
        Ok(amounts)
    }
}

/// Dropping the sorted prefix through position `idx` (whose key is
/// `sequence`) removes exactly the keys at or below `sequence`.
proof fn lemma_consumed_prefix_lookup(s: Seq<(u32, u64)>, idx: int, sequence: u32, q: u32)
    requires
        entries_sorted(s),
        0 <= idx < s.len(),
        s[idx].0 == sequence,
    ensures
        lookup_entry(s.skip(idx + 1), q) == (if q > sequence {
            lookup_entry(s, q)
        } else {
            Option::<u64>::None
        }),
{
    let t = s.skip(idx + 1);
    lemma_lookup_exists(s, q);
    lemma_lookup_exists(t, q);
    if q > sequence {
        if lookup_entry(s, q) is Some {
            let j = choose|j: int| 0 <= j < s.len() && (#[trigger] s[j]).0 == q;
            assert(j > idx) by {
                if j < idx {
                    assert(s[j].0 < s[idx].0);
                }
            }
            assert(t[j - idx - 1] == s[j]);
            assert forall|c: int| 0 <= c < j - idx - 1 implies (#[trigger] t[c]).0 != q by {
                assert(t[c] == s[c + idx + 1]);
                assert(s[c + idx + 1].0 < s[j].0);
            }
            lemma_lookup_at(t, j - idx - 1, q);
            assert forall|c: int| 0 <= c < j implies (#[trigger] s[c]).0 != q by {
                assert(s[c].0 < s[j].0);
            }
            lemma_lookup_at(s, j, q);
        } else {
            assert forall|c: int| 0 <= c < t.len() implies (#[trigger] t[c]).0 != q by {
                assert(t[c] == s[c + idx + 1]);
            }
            lemma_lookup_absent(t, q);
        }
    } else {
        assert forall|c: int| 0 <= c < t.len() implies (#[trigger] t[c]).0 != q by {
            assert(t[c] == s[c + idx + 1]);
            assert(s[idx].0 < s[c + idx + 1].0);
        }
        lemma_lookup_absent(t, q);
    }
}

} // verus!
