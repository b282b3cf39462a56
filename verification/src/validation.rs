//! Schedule validation.
//!
//! A candidate schedule is checked for shape (non-empty, at most
//! [`MAX_UNLOCKS`] entries, final percent of one whole), for percents within
//! the basis-point scale, and for strictly ascending unlock times. When it
//! replaces an existing schedule, the replacement must keep every checkpoint
//! that has already been reached unchanged at its original position, and is
//! refused entirely once the existing schedule is fully unlocked.

use vstd::prelude::*;

use crate::errors::TokenLockupError;
use crate::types::Unlock;

verus! {

/// The largest number of checkpoints a schedule may hold.
pub const MAX_UNLOCKS: usize = 48;

/// Every percent is a non-zero share of the whole.
pub open spec fn percents_in_range(s: Seq<Unlock>) -> bool {
    forall|i: int| 0 <= i < s.len() ==> 0 < (#[trigger] s[i]).percent <= 10000
}

/// Unlock times strictly increase, the first one strictly after time zero.
pub open spec fn times_strictly_ascending(s: Seq<Unlock>) -> bool {
    &&& s.len() > 0 ==> s[0].time > 0
    &&& forall|i: int| 1 <= i < s.len() ==> s[i - 1].time < (#[trigger] s[i]).time
}

/// A schedule the engine accepts as current: well-shaped, in-range percents,
/// strictly ascending times, and a final checkpoint that releases everything.
pub open spec fn valid_schedule(s: Seq<Unlock>) -> bool {
    &&& 1 <= s.len() <= MAX_UNLOCKS
    &&& s.last().percent == 10000
    &&& percents_in_range(s)
    &&& times_strictly_ascending(s)
}

/// Every checkpoint of `prev` already reached at `now` appears unchanged at
/// the same position in `cand`.
pub open spec fn past_checkpoints_preserved(prev: Seq<Unlock>, cand: Seq<Unlock>, now: u64) -> bool {
    forall|i: int|
        0 <= i < prev.len() && (#[trigger] prev[i]).time <= now ==> i < cand.len() && cand[i]
            == prev[i]
}

/// Replacing `prev` by `cand` at time `now` is legal: `prev` is not yet
/// fully unlocked and its past is preserved.
pub open spec fn replacement_allowed(prev: Seq<Unlock>, cand: Seq<Unlock>, now: u64) -> bool {
    &&& now < prev.last().time
    &&& past_checkpoints_preserved(prev, cand, now)
}

/// The first problem found at position `i` of the candidate, scanning the
/// checks of one position in order: percent range, immutability against the
/// previous schedule, ascending time.
pub open spec fn entry_error(
    cand: Seq<Unlock>,
    prev: Option<Seq<Unlock>>,
    now: u64,
    i: int,
) -> Option<TokenLockupError> {
    if !(0 < cand[i].percent <= 10000) {
        Some(TokenLockupError::InvalidUnlocks)
    } else if prev matches Some(p) && i < p.len() && p[i].time <= now && p[i] != cand[i] {
        Some(TokenLockupError::AlreadyUnlocked)
    } else if cand[i].time <= (if i == 0 {
        0u64
    } else {
        cand[i - 1].time
    }) {
        Some(TokenLockupError::InvalidUnlocks)
    } else {
        None
    }
}

/// Rejects a candidate that silently drops an already-reached checkpoint of
/// the previous schedule lying beyond the candidate's length.
pub open spec fn dropped_past_result(
    cand: Seq<Unlock>,
    prev: Option<Seq<Unlock>>,
    now: u64,
) -> Result<(), TokenLockupError> {
    if prev matches Some(p) && exists|i: int|
        cand.len() <= i < p.len() && (#[trigger] p[i]).time <= now {
        Err(TokenLockupError::AlreadyUnlocked)
    } else {
        Ok(())
    }
}

/// The result of scanning the candidate from position `i` on, stopping at
/// the first problem.
pub open spec fn scan_result(
    cand: Seq<Unlock>,
    prev: Option<Seq<Unlock>>,
    now: u64,
    i: int,
) -> Result<(), TokenLockupError>
    decreases cand.len() - i,
{
    if i >= cand.len() {
        dropped_past_result(cand, prev, now)
    } else {
        match entry_error(cand, prev, now, i) {
            Some(e) => Err(e),
            None => scan_result(cand, prev, now, i + 1),
        }
    }
}

/// What validation returns, checks in the order they are made: shape of the
/// candidate first, then the frozen-schedule rule, then the per-position
/// scan.
pub open spec fn validate_unlocks_spec(
    cand: Seq<Unlock>,
    prev: Option<Seq<Unlock>>,
    now: u64,
) -> Result<(), TokenLockupError> {
    if !(1 <= cand.len() <= MAX_UNLOCKS) || cand.last().percent != 10000 {
        Err(TokenLockupError::InvalidUnlocks)
    } else if prev matches Some(p) && p.len() > 0 && p.last().time <= now {
        Err(TokenLockupError::AlreadyUnlocked)
    } else {
        scan_result(cand, prev, now, 0)
    }
}

/// The view of an optional previous schedule.
pub open spec fn previous_view(previous: Option<&Vec<Unlock>>) -> Option<Seq<Unlock>> {
    match previous {
        Some(p) => Some(p@),
        None => None,
    }
}

proof fn lemma_scan_ok_iff(cand: Seq<Unlock>, prev: Option<Seq<Unlock>>, now: u64, i: int)
    requires
        0 <= i <= cand.len(),
    ensures
        scan_result(cand, prev, now, i) is Ok <==> {
            &&& forall|j: int| i <= j < cand.len() ==> entry_error(cand, prev, now, j) is None
            &&& dropped_past_result(cand, prev, now) is Ok
        },
    decreases cand.len() - i,
{
    if i < cand.len() {
        lemma_scan_ok_iff(cand, prev, now, i + 1);
    }
}

/// Validation succeeds exactly on valid schedules whose replacement, if any,
/// is legal.
pub proof fn lemma_validate_ok_iff(cand: Seq<Unlock>, prev: Option<Seq<Unlock>>, now: u64)
    requires
        prev matches Some(p) ==> p.len() > 0,
    ensures
        validate_unlocks_spec(cand, prev, now) is Ok <==> {
            &&& valid_schedule(cand)
            &&& (prev matches Some(p) ==> replacement_allowed(p, cand, now))
        },
{
    lemma_scan_ok_iff(cand, prev, now, 0);
    let r = validate_unlocks_spec(cand, prev, now);
    if r is Ok {
        assert forall|k: int| 0 <= k < cand.len() implies 0 < (#[trigger] cand[k]).percent
            <= 10000 by {
            assert(entry_error(cand, prev, now, k) is None);
        }
        assert(cand.len() > 0 ==> cand[0].time > 0) by {
            if cand.len() > 0 {
                assert(entry_error(cand, prev, now, 0) is None);
            }
        }
        assert forall|k: int| 1 <= k < cand.len() implies cand[k - 1].time
            < (#[trigger] cand[k]).time by {
            assert(entry_error(cand, prev, now, k) is None);
        }
        if let Some(p) = prev {
            assert forall|k: int|
                0 <= k < p.len() && (#[trigger] p[k]).time <= now implies k < cand.len() && cand[k]
                == p[k] by {
                if k < cand.len() {
                    assert(entry_error(cand, prev, now, k) is None);
                } else {
                    assert(dropped_past_result(cand, prev, now) is Ok);
                }
            }
        }
    }
    if {
        &&& valid_schedule(cand)
        &&& (prev matches Some(p) ==> replacement_allowed(p, cand, now))
    } {
        assert forall|j: int| 0 <= j < cand.len() implies entry_error(cand, prev, now, j)
            is None by {
            assert(0 < cand[j].percent <= 10000);
            if j >= 1 {
                assert(cand[j - 1].time < cand[j].time);
            }
            if let Some(p) = prev {
                if j < p.len() && p[j].time <= now {
                    assert(past_checkpoints_preserved(p, cand, now));
                    assert(cand[j] == p[j]);
                }
            }
        }
        assert(dropped_past_result(cand, prev, now) is Ok) by {
            if let Some(p) = prev {
                assert forall|k: int| cand.len() <= k < p.len() implies !((#[trigger] p[k]).time
                    <= now) by {
                    if p[k].time <= now {
                        assert(k < cand.len());
                    }
                }
            }
        }
        assert(prev matches Some(p) ==> !(p.last().time <= now));
    }
}

/// Checks a candidate schedule, stopping at the first problem. `previous`
/// is the schedule being replaced, if one exists; `now` is the current
/// ledger time.
fn validate_unlocks(candidate: &Vec<Unlock>, previous: Option<&Vec<Unlock>>, now: u64) -> (r:
    Result<(), TokenLockupError>)
    ensures
        r == validate_unlocks_spec(candidate@, previous_view(previous), now),
{
    let ghost pv = previous_view(previous);
    let n = candidate.len();
    if n == 0 || n > MAX_UNLOCKS || candidate[n - 1].percent != 10000 {
        return Err(TokenLockupError::InvalidUnlocks);
    }
    if let Some(p) = previous {
        if p.len() > 0 && p[p.len() - 1].time <= now {
            return Err(TokenLockupError::AlreadyUnlocked);
        }
    }
    proof {
        assert(validate_unlocks_spec(candidate@, pv, now) == scan_result(candidate@, pv, now, 0));
    }
    let mut last_time: u64 = 0;
    let mut i: usize = 0;
    while i < n
        invariant
            0 <= i <= n,
            n == candidate@.len(),
            1 <= n <= MAX_UNLOCKS,
            pv == previous_view(previous),
            last_time == if i == 0 {
                0u64
            } else {
                candidate@[i - 1].time
            },
            validate_unlocks_spec(candidate@, pv, now) == scan_result(
                candidate@,
                pv,
                now,
                i as int,
            ),
        decreases n - i,
    {
        let u = candidate[i];
        if u.percent == 0 || u.percent > 10000 {
            proof {
                assert(entry_error(candidate@, pv, now, i as int) == Some(
                    TokenLockupError::InvalidUnlocks,
                ));
            }
            return Err(TokenLockupError::InvalidUnlocks);
        }
        if let Some(p) = previous {
            if i < p.len() {
                let pu = p[i];
                if pu.time <= now && (pu.time != u.time || pu.percent != u.percent) {
                    proof {
                        assert(p@[i as int] != candidate@[i as int]);
                        assert(entry_error(candidate@, pv, now, i as int) == Some(
                            TokenLockupError::AlreadyUnlocked,
                        ));
                    }
                    return Err(TokenLockupError::AlreadyUnlocked);
                }
            }
        }
        if u.time <= last_time {
            proof {
                assert(entry_error(candidate@, pv, now, i as int) == Some(
                    TokenLockupError::InvalidUnlocks,
                ));
            }
            return Err(TokenLockupError::InvalidUnlocks);
        }
        proof {
            assert(entry_error(candidate@, pv, now, i as int) is None);
        }
        last_time = u.time;
        i = i + 1;
    }
    proof {
        assert(scan_result(candidate@, pv, now, n as int) == dropped_past_result(
            candidate@,
            pv,
            now,
        ));
    }
    if let Some(p) = previous {
        let mut j: usize = n;
        while j < p.len()
            invariant
                n <= j,
                n == candidate@.len(),
                pv == previous_view(previous),
                pv == Some(p@),
                forall|k: int| n <= k < j ==> !((#[trigger] p@[k]).time <= now),
                validate_unlocks_spec(candidate@, pv, now) == dropped_past_result(
                    candidate@,
                    pv,
                    now,
                ),
            decreases p@.len() - j,
        {
            if p[j].time <= now {
                proof {
                    assert(candidate@.len() <= j < p@.len() && p@[j as int].time <= now);
                }
                return Err(TokenLockupError::AlreadyUnlocked);
            }
            j = j + 1;
        }
        proof {
            assert forall|k: int| candidate@.len() <= k < p@.len() implies !((#[trigger] p@[k]).time
                <= now) by {}
            assert(dropped_past_result(candidate@, pv, now) is Ok);
        }
    }
    Ok(())
}

/// Validate the unlock times and unlock percents. If a current schedule is
/// already set, also validates that any unlocks that have already occurred
/// remain unchanged and that the current schedule is not yet fully unlocked.
/// A maximum of 48 unlock periods are supported.
///
/// Returns the first problem found, in the order the checks are made, and
/// succeeds exactly on valid schedules whose replacement (if any) is legal.
pub fn require_valid_unlocks(candidate: &Vec<Unlock>, previous: Option<&Vec<Unlock>>, now: u64) -> (
    r: Result<(), TokenLockupError>)
    requires
        previous matches Some(p) ==> p@.len() > 0,
    ensures
        r == validate_unlocks_spec(candidate@, previous_view(previous), now),
        r is Ok <==> {
            &&& valid_schedule(candidate@)
            &&& (previous matches Some(p) ==> replacement_allowed(p@, candidate@, now))
        },
{
    let r = validate_unlocks(candidate, previous, now);
    proof {
        lemma_validate_ok_iff(candidate@, previous_view(previous), now);
    }
    r
}

/// Law: thresholds of a schedule with ascending adjacent times increase
/// between any two positions.
pub proof fn lemma_schedule_times_increase(s: Seq<Unlock>, i: int, j: int)
    requires
        times_strictly_ascending(s),
        0 <= i < j < s.len(),
    ensures
        s[i].time < s[j].time,
    decreases j - i,
{
    if i + 1 < j {
        lemma_schedule_times_increase(s, i + 1, j);
    }
}

/// Law: every schedule the validator accepts has strictly increasing
/// checkpoint thresholds, and a candidate whose thresholds do not strictly
/// increase is rejected.
pub proof fn lemma_validator_monotonicity(cand: Seq<Unlock>, prev: Option<Seq<Unlock>>, now: u64)
    requires
        prev matches Some(p) ==> p.len() > 0,
    ensures
        validate_unlocks_spec(cand, prev, now) is Ok ==> forall|i: int, j: int|
            0 <= i < j < cand.len() ==> cand[i].time < cand[j].time,
        !times_strictly_ascending(cand) ==> validate_unlocks_spec(cand, prev, now) is Err,
{
    lemma_validate_ok_iff(cand, prev, now);
    if validate_unlocks_spec(cand, prev, now) is Ok {
        assert forall|i: int, j: int| 0 <= i < j < cand.len() implies cand[i].time
            < cand[j].time by {
            lemma_schedule_times_increase(cand, i, j);
        }
    }
}

/// Law: when the validator accepts a replacement, every checkpoint of the
/// previous schedule already reached at `now` appears unchanged at the same
/// position in the accepted candidate.
pub proof fn lemma_validator_preserves_past(cand: Seq<Unlock>, prev: Seq<Unlock>, now: u64, i: int)
    requires
        prev.len() > 0,
        validate_unlocks_spec(cand, Some(prev), now) is Ok,
        0 <= i < prev.len(),
        prev[i].time <= now,
    ensures
        i < cand.len(),
        cand[i] == prev[i],
{
    lemma_validate_ok_iff(cand, Some(prev), now);
}

/// Law: a candidate that alters or drops some checkpoint of the previous
/// schedule already reached at `now` is rejected.
pub proof fn lemma_validator_rejects_changed_past(
    cand: Seq<Unlock>,
    prev: Seq<Unlock>,
    now: u64,
    i: int,
)
    requires
        prev.len() > 0,
        0 <= i < prev.len(),
        prev[i].time <= now,
        i >= cand.len() || cand[i] != prev[i],
    ensures
        validate_unlocks_spec(cand, Some(prev), now) is Err,
{
    lemma_validate_ok_iff(cand, Some(prev), now);
}

} // verus!
