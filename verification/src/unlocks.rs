//! The sequence-keyed unlock map and its lookup helpers.
//!
//! The sequence-consuming engine keeps its schedule as a map from ledger
//! sequence number to unlock percent, held here as a vector of entries
//! sorted by key. Claiming consumes a prefix of the map, so the helpers of
//! this module are about order: a binary search for the closest checkpoint
//! at or before a sequence number, and the removal of a consumed prefix.

use vstd::prelude::*;

verus! {

/// Entry keys strictly increase: sorted, without duplicates.
pub open spec fn entries_sorted(s: Seq<(u32, u64)>) -> bool {
    forall|i: int, j: int| 0 <= i < j < s.len() ==> (#[trigger] s[i]).0 < (#[trigger] s[j]).0
}

/// Every stored percent is a basis-point share of the whole.
pub open spec fn percents_bounded(s: Seq<(u32, u64)>) -> bool {
    forall|i: int| 0 <= i < s.len() ==> (#[trigger] s[i]).1 <= 10000
}

/// The percent stored for key `k`: the value of its first entry, if any.
pub open spec fn lookup_entry(s: Seq<(u32, u64)>, k: u32) -> Option<u64>
    decreases s.len(),
{
    if s.len() == 0 {
        None
    } else if s[0].0 == k {
        Some(s[0].1)
    } else {
        lookup_entry(s.skip(1), k)
    }
}

/// Looking a key up skips any prefix that does not hold it.
proof fn lemma_lookup_skip_prefix(s: Seq<(u32, u64)>, m: int, k: u32)
    requires
        0 <= m <= s.len(),
        forall|j: int| 0 <= j < m ==> (#[trigger] s[j]).0 != k,
    ensures
        lookup_entry(s.skip(m), k) == lookup_entry(s, k),
    decreases m,
{
    if m > 0 {
        assert(s.skip(1).skip(m - 1) =~= s.skip(m));
        assert forall|j: int| 0 <= j < m - 1 implies (#[trigger] s.skip(1)[j]).0 != k by {
            assert(s.skip(1)[j] == s[j + 1]);
        }
        lemma_lookup_skip_prefix(s.skip(1), m - 1, k);
        assert(lookup_entry(s, k) == lookup_entry(s.skip(1), k));
    } else {
        assert(s.skip(0) =~= s);
    }
}

/// A key held at position `i`, with no earlier entry for it, is found there.
pub proof fn lemma_lookup_at(s: Seq<(u32, u64)>, i: int, k: u32)
    requires
        0 <= i < s.len(),
        s[i].0 == k,
        forall|j: int| 0 <= j < i ==> (#[trigger] s[j]).0 != k,
    ensures
        lookup_entry(s, k) == Some(s[i].1),
{
    lemma_lookup_skip_prefix(s, i, k);
    assert(s.skip(i)[0] == s[i]);
    assert(s.skip(i).skip(1) =~= s.skip(i + 1));
}

/// A key no entry holds is not found.
pub proof fn lemma_lookup_absent(s: Seq<(u32, u64)>, k: u32)
    requires
        forall|j: int| 0 <= j < s.len() ==> (#[trigger] s[j]).0 != k,
    ensures
        lookup_entry(s, k) is None,
{
    lemma_lookup_skip_prefix(s, s.len() as int, k);
    assert(s.skip(s.len() as int) =~= Seq::<(u32, u64)>::empty());
}

/// A key is found exactly when some entry holds it.
pub proof fn lemma_lookup_exists(s: Seq<(u32, u64)>, k: u32)
    ensures
        (lookup_entry(s, k) is Some) <==> (exists|j: int|
            0 <= j < s.len() && (#[trigger] s[j]).0 == k),
    decreases s.len(),
{
    if s.len() > 0 && s[0].0 != k {
        lemma_lookup_exists(s.skip(1), k);
        if lookup_entry(s, k) is Some {
            let j = choose|j: int| 0 <= j < s.skip(1).len() && (#[trigger] s.skip(1)[j]).0 == k;
            assert(s[j + 1].0 == k);
        }
        if exists|j: int| 0 <= j < s.len() && (#[trigger] s[j]).0 == k {
            let j = choose|j: int| 0 <= j < s.len() && (#[trigger] s[j]).0 == k;
            assert(s.skip(1)[j - 1].0 == k);
        }
    }
}

/// In a sorted entry list, a key can never sit below its own position.
pub proof fn lemma_sorted_key_at_least_index(s: Seq<(u32, u64)>, i: int)
    requires
        entries_sorted(s),
        0 <= i < s.len(),
    ensures
        s[i].0 >= i,
    decreases i,
{
    if i > 0 {
        lemma_sorted_key_at_least_index(s, i - 1);
    }
}

/// Inserting an entry for one key does not change what any other key maps to.
proof fn lemma_lookup_insert_other(s: Seq<(u32, u64)>, pos: int, k: u32, v: u64, q: u32)
    requires
        0 <= pos <= s.len(),
        q != k,
    ensures
        lookup_entry(s.insert(pos, (k, v)), q) == lookup_entry(s, q),
    decreases pos,
{
    let t = s.insert(pos, (k, v));
    if pos == 0 {
        assert(t[0] == (k, v));
        assert(t.skip(1) =~= s);
        assert(lookup_entry(t, q) == lookup_entry(t.skip(1), q));
    } else {
        assert(t[0] == s[0]);
        if s[0].0 == q {
            assert(lookup_entry(t, q) == Some(s[0].1));
            assert(lookup_entry(s, q) == Some(s[0].1));
        } else {
            assert(t.skip(1) =~= s.skip(1).insert(pos - 1, (k, v)));
            lemma_lookup_insert_other(s.skip(1), pos - 1, k, v, q);
            assert(lookup_entry(t, q) == lookup_entry(t.skip(1), q));
            assert(lookup_entry(s, q) == lookup_entry(s.skip(1), q));
        }
    }
}

/// Removing the entry of one key does not change what any other key maps to.
proof fn lemma_lookup_remove_other(s: Seq<(u32, u64)>, pos: int, q: u32)
    requires
        0 <= pos < s.len(),
        s[pos].0 != q,
    ensures
        lookup_entry(s.remove(pos), q) == lookup_entry(s, q),
    decreases pos,
{
    let t = s.remove(pos);
    if pos == 0 {
        assert(t =~= s.skip(1));
        assert(lookup_entry(s, q) == lookup_entry(s.skip(1), q));
    } else {
        assert(t[0] == s[0]);
        if s[0].0 == q {
            assert(lookup_entry(t, q) == Some(s[0].1));
            assert(lookup_entry(s, q) == Some(s[0].1));
        } else {
            assert(t.skip(1) =~= s.skip(1).remove(pos - 1));
            lemma_lookup_remove_other(s.skip(1), pos - 1, q);
            assert(lookup_entry(t, q) == lookup_entry(t.skip(1), q));
            assert(lookup_entry(s, q) == lookup_entry(s.skip(1), q));
        }
    }
}

/// Updating the value at one position does not change what other keys map
/// to, as long as the key at that position stays the same.
proof fn lemma_lookup_update_value(s: Seq<(u32, u64)>, pos: int, v: u64, q: u32)
    requires
        0 <= pos < s.len(),
        s[pos].0 != q,
    ensures
        lookup_entry(s.update(pos, (s[pos].0, v)), q) == lookup_entry(s, q),
    decreases pos,
{
    let t = s.update(pos, (s[pos].0, v));
    if pos == 0 {
        assert(t[0].0 == s[0].0);
        assert(t.skip(1) =~= s.skip(1));
        assert(lookup_entry(t, q) == lookup_entry(t.skip(1), q));
        assert(lookup_entry(s, q) == lookup_entry(s.skip(1), q));
    } else {
        assert(t[0] == s[0]);
        if s[0].0 == q {
            assert(lookup_entry(t, q) == Some(s[0].1));
            assert(lookup_entry(s, q) == Some(s[0].1));
        } else {
            assert(t.skip(1) =~= s.skip(1).update(pos - 1, (s[pos].0, v)));
            assert(s.skip(1)[pos - 1] == s[pos]);
            lemma_lookup_update_value(s.skip(1), pos - 1, v, q);
            assert(lookup_entry(t, q) == lookup_entry(t.skip(1), q));
            assert(lookup_entry(s, q) == lookup_entry(s.skip(1), q));
        }
    }
}

/// A map from ledger sequence number to unlock percent, in basis points,
/// held sorted by sequence number.
pub struct UnlockMap {
    entries: Vec<(u32, u64)>,
}

impl UnlockMap {
    /// The entries, sorted by key.
    pub closed spec fn entries_seq(self) -> Seq<(u32, u64)> {
        self.entries@
    }

    /// The keys strictly increase and every percent is in range.
    pub open spec fn wf(self) -> bool {
        &&& entries_sorted(self.entries_seq())
        &&& percents_bounded(self.entries_seq())
    }

    /// The percent stored for `k`, if any.
    pub open spec fn spec_get(self, k: u32) -> Option<u64> {
        lookup_entry(self.entries_seq(), k)
    }

    pub open spec fn spec_contains(self, k: u32) -> bool {
        self.spec_get(k) is Some
    }

    /// An empty map.
    pub fn new() -> (m: Self)
        ensures
            m.wf(),
            m.entries_seq() == Seq::<(u32, u64)>::empty(),
            forall|k: u32| m.spec_get(k) is None,
    {
        let m = UnlockMap { entries: Vec::new() };
        proof {
            assert(m.entries@ =~= Seq::<(u32, u64)>::empty());
            assert forall|k: u32| m.spec_get(k) is None by {
                lemma_lookup_absent(m.entries@, k);
            }
        }
        m
    }

    pub fn len(&self) -> (n: usize)
        ensures
            n == self.entries_seq().len(),
    {
        self.entries.len()
    }

    /// The key of the entry at position `i`.
    pub fn key_at(&self, i: usize) -> (k: u32)
        requires
            i < self.entries_seq().len(),
        ensures
            k == self.entries_seq()[i as int].0,
    {
        self.entries[i].0
    }

    /// The percent of the entry at position `i`.
    pub fn percent_at(&self, i: usize) -> (p: u64)
        requires
            i < self.entries_seq().len(),
        ensures
            p == self.entries_seq()[i as int].1,
    {
        self.entries[i].1
    }

    /// The percent stored for `k`, if any.
    pub fn get(&self, k: u32) -> (r: Option<u64>)
        ensures
            r == self.spec_get(k),
    {
        let n = self.entries.len();
        let mut i: usize = 0;
        proof {
            assert(self.entries@.skip(0) =~= self.entries@);
        }
        while i < n
            invariant
                0 <= i <= n,
                n == self.entries@.len(),
                lookup_entry(self.entries@, k) == lookup_entry(self.entries@.skip(i as int), k),
            decreases n - i,
        {
            proof {
                assert(self.entries@.skip(i as int)[0] == self.entries@[i as int]);
                assert(self.entries@.skip(i as int).skip(1) =~= self.entries@.skip(i + 1));
            }
            let e = self.entries[i];
            if e.0 == k {
                return Some(e.1);
            }
            i = i + 1;
        }
        proof {
            assert(self.entries@.skip(n as int) =~= Seq::<(u32, u64)>::empty());
        }
        None
    }

    /// Whether an entry for `k` exists.
    pub fn contains_key(&self, k: u32) -> (r: bool)
        ensures
            r == self.spec_contains(k),
    {
        self.get(k).is_some()
    }

    /// Insert the entry `k -> v`, replacing the percent if the key already
    /// exists. Every other key keeps its value.
    pub fn set(&mut self, k: u32, v: u64)
        requires
            old(self).wf(),
            v <= 10000,
        ensures
            final(self).wf(),
            final(self).spec_get(k) == Some(v),
            forall|q: u32| q != k ==> final(self).spec_get(q) == old(self).spec_get(q),
    {
        let n = self.entries.len();
        let mut pos: usize = 0;
        while pos < n && self.entries[pos].0 < k
            invariant
                0 <= pos <= n,
                n == self.entries@.len(),
                *self == *old(self),
                forall|j: int| 0 <= j < pos ==> (#[trigger] self.entries@[j]).0 < k,
            decreases n - pos,
        {
            pos = pos + 1;
        }
        let ghost s = self.entries@;
        if pos < n && self.entries[pos].0 == k {
            self.entries[pos] = (k, v);
            proof {
                let t = self.entries@;
                assert(t == s.update(pos as int, (k, v)));
                assert forall|x: int| 0 <= x < t.len() implies (#[trigger] t[x]).0 == s[x].0 && t[x].1
                    <= 10000 by {
                    if x != pos {
                        assert(t[x] == s[x]);
                    }
                }
                assert(entries_sorted(t));
                lemma_lookup_at(t, pos as int, k);
                assert forall|q: u32| q != k implies lookup_entry(t, q) == lookup_entry(s, q) by {
                    assert(t == s.update(pos as int, (s[pos as int].0, v)));
                    lemma_lookup_update_value(s, pos as int, v, q);
                }
            }
        } else {
            self.entries.insert(pos, (k, v));
            proof {
                let t = self.entries@;
                assert(t == s.insert(pos as int, (k, v)));
                assert(pos == n || s[pos as int].0 > k);
                assert forall|a: int, b: int| 0 <= a < b < t.len() implies (#[trigger] t[a]).0
                    < (#[trigger] t[b]).0 by {
                    if a < pos && b < pos {
                    } else if a == pos && b > pos {
                        assert(t[b] == s[b - 1]);
                        assert(s[pos as int].0 <= s[b - 1].0);
                    } else if a < pos && b == pos {
                        assert(t[a] == s[a]);
                    } else if a < pos && b > pos {
                        assert(t[a] == s[a] && t[b] == s[b - 1]);
                        assert(s[a].0 < k);
                        assert(k < s[pos as int].0 || pos == n);
                        assert(s[a].0 < s[b - 1].0 || (a == b - 1));
                    } else {
                        assert(t[a] == s[a - 1] && t[b] == s[b - 1]);
                    }
                }
                assert forall|x: int| 0 <= x < t.len() implies (#[trigger] t[x]).1 <= 10000 by {
                    if x < pos {
                        assert(t[x] == s[x]);
                    } else if x > pos {
                        assert(t[x] == s[x - 1]);
                    }
                }
                assert forall|j: int| 0 <= j < pos implies (#[trigger] t[j]).0 != k by {
                    assert(t[j] == s[j]);
                }
                lemma_lookup_at(t, pos as int, k);
                assert forall|q: u32| q != k implies lookup_entry(t, q) == lookup_entry(s, q) by {
                    lemma_lookup_insert_other(s, pos as int, k, v, q);
                }
            }
        }
    }

    /// Remove the entry for `k`, if one exists; reports whether it did.
    /// Every other key keeps its value.
    pub fn remove(&mut self, k: u32) -> (r: bool)
        requires
            old(self).wf(),
        ensures
            final(self).wf(),
            r == old(self).spec_contains(k),
            final(self).spec_get(k) is None,
            forall|q: u32| q != k ==> final(self).spec_get(q) == old(self).spec_get(q),
    {
        let n = self.entries.len();
        let mut pos: usize = 0;
        while pos < n && self.entries[pos].0 != k
            invariant
                0 <= pos <= n,
                n == self.entries@.len(),
                *self == *old(self),
                forall|j: int| 0 <= j < pos ==> (#[trigger] self.entries@[j]).0 != k,
            decreases n - pos,
        {
            pos = pos + 1;
        }
        let ghost s = self.entries@;
        if pos < n {
            proof {
                lemma_lookup_at(s, pos as int, k);
            }
            self.entries.remove(pos);
            proof {
                let t = self.entries@;
                assert(t == s.remove(pos as int));
                assert forall|a: int, b: int| 0 <= a < b < t.len() implies (#[trigger] t[a]).0
                    < (#[trigger] t[b]).0 by {
                    assert(t[a] == if a < pos {
                        s[a]
                    } else {
                        s[a + 1]
                    });
                    assert(t[b] == if b < pos {
                        s[b]
                    } else {
                        s[b + 1]
                    });
                }
                assert forall|x: int| 0 <= x < t.len() implies (#[trigger] t[x]).1 <= 10000 by {
                    assert(t[x] == if x < pos {
                        s[x]
                    } else {
                        s[x + 1]
                    });
                }
                assert forall|j: int| 0 <= j < t.len() implies (#[trigger] t[j]).0 != k by {
                    if j >= pos {
                        assert(t[j] == s[j + 1]);
                        assert(s[pos as int].0 < s[j + 1].0);
                    }
                }
                lemma_lookup_absent(t, k);
                assert forall|q: u32| q != k implies lookup_entry(t, q) == lookup_entry(s, q) by {
                    lemma_lookup_remove_other(s, pos as int, q);
                }
            }
            true
        } else {
            proof {
                lemma_lookup_absent(s, k);
            }
            false
        }
    }

    /// The keys, in ascending order.
    pub fn keys(&self) -> (r: Vec<u32>)
        ensures
            r@ == self.entries_seq().map_values(|e: (u32, u64)| e.0),
    {
        let n = self.entries.len();
        let mut out: Vec<u32> = Vec::new();
        let mut i: usize = 0;
        proof {
            assert(out@ =~= self.entries@.take(0).map_values(|e: (u32, u64)| e.0));
        }
        while i < n
            invariant
                0 <= i <= n,
                n == self.entries@.len(),
                out@ == self.entries@.take(i as int).map_values(|e: (u32, u64)| e.0),
            decreases n - i,
        {
            out.push(self.entries[i].0);
            proof {
                assert(out@ =~= self.entries@.take(i + 1).map_values(|e: (u32, u64)| e.0));
            }
            i = i + 1;
        }
        proof {
            assert(self.entries@.take(n as int) =~= self.entries@);
        }
        out
    }

    /// The percents, in ascending key order.
    pub fn values(&self) -> (r: Vec<u64>)
        ensures
            r@ == self.entries_seq().map_values(|e: (u32, u64)| e.1),
    {
        let n = self.entries.len();
        let mut out: Vec<u64> = Vec::new();
        let mut i: usize = 0;
        proof {
            assert(out@ =~= self.entries@.take(0).map_values(|e: (u32, u64)| e.1));
        }
        while i < n
            invariant
                0 <= i <= n,
                n == self.entries@.len(),
                out@ == self.entries@.take(i as int).map_values(|e: (u32, u64)| e.1),
            decreases n - i,
        {
            out.push(self.entries[i].1);
            proof {
                assert(out@ =~= self.entries@.take(i + 1).map_values(|e: (u32, u64)| e.1));
            }
            i = i + 1;
        }
        proof {
            assert(self.entries@.take(n as int) =~= self.entries@);
        }
        out
    }

    /// Drop the first `count` entries.
    pub fn remove_prefix(&mut self, count: usize)
        requires
            old(self).wf(),
            count <= old(self).entries_seq().len(),
        ensures
            final(self).wf(),
            final(self).entries_seq() == old(self).entries_seq().skip(count as int),
    {
        let n = self.entries.len();
        let mut out: Vec<(u32, u64)> = Vec::new();
        let mut i: usize = count;
        proof {
            assert(out@ =~= self.entries@.subrange(count as int, count as int));
        }
        while i < n
            invariant
                count <= i <= n,
                n == self.entries@.len(),
                *self == *old(self),
                out@ == self.entries@.subrange(count as int, i as int),
            decreases n - i,
        {
            out.push(self.entries[i]);
            proof {
                assert(out@ =~= self.entries@.subrange(count as int, i + 1));
            }
            i = i + 1;
        }
        self.entries = out;
        proof {
            let s = old(self).entries@;
            let t = self.entries@;
            assert(t =~= s.skip(count as int));
            assert forall|a: int, b: int| 0 <= a < b < t.len() implies (#[trigger] t[a]).0
                < (#[trigger] t[b]).0 by {
                assert(t[a] == s[a + count]);
                assert(t[b] == s[b + count]);
            }
            assert forall|x: int| 0 <= x < t.len() implies (#[trigger] t[x]).1 <= 10000 by {
                assert(t[x] == s[x + count]);
            }
        }
    }
}

/// Binary search for the index with the closest sequence number less than or
/// equal to the given sequence.
///
/// Returns the index of the closest sequence number less than or equal to
/// the given sequence, or `None` if no such sequence exists.
pub fn find_unlock_with_sequence(sequence: u32, unlocks: &Vec<u32>) -> (r: Option<u32>)
    requires
        forall|i: int, j: int| 0 <= i < j < unlocks@.len() ==> unlocks@[i] < unlocks@[j],
        unlocks@.len() <= u32::MAX as int + 1,
    ensures
        r is None <==> (unlocks@.len() == 0 || sequence < unlocks@[0]),
        r matches Some(i) ==> {
            &&& 0 <= i < unlocks@.len()
            &&& unlocks@[i as int] <= sequence
            &&& (i + 1 == unlocks@.len() || unlocks@[i as int + 1] > sequence)
        },
{
    let n = unlocks.len();
    if n == 0 || sequence < unlocks[0] {
        return None;
    }
    let mut lo: usize = 0;
    let mut hi: usize = n - 1;
    while lo < hi
        invariant
            0 <= lo <= hi < n,
            n == unlocks@.len(),
            forall|i: int, j: int| 0 <= i < j < unlocks@.len() ==> unlocks@[i] < unlocks@[j],
            unlocks@[lo as int] <= sequence,
            hi + 1 == n || unlocks@[hi as int + 1] > sequence,
        decreases hi - lo,
    {
        let mid = lo + (hi - lo + 1) / 2;
        if unlocks[mid] <= sequence {
            lo = mid;
        } else {
            hi = mid - 1;
        }
    }
    Some(lo as u32)
}

/// Remove past unlocks up to the given index (inclusive): what remains is
/// exactly the entries beyond it.
pub fn remove_past_unlocks(index: u32, unlocks: &mut UnlockMap)
    requires
        old(unlocks).wf(),
        (index as int) < old(unlocks).entries_seq().len(),
    ensures
        final(unlocks).wf(),
        final(unlocks).entries_seq() == old(unlocks).entries_seq().skip(index as int + 1),
{
    let n = unlocks.len();
    assert(index as usize + 1 <= n);
    unlocks.remove_prefix(index as usize + 1);
}

} // verus!
