//! The expiring key-value table.
//!
//! A table maps string keys to stored values, each with an optional
//! absolute expiry instant. A value can be read only while it has not
//! expired; a background reaper removes expired entries and sleeps until
//! the next expiry, woken early when a sooner expiry arrives.

use vstd::prelude::*;
use crate::assoc::{map_of, unique_keys, lemma_map_of_contains, lemma_map_of_index, lemma_map_of_len, lemma_set_entry};
use crate::db::{Value, ValueV};
use crate::strutil::str_eq;

verus! {

/// A value is observable at `now` while its expiry is absent or not yet past.
pub open spec fn observable(v: ValueV, now: i64) -> bool {
    match v.expiry {
        None => true,
        Some(e) => now <= e,
    }
}

/// The expiring table: string keys to stored values.
pub struct Table {
    entries: Vec<(String, Value)>,
}

impl Table {
    /// The keys inside are pairwise distinct.
    pub closed spec fn wf(&self) -> bool {
        unique_keys(self.entries@)
    }

    /// The mapping the table holds.
    pub closed spec fn as_map(&self) -> Map<Seq<char>, ValueV> {
        map_of(self.entries@)
    }

    /// An empty table.
    pub fn new() -> (r: Table)
        ensures
            r.wf(),
            r.as_map() == Map::<Seq<char>, ValueV>::empty(),
    {
        Table { entries: Vec::new() }
    }

    /// The position of the entry holding `key`, if any.
    fn find(&self, key: &str) -> (r: Option<usize>)
        ensures
            match r {
                Some(i) => i < self.entries@.len() && self.entries@[i as int].0@ == key@,
                None => forall|i: int|
                    0 <= i < self.entries@.len() ==> self.entries@[i].0@ != key@,
            },
    {
        let n: usize = self.entries.len();
        let mut i: usize = 0;
        while i < n
            invariant
                i <= n,
                n == self.entries@.len(),
                forall|j: int| 0 <= j < i ==> self.entries@[j].0@ != key@,
            decreases n - i,
        {
            if str_eq(self.entries[i].0.as_str(), key) {
                return Some(i);
            }
            i += 1;
        }
        None
    }

    /// Read a key at time `now`.
    ///
    /// Returns the stored value exactly when the key is present and its
    /// value is observable at `now`; an expired entry is never returned,
    /// whether or not the reaper has removed it yet.
    pub fn get(&self, key: &str, now: i64) -> (r: Option<Value>)
        requires
            self.wf(),
        ensures
            match r {
                Some(v) => lookup(self.as_map(), key@, now) == Some(v@),
                None => lookup(self.as_map(), key@, now) is None,
            },
    {
        proof {
            lemma_map_of_contains(self.entries@, key@);
        }
        match self.find(key) {
            Some(i) => {
                proof {
                    lemma_map_of_index(self.entries@, i as int);
                }
                let value = &self.entries[i].1;
                match value.expiry {
                    Some(e) => {
                        if now <= e {
                            Some(value.clone())
                        } else {
                            None
                        }
                    },
                    None => Some(value.clone()),
                }
            },
            None => None,
        }
    }

    /// Insert or replace a key.
    ///
    /// The mapping afterwards is the old mapping with `key` bound to
    /// `value`. The result says whether the reaper must be woken: exactly
    /// when the new value expires, and sooner than every expiry the table
    /// held before.
    pub fn set(&mut self, key: String, value: Value) -> (wake: bool)
        requires
            old(self).wf(),
        ensures
            final(self).wf(),
            final(self).as_map() == old(self).as_map().insert(key@, value@),
            wake == (value@.expiry matches Some(e) && forall|k: Seq<char>|
                #[trigger] old(self).as_map().dom().contains(k)
                    && old(self).as_map()[k].expiry is Some
                    ==> e < old(self).as_map()[k].expiry->0),
    {
        let ghost old_entries = self.entries@;
        let ghost gk = key@;
        let wake = match value.expiry {
            Some(e) => self.sooner_than_all(e),
            None => false,
        };
        match self.find(key.as_str()) {
            Some(i) => {
                self.entries.set(i, (key, value));
                proof {
                    lemma_set_entry(old_entries, i as int, self.entries@);
                }
            },
            None => {
                self.entries.push((key, value));
                proof {
                    assert(self.entries@.drop_last() =~= old_entries);
                    lemma_map_of_contains(old_entries, gk);
                }
            },
        }
        wake
    }

    /// Does `e` precede every expiry the table holds?
    fn sooner_than_all(&self, e: i64) -> (r: bool)
        requires
            self.wf(),
        ensures
            r == forall|k: Seq<char>| #[trigger] self.as_map().dom().contains(k)
                && self.as_map()[k].expiry is Some ==> e < self.as_map()[k].expiry->0,
    {
        let n: usize = self.entries.len();
        let mut i: usize = 0;
        while i < n
            invariant
                i <= n,
                n == self.entries@.len(),
                self.wf(),
                forall|j: int| 0 <= j < i
                    ==> (#[trigger] self.entries@[j].1@.expiry matches Some(e2) ==> e < e2),
            decreases n - i,
        {
            match self.entries[i].1.expiry {
                Some(e2) => {
                    if e2 <= e {
                        proof {
                            lemma_map_of_index(self.entries@, i as int);
                        }
                        return false;
                    }
                },
                None => {},
            }
            i += 1;
        }
        proof {
            assert forall|k: Seq<char>| #[trigger] self.as_map().dom().contains(k)
                && self.as_map()[k].expiry is Some implies e < self.as_map()[k].expiry->0 by {
                lemma_map_of_contains(self.entries@, k);
                let j = choose|j: int| 0 <= j < self.entries@.len() && self.entries@[j].0@ == k;
                lemma_map_of_index(self.entries@, j);
            }
        }
        true
    }

    /// The soonest expiry the table holds, if any entry expires at all.
    pub fn next_expiration(&self) -> (r: Option<i64>)
        requires
            self.wf(),
        ensures
            match r {
                Some(e) => (exists|k: Seq<char>| #[trigger] self.as_map().dom().contains(k)
                    && self.as_map()[k].expiry == Some(e)) && forall|k: Seq<char>|
                    #[trigger] self.as_map().dom().contains(k)
                        && self.as_map()[k].expiry is Some ==> e <= self.as_map()[k].expiry->0,
                None => forall|k: Seq<char>| #[trigger] self.as_map().dom().contains(k)
                    ==> self.as_map()[k].expiry is None,
            },
    {
        let n: usize = self.entries.len();
        let mut best: Option<i64> = None;
        let ghost mut best_at: int = 0;
        let mut i: usize = 0;
        while i < n
            invariant
                i <= n,
                n == self.entries@.len(),
                self.wf(),
                match best {
                    Some(e) => 0 <= best_at < i
                        && self.entries@[best_at].1@.expiry == Some(e) && forall|j: int|
                        0 <= j < i
                            ==> (#[trigger] self.entries@[j].1@.expiry matches Some(e2)
                            ==> e <= e2),
                    None => forall|j: int| 0 <= j < i
                        ==> #[trigger] self.entries@[j].1@.expiry is None,
                },
            decreases n - i,
        {
            match self.entries[i].1.expiry {
                Some(e2) => {
                    match best {
                        Some(e) => {
                            if e2 < e {
                                best = Some(e2);
                                proof {
                                    best_at = i as int;
                                }
                            }
                        },
                        None => {
                            best = Some(e2);
                            proof {
                                best_at = i as int;
                            }
                        },
                    }
                },
                None => {},
            }
            i += 1;
        }
        proof {
            match best {
                Some(e) => {
                    lemma_map_of_index(self.entries@, best_at);
                    assert forall|k: Seq<char>| #[trigger] self.as_map().dom().contains(k)
                        && self.as_map()[k].expiry is Some implies e
                        <= self.as_map()[k].expiry->0 by {
                        lemma_map_of_contains(self.entries@, k);
                        let j = choose|j: int|
                            0 <= j < self.entries@.len() && self.entries@[j].0@ == k;
                        lemma_map_of_index(self.entries@, j);
                    }
                },
                None => {
                    assert forall|k: Seq<char>| #[trigger] self.as_map().dom().contains(k)
                        implies self.as_map()[k].expiry is None by {
                        lemma_map_of_contains(self.entries@, k);
                        let j = choose|j: int|
                            0 <= j < self.entries@.len() && self.entries@[j].0@ == k;
                        lemma_map_of_index(self.entries@, j);
                    }
                },
            }
        }
        best
    }

    /// Remove every entry whose expiry is past at `now`, and return the
    /// soonest expiry that remains, if any.
    ///
    /// An entry is removed exactly when it has an expiry and that expiry
    /// precedes `now`; the reaper never removes an observable entry.
    pub fn remove_expired_values(&mut self, now: i64) -> (next: Option<i64>)
        requires
            old(self).wf(),
        ensures
            final(self).wf(),
            final(self).as_map() == reaped(old(self).as_map(), now),
            match next {
                Some(e) => (exists|k: Seq<char>| #[trigger] final(self).as_map().dom().contains(k)
                    && final(self).as_map()[k].expiry == Some(e)) && forall|k: Seq<char>|
                    #[trigger] final(self).as_map().dom().contains(k)
                        && final(self).as_map()[k].expiry is Some
                        ==> e <= final(self).as_map()[k].expiry->0,
                None => forall|k: Seq<char>| #[trigger] final(self).as_map().dom().contains(k)
                    ==> final(self).as_map()[k].expiry is None,
            },
    {
        let ghost old_entries = self.entries@;
        let ghost n = old_entries.len() as int;
        let ghost mut j: int = 0;
        let mut i: usize = 0;
        while i < self.entries.len()
            invariant
                unique_keys(old_entries),
                0 <= j <= n,
                n == old_entries.len(),
                i <= self.entries@.len(),
                self.entries@ == keep_observable(old_entries.subrange(0, j), now)
                    + old_entries.subrange(j, n),
                i as int == keep_observable(old_entries.subrange(0, j), now).len(),
            decreases self.entries@.len() - i,
        {
            proof {
                assert(old_entries.subrange(0, j + 1).drop_last()
                    =~= old_entries.subrange(0, j));
                assert(old_entries.subrange(0, j + 1).last() == old_entries[j]);
                assert(self.entries@[i as int] == old_entries[j]);
            }
            let keep = match self.entries[i].1.expiry {
                Some(e) => now <= e,
                None => true,
            };
            let ghost pre = self.entries@;
            if keep {
                i += 1;
                proof {
                    assert(pre =~= keep_observable(old_entries.subrange(0, j + 1), now)
                        + old_entries.subrange(j + 1, n));
                }
            } else {
                self.entries.remove(i);
                proof {
                    assert(self.entries@ =~= keep_observable(old_entries.subrange(0, j + 1), now)
                        + old_entries.subrange(j + 1, n));
                }
            }
            proof {
                j = j + 1;
            }
        }
        proof {
            assert(old_entries.subrange(j, n).len() == 0);
            assert(old_entries.subrange(0, j) =~= old_entries);
            assert(self.entries@ =~= keep_observable(old_entries, now));
        }
        proof {
            lemma_keep_observable(old_entries, now);
            assert(self.as_map() =~= Map::<Seq<char>, ValueV>::new(
                |k: Seq<char>| map_of(old_entries).dom().contains(k)
                    && observable(map_of(old_entries)[k], now),
                |k: Seq<char>| map_of(old_entries)[k],
            ));
        }
        self.next_expiration()
    }

    /// How many keys the table holds.
    pub fn len(&self) -> (r: usize)
        requires
            self.wf(),
        ensures
            r == self.as_map().dom().len(),
    {
        proof {
            lemma_map_of_len(self.entries@);
        }
        self.entries.len()
    }
}

/// The subsequence of entries still observable at `now`.
pub open spec fn keep_observable(s: Seq<(String, Value)>, now: i64) -> Seq<(String, Value)>
    decreases s,
{
    if s.len() == 0 {
        s
    } else {
        let rest = keep_observable(s.drop_last(), now);
        if observable(s.last().1@, now) {
            rest.push(s.last())
        } else {
            rest
        }
    }
}

/// Keeping the observable entries restricts the mapping to the observable
/// values, and keeps the keys unique.
proof fn lemma_keep_observable(s: Seq<(String, Value)>, now: i64)
    requires
        unique_keys(s),
    ensures
        unique_keys(keep_observable(s, now)),
        forall|j: int| 0 <= j < keep_observable(s, now).len()
            ==> exists|i: int| 0 <= i < s.len() && #[trigger] keep_observable(s, now)[j] == s[i],
        map_of(keep_observable(s, now)) == Map::<Seq<char>, ValueV>::new(
            |k: Seq<char>| map_of(s).dom().contains(k) && observable(map_of(s)[k], now),
            |k: Seq<char>| map_of(s)[k],
        ),
    decreases s.len(),
{
    let r = keep_observable(s, now);
    let goal = Map::<Seq<char>, ValueV>::new(
        |k: Seq<char>| map_of(s).dom().contains(k) && observable(map_of(s)[k], now),
        |k: Seq<char>| map_of(s)[k],
    );
    if s.len() == 0 {
        assert(map_of(r) =~= goal);
    } else {
        let s0 = s.drop_last();
        let last = s.last();
        lemma_keep_observable(s0, now);
        let r0 = keep_observable(s0, now);
        let goal0 = Map::<Seq<char>, ValueV>::new(
            |k: Seq<char>| map_of(s0).dom().contains(k) && observable(map_of(s0)[k], now),
            |k: Seq<char>| map_of(s0)[k],
        );
        lemma_map_of_contains(s0, last.0@);
        assert(forall|i: int| 0 <= i < s0.len() ==> #[trigger] s0[i].0@ != last.0@);
        if observable(last.1@, now) {
            assert forall|i2: int, j2: int| 0 <= i2 < j2 < r.len() implies r[i2].0@ != r[j2].0@ by {
                if j2 < r.len() - 1 {
                    assert(r0[i2] == r[i2] && r0[j2] == r[j2]);
                } else {
                    let i0 = choose|i0: int| 0 <= i0 < s0.len() && r0[i2] == s0[i0];
                    assert(r[i2].0@ != last.0@);
                }
            }
            assert(r =~= r0.push(last));
            assert(r.drop_last() =~= r0);
            assert(map_of(r) == map_of(r0).insert(last.0@, last.1@));
            assert forall|j: int| 0 <= j < r.len() implies exists|i: int|
                0 <= i < s.len() && #[trigger] r[j] == s[i] by {
                if j < r.len() - 1 {
                    let i0 = choose|i0: int| 0 <= i0 < s0.len() && r0[j] == s0[i0];
                    assert(r[j] == s[i0]);
                } else {
                    assert(r[j] == s[s.len() - 1]);
                }
            }
            assert forall|k: Seq<char>| #![auto] true implies (map_of(r).dom().contains(k)
                <==> goal.dom().contains(k)) && (map_of(r).dom().contains(k)
                ==> map_of(r)[k] == goal[k]) by {
                if k == last.0@ {
                } else {
                }
            }
            assert(map_of(r) =~= goal);
        } else {
            assert(r == r0);
            assert forall|j: int| 0 <= j < r.len() implies exists|i: int|
                0 <= i < s.len() && #[trigger] r[j] == s[i] by {
                let i0 = choose|i0: int| 0 <= i0 < s0.len() && r0[j] == s0[i0];
                assert(r[j] == s[i0]);
            }
            assert forall|k: Seq<char>| goal.dom().contains(k) implies goal0.dom().contains(k)
                && goal[k] == goal0[k] by {
                assert(k != last.0@);
            }
            assert forall|k: Seq<char>| goal0.dom().contains(k) implies goal.dom().contains(k) by {
                assert(k != last.0@);
            }
            assert(map_of(r) =~= goal);
        }
    }
}

/// What a read returns: the stored value while the key is present and
/// observable, nothing otherwise.
pub open spec fn lookup(m: Map<Seq<char>, ValueV>, k: Seq<char>, now: i64) -> Option<ValueV> {
    if m.dom().contains(k) && observable(m[k], now) {
        Some(m[k])
    } else {
        None
    }
}

/// What a pass of the reaper at `now` leaves: exactly the entries still
/// observable at `now`, each unchanged.
pub open spec fn reaped(m: Map<Seq<char>, ValueV>, now: i64) -> Map<Seq<char>, ValueV> {
    Map::<Seq<char>, ValueV>::new(
        |k: Seq<char>| m.dom().contains(k) && observable(m[k], now),
        |k: Seq<char>| m[k],
    )
}

/// A completed write is read back while it lives: after binding `k` to
/// `v`, a read of `k` at any `t` at which `v` is still observable returns
/// `v`, and reads of every other key are as before the write.
pub proof fn lemma_set_then_get(m: Map<Seq<char>, ValueV>, k: Seq<char>, v: ValueV, t: i64)
    requires
        observable(v, t),
    ensures
        lookup(m.insert(k, v), k, t) == Some(v),
        forall|k2: Seq<char>| k2 != k ==> lookup(#[trigger] m.insert(k, v), k2, t)
            == lookup(m, k2, t),
{
}

/// A write that expires is unreadable afterwards: after binding `k` to a
/// value with expiry `e`, a read of `k` at any `t` past `e` returns
/// nothing.
pub proof fn lemma_expired_get_none(m: Map<Seq<char>, ValueV>, k: Seq<char>, v: ValueV, t: i64)
    requires
        v.expiry is Some,
        t > v.expiry->0,
    ensures
        lookup(m.insert(k, v), k, t) is None,
{
}

/// A pass of the reaper never changes what a later read returns: it
/// removes only entries already unobservable, so every read at `t` sees
/// the same value before and after a pass at any `rt ≤ t`.
pub proof fn lemma_reap_preserves_reads(m: Map<Seq<char>, ValueV>, rt: i64, t: i64, k: Seq<char>)
    requires
        rt <= t,
    ensures
        lookup(reaped(m, rt), k, t) == lookup(m, k, t),
{
}

/// The whole seconds to sleep until `next`, floored at zero so that a
/// past expiry never turns into a huge wait.
pub fn sleep_seconds(next: i64, now: i64) -> (r: u64)
    ensures
        r as int == if next <= now { 0int } else { next - now },
{
    if next <= now {
        0
    } else {
        (next as i128 - now as i128) as u64
    }
}

} // verus!

