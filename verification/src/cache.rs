//! The single-flight memoizing cache: a map from key to a cell holding
//! either "in flight" (a computation someone already started) or "ready"
//! (a value and the time it was stored). A lookup joins an in-flight
//! cell, takes a fresh ready value, or — in one atomic step — claims the
//! key by publishing an in-flight cell, so that of many concurrent
//! callers exactly one computes. Failed computations are withdrawn and
//! leave no entry behind; stale entries are recomputed lazily.

use vstd::prelude::*;

verus! {

use vstd::pervasive::unreached;

enum Slot<V> {
    Pending,
    Ready { value: V, stored_at: u64 },
}

struct Entry<V> {
    key: Vec<u8>,
    slot: Slot<V>,
}

/// What a lookup tells its caller to do.
#[derive(Clone, Copy, Debug, PartialEq, Eq, Structural)]
pub enum CacheDecision {
    /// A fresh value is cached: read it with `get`.
    Fresh,
    /// Someone else is computing this key: await their outcome.
    Join,
    /// The key is now claimed by this caller: compute, then `publish`
    /// or `fail`.
    Compute,
}

/// A single-flight cache with a fixed time-to-live, keyed by byte strings.
pub struct SfCache<V> {
    ttl: u64,
    entries: Vec<Entry<V>>,
}

impl<V> SfCache<V> {
    /// Keys are held at most once.
    pub closed spec fn wf(self) -> bool {
        forall|i: int, j: int|
            0 <= i < j < self.entries@.len() ==> self.entries@[i].key@ != self.entries@[j].key@
    }

    /// The time-to-live this cache was built with, in seconds.
    pub closed spec fn ttl_of(self) -> u64 {
        self.ttl
    }

    /// Whether the cache holds a cell for this key.
    pub closed spec fn has(self, k: Seq<u8>) -> bool {
        exists|i: int| 0 <= i < self.entries@.len() && self.entries@[i].key@ == k
    }

    /// The index of the cell for this key.
    spec fn index_of(self, k: Seq<u8>) -> int {
        choose|i: int| 0 <= i < self.entries@.len() && self.entries@[i].key@ == k
    }

    /// Whether a computation for this key is in flight.
    pub closed spec fn pending(self, k: Seq<u8>) -> bool {
        self.has(k) && self.entries@[self.index_of(k)].slot is Pending
    }

    /// Whether a value for this key is stored.
    pub closed spec fn ready(self, k: Seq<u8>) -> bool {
        self.has(k) && self.entries@[self.index_of(k)].slot is Ready
    }

    /// The stored value for a ready key.
    pub closed spec fn value_of(self, k: Seq<u8>) -> V {
        self.entries@[self.index_of(k)].slot->value
    }

    /// When the ready value was stored.
    pub closed spec fn stored_time(self, k: Seq<u8>) -> u64 {
        self.entries@[self.index_of(k)].slot->stored_at
    }

    /// Whether the stored value is still within its time-to-live.
    pub open spec fn fresh(self, k: Seq<u8>, now: u64) -> bool {
        self.ready(k) && now < self.stored_time(k) + self.ttl_of()
    }

    /// What one lookup of `k` at time `now` must answer: join an
    /// in-flight cell, take a fresh value, or start computing.
    pub open spec fn decision(self, k: Seq<u8>, now: u64) -> CacheDecision {
        if self.pending(k) {
            CacheDecision::Join
        } else if self.fresh(k, now) {
            CacheDecision::Fresh
        } else {
            CacheDecision::Compute
        }
    }

    /// The cell for `k2` is the same in `self` and `other`.
    pub open spec fn same_cell(self, other: Self, k2: Seq<u8>) -> bool {
        &&& self.has(k2) == other.has(k2)
        &&& self.pending(k2) == other.pending(k2)
        &&& self.ready(k2) == other.ready(k2)
        &&& (self.ready(k2) ==> self.value_of(k2) == other.value_of(k2) && self.stored_time(k2)
            == other.stored_time(k2))
    }

    pub fn new(ttl: u64) -> (r: Self)
        ensures
            r.wf(),
            r.ttl_of() == ttl,
            forall|k: Seq<u8>| !r.has(k),
    {
        SfCache { ttl, entries: Vec::new() }
    }

    /// One lookup, and at the same step the claim: when no usable cell
    /// exists the caller is told to compute and an in-flight cell is
    /// published before anyone else can look. While a computation is in
    /// flight no caller is told to compute — the single-flight rule.
    pub fn probe(&mut self, key: &Vec<u8>, now: u64) -> (r: CacheDecision)
        requires
            old(self).wf(),
        ensures
            final(self).wf(),
            final(self).ttl_of() == old(self).ttl_of(),
            r == old(self).decision(key@, now),
            r != CacheDecision::Compute ==> *final(self) == *old(self),
            r == CacheDecision::Compute ==> final(self).pending(key@),
            forall|k2: Seq<u8>| k2 != key@ ==> final(self).same_cell(*old(self), k2),
    {
        match self.find(key) {
            Option::Some(i) => {
                let t: u64 = match &self.entries[i].slot {
                    Slot::Pending => {
                        return CacheDecision::Join;
                    },
                    Slot::Ready { stored_at, .. } => *stored_at,
                };
                let still_fresh: bool = if self.ttl > u64::MAX - t {
                    true
                } else {
                    now < t + self.ttl
                };
                if still_fresh {
                    return CacheDecision::Fresh;
                }
                let fresh_key = clone_bytes(key);
                let ghost old_entries = self.entries@;
                self.entries.set(i, Entry { key: fresh_key, slot: Slot::Pending });
                proof {
                    self.lemma_cell_facts(old(self), i as int, key@, old_entries);
                }
                CacheDecision::Compute
            },
            Option::None => {
                let fresh_key = clone_bytes(key);
                let ghost old_entries = self.entries@;
                self.entries.push(Entry { key: fresh_key, slot: Slot::Pending });
                proof {
                    self.lemma_cell_facts(old(self), old_entries.len() as int, key@, old_entries);
                }
                CacheDecision::Compute
            },
        }
    }

    /// Store the outcome of the computation this caller was told to run.
    pub fn publish(&mut self, key: &Vec<u8>, value: V, now: u64)
        requires
            old(self).wf(),
            old(self).pending(key@),
        ensures
            final(self).wf(),
            final(self).ttl_of() == old(self).ttl_of(),
            final(self).ready(key@),
            !final(self).pending(key@),
            final(self).value_of(key@) == value,
            final(self).stored_time(key@) == now,
            forall|k2: Seq<u8>| k2 != key@ ==> final(self).same_cell(*old(self), k2),
    {
        match self.find(key) {
            Option::Some(i) => {
                let fresh_key = clone_bytes(key);
                let ghost old_entries = self.entries@;
                self.entries.set(i, Entry { key: fresh_key, slot: Slot::Ready { value, stored_at: now } });
                proof {
                    self.lemma_cell_facts(old(self), i as int, key@, old_entries);
                }
            },
            Option::None => {
                proof {
                    assert(false);
                }
            },
        }
    }

    /// Withdraw a claim after a failed computation: the cell disappears,
    /// so the very next caller retries from scratch — failures are never
    /// cached.
    pub fn fail(&mut self, key: &Vec<u8>)
        requires
            old(self).wf(),
            old(self).pending(key@),
        ensures
            final(self).wf(),
            final(self).ttl_of() == old(self).ttl_of(),
            !final(self).has(key@),
            forall|k2: Seq<u8>| k2 != key@ ==> final(self).same_cell(*old(self), k2),
    {
        match self.find(key) {
            Option::Some(i) => {
                let ghost old_entries = self.entries@;
                self.entries.remove(i);
                proof {
                    self.lemma_remove_facts(old(self), i as int, key@, old_entries);
                }
            },
            Option::None => {
                proof {
                    assert(false);
                }
            },
        }
    }

    /// After removing the cell at `i`, which held key `k`, the key is
    /// gone and every other key's cell reads as before.
    proof fn lemma_remove_facts(
        &self,
        prev: &Self,
        i: int,
        k: Seq<u8>,
        old_entries: Seq<Entry<V>>,
    )
        requires
            prev.entries@ == old_entries,
            forall|a: int, b: int|
                0 <= a < b < old_entries.len() ==> old_entries[a].key@ != old_entries[b].key@,
            0 <= i < old_entries.len(),
            old_entries[i].key@ == k,
            self.entries@ == old_entries.remove(i),
            self.ttl == prev.ttl,
        ensures
            self.wf(),
            !self.has(k),
            forall|k2: Seq<u8>| k2 != k ==> self.same_cell(*prev, k2),
    {
        assert(forall|a: int| 0 <= a < i ==> self.entries@[a] == old_entries[a]);
        assert(forall|a: int|
            i <= a < self.entries@.len() ==> self.entries@[a] == old_entries[a + 1]);
        assert forall|a: int, b: int|
            0 <= a < b < self.entries@.len() implies self.entries@[a].key@
            != self.entries@[b].key@ by {
            let a0: int = if a < i {
                a
            } else {
                a + 1
            };
            let b0: int = if b < i {
                b
            } else {
                b + 1
            };
            assert(self.entries@[a] == old_entries[a0]);
            assert(self.entries@[b] == old_entries[b0]);
        }
        assert forall|a: int| 0 <= a < self.entries@.len() implies self.entries@[a].key@
            != k by {
            let a0: int = if a < i {
                a
            } else {
                a + 1
            };
            assert(self.entries@[a] == old_entries[a0]);
            assert(a0 != i);
        }
        assert forall|k2: Seq<u8>| k2 != k implies self.same_cell(*prev, k2) by {
            if self.has(k2) {
                let a = self.index_of(k2);
                assert(0 <= a < self.entries@.len() && self.entries@[a].key@ == k2);
                let a0: int = if a < i {
                    a
                } else {
                    a + 1
                };
                assert(old_entries[a0].key@ == k2);
                assert(prev.has(k2));
                let b = prev.index_of(k2);
                assert(0 <= b < old_entries.len() && old_entries[b].key@ == k2);
                assert(b == a0);
                assert(self.entries@[a] == old_entries[b]);
            }
            if prev.has(k2) {
                let b = prev.index_of(k2);
                assert(0 <= b < old_entries.len() && old_entries[b].key@ == k2);
                assert(b != i);
                let a: int = if b < i {
                    b
                } else {
                    b - 1
                };
                assert(self.entries@[a] == old_entries[b]);
                assert(self.has(k2));
            }
        }
    }

    /// Read the stored value of a ready key.
    pub fn get(&self, key: &Vec<u8>) -> (r: &V)
        requires
            self.wf(),
            self.ready(key@),
        ensures
            *r == self.value_of(key@),
    {
        match self.find(key) {
            Option::Some(i) => {
                match &self.entries[i].slot {
                    Slot::Ready { value, .. } => value,
                    Slot::Pending => {
                        proof {
                            assert(false);
                        }
                        unreached()
                    },
                }
            },
            Option::None => {
                proof {
                    assert(false);
                }
                unreached()
            },
        }
    }

    /// Index of the cell holding `key`, if any.
    fn find(&self, key: &Vec<u8>) -> (r: Option<usize>)
        requires
            self.wf(),
        ensures
            match r {
                Option::Some(i) => i < self.entries@.len() && self.entries@[i as int].key@
                    == key@ && self.has(key@) && self.index_of(key@) == i as int,
                Option::None => !self.has(key@),
            },
    {
        let n = self.entries.len();
        let mut i: usize = 0;
        while i < n
            invariant
                self.wf(),
                n == self.entries@.len(),
                0 <= i <= n,
                forall|a: int| 0 <= a < i ==> self.entries@[a].key@ != key@,
            decreases n - i,
        {
            if bytes_eq(&self.entries[i].key, key) {
                proof {
                    let j = self.index_of(key@);
                    assert(0 <= j < self.entries@.len() && self.entries@[j].key@ == key@);
                    assert(j == i as int);
                }
                return Some(i);
            }
            i += 1;
        }
        None
    }

    /// After replacing or appending the cell at `i` for key `k`, every
    /// other key's cell reads as before, and `k`'s cell is the new one.
    proof fn lemma_cell_facts(
        &self,
        prev: &Self,
        i: int,
        k: Seq<u8>,
        old_entries: Seq<Entry<V>>,
    )
        requires
            prev.entries@ == old_entries,
            forall|a: int, b: int|
                0 <= a < b < old_entries.len() ==> old_entries[a].key@ != old_entries[b].key@,
            0 <= i <= old_entries.len(),
            forall|a: int| 0 <= a < old_entries.len() && a != i ==> old_entries[a].key@ != k,
            i < old_entries.len() ==> old_entries[i].key@ == k && self.entries@ == old_entries
                .update(i, self.entries@[i]),
            i == old_entries.len() ==> self.entries@ == old_entries.push(self.entries@[i]),
            i < self.entries@.len(),
            self.entries@[i].key@ == k,
            self.ttl == prev.ttl,
        ensures
            self.wf(),
            self.has(k),
            self.index_of(k) == i,
            forall|k2: Seq<u8>| k2 != k ==> self.same_cell(*prev, k2),
    {
        assert(self.entries@[i].key@ == k);
        assert(self.has(k));
        assert forall|a: int, b: int|
            0 <= a < b < self.entries@.len() implies self.entries@[a].key@
            != self.entries@[b].key@ by {
            if a == i {
                assert(self.entries@[b] == old_entries[b]);
                assert(old_entries[b].key@ != k);
            } else if b == i {
                assert(self.entries@[a] == old_entries[a]);
                assert(old_entries[a].key@ != k);
            } else {
                assert(self.entries@[a] == old_entries[a]);
                assert(self.entries@[b] == old_entries[b]);
            }
        }
        let j = self.index_of(k);
        assert(0 <= j < self.entries@.len() && self.entries@[j].key@ == k);
        if j != i {
            assert(old_entries[j].key@ != k);
        }
        assert forall|k2: Seq<u8>| k2 != k implies self.same_cell(*prev, k2) by {
            assert forall|a: int|
                0 <= a < self.entries@.len() && self.entries@[a].key@ == k2 implies 0 <= a
                < old_entries.len() && old_entries[a].key@ == k2 by {
                assert(a != i);
            }
            assert forall|a: int|
                0 <= a < old_entries.len() && old_entries[a].key@ == k2 implies 0 <= a
                < self.entries@.len() && self.entries@[a].key@ == k2 by {
                assert(a != i);
            }
            if self.has(k2) {
                let a = self.index_of(k2);
                assert(0 <= a < self.entries@.len() && self.entries@[a].key@ == k2);
                assert(a != i);
                assert(prev.has(k2));
                let b = prev.index_of(k2);
                assert(0 <= b < old_entries.len() && old_entries[b].key@ == k2);
                assert(b != i);
                assert(self.entries@[b] == old_entries[b]);
                if a != b {
                    assert(self.entries@[a].key@ == self.entries@[b].key@);
                }
            }
        }
    }
}

/// Compares two byte strings.
pub fn bytes_eq(a: &Vec<u8>, b: &Vec<u8>) -> (r: bool)
    ensures
        r <==> a@ == b@,
{
    if a.len() != b.len() {
        return false;
    }
    let n = a.len();
    let mut i: usize = 0;
    while i < n
        invariant
            n == a@.len() == b@.len(),
            0 <= i <= n,
            forall|c: int| 0 <= c < i ==> a@[c] == b@[c],
        decreases n - i,
    {
        if a[i] != b[i] {
            return false;
        }
        i += 1;
    }
    proof {
        assert(a@ =~= b@);
    }
    true
}

/// Copies a byte string.
pub fn clone_bytes(v: &Vec<u8>) -> (r: Vec<u8>)
    ensures
        r@ == v@,
{
    let n = v.len();
    let mut r: Vec<u8> = Vec::new();
    let mut i: usize = 0;
    while i < n
        invariant
            n == v@.len(),
            0 <= i <= n,
            r@ == v@.subrange(0, i as int),
        decreases n - i,
    {
        r.push(v[i]);
        proof {
            assert(v@.subrange(0, i as int).push(v@[i as int]) =~= v@.subrange(0, i + 1));
        }
        i += 1;
    }
    proof {
        assert(v@.subrange(0, n as int) =~= v@);
    }
    r
}

/// The single-flight law: a lookup that was told to compute leaves an
/// in-flight cell behind, and as long as a cell is in flight every
/// further lookup of that key — at any time — is told to join, never to
/// compute. Of K concurrent lookups of one uncached key, exactly one
/// computes and the rest await its outcome.
pub proof fn lemma_single_flight<V>(
    claimed: SfCache<V>,
    k: Seq<u8>,
    now: u64,
)
    requires
        claimed.pending(k),
    ensures
        claimed.decision(k, now) == CacheDecision::Join,
{
}

} // verus!
