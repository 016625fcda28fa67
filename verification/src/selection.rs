//! Key-consistent bridge selection: for each pool, every caller key is
//! assigned the live bridge whose digest weight for that key is smallest —
//! a rendezvous scheme. Any instance computes the same answer from the
//! same registry snapshot, and when a bridge joins or leaves a pool only
//! the keys whose choice was that very bridge are remapped.

use vstd::prelude::*;
use vstd::bytes::{spec_u64_from_le_bytes, u64_from_le_bytes};
use vstd::slice::slice_subrange;
use vstd::utf8::encode_utf8;

use crate::cache::{CacheDecision, SfCache};
use crate::crypto::{blake3_of, blake3_digest};
use crate::registry::{BridgeDescriptor, Registry};

verus! {

/// The selection weight of the bridge at `listen` for caller key `key`:
/// the first eight bytes of the blake3 digest of the listen address
/// followed by the key, read as a little-endian integer.
pub open spec fn spec_weight(listen: Seq<char>, key: Seq<char>) -> u64 {
    spec_u64_from_le_bytes(blake3_of(encode_utf8(listen) + encode_utf8(key)).subrange(0, 8))
}

/// A row of the bridge table that takes part in selection for `pool` at
/// time `now`: it belongs to the pool and has not expired.
pub open spec fn in_pool(b: BridgeDescriptor, pool: Seq<char>, now: u64) -> bool {
    b.pool@ == pool && b.expiry >= now
}

/// The bridge that key `key` is assigned in `pool`: among the live rows of
/// the pool, the one of smallest weight, the earliest row winning ties.
pub open spec fn spec_pool_choice(
    bridges: Seq<BridgeDescriptor>,
    pool: Seq<char>,
    key: Seq<char>,
    now: u64,
) -> Option<BridgeDescriptor>
    decreases bridges.len(),
{
    if bridges.len() == 0 {
        None::<BridgeDescriptor>
    } else {
        let prev = spec_pool_choice(bridges.drop_last(), pool, key, now);
        let last = bridges.last();
        if in_pool(last, pool, now) {
            match prev {
                Option::None => Some(last),
                Option::Some(c) => if spec_weight(last.control_listen@, key) < spec_weight(
                    c.control_listen@,
                    key,
                ) {
                    Some(last)
                } else {
                    Some(c)
                },
            }
        } else {
            prev
        }
    }
}

/// Computes the selection weight.
pub fn weight(listen: &str, key: &str) -> (r: u64)
    ensures
        r == spec_weight(listen@, key@),
{
    let mut data = listen.as_bytes_vec();
    let mut tail = key.as_bytes_vec();
    data.append(&mut tail);
    let digest = blake3_digest(data.as_slice());
    let first = slice_subrange(digest.as_slice(), 0, 8);
    u64_from_le_bytes(first)
}

impl Registry {
    /// For every distinct pool holding at least one non-expired bridge
    /// row, exactly one descriptor: the choice `spec_pool_choice` fixes
    /// for the caller's key. Pools with no live row contribute nothing.
    pub fn select_bridges(&self, key: &str, now: u64) -> (r: Vec<BridgeDescriptor>)
        ensures
            forall|i: int, j: int| 0 <= i < j < r@.len() ==> r@[i].pool@ != r@[j].pool@,
            forall|i: int|
                0 <= i < r@.len() ==> spec_pool_choice(self.bridges@, r@[i].pool@, key@, now)
                    == Some(r@[i]),
            forall|k: int|
                0 <= k < self.bridges@.len() && self.bridges@[k].expiry >= now ==> exists|i: int|
                    0 <= i < r@.len() && r@[i].pool@ == self.bridges@[k].pool@,
    {
        let ghost s = self.bridges@;
        let mut r: Vec<BridgeDescriptor> = Vec::new();
        let mut weights: Vec<u64> = Vec::new();
        let n = self.bridges.len();
        let mut i: usize = 0;
        while i < n
            invariant
                n == s.len(),
                self.bridges@ == s,
                0 <= i <= n,
                r@.len() == weights@.len(),
                forall|a: int, b: int| 0 <= a < b < r@.len() ==> r@[a].pool@ != r@[b].pool@,
                forall|a: int|
                    0 <= a < r@.len() ==> spec_pool_choice(s.subrange(0, i as int), r@[a].pool@,
                    key@, now) == Some(r@[a]),
                forall|a: int|
                    0 <= a < r@.len() ==> weights@[a] == spec_weight(r@[a].control_listen@, key@),
                forall|k: int|
                    0 <= k < i && s[k].expiry >= now ==> exists|a: int|
                        0 <= a < r@.len() && r@[a].pool@ == s[k].pool@,
            decreases n - i,
        {
            let ghost prefix = s.subrange(0, i as int);
            let ghost old_r = r@;
            proof {
                assert(prefix.push(s[i as int]) =~= s.subrange(0, i + 1));
                lemma_choice_push_all(prefix, s[i as int], key@, now);
            }
            let b = &self.bridges[i];
            if b.expiry >= now {
                let w = weight(b.control_listen.as_str(), key);
                match find_pool(&r, &b.pool) {
                    Option::Some(j) => {
                        if w < weights[j] {
                            let chosen = b.clone();
                            r.set(j, chosen);
                            weights.set(j, w);
                            proof {
                                assert forall|a: int| 0 <= a < r@.len() implies spec_pool_choice(
                                    prefix.push(s[i as int]),
                                    r@[a].pool@,
                                    key@,
                                    now,
                                ) == Some(r@[a]) by {
                                    if a == j {
                                        assert(in_pool(s[i as int], r@[a].pool@, now));
                                    } else {
                                        assert(old_r[a].pool@ != old_r[j as int].pool@);
                                        assert(!in_pool(s[i as int], r@[a].pool@, now));
                                    }
                                }
                                assert(forall|a: int|
                                    0 <= a < r@.len() ==> r@[a].pool@ == old_r[a].pool@);
                                assert forall|k: int|
                                    0 <= k < i + 1 && s[k].expiry >= now implies exists|a: int|
                                        0 <= a < r@.len() && r@[a].pool@ == s[k].pool@ by {
                                    if k < i {
                                        let a0 = choose|a0: int|
                                            0 <= a0 < old_r.len() && old_r[a0].pool@
                                                == s[k].pool@;
                                        assert(r@[a0].pool@ == s[k].pool@);
                                    } else {
                                        assert(r@[j as int].pool@ == s[k].pool@);
                                    }
                                }
                            }
                        } else {
                            proof {
                                assert forall|a: int| 0 <= a < r@.len() implies spec_pool_choice(
                                    prefix.push(s[i as int]),
                                    r@[a].pool@,
                                    key@,
                                    now,
                                ) == Some(r@[a]) by {
                                    if a == j {
                                        assert(in_pool(s[i as int], r@[a].pool@, now));
                                    } else {
                                        assert(r@[a].pool@ != r@[j as int].pool@);
                                        assert(!in_pool(s[i as int], r@[a].pool@, now));
                                    }
                                }
                                assert(r@[j as int].pool@ == s[i as int].pool@);
                                assert forall|k: int|
                                    0 <= k < i + 1 && s[k].expiry >= now implies exists|a: int|
                                        0 <= a < r@.len() && r@[a].pool@ == s[k].pool@ by {
                                    if k == i {
                                        assert(r@[j as int].pool@ == s[k].pool@);
                                    }
                                }
                            }
                        }
                    },
                    Option::None => {
                        proof {
                            assert forall|k: int|
                                0 <= k < prefix.len() implies !in_pool(prefix[k], b.pool@, now) by {
                                if prefix[k].expiry >= now {
                                    assert(s[k] == prefix[k]);
                                    let a = choose|a: int|
                                        0 <= a < r@.len() && r@[a].pool@ == s[k].pool@;
                                    assert(r@[a].pool@ != b.pool@);
                                }
                            }
                            lemma_choice_none(prefix, b.pool@, key@, now);
                        }
                        let chosen = b.clone();
                        r.push(chosen);
                        weights.push(w);
                        proof {
                            assert forall|a: int| 0 <= a < r@.len() implies spec_pool_choice(
                                prefix.push(s[i as int]),
                                r@[a].pool@,
                                key@,
                                now,
                            ) == Some(r@[a]) by {
                                if a == r@.len() - 1 {
                                    assert(r@[a] == s[i as int]);
                                    assert(in_pool(s[i as int], r@[a].pool@, now));
                                } else {
                                    assert(old_r[a] == r@[a]);
                                    assert(!in_pool(s[i as int], r@[a].pool@, now));
                                }
                            }
                            assert forall|k: int|
                                0 <= k < i + 1 && s[k].expiry >= now implies exists|a: int|
                                    0 <= a < r@.len() && r@[a].pool@ == s[k].pool@ by {
                                if k < i {
                                    let a0 = choose|a0: int|
                                        0 <= a0 < old_r.len() && old_r[a0].pool@ == s[k].pool@;
                                    assert(r@[a0].pool@ == s[k].pool@);
                                } else {
                                    assert(r@[r@.len() - 1].pool@ == s[k].pool@);
                                }
                            }
                        }
                    },
                }
            }
            i += 1;
        }
        proof {
            assert(s.subrange(0, n as int) =~= s);
        }
        r
    }
}

/// Index of the entry already chosen for `pool`, if one exists.
fn find_pool(r: &Vec<BridgeDescriptor>, pool: &String) -> (res: Option<usize>)
    ensures
        match res {
            Option::Some(j) => j < r@.len() && r@[j as int].pool@ == pool@,
            Option::None => forall|a: int| 0 <= a < r@.len() ==> r@[a].pool@ != pool@,
        },
{
    let mut j: usize = 0;
    let m = r.len();
    while j < m
        invariant
            m == r@.len(),
            0 <= j <= m,
            forall|a: int| 0 <= a < j ==> r@[a].pool@ != pool@,
        decreases m - j,
    {
        let hit = r[j].pool == *pool;
        if hit {
            return Some(j);
        }
        j += 1;
    }
    None
}

/// Whether some entry of a selection answers for `pool`.
pub open spec fn covers(r: Seq<BridgeDescriptor>, pool: Seq<char>) -> bool {
    exists|j: int| 0 <= j < r.len() && r[j].pool@ == pool
}

/// What `select_bridges` promises of its result: pools are answered at
/// most once, every entry is the pool's fixed choice for the key, and
/// every pool with a live row is answered.
pub open spec fn is_selection(
    s: Seq<BridgeDescriptor>,
    key: Seq<char>,
    now: u64,
    r: Seq<BridgeDescriptor>,
) -> bool {
    &&& forall|i: int, j: int| 0 <= i < j < r.len() ==> r[i].pool@ != r[j].pool@
    &&& forall|i: int|
        0 <= i < r.len() ==> spec_pool_choice(s, (#[trigger] r[i]).pool@, key, now) == Some(r[i])
    &&& forall|k: int|
        0 <= k < s.len() && (#[trigger] s[k]).expiry >= now ==> covers(r, s[k].pool@)
}

/// Answers "which bridge should this key use in each pool?" through the
/// single-flight cache: a fresh cached answer is returned as it stands; a
/// missing or stale entry is recomputed from the registry snapshot —
/// exactly once, this caller claiming the key before anyone else can —
/// and cached for the time-to-live window; `None` says another caller's
/// computation is in flight and must be awaited instead of repeated.
pub fn query_bridges(
    reg: &Registry,
    cache: &mut SfCache<Vec<BridgeDescriptor>>,
    key: &String,
    now: u64,
) -> (r: Option<Vec<BridgeDescriptor>>)
    requires
        old(cache).wf(),
    ensures
        final(cache).wf(),
        final(cache).ttl_of() == old(cache).ttl_of(),
        ({
            let kb = encode_utf8(key@);
            &&& (r is None <==> old(cache).decision(kb, now) is Join)
            &&& (old(cache).decision(kb, now) is Join ==> *final(cache) == *old(cache))
            &&& (old(cache).decision(kb, now) is Fresh ==> (r matches Some(v) && v@ == old(
                cache,
            ).value_of(kb)@ && *final(cache) == *old(cache)))
            &&& (old(cache).decision(kb, now) is Compute ==> (r matches Some(v) && {
                &&& is_selection(reg.bridges@, key@, now, v@)
                &&& final(cache).ready(kb)
                &&& final(cache).value_of(kb)@ == v@
                &&& final(cache).stored_time(kb) == now
                &&& forall|k2: Seq<u8>| k2 != kb ==> final(cache).same_cell(*old(cache), k2)
            }))
        }),
{
    let kb = key.as_str().as_bytes_vec();
    match cache.probe(&kb, now) {
        CacheDecision::Join => None,
        CacheDecision::Fresh => {
            let cached = cache.get(&kb);
            let copy = clone_bridge_list(cached);
            Some(copy)
        },
        CacheDecision::Compute => {
            let ghost mid = *cache;
            let chosen = reg.select_bridges(key.as_str(), now);
            proof {
                assert(is_selection(reg.bridges@, key@, now, chosen@));
            }
            let copy = clone_bridge_list(&chosen);
            cache.publish(&kb, copy, now);
            proof {
                assert forall|k2: Seq<u8>| k2 != kb@ implies cache.same_cell(
                    *old(cache),
                    k2,
                ) by {
                    assert(mid.same_cell(*old(cache), k2));
                    assert(cache.same_cell(mid, k2));
                }
            }
            Some(chosen)
        },
    }
}

/// Copies a list of bridge descriptors element for element.
fn clone_bridge_list(v: &Vec<BridgeDescriptor>) -> (r: Vec<BridgeDescriptor>)
    ensures
        r@ == v@,
{
    let n = v.len();
    let mut r: Vec<BridgeDescriptor> = Vec::new();
    let mut i: usize = 0;
    while i < n
        invariant
            n == v@.len(),
            0 <= i <= n,
            r@ == v@.subrange(0, i as int),
        decreases n - i,
    {
        let item = v[i].clone();
        r.push(item);
        proof {
            assert(v@.subrange(0, i as int).push(v@[i as int]) =~= v@.subrange(0, i + 1));
        }
        i += 1;
    }
    proof {
        assert(v@.subrange(0, n as int) =~= v@);
    }
    r
}

/// Selection stability: one snapshot and one key fix one choice per
/// pool. Any two selections that satisfy the contract of
/// `select_bridges` on the same snapshot, key and time agree, pool for
/// pool, and cover the same pools.
pub proof fn lemma_selection_stable(
    s: Seq<BridgeDescriptor>,
    key: Seq<char>,
    now: u64,
    r1: Seq<BridgeDescriptor>,
    r2: Seq<BridgeDescriptor>,
)
    requires
        forall|i: int|
            0 <= i < r1.len() ==> spec_pool_choice(s, r1[i].pool@, key, now) == Some(r1[i]),
        forall|i: int|
            0 <= i < r2.len() ==> spec_pool_choice(s, r2[i].pool@, key, now) == Some(r2[i]),
        forall|k: int|
            0 <= k < s.len() && s[k].expiry >= now ==> exists|i: int|
                0 <= i < r1.len() && r1[i].pool@ == s[k].pool@,
        forall|k: int|
            0 <= k < s.len() && s[k].expiry >= now ==> exists|i: int|
                0 <= i < r2.len() && r2[i].pool@ == s[k].pool@,
    ensures
        forall|i: int, j: int|
            0 <= i < r1.len() && 0 <= j < r2.len() && r1[i].pool@ == r2[j].pool@ ==> r1[i]
                == r2[j],
        forall|i: int| 0 <= i < r1.len() ==> covers(r2, #[trigger] r1[i].pool@),
        forall|j: int| 0 <= j < r2.len() ==> covers(r1, #[trigger] r2[j].pool@),
{
    assert forall|i: int| 0 <= i < r1.len() implies covers(r2, #[trigger] r1[i].pool@) by {
        lemma_choice_is_live(s, r1[i].pool@, key, now);
        let k = choose|k: int|
            0 <= k < s.len() && s[k] == spec_pool_choice(s, r1[i].pool@, key, now)->0 && in_pool(
                s[k],
                r1[i].pool@,
                now,
            );
        assert(s[k].expiry >= now && s[k].pool@ == r1[i].pool@);
        let a = choose|a: int| 0 <= a < r2.len() && r2[a].pool@ == s[k].pool@;
        assert(r2[a].pool@ == r1[i].pool@);
    }
    assert forall|j: int| 0 <= j < r2.len() implies covers(r1, #[trigger] r2[j].pool@) by {
        lemma_choice_is_live(s, r2[j].pool@, key, now);
        let k = choose|k: int|
            0 <= k < s.len() && s[k] == spec_pool_choice(s, r2[j].pool@, key, now)->0 && in_pool(
                s[k],
                r2[j].pool@,
                now,
            );
        assert(s[k].expiry >= now && s[k].pool@ == r2[j].pool@);
        let a = choose|a: int| 0 <= a < r1.len() && r1[a].pool@ == s[k].pool@;
        assert(r1[a].pool@ == r2[j].pool@);
    }
}

/// Minimal disruption: removing one bridge row that is not the choice of
/// `pool` for `key` leaves that choice unchanged. Only the keys whose
/// choice was the removed bridge itself are remapped when it leaves.
pub proof fn lemma_minimal_disruption(
    s: Seq<BridgeDescriptor>,
    j: int,
    pool: Seq<char>,
    key: Seq<char>,
    now: u64,
)
    requires
        0 <= j < s.len(),
        spec_pool_choice(s, pool, key, now) is Some,
        s[j] != spec_pool_choice(s, pool, key, now)->0,
    ensures
        spec_pool_choice(s.remove(j), pool, key, now) == spec_pool_choice(s, pool, key, now),
    decreases s.len(),
{
    let c = spec_pool_choice(s, pool, key, now)->0;
    let rest = s.drop_last();
    let last = s.last();
    let prev = spec_pool_choice(rest, pool, key, now);
    if j == s.len() - 1 {
        assert(s.remove(j) =~= rest);
        if in_pool(last, pool, now) {
            assert(prev is Some && prev->0 == c);
        }
    } else {
        let t = s.remove(j);
        assert(t.len() == s.len() - 1);
        assert(t.drop_last() =~= rest.remove(j));
        assert(t.last() == last);
        assert(forall|a: int| 0 <= a < j ==> rest.remove(j)[a] == s[a]);
        assert(forall|a: int|
            j <= a < rest.remove(j).len() ==> rest.remove(j)[a] == s[a + 1]);
        let q = spec_pool_choice(rest.remove(j), pool, key, now);
        if !in_pool(last, pool, now) {
            assert(prev == spec_pool_choice(s, pool, key, now));
            assert(rest[j] == s[j]);
            lemma_minimal_disruption(rest, j, pool, key, now);
            assert(spec_pool_choice(t, pool, key, now) == q);
        } else {
            match prev {
                Option::None => {
                    assert(c == last);
                    lemma_none_means_no_live(rest, pool, key, now);
                    assert forall|k: int|
                        0 <= k < rest.remove(j).len() implies !in_pool(
                        rest.remove(j)[k],
                        pool,
                        now,
                    ) by {
                        if k < j {
                            assert(rest.remove(j)[k] == rest[k]);
                        } else {
                            assert(rest.remove(j)[k] == rest[k + 1]);
                        }
                    }
                    lemma_choice_none(rest.remove(j), pool, key, now);
                },
                Option::Some(p) => {
                    if spec_weight(last.control_listen@, key) < spec_weight(
                        p.control_listen@,
                        key,
                    ) {
                        assert(c == last);
                        lemma_choice_is_min(rest, pool, key, now);
                        match q {
                            Option::None => {},
                            Option::Some(qv) => {
                                lemma_choice_is_live(rest.remove(j), pool, key, now);
                                let k = choose|k: int|
                                    0 <= k < rest.remove(j).len() && rest.remove(j)[k] == qv
                                        && in_pool(rest.remove(j)[k], pool, now);
                                if k < j {
                                    assert(rest[k] == qv);
                                } else {
                                    assert(rest[k + 1] == qv);
                                }
                                assert(spec_weight(p.control_listen@, key) <= spec_weight(
                                    qv.control_listen@,
                                    key,
                                ));
                            },
                        }
                    } else {
                        assert(c == p);
                        assert(rest[j] == s[j]);
                        lemma_minimal_disruption(rest, j, pool, key, now);
                    }
                },
            }
        }
    }
}

/// The choice, when it exists, is one of the snapshot's own live rows of
/// the pool.
proof fn lemma_choice_is_live(s: Seq<BridgeDescriptor>, pool: Seq<char>, key: Seq<char>, now: u64)
    requires
        spec_pool_choice(s, pool, key, now) is Some,
    ensures
        exists|k: int|
            0 <= k < s.len() && s[k] == spec_pool_choice(s, pool, key, now)->0 && in_pool(
                s[k],
                pool,
                now,
            ),
    decreases s.len(),
{
    let c = spec_pool_choice(s, pool, key, now)->0;
    let rest = s.drop_last();
    let last = s.last();
    if in_pool(last, pool, now) && c == last {
        assert(s[s.len() - 1] == last);
    } else {
        lemma_choice_is_live(rest, pool, key, now);
        let k = choose|k: int|
            0 <= k < rest.len() && rest[k] == spec_pool_choice(rest, pool, key, now)->0
                && in_pool(rest[k], pool, now);
        assert(s[k] == rest[k]);
    }
}

/// The choice, when it exists, carries the smallest weight among the
/// pool's live rows.
proof fn lemma_choice_is_min(s: Seq<BridgeDescriptor>, pool: Seq<char>, key: Seq<char>, now: u64)
    requires
        spec_pool_choice(s, pool, key, now) is Some,
    ensures
        forall|k: int|
            0 <= k < s.len() && in_pool(s[k], pool, now) ==> spec_weight(
                spec_pool_choice(s, pool, key, now)->0.control_listen@,
                key,
            ) <= spec_weight(s[k].control_listen@, key),
    decreases s.len(),
{
    if s.len() > 0 {
        let rest = s.drop_last();
        if spec_pool_choice(rest, pool, key, now) is Some {
            lemma_choice_is_min(rest, pool, key, now);
        } else {
            lemma_none_means_no_live(rest, pool, key, now);
        }
        assert(forall|k: int| 0 <= k < rest.len() ==> s[k] == rest[k]);
    }
}

/// Without a choice there is no live row of the pool at all.
proof fn lemma_none_means_no_live(
    s: Seq<BridgeDescriptor>,
    pool: Seq<char>,
    key: Seq<char>,
    now: u64,
)
    requires
        spec_pool_choice(s, pool, key, now) is None,
    ensures
        forall|k: int| 0 <= k < s.len() ==> !in_pool(s[k], pool, now),
    decreases s.len(),
{
    if s.len() > 0 {
        lemma_none_means_no_live(s.drop_last(), pool, key, now);
        assert forall|k: int| 0 <= k < s.len() implies !in_pool(s[k], pool, now) by {
            if k < s.len() - 1 {
                assert(s.drop_last()[k] == s[k]);
            }
        }
    }
}

/// A pool with no live row in the snapshot has no choice.
proof fn lemma_choice_none(s: Seq<BridgeDescriptor>, pool: Seq<char>, key: Seq<char>, now: u64)
    requires
        forall|k: int| 0 <= k < s.len() ==> !in_pool(s[k], pool, now),
    ensures
        spec_pool_choice(s, pool, key, now) is None,
    decreases s.len(),
{
    if s.len() > 0 {
        assert(forall|k: int|
            0 <= k < s.drop_last().len() ==> s.drop_last()[k] == s[k]);
        lemma_choice_none(s.drop_last(), pool, key, now);
    }
}

/// Extending the snapshot by one row updates each pool's choice the way
/// one round of the running minimum does.
proof fn lemma_choice_push_all(
    s: Seq<BridgeDescriptor>,
    b: BridgeDescriptor,
    key: Seq<char>,
    now: u64,
)
    ensures
        forall|pool: Seq<char>| #[trigger] spec_pool_choice(s.push(b), pool, key, now) == (
        if in_pool(b, pool, now) {
            match spec_pool_choice(s, pool, key, now) {
                Option::None => Some(b),
                Option::Some(c) => if spec_weight(b.control_listen@, key) < spec_weight(
                    c.control_listen@,
                    key,
                ) {
                    Some(b)
                } else {
                    Some(c)
                },
            }
        } else {
            spec_pool_choice(s, pool, key, now)
        }),
{
    assert forall|pool: Seq<char>| #[trigger] spec_pool_choice(s.push(b), pool, key, now) == (
    if in_pool(b, pool, now) {
        match spec_pool_choice(s, pool, key, now) {
            Option::None => Some(b),
            Option::Some(c) => if spec_weight(b.control_listen@, key) < spec_weight(
                c.control_listen@,
                key,
            ) {
                Some(b)
            } else {
                Some(c)
            },
        }
    } else {
        spec_pool_choice(s, pool, key, now)
    }) by {
        assert(s.push(b).drop_last() =~= s);
        assert(s.push(b).last() == b);
    }
}

} // verus!
