//! The registry store: tables of exit and bridge rows, each carrying an
//! expiry, plus single-use proof-of-work nonces. The store itself lives in
//! a database; this module is the table logic — what an upsert, a sweep or
//! a conditional delete does to the rows — stated and proved over sequence
//! and set models.

use vstd::prelude::*;

use crate::crypto::{blake3_of, hex_of, zbase32_of, blake3_digest, hex_encode, random_bytes,
    zbase32_encode};

verus! {

/// One exit node's row: keyed by its public key; every other field is
/// overwritten whenever the exit announces itself again. The load metric
/// is informational only and carried in hundredths.
pub struct ExitRow {
    pub pubkey: [u8; 32],
    pub c2e_listen: String,
    pub b2e_listen: String,
    pub country: String,
    pub city: String,
    pub load: u32,
    pub expiry: u64,
}

impl Clone for ExitRow {
    fn clone(&self) -> (r: Self)
        ensures
            r == *self,
    {
        ExitRow {
            pubkey: self.pubkey,
            c2e_listen: self.c2e_listen.clone(),
            b2e_listen: self.b2e_listen.clone(),
            country: self.country.clone(),
            city: self.city.clone(),
            load: self.load,
            expiry: self.expiry,
        }
    }
}

/// One bridge's row: its control endpoint, the shared cookie that
/// authenticates the control channel, the pool it belongs to, and when the
/// row expires. Bridges sharing a pool are interchangeable candidates.
pub struct BridgeDescriptor {
    pub control_listen: String,
    pub control_cookie: String,
    pub pool: String,
    pub expiry: u64,
}

impl Clone for BridgeDescriptor {
    fn clone(&self) -> (r: Self)
        ensures
            r == *self,
    {
        BridgeDescriptor {
            control_listen: self.control_listen.clone(),
            control_cookie: self.control_cookie.clone(),
            pool: self.pool.clone(),
            expiry: self.expiry,
        }
    }
}

/// Error returned by registry operations that look up a row.
#[derive(PartialEq, Eq, Structural, Clone, Copy, Debug)]
pub enum RegistryError {
    /// The row addressed by the operation does not exist (for a nonce:
    /// already consumed, or never issued).
    NotFound,
}

/// No two exit rows share a public key.
pub open spec fn exits_unique(s: Seq<ExitRow>) -> bool {
    forall|i: int, j: int| 0 <= i < j < s.len() ==> s[i].pubkey@ != s[j].pubkey@
}

/// No two nonce rows hold the same token.
pub open spec fn nonces_unique(s: Seq<String>) -> bool {
    forall|i: int, j: int| 0 <= i < j < s.len() ==> s[i]@ != s[j]@
}

/// The in-memory model of the registry's tables.
pub struct Registry {
    pub exits: Vec<ExitRow>,
    pub bridges: Vec<BridgeDescriptor>,
    pub pow_nonces: Vec<String>,
}

impl Registry {
    /// Both keyed tables hold each key at most once.
    pub open spec fn wf(self) -> bool {
        exits_unique(self.exits@) && nonces_unique(self.pow_nonces@)
    }

    /// The set of unconsumed proof-of-work tokens.
    pub open spec fn nonce_set(self) -> Set<Seq<char>> {
        self.pow_nonces@.map_values(|s: String| s@).to_set()
    }

    /// Whether some exit row carries this public key.
    pub open spec fn has_exit(self, pk: Seq<u8>) -> bool {
        exists|i: int| 0 <= i < self.exits@.len() && self.exits@[i].pubkey@ == pk
    }

    pub fn new() -> (r: Self)
        ensures
            r.wf(),
            r.exits@ =~= Seq::<ExitRow>::empty(),
            r.bridges@ =~= Seq::<BridgeDescriptor>::empty(),
            r.pow_nonces@ =~= Seq::<String>::empty(),
    {
        Registry { exits: Vec::new(), bridges: Vec::new(), pow_nonces: Vec::new() }
    }

    /// Insert-or-replace by public key: if a row with the same key exists it
    /// is overwritten in place, otherwise the row is appended.
    pub fn insert_exit(&mut self, exit: ExitRow)
        requires
            old(self).wf(),
        ensures
            final(self).wf(),
            final(self).bridges@ == old(self).bridges@,
            final(self).pow_nonces@ == old(self).pow_nonces@,
            old(self).has_exit(exit.pubkey@) ==> exists|i: int|
                0 <= i < old(self).exits@.len() && old(self).exits@[i].pubkey@ == exit.pubkey@
                    && final(self).exits@ == old(self).exits@.update(i, exit),
            !old(self).has_exit(exit.pubkey@) ==> final(self).exits@ == old(self).exits@.push(
                exit,
            ),
            final(self).has_exit(exit.pubkey@),
    {
        let n = self.exits.len();
        let mut i: usize = 0;
        while i < n
            invariant
                old(self).wf(),
                *self == *old(self),
                n == self.exits@.len(),
                0 <= i <= n,
                forall|k: int| 0 <= k < i ==> self.exits@[k].pubkey@ != exit.pubkey@,
            decreases n - i,
        {
            if key_eq(&self.exits[i].pubkey, &exit.pubkey) {
                self.exits.set(i, exit);
                assert(self.exits@ == old(self).exits@.update(i as int, exit));
                assert(self.exits@[i as int].pubkey@ == exit.pubkey@);
                return ;
            }
            i += 1;
        }
        self.exits.push(exit);
        assert(self.exits@ == old(self).exits@.push(exit));
        assert(!old(self).has_exit(exit.pubkey@));
        assert(self.exits@[self.exits@.len() - 1].pubkey@ == exit.pubkey@);
    }

    /// Record a bridge's availability announcement.
    pub fn insert_bridge(&mut self, bridge: BridgeDescriptor)
        requires
            old(self).wf(),
        ensures
            final(self).wf(),
            final(self).exits@ == old(self).exits@,
            final(self).pow_nonces@ == old(self).pow_nonces@,
            final(self).bridges@ == old(self).bridges@.push(bridge),
    {
        self.bridges.push(bridge);
    }

    /// Delete every exit and bridge row whose expiry lies strictly before
    /// `now`; rows expiring at `now` or later survive. Returns how many
    /// rows of each table were removed, for observability.
    pub fn gc_sweep(&mut self, now: u64) -> (counts: (usize, usize))
        requires
            old(self).wf(),
        ensures
            final(self).wf(),
            final(self).exits@ == old(self).exits@.filter(|e: ExitRow| e.expiry >= now),
            final(self).bridges@ == old(self).bridges@.filter(
                |b: BridgeDescriptor| b.expiry >= now,
            ),
            final(self).pow_nonces@ == old(self).pow_nonces@,
            counts.0 == old(self).exits@.len() - final(self).exits@.len(),
            counts.1 == old(self).bridges@.len() - final(self).bridges@.len(),
    {
        let ghost old_exits = self.exits@;
        let ghost old_bridges = self.bridges@;
        let mut kept_exits: Vec<ExitRow> = Vec::new();
        let mut i: usize = 0;
        while i < self.exits.len()
            invariant
                0 <= i <= self.exits@.len(),
                *self == *old(self),
                self.exits@ == old_exits,
                kept_exits@ == old_exits.subrange(0, i as int).filter(
                    |e: ExitRow| e.expiry >= now,
                ),
            decreases self.exits@.len() - i,
        {
            proof {
                lemma_filter_push(
                    old_exits.subrange(0, i as int),
                    |e: ExitRow| e.expiry >= now,
                    old_exits[i as int],
                );
                assert(old_exits.subrange(0, i as int).push(old_exits[i as int])
                    =~= old_exits.subrange(0, i + 1));
            }
            if self.exits[i].expiry >= now {
                let row = self.exits[i].clone();
                kept_exits.push(row);
            }
            i += 1;
        }
        proof {
            assert(old_exits.subrange(0, old_exits.len() as int) =~= old_exits);
        }
        let removed_exits = self.exits.len() - kept_exits.len();
        self.exits = kept_exits;

        let mut kept_bridges: Vec<BridgeDescriptor> = Vec::new();
        let mut j: usize = 0;
        while j < self.bridges.len()
            invariant
                0 <= j <= self.bridges@.len(),
                self.bridges@ == old_bridges,
                self.pow_nonces@ == old(self).pow_nonces@,
                self.exits@ == old_exits.filter(|e: ExitRow| e.expiry >= now),
                kept_bridges@ == old_bridges.subrange(0, j as int).filter(
                    |b: BridgeDescriptor| b.expiry >= now,
                ),
            decreases self.bridges@.len() - j,
        {
            proof {
                lemma_filter_push_bridge(
                    old_bridges.subrange(0, j as int),
                    |b: BridgeDescriptor| b.expiry >= now,
                    old_bridges[j as int],
                );
                assert(old_bridges.subrange(0, j as int).push(old_bridges[j as int])
                    =~= old_bridges.subrange(0, j + 1));
            }
            if self.bridges[j].expiry >= now {
                let row = self.bridges[j].clone();
                kept_bridges.push(row);
            }
            j += 1;
        }
        proof {
            assert(old_bridges.subrange(0, old_bridges.len() as int) =~= old_bridges);
            old_exits.lemma_filter_len(|e: ExitRow| e.expiry >= now);
            old_bridges.lemma_filter_len(|b: BridgeDescriptor| b.expiry >= now);
            lemma_filter_keeps_exits_unique(old_exits, |e: ExitRow| e.expiry >= now);
        }
        let removed_bridges = self.bridges.len() - kept_bridges.len();
        self.bridges = kept_bridges;
        (removed_exits, removed_bridges)
    }

    /// Generates a fresh random token, records it as unconsumed and hands
    /// it out. Should the draw collide with a token already present, the
    /// insert is a no-op and the token is handed out all the same.
    pub fn new_pow_nonce(&mut self) -> (token: String)
        requires
            old(self).wf(),
        ensures
            final(self).wf(),
            final(self).exits@ == old(self).exits@,
            final(self).bridges@ == old(self).bridges@,
            token@.len() == 32,
            exists|b: Seq<u8>| b.len() == 16 && token@ == hex_of(b),
            final(self).nonce_set() == old(self).nonce_set().insert(token@),
    {
        let raw = random_bytes(16);
        let token = hex_encode(raw.as_slice());
        assert(raw@.len() == 16 && token@ == hex_of(raw@));
        let n = self.pow_nonces.len();
        let mut i: usize = 0;
        while i < n
            invariant
                old(self).wf(),
                *self == *old(self),
                n == self.pow_nonces@.len(),
                0 <= i <= n,
                token@.len() == 32,
                exists|b: Seq<u8>| b.len() == 16 && token@ == hex_of(b),
                forall|k: int| 0 <= k < i ==> self.pow_nonces@[k]@ != token@,
            decreases n - i,
        {
            let hit = self.pow_nonces[i] == token;
            if hit {
                proof {
                    assert(self.pow_nonces@[i as int]@ == token@);
                    lemma_nonce_set_contains(self.pow_nonces@, token@);
                    assert(old(self).nonce_set().contains(token@));
                    assert(old(self).nonce_set().insert(token@) =~= old(self).nonce_set());
                }
                return token;
            }
            i += 1;
        }
        proof {
            lemma_nonce_set_contains(self.pow_nonces@, token@);
        }
        let stored = token.clone();
        proof {
            lemma_nonce_set_push(self.pow_nonces@, stored);
        }
        self.pow_nonces.push(stored);
        token
    }

    /// Deletes the record for `token`. Succeeds exactly when the token was
    /// present — the single-use enforcement point: of two concurrent
    /// consumers of one token, the one whose delete finds the row wins and
    /// every other observes NotFound.
    pub fn consume_pow_nonce(&mut self, token: &String) -> (r: Result<(), RegistryError>)
        requires
            old(self).wf(),
        ensures
            final(self).wf(),
            final(self).exits@ == old(self).exits@,
            final(self).bridges@ == old(self).bridges@,
            r is Ok <==> old(self).nonce_set().contains(token@),
            r is Ok ==> final(self).nonce_set() == old(self).nonce_set().remove(token@),
            r is Err ==> *final(self) == *old(self) && r == Err::<(), RegistryError>(
                RegistryError::NotFound,
            ),
    {
        let n = self.pow_nonces.len();
        let mut i: usize = 0;
        while i < n
            invariant
                old(self).wf(),
                *self == *old(self),
                n == self.pow_nonces@.len(),
                0 <= i <= n,
                forall|k: int| 0 <= k < i ==> self.pow_nonces@[k]@ != token@,
            decreases n - i,
        {
            let hit = self.pow_nonces[i] == *token;
            if hit {
                proof {
                    assert(self.pow_nonces@[i as int]@ == token@);
                    lemma_nonce_set_contains(self.pow_nonces@, token@);
                    lemma_nonce_set_remove(self.pow_nonces@, i as int);
                }
                self.pow_nonces.remove(i);
                return Ok(());
            }
            i += 1;
        }
        proof {
            lemma_nonce_set_contains(self.pow_nonces@, token@);
        }
        Err(RegistryError::NotFound)
    }
}

/// A freshly issued bearer credential: the secret token handed to the
/// user, and the digest of it that the store keeps in its place.
pub struct UserCredential {
    pub token: String,
    pub token_hash: String,
}

/// Issues a fresh bearer secret: 96 random bits rendered in z-base-32.
/// The store never keeps the token itself, only the hex blake3 digest of
/// its text.
pub fn new_user() -> (r: UserCredential)
    ensures
        exists|b: Seq<u8>| b.len() == 12 && r.token@ == zbase32_of(b),
        r.token_hash@ == hex_of(blake3_of(vstd::utf8::encode_utf8(r.token@))),
{
    let raw = random_bytes(12);
    let token = zbase32_encode(raw.as_slice());
    let digest = blake3_digest(token.as_str().as_bytes());
    let token_hash = hex_encode(digest.as_slice());
    assert(raw@.len() == 12 && token@ == zbase32_of(raw@));
    UserCredential { token, token_hash }
}

/// Once a token has been consumed it is gone from the nonce set, so a
/// second consumption of the same token must report NotFound: this is the
/// single-use law for proof-of-work nonces.
pub proof fn lemma_nonce_single_use(before: Registry, after: Registry, token: Seq<char>)
    requires
        before.nonce_set().contains(token),
        after.nonce_set() == before.nonce_set().remove(token),
    ensures
        !after.nonce_set().contains(token),
{
}

/// A registry's nonce set holds a token exactly when some stored row
/// spells it.
proof fn lemma_nonce_set_contains(s: Seq<String>, v: Seq<char>)
    ensures
        s.map_values(|t: String| t@).to_set().contains(v) <==> exists|j: int|
            0 <= j < s.len() && s[j]@ == v,
{
    let m = s.map_values(|t: String| t@);
    if exists|j: int| 0 <= j < s.len() && s[j]@ == v {
        let j = choose|j: int| 0 <= j < s.len() && s[j]@ == v;
        assert(m[j] == v);
        assert(m.contains(v));
    }
    if m.to_set().contains(v) {
        let j = choose|j: int| 0 <= j < m.len() && m[j] == v;
        assert(s[j]@ == v);
    }
}

/// Appending a row adds exactly its token to the nonce set.
proof fn lemma_nonce_set_push(s: Seq<String>, x: String)
    ensures
        s.push(x).map_values(|t: String| t@).to_set() =~= s.map_values(
            |t: String| t@,
        ).to_set().insert(x@),
{
    let a = s.push(x).map_values(|t: String| t@);
    let b = s.map_values(|t: String| t@);
    assert(a =~= b.push(x@));
    assert forall|w: Seq<char>| a.to_set().contains(w) implies b.to_set().insert(x@).contains(
        w,
    ) by {
        let j = choose|j: int| 0 <= j < a.len() && a[j] == w;
        if j < b.len() {
            assert(b.contains(w));
        }
    }
    assert forall|w: Seq<char>| b.to_set().insert(x@).contains(w) implies a.to_set().contains(
        w,
    ) by {
        if b.to_set().contains(w) {
            let j = choose|j: int| 0 <= j < b.len() && b[j] == w;
            assert(a[j] == w);
        } else {
            assert(a[a.len() - 1] == x@);
        }
    }
}

/// Removing the row at `i` removes exactly its token from the nonce set,
/// provided no other row spells the same token.
proof fn lemma_nonce_set_remove(s: Seq<String>, i: int)
    requires
        nonces_unique(s),
        0 <= i < s.len(),
    ensures
        nonces_unique(s.remove(i)),
        s.remove(i).map_values(|t: String| t@).to_set() =~= s.map_values(
            |t: String| t@,
        ).to_set().remove(s[i]@),
{
    let r = s.remove(i);
    let a = r.map_values(|t: String| t@);
    let b = s.map_values(|t: String| t@);
    assert forall|w: Seq<char>| a.to_set().contains(w) implies b.to_set().remove(
        s[i]@,
    ).contains(w) by {
        let j = choose|j: int| 0 <= j < a.len() && a[j] == w;
        if j < i {
            assert(b[j] == w);
            assert(b.contains(w));
            assert(s[j]@ != s[i]@);
        } else {
            assert(r[j] == s[j + 1]);
            assert(b[j + 1] == w);
            assert(b.contains(w));
            assert(s[j + 1]@ != s[i]@);
        }
    }
    assert forall|w: Seq<char>| b.to_set().remove(s[i]@).contains(w) implies a.to_set().contains(
        w,
    ) by {
        let j = choose|j: int| 0 <= j < b.len() && b[j] == w;
        if j < i {
            assert(a[j] == w);
        } else {
            assert(j != i);
            assert(r[j - 1] == s[j]);
            assert(a[j - 1] == w);
        }
        assert(a.contains(w));
    }
}

/// Compares two public keys byte for byte.
fn key_eq(a: &[u8; 32], b: &[u8; 32]) -> (r: bool)
    ensures
        r <==> a@ == b@,
{
    let mut i: usize = 0;
    while i < 32
        invariant
            0 <= i <= 32,
            forall|k: int| 0 <= k < i ==> a@[k] == b@[k],
        decreases 32 - i,
    {
        if a[i] != b[i] {
            return false;
        }
        i += 1;
    }
    proof {
        assert(a@ =~= b@);
    }
    true
}

/// Filtering a sequence extended by one element keeps the already-filtered
/// prefix and appends the new element exactly when it passes the predicate.
proof fn lemma_filter_push(s: Seq<ExitRow>, pred: spec_fn(ExitRow) -> bool, x: ExitRow)
    ensures
        s.push(x).filter(pred) == if pred(x) {
            s.filter(pred).push(x)
        } else {
            s.filter(pred)
        },
{
    reveal(Seq::filter);
    assert(s.push(x).drop_last() =~= s);
}

proof fn lemma_filter_push_bridge(
    s: Seq<BridgeDescriptor>,
    pred: spec_fn(BridgeDescriptor) -> bool,
    x: BridgeDescriptor,
)
    ensures
        s.push(x).filter(pred) == if pred(x) {
            s.filter(pred).push(x)
        } else {
            s.filter(pred)
        },
{
    reveal(Seq::filter);
    assert(s.push(x).drop_last() =~= s);
}

/// A sweep never introduces a duplicate key: the kept rows are a
/// subsequence of the old ones.
proof fn lemma_filter_keeps_exits_unique(s: Seq<ExitRow>, pred: spec_fn(ExitRow) -> bool)
    requires
        exits_unique(s),
    ensures
        exits_unique(s.filter(pred)),
    decreases s.len(),
{
    reveal(Seq::filter);
    if s.len() > 0 {
        let rest = s.drop_last();
        assert(exits_unique(rest)) by {
            assert(forall|i: int, j: int|
                0 <= i < j < rest.len() ==> rest[i] == s[i] && rest[j] == s[j]);
        }
        lemma_filter_keeps_exits_unique(rest, pred);
        if pred(s.last()) {
            let f = rest.filter(pred);
            assert forall|i: int, j: int|
                0 <= i < j < f.push(s.last()).len() implies f.push(s.last())[i].pubkey@ != f.push(
                s.last(),
            )[j].pubkey@ by {
                if j < f.len() {
                } else {
                    assert(f.push(s.last())[j] == s.last());
                    assert(f.contains(f[i])) by {
                        assert(f[i] == f.push(s.last())[i]);
                    }
                    let k = choose|k: int| 0 <= k < rest.len() && rest[k] == f[i];
                    assert(rest.contains(f[i])) by {
                        lemma_filter_elem_in_source_exit(rest, pred, i);
                    }
                    let k2 = choose|k2: int| 0 <= k2 < rest.len() && rest[k2] == f[i];
                    assert(s[k2] == f[i]);
                    assert(s[k2].pubkey@ != s.last().pubkey@);
                }
            }
        }
    }
}

/// Every element of a filtered sequence occurs in the source sequence.
proof fn lemma_filter_elem_in_source_exit(
    s: Seq<ExitRow>,
    pred: spec_fn(ExitRow) -> bool,
    i: int,
)
    requires
        0 <= i < s.filter(pred).len(),
    ensures
        s.contains(s.filter(pred)[i]),
    decreases s.len(),
{
    reveal(Seq::filter);
    if s.len() > 0 {
        let rest = s.drop_last();
        let f = s.filter(pred);
        if pred(s.last()) && i == f.len() - 1 {
            assert(f[i] == s.last());
            assert(s[s.len() - 1] == s.last());
        } else {
            lemma_filter_elem_in_source_exit(rest, pred, i);
            let k = choose|k: int| 0 <= k < rest.len() && rest[k] == rest.filter(pred)[i];
            assert(s[k] == rest[k]);
        }
    }
}

} // verus!
