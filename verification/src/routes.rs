//! Route composition: given a bridge descriptor and the target exit's
//! bridge-facing address, the service asks the bridge's control endpoint
//! to provision a forwarding port, then describes the path the client
//! must dial as a recursively nested route descriptor. The control call
//! itself is a network round trip the surrounding runtime makes under a
//! fixed timeout; this module fixes what is sent, and what every possible
//! outcome of the call composes to.

use vstd::prelude::*;
use vstd::bytes::{spec_u64_to_le_bytes, u64_to_le_bytes};
use vstd::utf8::encode_utf8;

use crate::B2E_VALIDITY_SECS;
use crate::cache::SfCache;
use crate::crypto::{hex_of, random_bytes, hex_encode};

verus! {

/// A layered transport path, nested outermost first: the client dials
/// the outermost layer, and the innermost `Tcp` ends at a real socket.
#[derive(Debug, PartialEq, Eq)]
pub enum RouteDescriptor {
    /// Terminal: plain TCP to this address.
    Tcp(String),
    /// Wraps `lower` in an obfuscation layer keyed by `cookie`.
    Sosistab3 { cookie: String, lower: Box<RouteDescriptor> },
    /// Wraps `lower` with an artificial latency before it becomes usable.
    Delay { milliseconds: u32, lower: Box<RouteDescriptor> },
}

impl Clone for RouteDescriptor {
    fn clone(&self) -> (r: Self)
        ensures
            r == *self,
        decreases *self,
    {
        match self {
            RouteDescriptor::Tcp(addr) => RouteDescriptor::Tcp(addr.clone()),
            RouteDescriptor::Sosistab3 { cookie, lower } => RouteDescriptor::Sosistab3 {
                cookie: cookie.clone(),
                lower: Box::new((**lower).clone()),
            },
            RouteDescriptor::Delay { milliseconds, lower } => RouteDescriptor::Delay {
                milliseconds: *milliseconds,
                lower: Box::new((**lower).clone()),
            },
        }
    }
}

/// The obfuscation the bridge applies to the exit-facing hop: none, or
/// the obfuscated transport keyed by the given cookie.
#[derive(Debug)]
pub enum ObfsProtocol {
    Plain,
    Sosistab3(String),
}

impl Clone for ObfsProtocol {
    fn clone(&self) -> (r: Self)
        ensures
            r == *self,
    {
        match self {
            ObfsProtocol::Plain => ObfsProtocol::Plain,
            ObfsProtocol::Sosistab3(cookie) => ObfsProtocol::Sosistab3(cookie.clone()),
        }
    }
}

/// What the bridge needs to know to forward one session: which
/// obfuscation to expect, and until when the forwarding stays valid.
pub struct B2eMetadata {
    pub protocol: ObfsProtocol,
    pub expiry: u64,
}

/// Every way the control round trip can end for the caller: the bridge
/// replied with the address to dial, the transport or the bridge failed,
/// or the timeout struck first.
pub enum RpcOutcome {
    Replied(String),
    Failed(String),
    TimedOut,
}

/// Route composition errors, surfaced to the caller, who may pick
/// another bridge; nothing is retried here.
#[derive(Debug, Clone, PartialEq, Eq)]
pub enum RouteError {
    /// The control RPC did not answer within the timeout.
    Timeout,
    /// The transport failed or the bridge answered with an error.
    Comms(String),
}

/// The undelayed shape every composed route has: an obfuscation layer
/// keyed by the fresh cookie, around plain TCP to the forwarded address.
pub open spec fn is_plain_route(r: RouteDescriptor, cookie: String, forwarded: String) -> bool {
    &&& r matches RouteDescriptor::Sosistab3 { cookie: c, lower }
    &&& c == cookie
    &&& *lower matches RouteDescriptor::Tcp(a)
    &&& {
        let a = lower->Tcp_0;
        a == forwarded
    }
}

/// The shape of a composed route when a non-zero delay was requested.
pub open spec fn is_delayed_route(
    r: RouteDescriptor,
    cookie: String,
    forwarded: String,
    ms: u32,
) -> bool {
    &&& r matches RouteDescriptor::Delay { milliseconds, lower }
    &&& milliseconds == ms
    &&& is_plain_route(*lower, cookie, forwarded)
}

/// What composing for `forwarded`, `cookie` and `delay_ms` must yield.
pub open spec fn spec_route_for(
    r: RouteDescriptor,
    cookie: String,
    forwarded: String,
    delay_ms: u32,
) -> bool {
    if delay_ms == 0 {
        is_plain_route(r, cookie, forwarded)
    } else {
        is_delayed_route(r, cookie, forwarded, delay_ms)
    }
}

/// Builds the route descriptor for a successfully forwarded path:
/// `Sosistab3` over `Tcp(forwarded)`, wrapped in an outer `Delay` exactly
/// when a non-zero delay was requested.
pub fn compose_route(forwarded: String, cookie: String, delay_ms: u32) -> (r: RouteDescriptor)
    ensures
        spec_route_for(r, cookie, forwarded, delay_ms),
{
    let no_delay = RouteDescriptor::Sosistab3 {
        cookie,
        lower: Box::new(RouteDescriptor::Tcp(forwarded)),
    };
    if delay_ms > 0 {
        RouteDescriptor::Delay { milliseconds: delay_ms, lower: Box::new(no_delay) }
    } else {
        no_delay
    }
}

/// Draws the fresh per-request obfuscation cookie for the exit-facing
/// hop; it is distinct from the bridge's own control-channel cookie and
/// never reused.
pub fn new_route_cookie() -> (r: String)
    ensures
        r@.len() == 32,
        exists|b: Seq<u8>| b.len() == 16 && r@ == hex_of(b),
{
    let raw = random_bytes(16);
    let cookie = hex_encode(raw.as_slice());
    assert(raw@.len() == 16 && cookie@ == hex_of(raw@));
    cookie
}

/// The metadata the control RPC carries: the fresh cookie's scheme, and
/// an expiry one validity window from now.
pub fn make_b2e_metadata(cookie: String, now: u64) -> (r: B2eMetadata)
    requires
        now <= u64::MAX - B2E_VALIDITY_SECS,
    ensures
        r.protocol == ObfsProtocol::Sosistab3(cookie),
        r.expiry == now + B2E_VALIDITY_SECS,
{
    B2eMetadata { protocol: ObfsProtocol::Sosistab3(cookie), expiry: now + B2E_VALIDITY_SECS }
}

/// Turns the outcome of the control round trip into the caller's result:
/// a reply composes the full route; a transport failure is a
/// communication error; silence past the timeout is a timeout error —
/// composition fails rather than hang. Nothing is retried here.
pub fn bridge_to_leaf_route(outcome: RpcOutcome, cookie: String, delay_ms: u32) -> (r: Result<
    RouteDescriptor,
    RouteError,
>)
    ensures
        outcome matches RpcOutcome::Replied(a) ==> r matches Ok(route) && spec_route_for(
            route,
            cookie,
            a,
            delay_ms,
        ),
        outcome matches RpcOutcome::Failed(m) ==> r == Err::<RouteDescriptor, RouteError>(
            RouteError::Comms(m),
        ),
        outcome is TimedOut ==> r == Err::<RouteDescriptor, RouteError>(RouteError::Timeout),
{
    match outcome {
        RpcOutcome::Replied(forwarded) => Ok(compose_route(forwarded, cookie, delay_ms)),
        RpcOutcome::Failed(m) => Err(RouteError::Comms(m)),
        RpcOutcome::TimedOut => Err(RouteError::Timeout),
    }
}

/// The cache key of one (bridge control address, exit bridge-facing
/// address) pair: the first address length-prefixed so that distinct
/// pairs never collide.
pub open spec fn spec_route_key(bridge_listen: Seq<char>, exit_b2e: Seq<char>) -> Seq<u8> {
    spec_u64_to_le_bytes(encode_utf8(bridge_listen).len() as u64) + encode_utf8(bridge_listen)
        + encode_utf8(exit_b2e)
}

/// Computes the cache key for a route request.
pub fn route_cache_key(bridge_listen: &String, exit_b2e: &String) -> (r: Vec<u8>)
    ensures
        r@ == spec_route_key(bridge_listen@, exit_b2e@),
{
    let a = bridge_listen.as_str().as_bytes_vec();
    let mut r = u64_to_le_bytes(a.len() as u64);
    let mut a = a;
    let mut b = exit_b2e.as_str().as_bytes_vec();
    r.append(&mut a);
    r.append(&mut b);
    r
}

/// Distinct (bridge, exit) pairs never share a cache cell: the length
/// prefix makes the key injective, so coalescing one pair's requests
/// can never hand out another pair's route.
pub proof fn lemma_route_key_injective(
    a1: Seq<char>,
    b1: Seq<char>,
    a2: Seq<char>,
    b2: Seq<char>,
)
    requires
        encode_utf8(a1).len() < 0x1_0000_0000_0000_0000,
        encode_utf8(a2).len() < 0x1_0000_0000_0000_0000,
        spec_route_key(a1, b1) == spec_route_key(a2, b2),
    ensures
        a1 == a2,
        b1 == b2,
{
    vstd::bytes::lemma_auto_spec_u64_to_from_le_bytes();
    let k = spec_route_key(a1, b1);
    let l1 = spec_u64_to_le_bytes(encode_utf8(a1).len() as u64);
    let l2 = spec_u64_to_le_bytes(encode_utf8(a2).len() as u64);
    assert(l1.len() == 8 && l2.len() == 8);
    assert(l1 =~= l2) by {
        assert forall|i: int| 0 <= i < 8 implies l1[i] == l2[i] by {
            assert(k[i] == l1[i]);
            assert(k[i] == l2[i]);
        }
    }
    assert(encode_utf8(a1).len() == encode_utf8(a2).len());
    assert(encode_utf8(a1) =~= encode_utf8(a2)) by {
        assert forall|i: int| 0 <= i < encode_utf8(a1).len() implies encode_utf8(a1)[i]
            == encode_utf8(a2)[i] by {
            assert(k[8 + i] == encode_utf8(a1)[i]);
            assert(k[8 + i] == encode_utf8(a2)[i]);
        }
    }
    assert(encode_utf8(b1) =~= encode_utf8(b2)) by {
        let off = 8 + encode_utf8(a1).len() as int;
        assert(k.len() == off + encode_utf8(b1).len());
        assert(k.len() == off + encode_utf8(b2).len());
        assert forall|i: int| 0 <= i < encode_utf8(b1).len() implies encode_utf8(b1)[i]
            == encode_utf8(b2)[i] by {
            assert(k[off + i] == encode_utf8(b1)[i]);
            assert(k[off + i] == encode_utf8(b2)[i]);
        }
    }
    vstd::utf8::encode_utf8_decode_utf8(a1);
    vstd::utf8::encode_utf8_decode_utf8(a2);
    vstd::utf8::encode_utf8_decode_utf8(b1);
    vstd::utf8::encode_utf8_decode_utf8(b2);
}

/// Settles a route computation this caller was told to run: a composed
/// route is published for the cache window; any error withdraws the
/// claim, so failures are never cached and the very next caller retries.
pub fn settle_route(
    cache: &mut SfCache<RouteDescriptor>,
    key: &Vec<u8>,
    outcome: Result<RouteDescriptor, RouteError>,
    now: u64,
) -> (r: Result<RouteDescriptor, RouteError>)
    requires
        old(cache).wf(),
        old(cache).pending(key@),
    ensures
        final(cache).wf(),
        final(cache).ttl_of() == old(cache).ttl_of(),
        r == outcome,
        outcome matches Ok(route) ==> final(cache).ready(key@) && final(cache).value_of(key@)
            == route && final(cache).stored_time(key@) == now,
        outcome is Err ==> !final(cache).has(key@),
        forall|k2: Seq<u8>| k2 != key@ ==> final(cache).same_cell(*old(cache), k2),
{
    match outcome {
        Ok(route) => {
            let copy = route.clone();
            cache.publish(key, copy, now);
            Ok(route)
        },
        Err(e) => {
            cache.fail(key);
            Err(e)
        },
    }
}

} // verus!
