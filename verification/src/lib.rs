//! Core of a bridge-relay routing service: a registry of exit and bridge
//! nodes with expiry-based garbage collection, a key-consistent bridge
//! selection scheme, a single-flight memoizing cache, a route-composition
//! step that nests obfuscation layers into a recursive route descriptor,
//! and the exit-side ingress session that dispatches forwarded connections.

pub mod cache;
pub mod client;
pub mod crypto;
pub mod ingress;
pub mod registry;
pub mod routes;
pub mod selection;
pub mod wire;

use vstd::prelude::*;

verus! {

/// Number of seconds a provisioned forwarding path stays valid.
pub const B2E_VALIDITY_SECS: u64 = 86400;

/// Milliseconds the control RPC to a bridge may take before the
/// composition step treats it as failed.
pub const CONTROL_RPC_TIMEOUT_MS: u64 = 1000;

/// Seconds a cached selection or route stays fresh.
pub const CACHE_TTL_SECS: u64 = 60;

/// Maps a raw random draw into the jittered sleep, in milliseconds, between
/// two garbage-collection sweeps. Every outcome lies in [60s, 120s), so
/// registry instances running side by side stay desynchronized.
pub fn gc_jitter_ms(raw: u64) -> (r: u64)
    ensures
        60_000 <= r < 120_000,
        r == 60_000 + raw % 60_000,
{
    60_000 + raw % 60_000
}

} // verus!
