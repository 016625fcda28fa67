use geph5_core::cache::{CacheDecision, SfCache};
use geph5_core::routes::{
    bridge_to_leaf_route, compose_route, make_b2e_metadata, new_route_cookie, route_cache_key,
    settle_route, B2eMetadata, ObfsProtocol, RouteDescriptor, RouteError, RpcOutcome,
};
use geph5_core::ingress::{accept_from_channel, b2e_process, AcceptEnd, ListenerMode};
use geph5_core::ingress::{IngressAction, IngressEvent, IngressSession, SessionState};
use geph5_core::{gc_jitter_ms, B2E_VALIDITY_SECS, CONTROL_RPC_TIMEOUT_MS};

fn assert_plain_shape(route: &RouteDescriptor, cookie: &str, forwarded: &str) {
    match route {
        RouteDescriptor::Sosistab3 { cookie: c, lower } => {
            assert_eq!(c, cookie);
            match lower.as_ref() {
                RouteDescriptor::Tcp(a) => assert_eq!(a, forwarded),
                other => panic!("innermost layer is not Tcp: {:?}", route_tag(other)),
            }
        }
        other => panic!("outermost layer is not Sosistab3: {:?}", route_tag(other)),
    }
}

fn route_tag(r: &RouteDescriptor) -> &'static str {
    match r {
        RouteDescriptor::Tcp(_) => "Tcp",
        RouteDescriptor::Sosistab3 { .. } => "Sosistab3",
        RouteDescriptor::Delay { .. } => "Delay",
    }
}

#[test]
fn zero_delay_yields_no_outer_delay() {
    let route = compose_route("9.9.9.9:2222".to_string(), "abc".to_string(), 0);
    assert_plain_shape(&route, "abc", "9.9.9.9:2222");
}

#[test]
fn nonzero_delay_wraps_the_obfuscated_route() {
    let route = compose_route("9.9.9.9:2222".to_string(), "abc".to_string(), 250);
    match &route {
        RouteDescriptor::Delay { milliseconds, lower } => {
            assert_eq!(*milliseconds, 250);
            assert_plain_shape(lower, "abc", "9.9.9.9:2222");
        }
        other => panic!("outermost layer is not Delay: {:?}", route_tag(other)),
    }
}

#[test]
fn a_reply_composes_a_route() {
    let r = bridge_to_leaf_route(
        RpcOutcome::Replied("7.7.7.7:4000".to_string()),
        "cook".to_string(),
        0,
    )
    .unwrap();
    assert_plain_shape(&r, "cook", "7.7.7.7:4000");
}

#[test]
fn a_timeout_is_an_error_not_a_hang() {
    let r = bridge_to_leaf_route(RpcOutcome::TimedOut, "cook".to_string(), 0);
    assert_eq!(r.unwrap_err(), RouteError::Timeout);
    assert_eq!(CONTROL_RPC_TIMEOUT_MS, 1000);
}

#[test]
fn a_transport_failure_is_a_comms_error() {
    let r = bridge_to_leaf_route(
        RpcOutcome::Failed("connection refused".to_string()),
        "cook".to_string(),
        250,
    );
    assert_eq!(r.unwrap_err(), RouteError::Comms("connection refused".to_string()));
}

#[test]
fn metadata_carries_the_cookie_scheme_and_validity_window() {
    let meta = make_b2e_metadata("fresh".to_string(), 1_000);
    assert_eq!(meta.expiry, 1_000 + B2E_VALIDITY_SECS);
    match meta.protocol {
        ObfsProtocol::Sosistab3(c) => assert_eq!(c, "fresh"),
        ObfsProtocol::Plain => panic!("metadata must select the fresh cookie's scheme"),
    }
}

#[test]
fn route_cookies_are_fresh_and_well_formed() {
    let a = new_route_cookie();
    let b = new_route_cookie();
    assert_eq!(a.len(), 32);
    assert!(a.chars().all(|c| c.is_ascii_hexdigit() && !c.is_ascii_uppercase()));
    assert_ne!(a, b);
}

#[test]
fn route_cache_keys_distinguish_address_splits() {
    // Without the length prefix these two pairs would collide.
    let k1 = route_cache_key(&"ab".to_string(), &"c".to_string());
    let k2 = route_cache_key(&"a".to_string(), &"bc".to_string());
    assert_ne!(k1, k2);
    let again = route_cache_key(&"ab".to_string(), &"c".to_string());
    assert_eq!(k1, again);
}

#[test]
fn settle_route_publishes_success_and_withdraws_failure() {
    let mut cache: SfCache<RouteDescriptor> = SfCache::new(60);
    let k = route_cache_key(&"bridge:9000".to_string(), &"exit:8000".to_string());

    assert!(matches!(cache.probe(&k, 10), CacheDecision::Compute));
    let outcome = bridge_to_leaf_route(
        RpcOutcome::Replied("5.5.5.5:123".to_string()),
        "cook".to_string(),
        0,
    );
    let settled = settle_route(&mut cache, &k, outcome, 10).unwrap();
    assert_plain_shape(&settled, "cook", "5.5.5.5:123");
    assert!(matches!(cache.probe(&k, 20), CacheDecision::Fresh));
    assert_plain_shape(cache.get(&k), "cook", "5.5.5.5:123");

    // A failed provisioning leaves nothing behind.
    let k2 = route_cache_key(&"bridge:9000".to_string(), &"other:8000".to_string());
    assert!(matches!(cache.probe(&k2, 10), CacheDecision::Compute));
    let failed = bridge_to_leaf_route(RpcOutcome::TimedOut, "cook".to_string(), 0);
    assert!(settle_route(&mut cache, &k2, failed, 10).is_err());
    assert!(matches!(cache.probe(&k2, 11), CacheDecision::Compute));
}

#[test]
fn metadata_decides_how_the_listener_unwraps() {
    let obfuscated = B2eMetadata {
        protocol: ObfsProtocol::Sosistab3("sess".to_string()),
        expiry: 10,
    };
    assert!(matches!(b2e_process(&obfuscated), ListenerMode::Obfuscated(c) if c == "sess"));
    let raw = B2eMetadata { protocol: ObfsProtocol::Plain, expiry: 10 };
    assert!(matches!(b2e_process(&raw), ListenerMode::Raw));
}

#[test]
fn channel_receipt_translates_to_accept() {
    assert_eq!(accept_from_channel(Some(41u32)), Ok(41));
    assert_eq!(accept_from_channel::<u32>(None), Err(AcceptEnd::BrokenPipe));
}

#[test]
fn one_failing_connection_does_not_stop_the_listener() {
    let mut session = IngressSession::begin();

    assert!(matches!(session.step(IngressEvent::Accepted("conn-1")), IngressAction::Dispatch("conn-1")));
    // That connection's handler blows up; the session only logs it.
    assert!(matches!(session.step::<&str>(IngressEvent::HandlerFailed), IngressAction::Continue));
    assert_eq!(session.state, SessionState::Listening);
    // The next connection is accepted and dispatched as if nothing happened.
    assert!(matches!(session.step(IngressEvent::Accepted("conn-2")), IngressAction::Dispatch("conn-2")));
    assert_eq!(session.dispatched, 2);

    // Only the channel's end stops the session, cleanly.
    assert!(matches!(session.step::<&str>(IngressEvent::ChannelClosed), IngressAction::EndClean));
    assert_eq!(session.state, SessionState::Ended);
}

#[test]
fn an_accept_error_ends_the_session_with_the_error() {
    let mut session = IngressSession::begin();
    let action = session.step::<u32>(IngressEvent::AcceptError("bad frame".to_string()));
    assert!(matches!(action, IngressAction::EndError(m) if m == "bad frame"));
    assert_eq!(session.state, SessionState::Ended);
}

#[test]
fn gc_sleep_is_jittered_within_its_band() {
    assert_eq!(gc_jitter_ms(0), 60_000);
    assert_eq!(gc_jitter_ms(59_999), 119_999);
    assert_eq!(gc_jitter_ms(60_000), 60_000);
    assert_eq!(gc_jitter_ms(u64::MAX), 60_000 + u64::MAX % 60_000);
    for raw in [1u64, 7, 123_456_789, u64::MAX - 1] {
        let ms = gc_jitter_ms(raw);
        assert!((60_000..120_000).contains(&ms));
    }
}
