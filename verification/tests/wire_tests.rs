use geph5_core::routes::RouteDescriptor;
use geph5_core::wire::{decode_route, encode_route, WireError, MAX_ROUTE_DEPTH};

fn plain(cookie: &str, addr: &str) -> RouteDescriptor {
    RouteDescriptor::Sosistab3 {
        cookie: cookie.to_string(),
        lower: Box::new(RouteDescriptor::Tcp(addr.to_string())),
    }
}

fn assert_same_route(a: &RouteDescriptor, b: &RouteDescriptor) {
    match (a, b) {
        (RouteDescriptor::Tcp(x), RouteDescriptor::Tcp(y)) => assert_eq!(x, y),
        (
            RouteDescriptor::Sosistab3 { cookie: c1, lower: l1 },
            RouteDescriptor::Sosistab3 { cookie: c2, lower: l2 },
        ) => {
            assert_eq!(c1, c2);
            assert_same_route(l1, l2);
        }
        (
            RouteDescriptor::Delay { milliseconds: m1, lower: l1 },
            RouteDescriptor::Delay { milliseconds: m2, lower: l2 },
        ) => {
            assert_eq!(m1, m2);
            assert_same_route(l1, l2);
        }
        _ => panic!("routes differ in shape: {:?} vs {:?}", a, b),
    }
}

#[test]
fn round_trip_without_delay() {
    let route = plain("cookie-xyz", "203.0.113.9:4433");
    let bytes = encode_route(&route);
    let back = decode_route(&bytes).unwrap();
    assert_same_route(&back, &route);
}

#[test]
fn round_trip_with_delay() {
    let route = RouteDescriptor::Delay {
        milliseconds: 250,
        lower: Box::new(plain("c", "10.0.0.1:80")),
    };
    let bytes = encode_route(&route);
    let back = decode_route(&bytes).unwrap();
    assert_same_route(&back, &route);
}

#[test]
fn round_trip_survives_unicode_strings() {
    let route = plain("cøøkie-日本語", "пример:443");
    let bytes = encode_route(&route);
    let back = decode_route(&bytes).unwrap();
    assert_same_route(&back, &route);
}

#[test]
fn decoding_rejects_a_bad_tag() {
    let route = plain("c", "a:1");
    let mut bytes = encode_route(&route);
    bytes[0] = 9;
    assert_eq!(decode_route(&bytes), Err(WireError::BadTag));
}

#[test]
fn decoding_rejects_truncation_and_trailing_bytes() {
    let route = plain("c", "a:1");
    let bytes = encode_route(&route);

    let mut short = bytes.clone();
    short.pop();
    assert!(decode_route(&short).is_err());

    let mut long = bytes.clone();
    long.push(0);
    assert_eq!(decode_route(&long), Err(WireError::TrailingBytes));
}

#[test]
fn decoding_rejects_text_that_is_not_utf8() {
    let route = RouteDescriptor::Tcp("ab".to_string());
    let mut bytes = encode_route(&route);
    // Overwrite the two-byte address with an invalid UTF-8 sequence.
    let n = bytes.len();
    bytes[n - 2] = 0xff;
    bytes[n - 1] = 0xfe;
    assert_eq!(decode_route(&bytes), Err(WireError::BadText));
}

#[test]
fn decoding_caps_the_nesting_depth() {
    let mut route = RouteDescriptor::Tcp("a:1".to_string());
    for _ in 0..MAX_ROUTE_DEPTH {
        route = RouteDescriptor::Delay { milliseconds: 1, lower: Box::new(route) };
    }
    let bytes = encode_route(&route);
    assert_eq!(decode_route(&bytes), Err(WireError::TooDeep));
}

#[test]
fn deep_but_legal_routes_round_trip() {
    let mut route = plain("k", "a:1");
    for i in 0..20u32 {
        route = RouteDescriptor::Delay { milliseconds: i, lower: Box::new(route) };
    }
    let bytes = encode_route(&route);
    let back = decode_route(&bytes).unwrap();
    assert_same_route(&back, &route);
}

#[test]
fn decoding_nothing_is_truncation() {
    assert_eq!(decode_route(&Vec::new()), Err(WireError::Truncated));
}
