use geph5_core::registry::{BridgeDescriptor, ExitRow, Registry, RegistryError, new_user};

fn exit_row(pk: u8, expiry: u64) -> ExitRow {
    ExitRow {
        pubkey: [pk; 32],
        c2e_listen: format!("1.2.3.{}:443", pk),
        b2e_listen: format!("10.0.0.{}:8080", pk),
        country: "us".to_string(),
        city: "seattle".to_string(),
        load: 250,
        expiry,
    }
}

fn bridge_row(listen: &str, pool: &str, expiry: u64) -> BridgeDescriptor {
    BridgeDescriptor {
        control_listen: listen.to_string(),
        control_cookie: "cookie".to_string(),
        pool: pool.to_string(),
        expiry,
    }
}

#[test]
fn gc_removes_exactly_the_expired_rows() {
    let t: u64 = 1_000_000;
    let mut reg = Registry::new();
    reg.insert_exit(exit_row(1, t - 10));
    reg.insert_exit(exit_row(2, t + 10));
    reg.insert_bridge(bridge_row("b1:9000", "p", t - 10));
    reg.insert_bridge(bridge_row("b2:9000", "p", t + 10));

    let (gone_exits, gone_bridges) = reg.gc_sweep(t);

    assert_eq!(gone_exits, 1);
    assert_eq!(gone_bridges, 1);
    assert_eq!(reg.exits.len(), 1);
    assert_eq!(reg.exits[0].pubkey, [2u8; 32]);
    assert_eq!(reg.bridges.len(), 1);
    assert_eq!(reg.bridges[0].control_listen, "b2:9000");
}

#[test]
fn gc_keeps_rows_expiring_exactly_now() {
    let t: u64 = 500;
    let mut reg = Registry::new();
    reg.insert_exit(exit_row(7, t));
    let (gone, _) = reg.gc_sweep(t);
    assert_eq!(gone, 0);
    assert_eq!(reg.exits.len(), 1);
}

#[test]
fn upsert_replaces_by_pubkey() {
    let mut reg = Registry::new();
    reg.insert_exit(exit_row(1, 100));
    let mut updated = exit_row(1, 999);
    updated.city = "tacoma".to_string();
    reg.insert_exit(updated);
    assert_eq!(reg.exits.len(), 1);
    assert_eq!(reg.exits[0].expiry, 999);
    assert_eq!(reg.exits[0].city, "tacoma");

    reg.insert_exit(exit_row(2, 100));
    assert_eq!(reg.exits.len(), 2);
}

#[test]
fn nonce_single_use() {
    let mut reg = Registry::new();
    let token = reg.new_pow_nonce();
    assert_eq!(token.len(), 32);
    assert!(token.chars().all(|c| c.is_ascii_hexdigit() && !c.is_ascii_uppercase()));

    assert!(reg.consume_pow_nonce(&token).is_ok());
    assert_eq!(reg.consume_pow_nonce(&token), Err(RegistryError::NotFound));
}

#[test]
fn consume_unknown_nonce_fails() {
    let mut reg = Registry::new();
    let bogus = "deadbeefdeadbeefdeadbeefdeadbeef".to_string();
    assert_eq!(reg.consume_pow_nonce(&bogus), Err(RegistryError::NotFound));
}

#[test]
fn two_nonces_differ() {
    let mut reg = Registry::new();
    let a = reg.new_pow_nonce();
    let b = reg.new_pow_nonce();
    assert_ne!(a, b);
    assert!(reg.consume_pow_nonce(&a).is_ok());
    assert!(reg.consume_pow_nonce(&b).is_ok());
}

#[test]
fn new_user_hash_matches_blake3_of_token() {
    let cred = new_user();
    // 12 random bytes rendered in z-base-32: 20 characters of its alphabet.
    assert_eq!(cred.token.len(), 20);
    assert!(cred.token.chars().all(|c| "ybndrfg8ejkmcpqxot1uwisza345h769".contains(c)));
    let expected = hex::encode(blake3::hash(cred.token.as_bytes()).as_bytes());
    assert_eq!(cred.token_hash, expected);
}
