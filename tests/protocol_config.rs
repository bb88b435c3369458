use bee_core::config::{ProtocolConfig, ProtocolConfigBuilder, SpongeKind, DEFAULT_COO_PUBLIC_KEY};

#[test]
fn defaults() {
    let c = ProtocolConfigBuilder::new().finish();
    assert_eq!(c.mwm, 14);
    assert_eq!(c.coordinator().depth(), 25);
    assert_eq!(c.coordinator.security_level, 2);
    assert_eq!(c.coordinator.sponge_type, SpongeKind::Kerl);
    assert_eq!(c.coordinator.public_key, DEFAULT_COO_PUBLIC_KEY);
    assert_eq!(c.workers.transaction_worker_cache, 10000);
    assert_eq!(c.workers.receiver_worker_bound, 10000);
    assert_eq!(c.workers.status_interval, 10);
    assert_eq!(c.handshake_window, 10);
}

#[test]
fn values_set() {
    let key = "A".repeat(81);
    let c = ProtocolConfig::build()
        .mwm(9)
        .coo_depth(3)
        .coo_public_key(key.clone())
        .coo_security_level(1)
        .coo_sponge_type("curl27")
        .transaction_worker_cache(5)
        .receiver_worker_bound(6)
        .status_interval(7)
        .handshake_window(8)
        .finish();
    assert_eq!(c.mwm, 9);
    assert_eq!(c.coordinator.depth, 3);
    assert_eq!(c.coordinator.public_key, key);
    assert_eq!(c.coordinator.security_level, 1);
    assert_eq!(c.coordinator.sponge_type, SpongeKind::CurlP27);
    assert_eq!(c.workers.transaction_worker_cache, 5);
    assert_eq!(c.workers.receiver_worker_bound, 6);
    assert_eq!(c.workers.status_interval, 7);
    assert_eq!(c.handshake_window, 8);
}

#[test]
fn sponge_names() {
    let k = |s: &str| ProtocolConfigBuilder::new().coo_sponge_type(s).finish().coordinator.sponge_type;
    assert_eq!(k("kerl"), SpongeKind::Kerl);
    assert_eq!(k("curl81"), SpongeKind::CurlP81);
    assert_eq!(k("curl27"), SpongeKind::CurlP27);
    assert_eq!(k("blake"), SpongeKind::Kerl);
}

#[test]
fn bad_public_key_falls_back() {
    let short = ProtocolConfigBuilder::new().coo_public_key("ABC".to_string()).finish();
    assert_eq!(short.coordinator.public_key, DEFAULT_COO_PUBLIC_KEY);
    let bad_char = ProtocolConfigBuilder::new().coo_public_key(format!("{}a", "9".repeat(80))).finish();
    assert_eq!(bad_char.coordinator.public_key, DEFAULT_COO_PUBLIC_KEY);
    let good = "9".repeat(81);
    let ok = ProtocolConfigBuilder::new().coo_public_key(good.clone()).finish();
    assert_eq!(ok.coordinator.public_key, good);
}

#[test]
fn public_key_bytes() {
    let a = ProtocolConfigBuilder::new().coo_public_key("A".repeat(81)).finish();
    assert_eq!(a.coordinator.public_key_bytes[0], 28);
    assert_eq!(a.coordinator.public_key_bytes[1], 84);
    assert_eq!(a.coordinator.public_key_bytes[48], 1);
    let n = ProtocolConfigBuilder::new().coo_public_key("N".repeat(81)).finish();
    assert_eq!(n.coordinator.public_key_bytes[0], (-121i8) as u8);
    let z = ProtocolConfigBuilder::new().coo_public_key("9".repeat(81)).finish();
    assert_eq!(z.coordinator.public_key_bytes, [0u8; 49]);
    let d = ProtocolConfigBuilder::new().finish();
    assert_ne!(d.coordinator.public_key_bytes, [0u8; 49]);
}
