use enigma_relay::config::{RelayConfig, RelayMode, StorageKind};
use enigma_relay::error::EnigmaRelayError;

#[test]
fn default_config_is_valid() {
    let cfg = RelayConfig::default();
    assert_eq!(cfg.address, "127.0.0.1:0");
    assert_eq!(cfg.mode, RelayMode::Http);
    assert_eq!(cfg.storage.kind, StorageKind::Sled);
    assert_eq!(cfg.storage.path, "./relay_db");
    assert_eq!(cfg.relay.message_ttl_seconds, 1_209_600);
    assert!(cfg.validate().is_ok());
}

#[test]
fn blank_address_is_rejected() {
    let mut cfg = RelayConfig::default();
    cfg.address = " \t".to_string();
    match cfg.validate() {
        Err(EnigmaRelayError::Config(m)) => assert_eq!(m, "address is required"),
        other => panic!("unexpected {:?}", other),
    }
}
