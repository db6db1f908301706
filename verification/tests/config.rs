//! The AI endpoint configuration.

use nexacore_ui::config::{parse_ipv4, AiEndpointConfig, ConfigError};
use nexacore_ui::wire::{decode_canonical, encode_canonical};

#[test]
fn default_is_valid_and_round_trips() {
    let cfg = AiEndpointConfig::default();
    assert_eq!(cfg.validate().expect("default valid"), [127, 0, 0, 1]);
    let bytes = encode_canonical(&cfg).expect("encode");
    let back: AiEndpointConfig = decode_canonical(&bytes).expect("decode");
    assert_eq!(back, cfg);
    assert_eq!(
        cfg.to_connect_addr().expect("addr"),
        [127, 0, 0, 1, 0x2C, 0xAA] // 11434 = 0x2CAA
    );
}

#[test]
fn rejects_malformed_endpoints() {
    let cfg = |host: &str, port: u16, model: &str| AiEndpointConfig {
        host: String::from(host),
        port,
        model: String::from(model),
    };
    // Empty host.
    assert_eq!(cfg("", 11434, "m").validate(), Err(ConfigError::BadHost));
    // Non-IPv4 host.
    assert_eq!(
        cfg("not.an.ip.addr", 11434, "m").validate(),
        Err(ConfigError::HostNotIpv4)
    );
    // Octet out of range.
    assert_eq!(
        cfg("192.0.2.999", 11434, "m").validate(),
        Err(ConfigError::HostNotIpv4)
    );
    // Zero port.
    assert_eq!(
        cfg("127.0.0.1", 0, "m").validate(),
        Err(ConfigError::BadPort)
    );
    // Empty model.
    assert_eq!(
        cfg("127.0.0.1", 11434, "").validate(),
        Err(ConfigError::BadModel)
    );
}

#[test]
fn corrupt_bytes_decode_fails_caller_uses_default() {
    // A reader feeds garbage; decode fails → the caller substitutes the
    // default (the fail-safe contract, exercised here explicitly).
    let garbage = [0xFFu8, 0x00, 0x13, 0x37, 0x42];
    let decoded: Result<AiEndpointConfig, _> = decode_canonical(&garbage);
    let cfg = decoded.unwrap_or_default();
    assert_eq!(cfg, AiEndpointConfig::default());
}

#[test]
fn ipv4_parser_edge_cases() {
    assert_eq!(parse_ipv4("0.0.0.0"), Some([0, 0, 0, 0]));
    assert_eq!(parse_ipv4("255.255.255.255"), Some([255, 255, 255, 255]));
    assert_eq!(parse_ipv4("10.0.0.1"), Some([10, 0, 0, 1]));
    assert_eq!(parse_ipv4("1.2.3"), None); // too few
    assert_eq!(parse_ipv4("1.2.3.4.5"), None); // too many
    assert_eq!(parse_ipv4("1.2.3."), None); // empty trailing
    assert_eq!(parse_ipv4("1.2.3.256"), None); // out of range
    assert_eq!(parse_ipv4("1.2.3.01"), None); // leading zero
    assert_eq!(parse_ipv4("a.b.c.d"), None); // non-digit
}

#[test]
fn oversized_strings_are_rejected() {
    let mut cfg = AiEndpointConfig::default();
    cfg.host = "1".repeat(129);
    assert_eq!(cfg.validate(), Err(ConfigError::BadHost));
    assert_eq!(cfg.to_connect_addr(), Err(ConfigError::BadHost));
    let mut cfg = AiEndpointConfig::default();
    cfg.model = "m".repeat(128);
    assert_eq!(cfg.validate(), Ok([127, 0, 0, 1]));
    cfg.model = "m".repeat(129);
    assert_eq!(cfg.validate(), Err(ConfigError::BadModel));
    // Bytes are counted, not characters.
    cfg.model = "é".repeat(65);
    assert_eq!(cfg.validate(), Err(ConfigError::BadModel));
}

#[test]
fn default_has_an_address() {
    let cfg = AiEndpointConfig::default();
    assert_eq!(cfg.host, "127.0.0.1");
    assert_eq!(cfg.port, 11434);
    assert_eq!(cfg.model, "gemma4:latest");
    assert!(cfg.to_connect_addr().is_ok());
}

#[test]
fn config_errors_round_trip() {
    for (i, e) in [
        ConfigError::BadHost,
        ConfigError::HostNotIpv4,
        ConfigError::BadPort,
        ConfigError::BadModel,
    ]
    .into_iter()
    .enumerate()
    {
        let bytes = encode_canonical(&e).expect("encode");
        assert_eq!(bytes, vec![i as u8]);
        assert_eq!(decode_canonical::<ConfigError>(&bytes), Ok(e));
    }
}
