use wander::settings::ServerConfig;

#[test]
fn round_trips_a_config() {
    let config = ServerConfig {
        host: "cairn.example.org".into(),
        port: 9001,
        token: Some("s3cret".into()),
    };
    let (host, port, token) = config.stored_values();
    let loaded = ServerConfig::from_stored(Some(host), Some(port), Some(token)).expect("loads back");
    assert_eq!(loaded.host, "cairn.example.org");
    assert_eq!(loaded.port, 9001);
    assert_eq!(loaded.token.as_deref(), Some("s3cret"));
}

#[test]
fn an_empty_token_loads_as_none() {
    let config = ServerConfig {
        host: "127.0.0.1".into(),
        port: 8080,
        token: None,
    };
    let (host, port, token) = config.stored_values();
    assert!(ServerConfig::from_stored(Some(host), Some(port), Some(token)).expect("loads back").token.is_none());
}

#[test]
fn a_missing_value_is_not_a_config() {
    assert!(ServerConfig::from_stored(None, Some("8080".into()), None).is_none());
    assert!(ServerConfig::from_stored(Some("h".into()), None, None).is_none());
    assert!(ServerConfig::from_stored(Some("h".into()), Some("99999".into()), None).is_none());
}

#[test]
fn the_default_points_at_this_machine() {
    let d = ServerConfig::default();
    assert_eq!(d.host, "127.0.0.1");
    assert_eq!(d.port, 8080);
    assert!(d.token.is_none());
}

#[test]
fn a_rejected_field_keeps_the_previous_value() {
    let previous = ServerConfig { host: "old.example".into(), port: 9000, token: None };
    let out = ServerConfig::from_form("  ", "80a", "  t  ", &previous);
    assert!(out.host_rejected && out.port_rejected);
    assert_eq!(out.config.host, "old.example");
    assert_eq!(out.config.port, 9000);
    assert_eq!(out.config.token.as_deref(), Some("t"));

    let out = ServerConfig::from_form(" new.example ", " 0 ", "", &previous);
    assert!(!out.host_rejected && out.port_rejected);
    assert_eq!(out.config.host, "new.example");
    assert_eq!(out.config.token, None);

    let out = ServerConfig::from_form("h", "8081", "", &previous);
    assert!(!out.port_rejected);
    assert_eq!(out.config.port, 8081);
}
