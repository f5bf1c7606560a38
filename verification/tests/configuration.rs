use aggregator::config::ConfigError;
use aggregator::config::resolve_config;

#[test]
fn missing_listen_target_is_fatal() {
    let r = resolve_config(None, None, Some("some-key".to_string()));
    assert_eq!(r.unwrap_err(), ConfigError::MissingListenTarget);
    let r = resolve_config(None, None, None);
    assert_eq!(r.unwrap_err(), ConfigError::MissingListenTarget);
}

#[test]
fn missing_credential_is_fatal() {
    let r = resolve_config(Some("127.0.0.1:8080".to_string()), None, None);
    assert_eq!(r.unwrap_err(), ConfigError::MissingCredential);
    let r = resolve_config(None, Some(8080), None);
    assert_eq!(r.unwrap_err(), ConfigError::MissingCredential);
}

#[test]
fn port_alone_is_enough() {
    let c = resolve_config(None, Some(8080), Some("k".to_string())).unwrap();
    assert_eq!(c.webserver_address, None);
    assert_eq!(c.webserver_port, Some(8080));
    assert_eq!(c.openai_key, "k");
}

#[test]
fn address_and_port_are_both_kept() {
    let c = resolve_config(
        Some("127.0.0.1:8080".to_string()),
        Some(9090),
        Some("k".to_string()),
    )
    .unwrap();
    assert_eq!(c.webserver_address.as_deref(), Some("127.0.0.1:8080"));
    assert_eq!(c.webserver_port, Some(9090));
}
