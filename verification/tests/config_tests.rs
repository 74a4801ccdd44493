use omaportless::config::{
    config_dir, config_path, default_bind, default_fallback, default_listen, default_upstream,
    hex_token, parse_upstream, state_path, temp_name, unit_path, Config, State,
    DEFAULT_FALLBACK_PORT, DEFAULT_LISTEN_PORT, DEFAULT_UPSTREAM,
};

#[test]
fn defaults() {
    let c = Config::default();
    assert_eq!((c.listen_port, c.fallback_port), (80, 7777));
    assert_eq!(c.upstream, "127.0.0.2:80");
    assert!(c.names.is_empty());
    assert_eq!(default_listen(), DEFAULT_LISTEN_PORT);
    assert_eq!(default_fallback(), DEFAULT_FALLBACK_PORT);
    assert_eq!(default_upstream(), DEFAULT_UPSTREAM);
    assert_eq!(default_bind(), "127.0.0.1");
    let s = State::default();
    assert_eq!((s.pid, s.port, s.public_port, s.fallback), (0, 0, 0, false));
    assert!(s.error.is_empty() && s.bind.is_empty());
}

#[test]
fn locations() {
    assert_eq!(config_dir("/home/x"), "/home/x/.config/omaportless");
    assert_eq!(config_path("/home/x"), "/home/x/.config/omaportless/config.json");
    assert_eq!(state_path("/home/x/"), "/home/x/.config/omaportless/state.json");
    assert_eq!(unit_path("/"), "/.config/systemd/user/omaportless.service");
}

#[test]
fn temporary_names() {
    assert_eq!(temp_name("/home/x/.config/omaportless/config.json", "ab12"), ".config.json.ab12.tmp");
    assert_eq!(temp_name("/", "t"), ".omaportless.t.tmp");
    assert_eq!(temp_name("dir/..", "t"), ".omaportless.t.tmp");
    assert_eq!(hex_token(&[0, 15, 16, 255]), "000f10ff");
    assert_eq!(hex_token(&[]), "");
}

#[test]
fn upstream_addresses() {
    assert_eq!(parse_upstream("127.0.0.2:80"), Some(("127.0.0.2".to_string(), 80)));
    assert_eq!(parse_upstream("  example.test  "), Some(("example.test".to_string(), 80)));
    assert_eq!(parse_upstream("[::1]:8080"), Some(("::1".to_string(), 8080)));
    assert_eq!(parse_upstream("[::1]"), Some(("::1".to_string(), 80)));
    assert_eq!(parse_upstream("[::1]:x"), Some(("::1".to_string(), 80)));
    assert_eq!(parse_upstream("[::1"), None);
    assert_eq!(parse_upstream("host:port"), None);
    assert_eq!(parse_upstream("::1"), Some(("::1".to_string(), 80)));
    assert_eq!(parse_upstream("   "), None);
}
