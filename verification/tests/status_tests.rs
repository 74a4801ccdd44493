use omaportless::config::{Config, State};
use omaportless::names::assign_names;
use omaportless::scan::Listener;
use omaportless::status::{
    build_status, needs_probe, probe_answered, probe_shortcut, proxy_alive, set_name,
    status_skip_ports, AliveProbe, PROBE_REQUEST,
};

fn listener(port: u16, cwd: &str) -> Listener {
    Listener {
        port,
        pid: port as i32,
        bind: "127.0.0.1".into(),
        comm: "node".into(),
        cmd: "node".into(),
        cwd: cwd.into(),
        starttime: 1,
    }
}

fn state(pid: u32, port: u16, public_port: u16) -> State {
    State { pid, port, public_port, fallback: false, error: String::new(), bind: String::new() }
}

#[test]
fn skip_ports_are_sorted_and_unique() {
    let cfg = Config::default();
    assert_eq!(status_skip_ports(&state(0, 7777, 0), &cfg), vec![80, 7777]);
    assert_eq!(status_skip_ports(&state(0, 0, 0), &cfg), vec![80, 7777]);
    let mut c2 = Config::default();
    c2.listen_port = 0;
    c2.fallback_port = 9000;
    assert_eq!(status_skip_ports(&state(0, 8080, 0), &c2), vec![8080, 9000]);
}

#[test]
fn liveness_checks() {
    assert!(matches!(proxy_alive(&state(0, 0, 0)), AliveProbe::Systemd));
    assert!(matches!(proxy_alive(&state(42, 0, 0)), AliveProbe::Process(42)));
    assert!(needs_probe(&state(1, 7777, 0), true));
    assert!(!needs_probe(&state(1, 0, 0), true));
    assert!(!needs_probe(&state(1, 7777, 0), false));
}

#[test]
fn report_while_running_behind_a_redirect() {
    let mut cfg = Config::default();
    cfg.names.push(("cwd:/srv/a".to_string(), "alpha".to_string()));
    let ls = vec![listener(3000, "/srv/a"), listener(4000, "/srv/b")];
    let st = build_status(&cfg, &state(99, 7777, 0), &ls, "/home/x", true, 80, true);
    assert!(st.proxy.running && st.proxy.redirect && st.proxy.installed);
    assert_eq!((st.proxy.port, st.proxy.public_port, st.proxy.pid), (7777, 80, 99));
    assert_eq!((st.proxy.listen_port, st.proxy.fallback_port), (80, 7777));
    assert_eq!(st.proxy.bind, "127.0.0.1");
    assert_eq!((st.named, st.listening), (1, 2));
    assert_eq!(st.services[0].url, "http://alpha.localhost");
    assert_eq!(st.services[1].url, "http://b.localhost");
}

#[test]
fn report_while_stopped() {
    let cfg = Config::default();
    let ls = vec![listener(3000, "/srv/a")];
    let st = build_status(&cfg, &state(99, 7777, 80), &ls, "/home/x", false, 0, false);
    assert!(!st.proxy.running && !st.proxy.redirect);
    assert_eq!((st.proxy.port, st.proxy.public_port, st.proxy.pid), (0, 0, 0));
    assert_eq!(st.services[0].url, "http://a.localhost:7777");
}

#[test]
fn renaming() {
    let mut cfg = Config::default();
    assert_eq!(set_name(&mut cfg, "cwd:/srv/a", "  Alpha "), Ok(()));
    assert_eq!(cfg.names, vec![("cwd:/srv/a".to_string(), "alpha".to_string())]);
    assert_eq!(
        set_name(&mut cfg, "cwd:/srv/b", "alpha"),
        Err("Name \"alpha\" is already used by cwd:/srv/a".to_string())
    );
    assert_eq!(
        set_name(&mut cfg, "cwd:/srv/b", "-bad"),
        Err("Name must be lowercase letters, digits, dots or hyphens".to_string())
    );
    assert_eq!(set_name(&mut cfg, "cwd:/srv/a", "alpha"), Ok(()));
    assert_eq!(set_name(&mut cfg, "cwd:/srv/a", "beta"), Ok(()));
    assert_eq!(cfg.names, vec![("cwd:/srv/a".to_string(), "beta".to_string())]);
    assert_eq!(set_name(&mut cfg, "cwd:/srv/a", "   "), Ok(()));
    assert!(cfg.names.is_empty());
}

#[test]
fn a_pinned_name_is_what_the_next_naming_uses() {
    let mut cfg = Config::default();
    let ls = vec![listener(3000, "/srv/a"), listener(3001, "/srv/a2")];
    assert_eq!(set_name(&mut cfg, "cwd:/srv/a2", "Web.App"), Ok(()));
    let named = assign_names(&ls, &cfg.names, "/home/x");
    assert_eq!(named[1].hostname, "web.app");
    assert!(named[1].pinned);
    assert_eq!(named[0].hostname, "a");
}

#[test]
fn probing_loopback_80() {
    assert_eq!(probe_shortcut(0), Some(0));
    assert_eq!(probe_shortcut(80), Some(80));
    assert_eq!(probe_shortcut(7777), None);
    assert!(probe_answered(b"HTTP/1.1 200 OK\r\n\r\nomaportless-ok\n"));
    assert!(probe_answered(b"omaportless-ok"));
    assert!(!probe_answered(b"omaportless-o"));
    assert!(!probe_answered(b"HTTP/1.1 404 Not Found\r\n\r\n"));
    assert!(PROBE_REQUEST.starts_with("GET /__omaportless/ping HTTP/1.1\r\n"));
}

#[test]
fn renaming_keeps_each_id_once() {
    let mut cfg = Config::default();
    for (id, name) in [("a", "x"), ("b", "y"), ("a", "z"), ("b", ""), ("a", "w")] {
        assert_eq!(set_name(&mut cfg, id, name), Ok(()));
        let mut ids: Vec<&str> = cfg.names.iter().map(|(k, _)| k.as_str()).collect();
        let n = ids.len();
        ids.sort();
        ids.dedup();
        assert_eq!(ids.len(), n);
    }
    assert_eq!(cfg.names, vec![("a".to_string(), "w".to_string())]);
}
