use omaportless::config::Config;
use omaportless::http::{http_response, not_found_page, with_hop};
use omaportless::proxy::{
    backend_addrs, bad_gateway, bind_attempts, bind_error, daemon_ports, format_addr,
    headers_complete, listening_message, ProxyCore, Route,
};
use omaportless::scan::Listener;

#[test]
fn ipv6_only_prefers_loopback_v6() {
    assert_eq!(
        backend_addrs("::1", 4322),
        vec!["[::1]:4322".to_string(), "127.0.0.1:4322".to_string()]
    );
}

#[test]
fn ipv4_only_prefers_loopback_v4() {
    assert_eq!(
        backend_addrs("127.0.0.1", 4321),
        vec!["127.0.0.1:4321".to_string(), "[::1]:4321".to_string()]
    );
}

#[test]
fn any_address_prefers_v4_and_wildcard_v6_prefers_v6() {
    assert_eq!(backend_addrs("0.0.0.0", 1), vec!["127.0.0.1:1".to_string(), "[::1]:1".to_string()]);
    assert_eq!(backend_addrs("::", 2), vec!["[::1]:2".to_string(), "127.0.0.1:2".to_string()]);
}

#[test]
fn formats_addresses() {
    assert_eq!(format_addr("127.0.0.2", 80), "127.0.0.2:80");
    assert_eq!(format_addr("::1", 8080), "[::1]:8080");
    assert_eq!(format_addr("[::1]", 8080), "[::1]:8080");
}

fn listener(port: u16, bind: &str, cwd: &str, starttime: u64) -> Listener {
    Listener {
        port,
        pid: port as i32,
        bind: bind.into(),
        comm: "node".into(),
        cmd: "node".into(),
        cwd: cwd.into(),
        starttime,
    }
}

fn proxy_core(port: u16, public_port: u16) -> ProxyCore {
    let listeners = vec![listener(3000, "::1", "/srv/dash", 1), listener(4000, "127.0.0.1", "/srv/api", 2)];
    let mut c = ProxyCore::new(port, Config::default(), &listeners, "/home/x");
    c.public_port = public_port;
    c
}

fn text_reply(status: u16, reason: &str, body: &str) -> Vec<u8> {
    http_response(status, reason, body, "text/plain; charset=utf-8")
}

#[test]
fn routes_named_hosts_to_their_backend() {
    let c = proxy_core(7777, 80);
    let raw = b"GET /x HTTP/1.1\r\nHost: Dash.localhost:80\r\n\r\n";
    match c.route(raw) {
        Route::Forward { addrs, payload } => {
            assert_eq!(addrs, vec!["[::1]:3000".to_string(), "127.0.0.1:3000".to_string()]);
            assert_eq!(payload, raw.to_vec());
        }
        Route::Reply(_) => panic!("expected a forward"),
    }
}

#[test]
fn unknown_hosts_go_upstream_with_a_hop() {
    let c = proxy_core(7777, 80);
    let raw = b"GET / HTTP/1.1\r\nHost: example.test\r\n\r\n";
    match c.route(raw) {
        Route::Forward { addrs, payload } => {
            assert_eq!(addrs, vec!["127.0.0.2:80".to_string()]);
            assert_eq!(payload, with_hop(raw, 1));
        }
        Route::Reply(_) => panic!("expected a forward"),
    }
}

#[test]
fn unknown_names_under_localhost_are_not_passed_upstream() {
    let c = proxy_core(7777, 80);
    let raw = b"GET / HTTP/1.1\r\nHost: nope.localhost\r\n\r\n";
    match c.route(raw) {
        Route::Reply(bytes) => {
            assert_eq!(bytes, text_reply(404, "Not Found", &not_found_page("nope.localhost", &c.services, 80)));
        }
        Route::Forward { .. } => panic!("expected a reply"),
    }
}

#[test]
fn no_upstream_while_owning_port_80() {
    let c = proxy_core(80, 80);
    let raw = b"GET / HTTP/1.1\r\nHost: example.test\r\n\r\n";
    match c.route(raw) {
        Route::Reply(bytes) => {
            assert_eq!(bytes, text_reply(404, "Not Found", &not_found_page("example.test", &c.services, 80)));
        }
        Route::Forward { .. } => panic!("expected a reply"),
    }
}

#[test]
fn loops_are_refused() {
    let c = proxy_core(7777, 0);
    let raw = b"GET / HTTP/1.1\r\nHost: dash.localhost\r\nX-Omaportless-Hops: 3\r\n\r\n";
    match c.route(raw) {
        Route::Reply(bytes) => assert_eq!(bytes, text_reply(508, "Loop Detected", "proxy loop\n")),
        Route::Forward { .. } => panic!("expected a reply"),
    }
}

#[test]
fn answers_its_own_ping_and_index() {
    let c = proxy_core(7777, 0);
    match c.route(b"GET /__omaportless/ping HTTP/1.1\r\nHost: omaportless.localhost\r\n\r\n") {
        Route::Reply(bytes) => assert_eq!(bytes, text_reply(200, "OK", "omaportless-ok\n")),
        Route::Forward { .. } => panic!("expected a reply"),
    }
    match c.route(b"GET / HTTP/1.1\r\nHost: localhost:7777\r\n\r\n") {
        Route::Reply(bytes) => {
            let text = String::from_utf8(bytes).unwrap();
            assert!(text.starts_with("HTTP/1.1 200 OK\r\nContent-Type: text/html; charset=utf-8\r\n"));
            assert!(text.contains("http://dash.localhost:7777"));
        }
        Route::Forward { .. } => panic!("expected a reply"),
    }
}

#[test]
fn lookups_and_ports() {
    let c = proxy_core(7777, 0);
    assert_eq!(c.url_port(), 7777);
    assert_eq!(c.lookup("API.localhost.").unwrap().listener.port, 4000);
    assert!(c.lookup("omaportless.localhost").is_none());
    assert!(c.lookup("localhost").is_none());
    assert_eq!(c.upstream(), Some(("127.0.0.2".to_string(), 80)));
    assert_eq!(proxy_core(80, 0).upstream(), None);
    assert_eq!(proxy_core(7777, 8080).url_port(), 8080);
}

#[test]
fn refresh_keeps_ports_and_renames() {
    let mut c = proxy_core(7777, 80);
    let mut cfg = Config::default();
    cfg.names.push(("cwd:/srv/api".to_string(), "backend".to_string()));
    c.refresh(cfg, &vec![listener(4000, "127.0.0.1", "/srv/api", 2)], "/home/x");
    assert_eq!((c.port, c.public_port), (7777, 80));
    assert_eq!(c.services.len(), 1);
    assert_eq!(c.services[0].hostname, "backend");
    assert_eq!(ProxyCore::refresh_skip_ports(7777, &c.cfg), vec![7777, 80, 7777]);
}

#[test]
fn request_heads_are_complete_at_a_blank_line_or_the_limit() {
    assert!(headers_complete(b"GET / HTTP/1.1\r\n\r\n"));
    assert!(!headers_complete(b"GET / HTTP/1.1\r\n"));
    assert!(headers_complete(&vec![b'a'; 65537]));
    assert!(!headers_complete(&vec![b'a'; 65536]));
}

#[test]
fn daemon_start_decisions() {
    let mut cfg = Config::default();
    assert_eq!(daemon_ports(&cfg), (80, 7777));
    cfg.listen_port = 0;
    cfg.fallback_port = 0;
    assert_eq!(daemon_ports(&cfg), (80, 7777));
    assert_eq!(bind_attempts(80, 7777), vec![80, 7777]);
    assert_eq!(bind_attempts(80, 80), vec![80]);
    assert_eq!(bind_attempts(80, 0), vec![80]);
    assert_eq!(bind_error(7777), "Could not bind 7777");
    assert_eq!(listening_message(80), "omaportless listening on 127.0.0.1 and ::1");
    assert_eq!(listening_message(7777), "omaportless listening on 127.0.0.1:7777 and ::1:7777");
    assert_eq!(bad_gateway(), text_reply(502, "Bad Gateway", "Proxy error\n"));
}
