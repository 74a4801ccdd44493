use omaportless::cli::{parse_command, Command};
use omaportless::config::Config;
use omaportless::ctl::elevate_args;
use omaportless::http::{hop_count, html_escape, http_response, parse_host_header, with_hop};
use omaportless::names::{service_url, slug};
use omaportless::proxy::{ProxyCore, Route};
use omaportless::scan::Listener;
use omaportless::status::{probe_answered, set_name, PROBE_REQUEST};

fn listener(port: u16, cwd: &str, starttime: u64) -> Listener {
    Listener {
        port,
        pid: port as i32,
        bind: "127.0.0.1".into(),
        comm: "node".into(),
        cmd: "node".into(),
        cwd: cwd.into(),
        starttime,
    }
}

#[test]
fn service_urls_route_back_to_their_service() {
    let mut cfg = Config::default();
    assert_eq!(set_name(&mut cfg, "cwd:/srv/one", "shop.api"), Ok(()));
    let ls = vec![listener(3000, "/srv/one", 1), listener(4000, "/srv/two", 2)];
    let proxy = ProxyCore::new(7777, cfg, &ls, "/home/x");
    for (hostname, port) in [("shop.api", 3000u16), ("two", 4000u16)] {
        let url = service_url(hostname, 7777);
        let authority = url.strip_prefix("http://").unwrap();
        let request = format!("GET / HTTP/1.1\r\nHost: {authority}\r\n\r\n");
        let host = parse_host_header(request.as_bytes());
        assert_eq!(proxy.lookup(&host).unwrap().listener.port, port);
    }
}

#[test]
fn forwarding_writes_a_count_that_reads_back_and_keeps_the_body() {
    let raw = b"PUT /x HTTP/1.1\r\nX-OMAPORTLESS-HOPS: 9\r\nHost: a\r\n\r\nline1\r\n\r\nline2";
    for n in [0u32, 2, 3, 123456] {
        let out = with_hop(raw, n);
        assert_eq!(hop_count(&out), n);
        assert!(out.ends_with(b"\r\n\r\nline1\r\n\r\nline2"));
    }
}

#[test]
fn the_elevated_redirect_command_keeps_its_port() {
    for port in [0u16, 80, 7777, 65535] {
        let args = elevate_args("/bin/omaportless", "install-redirect", Some(port));
        match parse_command(&args[2..].to_vec()) {
            Command::EnablePort80(Some(p)) => assert_eq!(p, port),
            _ => panic!("expected enable-port80 with a port"),
        }
    }
    let args = elevate_args("/bin/omaportless", "uninstall-redirect", None);
    assert!(matches!(parse_command(&args[2..].to_vec()), Command::DisablePort80));
}

#[test]
fn the_probe_recognizes_the_proxys_own_answer() {
    let reply = http_response(200, "OK", "omaportless-ok\n", "text/plain; charset=utf-8");
    assert!(probe_answered(&reply));
    let proxy = ProxyCore::new(7777, Config::default(), &Vec::new(), "/home/x");
    match proxy.route(PROBE_REQUEST.as_bytes()) {
        Route::Reply(bytes) => assert_eq!(bytes, reply),
        Route::Forward { .. } => panic!("expected the proxy to answer"),
    }
}

#[test]
fn slugs_are_hostname_shaped() {
    for text in ["", "---", "Hello  World!!", "a--b__c", "Ünïcødé app", "x-", &"ab-".repeat(40)] {
        let s = slug(text);
        assert!(s.len() <= 63, "{s}");
        assert!(s.chars().all(|c| c.is_ascii_lowercase() || c.is_ascii_digit() || c == '-'), "{s}");
        assert!(!s.starts_with('-'), "{s}");
        assert!(!s.contains("--"), "{s}");
    }
}

#[test]
fn a_taken_name_is_refused_so_names_stay_unique() {
    let mut cfg = Config::default();
    assert_eq!(set_name(&mut cfg, "port:1", "web"), Ok(()));
    assert!(set_name(&mut cfg, "port:2", " WEB ").is_err());
    assert_eq!(set_name(&mut cfg, "port:2", "web2"), Ok(()));
    let mut hostnames: Vec<&str> = cfg.names.iter().map(|(_, h)| h.as_str()).collect();
    hostnames.sort();
    assert_eq!(hostnames, vec!["web", "web2"]);
}

#[test]
fn stamping_twice_keeps_only_the_last_count() {
    let raw = b"GET /a HTTP/1.1\r\nHost: h\r\nX-Omaportless-Hops: 5\r\n\r\nbody";
    for (m, n) in [(0u32, 1u32), (7, 2), (3, 3)] {
        let twice = with_hop(&with_hop(raw, m), n);
        assert_eq!(twice, with_hop(raw, n));
        let text = String::from_utf8(twice).unwrap();
        assert_eq!(text.matches("X-Omaportless-Hops").count(), 1);
    }
    let odd = b"G\xffT / HTTP/1.1\r\n\r\n";
    assert_eq!(with_hop(&with_hop(odd, 1), 2), with_hop(odd, 2));
}

#[test]
fn slugs_ignore_case_and_are_stable() {
    for text in ["My App", "  API__v2  ", "x-", "Hello--World", &"ab-".repeat(40), "a"] {
        let s = slug(text);
        assert_eq!(slug(&text.to_ascii_uppercase()), s);
        assert_eq!(slug(&s), s.trim_end_matches('-'));
        if s.ends_with('-') {
            assert_eq!(s.len(), 63);
        }
    }
}

#[test]
fn escaped_html_holds_no_markup_and_reads_back() {
    for (text, quote) in [("<a href=\"x\">'&'</a>", true), ("&lt; \"q\"", false), ("plain", true), ("&amp;&#x27;", true)] {
        let e = html_escape(text, quote);
        assert!(!e.contains('<') && !e.contains('>'));
        if quote {
            assert!(!e.contains('"') && !e.contains('\''));
        }
        let back = e
            .replace("&lt;", "<")
            .replace("&gt;", ">")
            .replace("&quot;", "\"")
            .replace("&#x27;", "'")
            .replace("&amp;", "&");
        assert_eq!(back, text);
    }
    assert_eq!(html_escape("no markup here", true), "no markup here");
}
