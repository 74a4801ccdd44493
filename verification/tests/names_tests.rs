use std::collections::HashSet;

use omaportless::names::{
    assign_names, is_app_host, is_index_host, newest_for_hostname, service_id, service_url,
    short_name, slug, suggested_name, valid_hostname, NamedService,
};
use omaportless::scan::Listener;

fn listener(port: u16, pid: i32, comm: &str, cwd: &str, starttime: u64) -> Listener {
    Listener {
        port,
        pid,
        bind: "127.0.0.1".into(),
        comm: comm.into(),
        cmd: comm.into(),
        cwd: cwd.into(),
        starttime,
    }
}

#[test]
fn slug_basic() {
    assert_eq!(slug("My App"), "my-app");
    assert_eq!(slug("  API__v2  "), "api-v2");
}

#[test]
fn hostname_rules() {
    assert!(valid_hostname("dashboard"));
    assert!(valid_hostname("api.myapp"));
    assert!(valid_hostname("Foo"));
    assert!(!valid_hostname("localhost"));
    assert!(!valid_hostname("-nope"));
    assert!(!valid_hostname(""));
}

#[test]
fn short_name_strips_tld() {
    assert_eq!(short_name("dashboard.localhost"), "dashboard");
    assert_eq!(short_name("dashboard.localhost."), "dashboard");
    assert_eq!(short_name("localhost"), "");
    assert_eq!(short_name("api.myapp.localhost"), "api.myapp");
}

#[test]
fn index_hosts() {
    assert!(is_index_host("localhost"));
    assert!(is_index_host("127.0.0.1"));
    assert!(is_index_host("::1"));
    assert!(!is_index_host("dashboard.localhost"));
}

#[test]
fn app_hosts_are_the_localhost_namespace() {
    assert!(is_app_host("whatships.localhost"));
    assert!(is_app_host("whatships.localhost."));
    assert!(is_app_host("api.myapp.localhost"));
    assert!(!is_app_host("localhost"));
    assert!(!is_app_host("127.0.0.1"));
    assert!(!is_app_host("once.example"));
    assert!(!is_app_host(""));
}

#[test]
fn url_omits_port_80() {
    assert_eq!(service_url("dash", 80), "http://dash.localhost");
    assert_eq!(service_url("dash", 7777), "http://dash.localhost:7777");
}

#[test]
fn collisions_get_port_suffix() {
    let listeners = vec![
        Listener {
            port: 3000,
            pid: 1,
            bind: "127.0.0.1".into(),
            comm: "node".into(),
            cmd: "node".into(),
            cwd: "/tmp/app".into(),
            starttime: 1,
        },
        Listener {
            port: 3001,
            pid: 2,
            bind: "127.0.0.1".into(),
            comm: "node".into(),
            cmd: "node".into(),
            cwd: "/var/app".into(),
            starttime: 2,
        },
    ];
    let named = assign_names(&listeners, &Vec::new(), "/home/x");
    let hostnames: HashSet<_> = named.iter().map(|s| s.hostname.as_str()).collect();
    assert_eq!(hostnames.len(), 2);
}

#[test]
fn collision_suffix_is_the_later_port() {
    let listeners = vec![listener(3000, 1, "node", "/tmp/app", 1), listener(3001, 2, "node", "/var/app", 2)];
    let named = assign_names(&listeners, &Vec::new(), "/home/x");
    assert_eq!(named[0].hostname, "node");
    assert_eq!(named[1].hostname, "node-3001");
    assert!(!named[0].pinned && named[0].alive && named[0].url.is_empty());
}

#[test]
fn slug_edges() {
    assert_eq!(slug("--Hello, World!--"), "hello-world");
    assert_eq!(slug("   "), "");
    assert_eq!(slug("ÄÖ-x"), "x");
    let long = "a".repeat(70);
    assert_eq!(slug(&long).len(), 63);
}

#[test]
fn ids_and_suggestions() {
    let home = "/home/x";
    assert_eq!(service_id(&listener(5173, 1, "vite", "/home/x/site", 0), home), "cwd:/home/x/site");
    assert_eq!(service_id(&listener(5173, 1, "vite", "/home/x/", 0), home), "port:5173");
    assert_eq!(service_id(&listener(5173, 1, "vite", "/", 0), home), "port:5173");
    assert_eq!(service_id(&listener(5173, 1, "vite", "", 0), home), "port:5173");
    assert_eq!(suggested_name(&listener(5173, 1, "vite", "/home/x/My Site", 0), home), "my-site");
    assert_eq!(suggested_name(&listener(5173, 1, "vite", "/srv/src", 0), home), "vite");
    assert_eq!(suggested_name(&listener(5173, 1, "vite", "/home/x", 0), home), "vite");
    assert_eq!(suggested_name(&listener(8000, 1, "__", "/tmp", 0), home), "port-8000");
}

#[test]
fn pinned_names_win_and_are_not_suffixed() {
    let listeners = vec![listener(3000, 1, "node", "/srv/a", 1), listener(3001, 2, "node", "/srv/b", 2)];
    let names = vec![
        ("cwd:/srv/b".to_string(), "api".to_string()),
        ("port:3000".to_string(), "api".to_string()),
    ];
    let named = assign_names(&listeners, &names, "/home/x");
    assert_eq!(named[0].hostname, "api");
    assert_eq!(named[1].hostname, "api");
    assert!(named[0].pinned && named[1].pinned);
}

#[test]
fn invalid_pins_are_ignored() {
    let listeners = vec![listener(3000, 1, "node", "/srv/a", 1)];
    let names = vec![("cwd:/srv/a".to_string(), "-bad".to_string())];
    let named = assign_names(&listeners, &names, "/home/x");
    assert_eq!(named[0].hostname, "a");
    assert!(!named[0].pinned);
}

fn named(hostname: &str, pid: i32, starttime: u64, alive: bool) -> NamedService {
    NamedService {
        listener: listener(1000 + pid as u16, pid, "node", "/srv", starttime),
        id: String::new(),
        hostname: hostname.to_string(),
        pinned: false,
        alive,
        url: String::new(),
    }
}

#[test]
fn newest_service_wins() {
    let ss = vec![
        named("a", 1, 10, true),
        named("a", 3, 20, true),
        named("a", 2, 20, true),
        named("a", 9, 99, false),
        named("b", 8, 50, true),
    ];
    assert_eq!(newest_for_hostname(&ss, "a").unwrap().listener.pid, 3);
    assert_eq!(newest_for_hostname(&ss, "b").unwrap().listener.pid, 8);
    assert!(newest_for_hostname(&ss, "c").is_none());
    let mut second = named("a", 4, 7, true);
    second.id = "second".to_string();
    let tie = vec![named("a", 4, 7, true), second];
    assert_eq!(newest_for_hostname(&tie, "a").unwrap().id, "second");
}
