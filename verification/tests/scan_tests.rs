use omaportless::scan::{
    hex_decode, hex_decode_is_safe, ipv6_port_is_safe, is_local_bind, is_proxy_process,
    is_skipped_command, parse_ipv4_port, parse_ipv6_port, parse_socket_line, parse_starttime,
    join_words, proc_text, socket_inode, socket_line_is_safe, table_rows, Listener, ListenerTable,
};

#[test]
fn ipv4_loopback_3000() {
    let (ip, port) = parse_ipv4_port("0100007F:0BB8").unwrap();
    assert_eq!(ip, "127.0.0.1");
    assert_eq!(port, 3000);
}

#[test]
fn ipv4_edge_cases() {
    assert_eq!(parse_ipv4_port("00000000:1F90"), Some(("0.0.0.0".to_string(), 8080)));
    assert_eq!(parse_ipv4_port("+0100007F:+0050"), Some(("127.0.0.1".to_string(), 80)));
    assert_eq!(parse_ipv4_port("0100007F"), None);
    assert_eq!(parse_ipv4_port("0100007G:0050"), None);
    assert_eq!(parse_ipv4_port("0100007F:10000"), None);
    assert_eq!(parse_ipv4_port("100000000:0050"), None);
}

#[test]
fn ipv6_addresses() {
    assert_eq!(
        parse_ipv6_port("00000000000000000000000001000000:1F90"),
        Some(("::1".to_string(), 8080))
    );
    assert_eq!(
        parse_ipv6_port("00000000000000000000000000000000:0BB8"),
        Some(("::".to_string(), 3000))
    );
    assert_eq!(
        parse_ipv6_port("B80D0120000000000000000001000000:0050"),
        Some(("2001:db8::1".to_string(), 80))
    );
    assert_eq!(
        parse_ipv6_port("0000000000000000FFFF00000100007F:0050"),
        Some(("::ffff:127.0.0.1".to_string(), 80))
    );
    assert_eq!(parse_ipv6_port("0000:0050"), None);
    assert_eq!(parse_ipv6_port("0000000000000000000000000100000G:0050"), None);
    assert!(ipv6_port_is_safe("00000000000000000000000001000000:1F90"));
    assert!(!ipv6_port_is_safe("0\u{e9}00000000000000000000000000000:1F90"));
}

#[test]
fn hex_decoding() {
    assert_eq!(hex_decode("0aFF"), Some(vec![10, 255]));
    assert_eq!(hex_decode("abc"), None);
    assert_eq!(hex_decode("zz00"), None);
    assert!(hex_decode_is_safe("0a"));
    assert!(!hex_decode_is_safe("0\u{e9}1"));
}

#[test]
fn local_binds() {
    for ip in ["0.0.0.0", "::", "::0", "*", "127.0.0.1", "127.1.2.3", "::1"] {
        assert!(is_local_bind(ip), "{ip}");
    }
    for ip in ["192.168.1.2", "10.0.0.1", "::2", ""] {
        assert!(!is_local_bind(ip), "{ip}");
    }
}

#[test]
fn commands_and_processes() {
    assert!(is_skipped_command("sshd"));
    assert!(is_skipped_command("systemd-resolved"));
    assert!(!is_skipped_command("node"));
    assert!(is_proxy_process("omaportless", ""));
    assert!(is_proxy_process("x", "/usr/bin/omaportless daemon"));
    assert!(!is_proxy_process("node", "node server.js"));
}

#[test]
fn process_texts() {
    assert_eq!(proc_text("cmdline", b"node\0server.js\0\0--port\0"), "node server.js --port");
    assert_eq!(proc_text("cmdline", b"a\xffb\0c"), "a\u{fffd}b c");
    assert_eq!(proc_text("comm", b"  vite\n"), "vite");
    assert_eq!(proc_text("comm", b""), "");
}

#[test]
fn start_time_is_the_twenty_second_stat_field() {
    let stat = "1234 (my (odd) name) S 1 1234 1234 0 -1 4194560 100 0 0 0 5 3 0 0 20 0 1 0 98765 1000000 200";
    assert_eq!(parse_starttime(stat), 98765);
    assert_eq!(parse_starttime("1 (x) S 1 2"), 0);
    assert_eq!(parse_starttime("no parenthesis"), 0);
}

#[test]
fn socket_table_rows() {
    let text = "  sl  local_address rem_address   st\r\n   0: 0100007F:0BB8 00000000:0000 0A\n   1: x\n";
    assert_eq!(table_rows(text), vec!["   0: 0100007F:0BB8 00000000:0000 0A".to_string(), "   1: x".to_string()]);
    assert_eq!(table_rows(""), Vec::<String>::new());
    assert_eq!(table_rows("head only"), Vec::<String>::new());
    assert_eq!(table_rows("h\na\r"), vec!["a\r".to_string()]);
}

#[test]
fn socket_rows_that_count() {
    let row = "   0: 0100007F:0BB8 00000000:0000 0A 00000000:00000000 00:00000000 00000000  1000        0 123456 1 0000000000000000 100 0 0 10 0";
    assert!(socket_line_is_safe(row, false));
    let s = parse_socket_line(row, false, &[]).unwrap();
    assert_eq!((s.ip.as_str(), s.port, s.inode), ("127.0.0.1", 3000, 123456));
    assert!(parse_socket_line(row, false, &[3000]).is_none());
    let closed = row.replace(" 0A ", " 01 ");
    assert!(parse_socket_line(&closed, false, &[]).is_none());
    let remote = row.replace("0100007F:0BB8", "0200A8C0:0BB8");
    assert!(parse_socket_line(&remote, false, &[]).is_none());
    let row6 = "   0: 00000000000000000000000001000000:1F90 00000000000000000000000000000000:0000 0A 00000000:00000000 00:00000000 00000000  1000        0 777 1 0000000000000000 100 0 0 10 0";
    let s6 = parse_socket_line(row6, true, &[80]).unwrap();
    assert_eq!((s6.ip.as_str(), s6.port, s6.inode), ("::1", 8080, 777));
    assert!(parse_socket_line("   0: short", false, &[]).is_none());
}

#[test]
fn socket_links() {
    assert_eq!(socket_inode("socket:[12345]"), Some(12345));
    assert_eq!(socket_inode("socket:[12345]]"), Some(12345));
    assert_eq!(socket_inode("pipe:[12345]"), None);
    assert_eq!(socket_inode("socket:[x]"), None);
}

fn listener(port: u16, pid: i32) -> Listener {
    Listener {
        port,
        pid,
        bind: "127.0.0.1".into(),
        comm: "node".into(),
        cmd: String::new(),
        cwd: String::new(),
        starttime: 0,
    }
}

#[test]
fn one_listener_per_port_in_port_order() {
    let mut t = ListenerTable::new();
    t.insert(listener(5000, 1));
    t.insert(listener(3000, 2));
    assert!(t.holds(3000, 2));
    assert!(!t.holds(3000, 1));
    assert!(!t.holds(4000, 2));
    t.insert(listener(3000, 3));
    t.insert(listener(4000, 4));
    let ports: Vec<(u16, i32)> = t.into_sorted().iter().map(|l| (l.port, l.pid)).collect();
    assert_eq!(ports, vec![(3000, 3), (4000, 4), (5000, 1)]);
}

#[test]
fn words_join_with_single_spaces() {
    assert_eq!(join_words(&vec!["node".to_string(), "".to_string(), "x y".to_string()]), "node  x y");
    assert_eq!(join_words(&Vec::new()), "");
}

#[test]
fn the_scan_keeps_own_new_processes() {
    let mut t = ListenerTable::new();
    assert!(t.admits(3000, 1, Some(1000), 1000, "node"));
    assert!(t.admits(3000, 1, None, 1000, "node"));
    assert!(!t.admits(3000, 1, Some(0), 1000, "node"));
    assert!(!t.admits(3000, 1, Some(1000), 1000, "sshd"));
    t.insert(listener(3000, 1));
    assert!(!t.admits(3000, 1, Some(1000), 1000, "node"));
    assert!(t.admits(3000, 2, Some(1000), 1000, "node"));
}
