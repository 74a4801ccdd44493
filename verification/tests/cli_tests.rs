use omaportless::cli::{parse_command, usage, Command};
use omaportless::ctl::{
    elevate_args, redirect_nft, redirect_port, redirect_unit_contents, unit_contents,
    wants_redirect, REDIRECT_NFT,
};

fn args(v: &[&str]) -> Vec<String> {
    v.iter().map(|s| s.to_string()).collect()
}

#[test]
fn help_text() {
    assert!(usage().starts_with("omaportless \u{2014} named .localhost URLs for local dev servers\n\nUsage:\nomaportless status\n"));
    assert!(usage().ends_with("omaportless daemon\n"));
}

#[test]
fn commands() {
    assert!(matches!(parse_command(&args(&[])), Command::Help));
    assert!(matches!(parse_command(&args(&["--help"])), Command::Help));
    assert!(matches!(parse_command(&args(&["status"])), Command::Status));
    match parse_command(&args(&["set-name", "cwd:/a", "web"])) {
        Command::SetName(id, h) => assert_eq!((id.as_str(), h.as_str()), ("cwd:/a", "web")),
        _ => panic!("expected set-name"),
    }
    match parse_command(&args(&["set-name", "cwd:/a"])) {
        Command::MissingArgs(m) => assert_eq!(m, "usage: omaportless set-name <id> <hostname>"),
        _ => panic!("expected a usage line"),
    }
    match parse_command(&args(&["unset-name"])) {
        Command::MissingArgs(m) => assert_eq!(m, "usage: omaportless unset-name <id>"),
        _ => panic!("expected a usage line"),
    }
    assert!(matches!(parse_command(&args(&["close", "port:3000"])), Command::Close(_)));
    assert!(matches!(parse_command(&args(&["enable-port80", "7777"])), Command::EnablePort80(Some(7777))));
    assert!(matches!(parse_command(&args(&["install-redirect", "x"])), Command::EnablePort80(None)));
    assert!(matches!(parse_command(&args(&["enable-port80"])), Command::EnablePort80(None)));
    assert!(matches!(parse_command(&args(&["uninstall-redirect"])), Command::DisablePort80));
    assert!(matches!(parse_command(&args(&["daemon"])), Command::Daemon));
    match parse_command(&args(&["frob"])) {
        Command::Unknown(c) => assert_eq!(c, "frob"),
        _ => panic!("expected unknown"),
    }
}

#[test]
fn unit_files() {
    assert_eq!(
        unit_contents("/usr/bin/omaportless"),
        "[Unit]\nDescription=omaportless named .localhost reverse proxy\nAfter=default.target\n\n[Service]\nType=simple\nExecStart=/usr/bin/omaportless daemon\nRestart=on-failure\nRestartSec=2\n\n[Install]\nWantedBy=default.target\n"
    );
    let nft = redirect_nft(7777);
    assert!(nft.contains("ip daddr 127.0.0.1 tcp dport 80 redirect to :7777\n"));
    assert!(nft.contains("ip6 daddr ::1 tcp dport 80 redirect to :7777\n"));
    assert!(nft.starts_with("#!/usr/bin/nft -f\ndestroy table ip omaportless\n"));
    assert!(redirect_unit_contents().contains(&format!("ExecStart=/usr/sbin/nft -f {REDIRECT_NFT}\n")));
}

#[test]
fn redirect_decisions() {
    assert_eq!(redirect_port(Some(9000), 0), 9000);
    assert_eq!(redirect_port(None, 0), 7777);
    assert_eq!(redirect_port(None, 8000), 8000);
    assert_eq!(elevate_args("/bin/o", "install-redirect", Some(7777)), vec!["pkexec", "/bin/o", "install-redirect", "7777"]);
    assert_eq!(elevate_args("/bin/o", "uninstall-redirect", None), vec!["pkexec", "/bin/o", "uninstall-redirect"]);
    assert!(wants_redirect(7777));
    assert!(!wants_redirect(80));
    assert!(!wants_redirect(0));
}
