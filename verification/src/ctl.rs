//! The files and commands that install the user service and the loopback
//! port 80 redirect.
use vstd::prelude::*;

use crate::config::DEFAULT_FALLBACK_PORT;
use crate::text::{chars_of, dec, dec_vec, push_all, push_str, string_of};

verus! {

/// The nftables script that redirects loopback port 80.
pub const REDIRECT_NFT: &'static str = "/etc/omaportless/redirect.nft";

/// The system unit that loads `REDIRECT_NFT` at boot.
pub const REDIRECT_UNIT: &'static str = "/etc/systemd/system/omaportless-redirect.service";

/// The user unit that runs `<script> daemon`.
pub open spec fn unit_text(script: Seq<char>) -> Seq<char> {
    "[Unit]\nDescription=omaportless named .localhost reverse proxy\nAfter=default.target\n\n[Service]\nType=simple\nExecStart="@
        + script
        + " daemon\nRestart=on-failure\nRestartSec=2\n\n[Install]\nWantedBy=default.target\n"@
}

/// The text of the user unit for the program at `script`.
pub fn unit_contents(script: &str) -> (r: String)
    ensures
        r@ == unit_text(script@),
{
    let mut v = chars_of(
        "[Unit]\nDescription=omaportless named .localhost reverse proxy\nAfter=default.target\n\n[Service]\nType=simple\nExecStart=",
    );
    push_str(&mut v, script);
    push_str(&mut v, " daemon\nRestart=on-failure\nRestartSec=2\n\n[Install]\nWantedBy=default.target\n");
    string_of(&v)
}

/// The nftables script sending loopback TCP port 80, over IPv4 and IPv6, to
/// `port`.
pub open spec fn redirect_text(port: u16) -> Seq<char> {
    "#!/usr/bin/nft -f\ndestroy table ip omaportless\ndestroy table ip6 omaportless\ntable ip omaportless {\n  chain output {\n    type nat hook output priority -100;\n    ip daddr 127.0.0.1 tcp dport 80 redirect to :"@
        + dec(port as nat)
        + "\n  }\n}\ntable ip6 omaportless {\n  chain output {\n    type nat hook output priority -100;\n    ip6 daddr ::1 tcp dport 80 redirect to :"@
        + dec(port as nat) + "\n  }\n}\n"@
}

/// The redirect script for `port`.
pub fn redirect_nft(port: u16) -> (r: String)
    ensures
        r@ == redirect_text(port),
{
    let d = dec_vec(port as u64);
    let mut v = chars_of(
        "#!/usr/bin/nft -f\ndestroy table ip omaportless\ndestroy table ip6 omaportless\ntable ip omaportless {\n  chain output {\n    type nat hook output priority -100;\n    ip daddr 127.0.0.1 tcp dport 80 redirect to :",
    );
    push_all(&mut v, &d);
    push_str(
        &mut v,
        "\n  }\n}\ntable ip6 omaportless {\n  chain output {\n    type nat hook output priority -100;\n    ip6 daddr ::1 tcp dport 80 redirect to :",
    );
    push_all(&mut v, &d);
    push_str(&mut v, "\n  }\n}\n");
    string_of(&v)
}

/// The system unit that loads the redirect script.
pub open spec fn redirect_unit_text() -> Seq<char> {
    "[Unit]\nDescription=Redirect loopback TCP/80 to omaportless\nAfter=network.target\n\n[Service]\nType=oneshot\nExecStart=/usr/sbin/nft -f "@
        + REDIRECT_NFT@ + "\nRemainAfterExit=yes\n\n[Install]\nWantedBy=multi-user.target\n"@
}

/// The text of the redirect unit.
pub fn redirect_unit_contents() -> (r: String)
    ensures
        r@ == redirect_unit_text(),
{
    let mut v = chars_of(
        "[Unit]\nDescription=Redirect loopback TCP/80 to omaportless\nAfter=network.target\n\n[Service]\nType=oneshot\nExecStart=/usr/sbin/nft -f ",
    );
    push_str(&mut v, REDIRECT_NFT);
    push_str(&mut v, "\nRemainAfterExit=yes\n\n[Install]\nWantedBy=multi-user.target\n");
    string_of(&v)
}

/// The port loopback :80 is sent to: the one asked for, else the configured
/// fallback port, else `DEFAULT_FALLBACK_PORT`.
pub fn redirect_port(port: Option<u16>, fallback_port: u16) -> (r: u16)
    ensures
        r == match port {
            Some(p) => p,
            None => if fallback_port == 0 {
                DEFAULT_FALLBACK_PORT
            } else {
                fallback_port
            },
        },
{
    match port {
        Some(p) => p,
        None => if fallback_port == 0 {
            DEFAULT_FALLBACK_PORT
        } else {
            fallback_port
        },
    }
}

/// The command that runs `<bin> <verb> [port]` as root through `pkexec`.
pub fn elevate_args(bin: &str, verb: &str, port: Option<u16>) -> (r: Vec<String>)
    ensures
        r@.map_values(|s: String| s@) == match port {
            Some(p) => seq!["pkexec"@, bin@, verb@, dec(p as nat)],
            None => seq!["pkexec"@, bin@, verb@],
        },
{
    let mut r: Vec<String> = Vec::new();
    r.push(String::from_str("pkexec"));
    r.push(String::from_str(bin));
    r.push(String::from_str(verb));
    match port {
        Some(p) => {
            let d = dec_vec(p as u64);
            r.push(string_of(&d));
        },
        None => {},
    }
    assert(r@.map_values(|s: String| s@) =~= match port {
        Some(p) => seq!["pkexec"@, bin@, verb@, dec(p as nat)],
        None => seq!["pkexec"@, bin@, verb@],
    });
    r
}

/// After `install`, loopback :80 needs a redirect when the daemon listens on
/// another port.
pub fn wants_redirect(bind_port: u16) -> (r: bool)
    ensures
        r == (bind_port != 0 && bind_port != 80),
{
    bind_port != 0 && bind_port != 80
}

} // verus!
