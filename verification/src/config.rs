//! Settings and daemon state, where they are kept, and the upstream address.
use vstd::prelude::*;

use crate::names::file_name_chars;
use crate::names::file_name_of;
use crate::names::keys_unique;
use crate::text::{
    chars_of, dec, has_char, has_char_vec, index_of, find_char, parse_unsigned, parse_unsigned_vec,
    push_all, push_str, rfind_char, rindex_of, string_of, subvec, trim, trim_vec, lemma_rindex_of,
};

verus! {

pub const DEFAULT_LISTEN_PORT: u16 = 80;

pub const DEFAULT_FALLBACK_PORT: u16 = 7777;

pub const DEFAULT_UPSTREAM: &'static str = "127.0.0.2:80";

pub const UNIT_NAME: &'static str = "omaportless.service";

/// User settings: the ports to listen on, where unknown hosts go, and the
/// hostnames pinned by service id. A table read from the settings file holds
/// each id once (`keys_unique`), which `set_name` keeps; lookups take the
/// first entry for an id.
pub struct Config {
    pub listen_port: u16,
    pub fallback_port: u16,
    pub upstream: String,
    pub names: Vec<(String, String)>,
}

/// `listen_port` when the settings file leaves it out.
pub fn default_listen() -> (r: u16)
    ensures
        r == DEFAULT_LISTEN_PORT,
{
    DEFAULT_LISTEN_PORT
}

/// `fallback_port` when the settings file leaves it out.
pub fn default_fallback() -> (r: u16)
    ensures
        r == DEFAULT_FALLBACK_PORT,
{
    DEFAULT_FALLBACK_PORT
}

/// `upstream` when the settings file leaves it out.
pub fn default_upstream() -> (r: String)
    ensures
        r@ == DEFAULT_UPSTREAM@,
{
    String::from_str(DEFAULT_UPSTREAM)
}

impl Default for Config {
    fn default() -> (r: Config)
        ensures
            r.listen_port == DEFAULT_LISTEN_PORT,
            r.fallback_port == DEFAULT_FALLBACK_PORT,
            r.upstream@ == DEFAULT_UPSTREAM@,
            r.names@.len() == 0,
            keys_unique(r.names@),
    {
        Config {
            listen_port: DEFAULT_LISTEN_PORT,
            fallback_port: DEFAULT_FALLBACK_PORT,
            upstream: String::from_str(DEFAULT_UPSTREAM),
            names: Vec::new(),
        }
    }
}

/// What the running daemon recorded about itself.
pub struct State {
    pub pid: u32,
    pub port: u16,
    pub public_port: u16,
    pub fallback: bool,
    pub error: String,
    pub bind: String,
}

impl Default for State {
    fn default() -> (r: State)
        ensures
            r.pid == 0,
            r.port == 0,
            r.public_port == 0,
            !r.fallback,
            r.error@.len() == 0,
            r.bind@.len() == 0,
    {
        State {
            pid: 0,
            port: 0,
            public_port: 0,
            fallback: false,
            error: String::new(),
            bind: String::new(),
        }
    }
}

/// `bind` when the state file leaves it out.
pub fn default_bind() -> (r: String)
    ensures
        r@ == "127.0.0.1"@,
{
    String::from_str("127.0.0.1")
}

// ---------------------------------------------------------------------------
// Locations
// ---------------------------------------------------------------------------

/// `PathBuf::join` with a relative path: a `/` is put between unless `base`
/// is empty or already ends with one.
pub open spec fn join_path(base: Seq<char>, rel: Seq<char>) -> Seq<char> {
    if base.len() > 0 && base.last() != '/' {
        base + "/"@ + rel
    } else {
        base + rel
    }
}

fn join_path_chars(base: &str, rel: &str) -> (r: String)
    ensures
        r@ == join_path(base@, rel@),
{
    let mut v = chars_of(base);
    if v.len() > 0 && v[v.len() - 1] != '/' {
        push_str(&mut v, "/");
    }
    push_str(&mut v, rel);
    string_of(&v)
}

/// The settings directory under the home directory `home`.
pub fn config_dir(home: &str) -> (r: String)
    ensures
        r@ == join_path(home@, ".config/omaportless"@),
{
    join_path_chars(home, ".config/omaportless")
}

/// The settings file.
pub fn config_path(home: &str) -> (r: String)
    ensures
        r@ == join_path(join_path(home@, ".config/omaportless"@), "config.json"@),
{
    let d = config_dir(home);
    join_path_chars(d.as_str(), "config.json")
}

/// The daemon's state file.
pub fn state_path(home: &str) -> (r: String)
    ensures
        r@ == join_path(join_path(home@, ".config/omaportless"@), "state.json"@),
{
    let d = config_dir(home);
    join_path_chars(d.as_str(), "state.json")
}

/// The systemd user unit.
pub fn unit_path(home: &str) -> (r: String)
    ensures
        r@ == join_path(join_path(home@, ".config/systemd/user"@), UNIT_NAME@),
{
    let d = join_path_chars(home, ".config/systemd/user");
    join_path_chars(d.as_str(), UNIT_NAME)
}

/// The name of the temporary file written next to `path` before it replaces it.
pub open spec fn temp_name_of(path: Seq<char>, token: Seq<char>) -> Seq<char> {
    let base = match file_name_of(path) {
        Some(n) => n,
        None => "omaportless"@,
    };
    "."@ + base + "."@ + token + ".tmp"@
}

/// `.<file name>.<token>.tmp`, the hidden temporary name used for an atomic
/// replacement of `path`.
pub fn temp_name(path: &str, token: &str) -> (r: String)
    ensures
        r@ == temp_name_of(path@, token@),
{
    let p = chars_of(path);
    let base = match file_name_of_opt(&p) {
        Some(n) => n,
        None => chars_of("omaportless"),
    };
    let mut v = chars_of(".");
    push_all(&mut v, &base);
    push_str(&mut v, ".");
    push_str(&mut v, token);
    push_str(&mut v, ".tmp");
    string_of(&v)
}

fn file_name_of_opt(p: &Vec<char>) -> (r: Option<Vec<char>>)
    ensures
        r matches Some(n) ==> file_name_of(p@) == Some(n@),
        r is None ==> file_name_of(p@) is None,
{
    let n = file_name_chars(p);
    if n.len() == 0 {
        // A component is never empty, so an empty result means none.
        proof {
            crate::names::lemma_file_name_nonempty(p@);
        }
        None
    } else {
        Some(n)
    }
}

/// The lowercase hex digit for `d < 16`.
pub open spec fn hex_digit(d: nat) -> char {
    if d < 10 {
        (('0' as u32) + d) as char
    } else {
        (('a' as u32) + d - 10) as char
    }
}

/// Every byte as two lowercase hex digits (`format!("{b:02x}")`, joined).
pub open spec fn hex_of(b: Seq<u8>) -> Seq<char>
    decreases b.len(),
{
    if b.len() == 0 {
        Seq::empty()
    } else {
        hex_of(b.drop_last()) + seq![hex_digit((b.last() / 16) as nat), hex_digit((b.last() % 16) as nat)]
    }
}

pub(crate) fn hex_digit_exec(d: u8) -> (c: char)
    requires
        d < 16,
    ensures
        c == hex_digit(d as nat),
{
    if d < 10 {
        (d + 48) as char
    } else {
        (d + 87) as char
    }
}

/// Random bytes written as a token for a temporary file name.
pub fn hex_token(bytes: &[u8]) -> (r: String)
    ensures
        r@ == hex_of(bytes@),
{
    let mut v: Vec<char> = Vec::new();
    let mut i: usize = 0;
    while i < bytes.len()
        invariant
            i <= bytes.len(),
            v@ == hex_of(bytes@.take(i as int)),
        decreases bytes.len() - i,
    {
        let b = bytes[i];
        assert(bytes@.take(i + 1).drop_last() == bytes@.take(i as int));
        let ghost before = v@;
        v.push(hex_digit_exec(b / 16));
        v.push(hex_digit_exec(b % 16));
        assert(v@ =~= before + seq![hex_digit((b / 16) as nat), hex_digit((b % 16) as nat)]);
        i = i + 1;
    }
    assert(bytes@.take(bytes.len() as int) == bytes@);
    string_of(&v)
}

// ---------------------------------------------------------------------------
// The upstream address
// ---------------------------------------------------------------------------

/// `parse_upstream`: `[v6]` or `[v6]:port`, `host:port` with a one-colon
/// host, or anything else with port 80. Blank text, a missing `]`, and an
/// unreadable port after a one-colon host give nothing.
pub open spec fn parse_upstream_of(value: Seq<char>) -> Option<(Seq<char>, u16)> {
    let t = trim(value);
    if t.len() == 0 {
        None
    } else if t[0] == '[' {
        let r = t.drop_first();
        match index_of(r, ']') {
            Some(i) => {
                let tail = r.skip(i + 1);
                let port = if tail.len() > 0 && tail[0] == ':' {
                    match parse_unsigned(tail.drop_first(), 65535) {
                        Some(p) => p as u16,
                        None => 80u16,
                    }
                } else {
                    80u16
                };
                Some((r.take(i), port))
            },
            None => None,
        }
    } else {
        match rindex_of(t, ':') {
            Some(i) => if !has_char(t.take(i), ':') {
                match parse_unsigned(t.skip(i + 1), 65535) {
                    Some(p) => Some((t.take(i), p as u16)),
                    None => None,
                }
            } else {
                Some((t, 80u16))
            },
            None => Some((t, 80u16)),
        }
    }
}

/// The host and port of the server that unknown hosts are passed to.
pub fn parse_upstream(value: &str) -> (r: Option<(String, u16)>)
    ensures
        match parse_upstream_of(value@) {
            Some((h, p)) => r matches Some((rh, rp)) && rh@ == h && rp == p,
            None => r is None,
        },
{
    let v = chars_of(value);
    let t = trim_vec(&v);
    if t.len() == 0 {
        return None;
    }
    if t[0] == '[' {
        let r = subvec(&t, 1, t.len());
        assert(r@ == t@.drop_first());
        match find_char(&r, ']') {
            Some(i) => {
                let tail = subvec(&r, i + 1, r.len());
                let port: u16 = if tail.len() > 0 && tail[0] == ':' {
                    let digits = subvec(&tail, 1, tail.len());
                    assert(digits@ == tail@.drop_first());
                    match parse_unsigned_vec(&digits, 65535) {
                        Some(p) => p as u16,
                        None => 80,
                    }
                } else {
                    80
                };
                let host = subvec(&r, 0, i);
                Some((string_of(&host), port))
            },
            None => None,
        }
    } else {
        match rfind_char(&t, ':') {
            Some(i) => {
                let host = subvec(&t, 0, i);
                if !has_char_vec(&host, ':') {
                    let digits = subvec(&t, i + 1, t.len());
                    match parse_unsigned_vec(&digits, 65535) {
                        Some(p) => Some((string_of(&host), p as u16)),
                        None => None,
                    }
                } else {
                    Some((string_of(&t), 80))
                }
            },
            None => Some((string_of(&t), 80)),
        }
    }
}

} // verus!
