//! The status report, and renaming a service.
use vstd::prelude::*;

use crate::config::{Config, State, DEFAULT_FALLBACK_PORT, DEFAULT_LISTEN_PORT};
use crate::http::{response_bytes, response_head};
use vstd::utf8::{encode_utf8, is_ascii_chars, is_ascii_chars_encode_utf8};
use crate::names::{
    assign_names, assigned_at, hostname_at, keys_unique, lemma_without_key_unique, law_pinned_hostname_used, named_as, pinned_of, service_id_of, lemma_lookup_append, lemma_lookup_some, lemma_lookup_without,
    lookup, lookup_name, names_map, remove_key, service_url_of, service_url, valid_hostname_chars,
    valid_hostname_of, without_key, NamedService,
};
use crate::scan::Listener;
use crate::text::{chars_eq, chars_of, lower, lower_vec, push_all, push_str, string_of, trim, trim_vec};

verus! {

// ---------------------------------------------------------------------------
// Inputs of a status report
// ---------------------------------------------------------------------------

/// The ports skipped when scanning for a status report: the recorded and the
/// configured proxy ports, without zeros, sorted, each once.
pub open spec fn status_skip_of(state_port: u16, cfg: Config) -> Set<u16> {
    Set::new(
        |x: u16|
            x != 0 && (x == state_port || x == cfg.listen_port || x == cfg.fallback_port),
    )
}

/// Strictly increasing.
pub open spec fn increasing(s: Seq<u16>) -> bool {
    forall|i: int, j: int| 0 <= i < j < s.len() ==> s[i] < s[j]
}

/// Adds `x` to a strictly increasing list, keeping it so.
fn insert_sorted(skip: &mut Vec<u16>, x: u16)
    requires
        increasing(old(skip)@),
    ensures
        increasing(final(skip)@),
        forall|y: u16| final(skip)@.contains(y) <==> (old(skip)@.contains(y) || y == x),
{
    let mut pos: usize = 0;
    while pos < skip.len() && skip[pos] < x
        invariant
            pos <= skip.len(),
            skip@ == old(skip)@,
            forall|k: int| 0 <= k < pos ==> skip@[k] < x,
        decreases skip.len() - pos,
    {
        pos = pos + 1;
    }
    if pos < skip.len() && skip[pos] == x {
        assert(skip@[pos as int] == x);
        return;
    }
    let ghost before = skip@;
    assert(before == old(skip)@);
    skip.insert(pos, x);
    assert forall|i: int, j: int| 0 <= i < j < skip@.len() implies skip@[i] < skip@[j] by {
        if j < pos {
            assert(skip@[i] == before[i] && skip@[j] == before[j]);
        } else if j == pos {
            assert(skip@[i] == before[i]);
        } else if i == pos {
            assert(skip@[j] == before[j - 1]);
            if j - 1 > pos {
                assert(before[pos as int] < before[j - 1]);
            }
        } else if i < pos {
            assert(skip@[i] == before[i] && skip@[j] == before[j - 1]);
        } else {
            assert(skip@[i] == before[i - 1] && skip@[j] == before[j - 1]);
        }
    }
    assert forall|y: u16| skip@.contains(y) <==> (before.contains(y) || y == x) by {
        if skip@.contains(y) {
            let k = choose|k: int| 0 <= k < skip@.len() && skip@[k] == y;
            if k < pos {
                assert(before[k] == y);
            } else if k > pos {
                assert(before[k - 1] == y);
            }
        }
        if before.contains(y) {
            let k = choose|k: int| 0 <= k < before.len() && before[k] == y;
            if k < pos {
                assert(skip@[k] == y);
            } else {
                assert(skip@[k + 1] == y);
            }
        }
        if y == x {
            assert(skip@[pos as int] == x);
        }
    }
    assert(forall|y: u16| #[trigger] skip@.contains(y) <==> (old(skip)@.contains(y) || y == x));
}

/// The ports to skip when scanning for a status report.
pub fn status_skip_ports(state: &State, cfg: &Config) -> (r: Vec<u16>)
    ensures
        increasing(r@),
        forall|x: u16| r@.contains(x) <==> status_skip_of(state.port, *cfg).contains(x),
{
    let mut skip: Vec<u16> = Vec::new();
    if state.port != 0 {
        insert_sorted(&mut skip, state.port);
    }
    if cfg.listen_port != 0 {
        insert_sorted(&mut skip, cfg.listen_port);
    }
    if cfg.fallback_port != 0 {
        insert_sorted(&mut skip, cfg.fallback_port);
    }
    skip
}

/// How to tell whether the recorded proxy is alive.
pub enum AliveProbe {
    /// No pid is recorded: ask systemd whether the unit is active.
    Systemd,
    /// Check that this process exists and is the proxy.
    Process(i32),
}

/// `proxy_alive`: which check decides, for the recorded state.
pub fn proxy_alive(state: &State) -> (r: AliveProbe)
    ensures
        state.pid == 0 ==> r is Systemd,
        state.pid != 0 ==> r == AliveProbe::Process(state.pid as i32),
{
    if state.pid == 0 {
        AliveProbe::Systemd
    } else {
        AliveProbe::Process(state.pid as i32)
    }
}

/// Whether the status report asks the public port again: only for a running
/// proxy that recorded its port.
pub fn needs_probe(state: &State, running: bool) -> (r: bool)
    ensures
        r == (running && state.port != 0),
{
    running && state.port != 0
}

// ---------------------------------------------------------------------------
// The report
// ---------------------------------------------------------------------------

/// The proxy part of a status report.
pub struct ProxyStatus {
    pub running: bool,
    pub port: u16,
    pub public_port: u16,
    pub listen_port: u16,
    pub fallback_port: u16,
    pub fallback: bool,
    pub redirect: bool,
    pub bind: String,
    pub pid: u32,
    pub installed: bool,
    pub error: String,
}

/// A status report: the proxy, and every named service with its URL.
pub struct Status {
    pub proxy: ProxyStatus,
    pub named: usize,
    pub listening: usize,
    pub services: Vec<NamedService>,
}

/// The larger of two ports.
pub open spec fn max_port(a: u16, b: u16) -> u16 {
    if a >= b {
        a
    } else {
        b
    }
}

/// The port the proxy reports: its recorded port while it runs, else 0.
pub open spec fn shown_port(state: State, running: bool) -> u16 {
    if running {
        state.port
    } else {
        0
    }
}

/// The public port: a fresh probe while the proxy runs on a known port,
/// the recorded one while it runs otherwise, else 0.
pub open spec fn shown_public_port(state: State, running: bool, probed: u16) -> u16 {
    if running && state.port != 0 {
        probed
    } else if running {
        state.public_port
    } else {
        0
    }
}

/// The port URLs in the report use.
pub open spec fn report_url_port(cfg: Config, state: State, running: bool, probed: u16) -> u16 {
    let port = shown_port(state, running);
    let public_port = shown_public_port(state, running, probed);
    if public_port != 0 {
        public_port
    } else if port != 0 {
        port
    } else {
        max_port(cfg.fallback_port, DEFAULT_FALLBACK_PORT)
    }
}

/// How many services are pinned.
pub open spec fn pinned_count(ss: Seq<NamedService>) -> nat
    decreases ss.len(),
{
    if ss.len() == 0 {
        0
    } else {
        pinned_count(ss.drop_last()) + if ss.last().pinned {
            1nat
        } else {
            0nat
        }
    }
}

/// The proxy part of the report.
pub open spec fn proxy_status_ok(
    p: ProxyStatus,
    cfg: Config,
    state: State,
    running: bool,
    probed: u16,
    installed: bool,
) -> bool {
    let port = shown_port(state, running);
    let public_port = shown_public_port(state, running, probed);
    &&& p.running == running
    &&& p.port == port
    &&& p.public_port == (if public_port != 0 {
        public_port
    } else {
        port
    })
    &&& p.listen_port == max_port(cfg.listen_port, DEFAULT_LISTEN_PORT)
    &&& p.fallback_port == max_port(cfg.fallback_port, DEFAULT_FALLBACK_PORT)
    &&& p.fallback == state.fallback
    &&& p.redirect == (public_port == 80 && port != 0 && port != 80)
    &&& p.bind@ == (if state.bind@.len() == 0 {
        "127.0.0.1"@
    } else {
        state.bind@
    })
    &&& p.pid == (if running {
        state.pid
    } else {
        0
    })
    &&& p.installed == installed
    &&& p.error@ == state.error@
}

/// A reported redirect means the proxy listens on a port other than 80 while
/// its URLs use port 80, and that holds of the report exactly: a proxy that
/// listens on 80 itself, or does not run, never reports one. The public port
/// reported is never 0 while the proxy reports a port.
pub proof fn law_redirect_only_off_port_80(
    p: ProxyStatus,
    cfg: Config,
    state: State,
    running: bool,
    probed: u16,
    installed: bool,
)
    requires
        proxy_status_ok(p, cfg, state, running, probed, installed),
    ensures
        p.redirect <==> (p.port != 0 && p.port != 80 && p.public_port == 80),
        p.port == 80 ==> !p.redirect,
        !running ==> !p.redirect && p.port == 0 && p.public_port == 0 && p.pid == 0,
        p.port != 0 ==> p.public_port != 0,
{
}

/// The report for the settings `cfg`, the recorded `state`, the `listeners`
/// found (with `status_skip_ports` skipped), whether the proxy is `running`,
/// what probing its port gave (used only when `needs_probe`), and whether
/// the unit file is `installed`.
pub fn build_status(
    cfg: &Config,
    state: &State,
    listeners: &Vec<Listener>,
    home: &str,
    running: bool,
    probed: u16,
    installed: bool,
) -> (r: Status)
    ensures
        proxy_status_ok(r.proxy, *cfg, *state, running, probed, installed),
        r.listening == listeners@.len(),
        r.services@.len() == listeners@.len(),
        r.named == pinned_count(r.services@),
        forall|i: int|
            0 <= i < listeners@.len() ==> {
                let s = #[trigger] r.services@[i];
                &&& named_as(listeners@, cfg.names@, home@, i, s)
                &&& s.url@ == service_url_of(s.hostname@, report_url_port(*cfg, *state, running, probed))
            },
{
    let services = assign_names(listeners, &cfg.names, home);
    let port: u16 = if running {
        state.port
    } else {
        0
    };
    let mut public_port: u16 = if running {
        state.public_port
    } else {
        0
    };
    if running && port != 0 {
        public_port = probed;
    }
    let url_port: u16 = if public_port != 0 {
        public_port
    } else if port != 0 {
        port
    } else if cfg.fallback_port >= DEFAULT_FALLBACK_PORT {
        cfg.fallback_port
    } else {
        DEFAULT_FALLBACK_PORT
    };
    let mut out: Vec<NamedService> = Vec::new();
    let mut named: usize = 0;
    let mut i: usize = 0;
    while i < services.len()
        invariant
            i <= services.len(),
            services.len() == listeners@.len(),
            url_port == report_url_port(*cfg, *state, running, probed),
            out@.len() == i,
            named == pinned_count(out@),
            named <= i,
            forall|j: int|
                0 <= j < services.len() ==> assigned_at(listeners@, cfg.names@, home@, j, #[trigger] services@[j]),
            forall|j: int|
                0 <= j < i ==> {
                    let s = #[trigger] out@[j];
                    &&& named_as(listeners@, cfg.names@, home@, j, s)
                    &&& s.url@ == service_url_of(s.hostname@, url_port)
                },
        decreases services.len() - i,
    {
        let svc = &services[i];
        let url = service_url(svc.hostname.as_str(), url_port);
        let mut s = svc.duplicate();
        s.url = url;
        let ghost before = out@;
        if s.pinned {
            named = named + 1;
        }
        out.push(s);
        assert(out@.drop_last() == before);
        i = i + 1;
    }
    let bind = if state.bind.as_str().is_empty() {
        String::from_str("127.0.0.1")
    } else {
        state.bind.clone()
    };
    let proxy = ProxyStatus {
        running,
        port,
        public_port: if public_port != 0 {
            public_port
        } else {
            port
        },
        listen_port: if cfg.listen_port >= DEFAULT_LISTEN_PORT {
            cfg.listen_port
        } else {
            DEFAULT_LISTEN_PORT
        },
        fallback_port: if cfg.fallback_port >= DEFAULT_FALLBACK_PORT {
            cfg.fallback_port
        } else {
            DEFAULT_FALLBACK_PORT
        },
        fallback: state.fallback,
        redirect: public_port == 80 && port != 0 && port != 80,
        bind,
        pid: if running {
            state.pid
        } else {
            0
        },
        installed,
        error: state.error.clone(),
    };
    Status { proxy, named, listening: listeners.len(), services: out }
}


// ---------------------------------------------------------------------------
// Renaming
// ---------------------------------------------------------------------------

/// The answer to a name that breaks the hostname rules.
pub open spec fn invalid_name_message() -> Seq<char> {
    "Name must be lowercase letters, digits, dots or hyphens"@
}

/// The answer to a name already pinned for another service.
pub open spec fn name_taken_message(hostname: Seq<char>, other: Seq<char>) -> Seq<char> {
    "Name \""@ + hostname + "\" is already used by "@ + other
}

/// `hostname` is pinned for a service other than `id`.
pub open spec fn name_taken(names: Map<Seq<char>, Seq<char>>, id: Seq<char>, hostname: Seq<char>) -> bool {
    exists|k: Seq<char>| names.contains_key(k) && k != id && names[k] == hostname
}

/// Pins `hostname` (trimmed and lowercased) for the service `id`, or unpins
/// `id` when it is blank. A name that breaks the hostname rules, or that
/// another service already has, is refused and leaves `cfg` as it was.
pub fn set_name(cfg: &mut Config, id: &str, hostname: &str) -> (r: Result<(), String>)
    ensures
        final(cfg).listen_port == old(cfg).listen_port,
        final(cfg).fallback_port == old(cfg).fallback_port,
        final(cfg).upstream == old(cfg).upstream,
        keys_unique(old(cfg).names@) ==> keys_unique(final(cfg).names@),
        ({
            let h = lower(trim(hostname@));
            let before = names_map(old(cfg).names@);
            let after = names_map(final(cfg).names@);
            if h.len() == 0 {
                r is Ok && after == before.remove(id@)
            } else if !valid_hostname_of(h) {
                r matches Err(m) && m@ == invalid_name_message() && final(cfg).names@ == old(
                    cfg,
                ).names@
            } else if name_taken(before, id@, h) {
                r matches Err(m) && final(cfg).names@ == old(cfg).names@ && exists|k: Seq<char>|
                    before.contains_key(k) && k != id@ && before[k] == h && m@
                        == name_taken_message(h, k)
            } else {
                r is Ok && after == before.insert(id@, h)
            }
        }),
{
    let raw = chars_of(hostname);
    let t = trim_vec(&raw);
    let h = lower_vec(&t);
    let key = chars_of(id);
    let ghost before = names_map(cfg.names@);
    if h.len() == 0 {
        let kept = remove_key(&cfg.names, &key);
        proof {
            assert forall|k: Seq<char>| #[trigger] lookup_name(kept@, k) == (if k == id@ {
                None
            } else {
                lookup_name(old(cfg).names@, k)
            }) by {
                lemma_lookup_without(old(cfg).names@, id@, k);
            }
            assert(names_map(kept@) =~= before.remove(id@));
            lemma_without_key_unique(old(cfg).names@, id@);
        }
        cfg.names = kept;
        return Ok(());
    }
    if !valid_hostname_chars(&h) {
        return Err(String::from_str("Name must be lowercase letters, digits, dots or hyphens"));
    }
    let mut i: usize = 0;
    while i < cfg.names.len()
        invariant
            i <= cfg.names.len(),
            *cfg == *old(cfg),
            key@ == id@,
            h@ == lower(trim(hostname@)),
            h@.len() > 0,
            valid_hostname_of(h@),
            before == names_map(cfg.names@),
            forall|j: int|
                0 <= j < i ==> (#[trigger] cfg.names@[j]).0@ != id@ ==> lookup_name(
                    cfg.names@,
                    cfg.names@[j].0@,
                ) != Some(h@),
        decreases cfg.names.len() - i,
    {
        let k = chars_of(cfg.names[i].0.as_str());
        if !chars_eq(&k, &key) {
            match lookup(&cfg.names, &k) {
                Some(v) => {
                    if chars_eq(&v, &h) {
                        let mut m = chars_of("Name \"");
                        push_all(&mut m, &h);
                        push_str(&mut m, "\" is already used by ");
                        push_all(&mut m, &k);
                        assert(before.contains_key(k@) && before[k@] == h@);
                        assert(name_taken(before, id@, h@));
                        let err = string_of(&m);
                        assert(err@ == name_taken_message(h@, k@));
                        return Err(err);
                    }
                },
                None => {},
            }
        }
        i = i + 1;
    }
    proof {
        assert forall|k: Seq<char>|
            before.contains_key(k) && k != id@ implies before[k] != h@ by {
            lemma_lookup_some(old(cfg).names@, k);
            let j = choose|j: int| 0 <= j < old(cfg).names@.len() && #[trigger] old(cfg).names@[j].0@ == k;
            assert(cfg.names@[j].0@ == k);
        }
    }
    let mut kept = remove_key(&cfg.names, &key);
    let ghost without = kept@;
    kept.push((String::from_str(id), string_of(&h)));
    proof {
        lemma_without_key_unique(old(cfg).names@, id@);
        if keys_unique(old(cfg).names@) {
            assert forall|i: int, j: int| 0 <= i < j < kept@.len() implies #[trigger] kept@[i].0@
                != #[trigger] kept@[j].0@ by {
                if j == kept@.len() - 1 {
                    assert(kept@[i] == without[i]);
                } else {
                    assert(kept@[i] == without[i] && kept@[j] == without[j]);
                }
            }
        }
        assert(kept@ == without + seq![kept@.last()]);
        assert forall|k: Seq<char>| #[trigger] lookup_name(kept@, k) == (if k == id@ {
            Some(h@)
        } else {
            lookup_name(old(cfg).names@, k)
        }) by {
            lemma_lookup_append(without, seq![kept@.last()], k);
            lemma_lookup_without(old(cfg).names@, id@, k);
            crate::names::lemma_lookup_single(kept@.last(), k);
        }
        assert(names_map(kept@) =~= before.insert(id@, h@));
    }
    cfg.names = kept;
    Ok(())
}

/// Renaming is what the next naming shows: once `set_name(cfg, id, hostname)`
/// has stored `lower(trim(hostname))` under `id`, every listener whose id is
/// `id` is pinned to that name and gets it as its hostname.
pub proof fn law_set_name_pins(
    before: Config,
    after: Config,
    id: Seq<char>,
    hostname: Seq<char>,
    ls: Seq<Listener>,
    home: Seq<char>,
    i: int,
)
    requires
        lower(trim(hostname)).len() > 0,
        valid_hostname_of(lower(trim(hostname))),
        names_map(after.names@) == names_map(before.names@).insert(id, lower(trim(hostname))),
        0 <= i < ls.len(),
        service_id_of(ls[i].cwd@, ls[i].port, home) == id,
    ensures
        pinned_of(after.names@, ls[i], home) == lower(trim(hostname)),
        hostname_at(ls, after.names@, home, i) == lower(trim(hostname)),
{
    let h = lower(trim(hostname));
    assert(names_map(after.names@).contains_key(id));
    assert(names_map(after.names@)[id] == h);
    law_pinned_hostname_used(after.names@, ls, home, i);
}

/// No two service ids are pinned to the same hostname.
pub open spec fn pins_unique(names: Map<Seq<char>, Seq<char>>) -> bool {
    forall|a: Seq<char>, b: Seq<char>|
        #![trigger names[a], names[b]]
        names.contains_key(a) && names.contains_key(b) && a != b ==> names[a] != names[b]
}

/// Renaming keeps pinned hostnames unique: each outcome of `set_name` that
/// changes the table (unpinning `id`, or pinning a name no other id has)
/// leaves no name pinned twice.
pub proof fn law_set_name_keeps_pins_unique(
    names: Map<Seq<char>, Seq<char>>,
    id: Seq<char>,
    hostname: Seq<char>,
)
    requires
        pins_unique(names),
    ensures
        pins_unique(names.remove(id)),
        !name_taken(names, id, hostname) ==> pins_unique(names.insert(id, hostname)),
{
    let r = names.remove(id);
    assert forall|a: Seq<char>, b: Seq<char>|
        r.contains_key(a) && r.contains_key(b) && a != b implies #[trigger] r[a] != #[trigger] r[b] by {
        assert(names[a] != names[b]);
    }
    if !name_taken(names, id, hostname) {
        let m = names.insert(id, hostname);
        assert forall|a: Seq<char>, b: Seq<char>|
            m.contains_key(a) && m.contains_key(b) && a != b implies #[trigger] m[a] != #[trigger] m[b] by {
            if a == id {
                assert(!(names.contains_key(b) && b != id && names[b] == hostname));
            } else if b == id {
                assert(!(names.contains_key(a) && a != id && names[a] == hostname));
            } else {
                assert(names[a] != names[b]);
            }
        }
    }
}

// ---------------------------------------------------------------------------
// Which port the URLs use
// ---------------------------------------------------------------------------

/// The request that asks whatever answers on loopback :80 whether it is this
/// proxy.
pub const PROBE_REQUEST: &'static str = "GET /__omaportless/ping HTTP/1.1\r\nHost: omaportless.localhost\r\nConnection: close\r\n\r\n";

/// The public port when no probe is needed: none without a proxy port, and
/// 80 when the proxy owns it.
pub fn probe_shortcut(bind_port: u16) -> (r: Option<u16>)
    ensures
        r == if bind_port == 0 {
            Some(0u16)
        } else if bind_port == 80 {
            Some(80u16)
        } else {
            None::<u16>
        },
{
    if bind_port == 0 {
        Some(0)
    } else if bind_port == 80 {
        Some(80)
    } else {
        None
    }
}

/// The bytes `omaportless-ok`.
pub open spec fn probe_token() -> Seq<u8> {
    seq![111u8, 109, 97, 112, 111, 114, 116, 108, 101, 115, 115, 45, 111, 107]
}

/// Some window of `reply` is exactly `omaportless-ok`.
pub open spec fn answered_of(reply: Seq<u8>) -> bool {
    exists|i: int| 0 <= i && i + 14 <= reply.len() && #[trigger] reply.subrange(i, i + 14) == probe_token()
}

/// Whether the reply to `PROBE_REQUEST` came from this proxy.
pub fn probe_answered(reply: &[u8]) -> (r: bool)
    ensures
        r == answered_of(reply@),
{
    let tok: [u8; 14] = [111, 109, 97, 112, 111, 114, 116, 108, 101, 115, 115, 45, 111, 107];
    assert(tok@ == probe_token());
    if reply.len() < 14 {
        return false;
    }
    let mut i: usize = 0;
    while i <= reply.len() - 14
        invariant
            reply.len() >= 14,
            i <= reply.len() - 13,
            tok@ == probe_token(),
            forall|j: int| 0 <= j < i ==> #[trigger] reply@.subrange(j, j + 14) != probe_token(),
        decreases reply.len() - i,
    {
        let mut k: usize = 0;
        while k < 14 && reply[i + k] == tok[k]
            invariant
                k <= 14,
                i + 14 <= reply.len(),
                forall|m: int| 0 <= m < k ==> reply@[i + m] == tok@[m],
            decreases 14 - k,
        {
            k = k + 1;
        }
        if k == 14 {
            assert(reply@.subrange(i as int, i + 14) =~= probe_token());
            return true;
        }
        assert(reply@.subrange(i as int, i + 14)[k as int] != probe_token()[k as int]);
        i = i + 1;
    }
    proof {
        assert forall|j: int| 0 <= j && j + 14 <= reply@.len() implies #[trigger] reply@.subrange(j, j + 14)
            != probe_token() by {
            assert(j < i);
        }
    }
    false
}

/// The probe recognizes the proxy: the answer the proxy gives to its own
/// ping is one that `probe_answered` accepts.
pub proof fn law_probe_recognizes_ping_reply()
    ensures
        answered_of(
            response_bytes(200, "OK"@, "omaportless-ok\n"@, "text/plain; charset=utf-8"@),
        ),
{
    reveal_strlit("omaportless-ok\n");
    let body = "omaportless-ok\n"@;
    let head = response_head(200, "OK"@, encode_utf8(body).len(), "text/plain; charset=utf-8"@);
    let r = response_bytes(200, "OK"@, body, "text/plain; charset=utf-8"@);
    assert(is_ascii_chars(body));
    is_ascii_chars_encode_utf8(body);
    let e = encode_utf8(body);
    let n = encode_utf8(head).len() as int;
    assert(r.subrange(n, n + 14) =~= e.take(14));
    assert(e.take(14) =~= probe_token());
}

} // verus!
