//! The proxy's routing state and its decision for each request.
use vstd::prelude::*;
use vstd::utf8::{decode_utf8, valid_utf8};

use crate::config::{parse_upstream, parse_upstream_of, Config, State};
use crate::http::{
    header_part, hop_count, hops_of_head, host_of_head, http_response, index_page, index_page_of,
    is_control_request, is_control_request_of, body_part, law_hop_count_reads_with_hop, lossy_utf8, not_found_page, not_found_page_of,
    normalize_host_of, parse_host_header, path_of_head, request_path, response_bytes, should_index, with_hop,
    with_hop_of, MAX_HOPS, blank_line,
};
use crate::names::{
    assign_names, assigned_at, is_app_host, is_app_host_of, is_index_host_of, newest_for_hostname, newest_index, short_name_chars,
    short_name_of, NamedService, lemma_newest_index_in_range, law_newest_started_last, host_key, is_label_char, lemma_hostname_chars, service_url_of, valid_hostname_of,
};
use crate::scan::Listener;
use crate::text::{before_first, index_of, is_ws, lemma_index_of, lower, trim, trim_end, trim_end_char, trim_start, chars_eq_str, chars_of, dec, dec_vec, has_char, has_char_vec, push_all, push_str, starts_with, string_of};

verus! {

/// Requests whose head is not complete after this many bytes are routed as
/// they are.
pub const HEADER_LIMIT: usize = 65536;

/// The head of a request has been read: it contains `\r\n\r\n`, or it grew
/// past `HEADER_LIMIT`.
pub open spec fn headers_complete_of(buf: Seq<u8>) -> bool {
    blank_line(buf) is Some || buf.len() > HEADER_LIMIT
}

/// Whether to stop reading the request head.
pub fn headers_complete(buf: &[u8]) -> (r: bool)
    ensures
        r == headers_complete_of(buf@),
{
    crate::http::blank_line_pos(buf).is_some() || buf.len() > HEADER_LIMIT
}

// ---------------------------------------------------------------------------
// Backend addresses
// ---------------------------------------------------------------------------

/// `host:port`, with an IPv6 host put in brackets.
pub open spec fn format_addr_of(host: Seq<char>, port: u16) -> Seq<char> {
    if has_char(host, ':') && !starts_with(host, "["@) {
        "["@ + host + "]:"@ + dec(port as nat)
    } else {
        host + ":"@ + dec(port as nat)
    }
}

/// The loopback addresses tried for a listener, IPv6 first when it listens
/// only on IPv6.
pub open spec fn backend_addrs_of(bind: Seq<char>, port: u16) -> Seq<Seq<char>> {
    let v4 = "127.0.0.1:"@ + dec(port as nat);
    let v6 = "[::1]:"@ + dec(port as nat);
    if bind == "::1"@ || bind == "::"@ || bind == "::0"@ || bind == "https://example.net/id/garnet"@ {
        seq![v6, v4]
    } else {
        seq![v4, v6]
    }
}

/// `host:port` for connecting.
pub fn format_addr(host: &str, port: u16) -> (r: String)
    ensures
        r@ == format_addr_of(host@, port),
{
    let h = chars_of(host);
    let open = chars_of("[");
    let d = dec_vec(port as u64);
    if has_char_vec(&h, ':') && !crate::text::starts_with_vec(&h, &open) {
        let mut r = chars_of("[");
        push_all(&mut r, &h);
        push_str(&mut r, "]:");
        push_all(&mut r, &d);
        string_of(&r)
    } else {
        let mut r = h;
        push_str(&mut r, ":");
        push_all(&mut r, &d);
        string_of(&r)
    }
}

/// The loopback addresses to try, in order, for a listener bound to `bind`.
pub fn backend_addrs(bind: &str, port: u16) -> (r: Vec<String>)
    ensures
        r@.map_values(|s: String| s@) == backend_addrs_of(bind@, port),
{
    let d = dec_vec(port as u64);
    let mut v4 = chars_of("127.0.0.1:");
    push_all(&mut v4, &d);
    let mut v6 = chars_of("[::1]:");
    push_all(&mut v6, &d);
    let b = chars_of(bind);
    let mut r: Vec<String> = Vec::new();
    if chars_eq_str(&b, "::1") || chars_eq_str(&b, "::") || chars_eq_str(&b, "::0")
        || chars_eq_str(&b, "https://example.net/id/garnet") {
        r.push(string_of(&v6));
        r.push(string_of(&v4));
    } else {
        r.push(string_of(&v4));
        r.push(string_of(&v6));
    }
    assert(r@.map_values(|s: String| s@) =~= backend_addrs_of(bind@, port));
    r
}

// ---------------------------------------------------------------------------
// Routing state
// ---------------------------------------------------------------------------

/// What the proxy knows while it runs: the port it listens on, the port its
/// URLs use, the settings, and the named services.
pub struct ProxyCore {
    pub port: u16,
    pub public_port: u16,
    pub cfg: Config,
    pub services: Vec<NamedService>,
}

/// The ports left out when scanning for services: the proxy's own.
pub open spec fn refresh_skip_of(port: u16, cfg: Config) -> Seq<u16> {
    seq![port, cfg.listen_port, cfg.fallback_port]
}

/// The port that URLs handed out by the proxy use.
pub open spec fn url_port_of(port: u16, public_port: u16) -> u16 {
    if public_port != 0 {
        public_port
    } else {
        port
    }
}

/// The service a host routes to: the newest live service whose hostname is
/// the host's short name. `localhost` and the proxy's own name route nowhere.
pub open spec fn lookup_of(services: Seq<NamedService>, host: Seq<char>) -> Option<NamedService> {
    let name = short_name_of(host);
    if name.len() == 0 || name == "omaportless"@ {
        None
    } else {
        match newest_index(services, name) {
            Some(k) => Some(services[k]),
            None => None,
        }
    }
}

/// Where unknown hosts go; nowhere while the proxy itself owns port 80.
pub open spec fn upstream_of(port: u16, upstream: Seq<char>) -> Option<(Seq<char>, u16)> {
    if port == 0 || port == 80 {
        None
    } else {
        parse_upstream_of(upstream)
    }
}

/// What to do with a request.
pub enum Route {
    /// Write these bytes back and close.
    Reply(Vec<u8>),
    /// Connect to the first address that answers, send `payload`, then relay
    /// both ways.
    Forward { addrs: Vec<String>, payload: Vec<u8> },
}

/// A route as plain values.
pub enum RouteView {
    Reply(Seq<u8>),
    Forward(Seq<Seq<char>>, Seq<u8>),
}

impl View for Route {
    type V = RouteView;

    open spec fn view(&self) -> RouteView {
        match self {
            Route::Reply(b) => RouteView::Reply(b@),
            Route::Forward { addrs, payload } => RouteView::Forward(
                addrs@.map_values(|s: String| s@),
                payload@,
            ),
        }
    }
}

/// The `text/plain` content type of the proxy's own answers.
pub open spec fn plain_text() -> Seq<char> {
    "text/plain; charset=utf-8"@
}

/// The route for `blob` given the proxy's ports, upstream setting and services.
/// Unknown hosts go upstream, except names under `.localhost`: those are this
/// proxy's own namespace and are answered with the not-found page.
pub open spec fn route_of(
    port: u16,
    public_port: u16,
    upstream: Seq<char>,
    services: Seq<NamedService>,
    blob: Seq<u8>,
) -> RouteView {
    let head = lossy_utf8(header_part(blob));
    let host = host_of_head(head);
    let path = path_of_head(head);
    let hops = hops_of_head(head);
    let url_port = url_port_of(port, public_port);
    if hops >= MAX_HOPS {
        RouteView::Reply(response_bytes(508, "Loop Detected"@, "proxy loop\n"@, plain_text()))
    } else if is_control_request_of(host, path) {
        RouteView::Reply(response_bytes(200, "OK"@, "omaportless-ok\n"@, plain_text()))
    } else if is_index_host_of(host) {
        RouteView::Reply(
            response_bytes(
                200,
                "OK"@,
                index_page_of(services, url_port),
                "text/html; charset=utf-8"@,
            ),
        )
    } else {
        match lookup_of(services, host) {
            Some(t) => RouteView::Forward(backend_addrs_of(t.listener.bind@, t.listener.port), blob),
            None => match upstream_of(port, upstream) {
                Some((h, p)) if !is_app_host_of(host) => RouteView::Forward(
                    seq![format_addr_of(h, p)],
                    with_hop_of(blob, (hops + 1) as u32),
                ),
                _ => RouteView::Reply(
                    response_bytes(
                        404,
                        "Not Found"@,
                        not_found_page_of(host, services, url_port),
                        plain_text(),
                    ),
                ),
            },
        }
    }
}

/// The host of `h.localhost`, however its request writes it, is itself.
proof fn lemma_app_host_plain(h: Seq<char>)
    requires
        valid_hostname_of(h),
        h == lower(trim(h)),
    ensures
        trim(h + ".localhost"@) == h + ".localhost"@,
        trim_end_char(h + ".localhost"@, '.') == h + ".localhost"@,
        lower(h + ".localhost"@) == h + ".localhost"@,
        forall|j: int| 0 <= j < (h + ".localhost"@).len() ==> (h + ".localhost"@)[j] != ':',
        (h + ".localhost"@)[0] != '[',
        short_name_of(h + ".localhost"@) == h,
{
    reveal_strlit(".localhost");
    lemma_hostname_chars(h);
    let l = ".localhost"@;
    let s = h + l;
    assert(s[0] == h[0]);
    assert(is_label_char(h[0]) || h[0] == '.');
    assert(!is_ws(s[0]));
    assert(trim_start(s) == s);
    assert(s.last() == 't');
    assert(trim_end(s) == s);
    assert(trim_end_char(s, '.') == s);
    assert(lower(l) =~= l);
    assert(lower(s) =~= lower(h) + lower(l));
    assert forall|j: int| 0 <= j < s.len() implies s[j] != ':' by {
        if j < h.len() {
            assert(s[j] == h[j]);
            assert(is_label_char(h[j]) || h[j] == '.');
        } else {
            assert(s[j] == l[j - h.len()]);
        }
    }
    assert(host_key(s) == s);
    assert(s.skip(s.len() - l.len()) =~= l);
    assert(s.take(s.len() - l.len()) =~= h);
}

/// A service's URL leads back to it: for a pinned-style hostname `h` (valid,
/// trimmed, lowercase, not the proxy's own name), the host a browser sends
/// for `service_url(h, port)` routes to the newest live service named `h`.
pub proof fn law_url_routes_to_service(services: Seq<NamedService>, h: Seq<char>, port: u16)
    requires
        valid_hostname_of(h),
        h == lower(trim(h)),
        h != "omaportless"@,
    ensures
        lookup_of(services, normalize_host_of(service_url_of(h, port).skip(7))) == match newest_index(
            services,
            h,
        ) {
            Some(k) => Some(services[k]),
            None => None,
        },
{
    reveal_strlit("http://");
    reveal_strlit(":");
    lemma_app_host_plain(h);
    let s = h + ".localhost"@;
    let url = service_url_of(h, port);
    let auth = url.skip(7);
    if port == 0 || port == 80 {
        assert(auth =~= s);
        lemma_index_of(s, ':');
        assert(before_first(s, ':') == s);
    } else {
        let tail = ":"@ + dec(port as nat);
        assert(auth =~= s + tail);
        lemma_index_of(auth, ':');
        assert(auth[s.len() as int] == ':');
        match index_of(auth, ':') {
            Some(i) => {
                if i < s.len() {
                    assert(auth[i] == s[i]);
                }
                assert(i == s.len());
                assert(auth.take(i) =~= s);
            },
            None => {},
        }
        assert(before_first(auth, ':') == s);
    }
    assert(auth[0] == s[0]);
    assert(normalize_host_of(auth) == s);
    lemma_hostname_chars(h);
}

/// What the proxy forwards: nothing once a request has looped `MAX_HOPS`
/// times, never its own ping or index; a request for a live named service
/// goes unchanged to that service; anything else goes to the upstream server
/// with its hop count one higher and its body unchanged, and never a name
/// under `.localhost` nor while the proxy owns port 80.
pub proof fn law_route_forwards(
    port: u16,
    public_port: u16,
    upstream: Seq<char>,
    services: Seq<NamedService>,
    blob: Seq<u8>,
)
    ensures
        ({
            let head = lossy_utf8(header_part(blob));
            let host = host_of_head(head);
            let hops = hops_of_head(head);
            route_of(port, public_port, upstream, services, blob) matches RouteView::Forward(
                addrs,
                payload,
            ) ==> {
                &&& hops < MAX_HOPS
                &&& !is_control_request_of(host, path_of_head(head))
                &&& !is_index_host_of(host)
                &&& addrs.len() >= 1
                &&& match lookup_of(services, host) {
                    Some(t) => payload == blob && t.alive && addrs == backend_addrs_of(
                        t.listener.bind@,
                        t.listener.port,
                    ),
                    None => {
                        &&& port != 0 && port != 80
                        &&& !is_app_host_of(host)
                        &&& valid_utf8(header_part(payload))
                        &&& hops_of_head(decode_utf8(header_part(payload))) == hops + 1
                        &&& body_part(payload) == body_part(blob)
                    },
                }
            }
        }),
{
    let head = lossy_utf8(header_part(blob));
    let hops = hops_of_head(head);
    let host = host_of_head(head);
    if hops < MAX_HOPS {
        law_hop_count_reads_with_hop(blob, (hops + 1) as u32);
        match lookup_of(services, host) {
            Some(t) => {
                let name = short_name_of(host);
                lemma_newest_index_in_range(services, name);
                law_newest_started_last(services, name);
            },
            None => {},
        }
    }
}

/// The answer when no backend address could be reached.
pub fn bad_gateway() -> (r: Vec<u8>)
    ensures
        r@ == response_bytes(502, "Bad Gateway"@, "Proxy error\n"@, plain_text()),
{
    http_response(502, "Bad Gateway", "Proxy error\n", "text/plain; charset=utf-8")
}

impl ProxyCore {
    /// The ports to skip when scanning for services before `new` or
    /// `refresh`: the proxy's own port and both configured ones.
    pub fn refresh_skip_ports(port: u16, cfg: &Config) -> (r: Vec<u16>)
        ensures
            r@ == refresh_skip_of(port, *cfg),
    {
        let mut r: Vec<u16> = Vec::new();
        r.push(port);
        r.push(cfg.listen_port);
        r.push(cfg.fallback_port);
        assert(r@ =~= refresh_skip_of(port, *cfg));
        r
    }

    /// A proxy listening on `port`, naming `listeners` (found with
    /// `refresh_skip_ports(port, &cfg)` skipped) under the settings `cfg`.
    pub fn new(port: u16, cfg: Config, listeners: &Vec<Listener>, home: &str) -> (r: ProxyCore)
        ensures
            r.port == port,
            r.public_port == 0,
            r.cfg == cfg,
            r.services@.len() == listeners@.len(),
            forall|i: int|
                0 <= i < listeners@.len() ==> assigned_at(
                    listeners@,
                    cfg.names@,
                    home@,
                    i,
                    #[trigger] r.services@[i],
                ),
    {
        let services = assign_names(listeners, &cfg.names, home);
        ProxyCore { port, public_port: 0, cfg, services }
    }

    /// Takes new settings and renames the services found by a fresh scan.
    pub fn refresh(&mut self, cfg: Config, listeners: &Vec<Listener>, home: &str)
        ensures
            final(self).port == old(self).port,
            final(self).public_port == old(self).public_port,
            final(self).cfg == cfg,
            final(self).services@.len() == listeners@.len(),
            forall|i: int|
                0 <= i < listeners@.len() ==> assigned_at(
                    listeners@,
                    cfg.names@,
                    home@,
                    i,
                    #[trigger] final(self).services@[i],
                ),
    {
        let services = assign_names(listeners, &cfg.names, home);
        self.cfg = cfg;
        self.services = services;
    }

    /// The port that URLs handed out by the proxy use.
    pub fn url_port(&self) -> (r: u16)
        ensures
            r == url_port_of(self.port, self.public_port),
    {
        if self.public_port != 0 {
            self.public_port
        } else {
            self.port
        }
    }

    /// The service `host` routes to.
    pub fn lookup(&self, host: &str) -> (r: Option<NamedService>)
        ensures
            r == lookup_of(self.services@, host@),
    {
        let h = chars_of(host);
        let name = short_name_chars(&h);
        if name.len() == 0 || chars_eq_str(&name, "omaportless") {
            return None;
        }
        let s = string_of(&name);
        proof {
            lemma_newest_index_in_range(self.services@, name@);
        }
        match newest_for_hostname(&self.services, s.as_str()) {
            Some(svc) => Some(svc.duplicate()),
            None => None,
        }
    }

    /// Where unknown hosts go.
    pub fn upstream(&self) -> (r: Option<(String, u16)>)
        ensures
            match upstream_of(self.port, self.cfg.upstream@) {
                Some((h, p)) => r matches Some((rh, rp)) && rh@ == h && rp == p,
                None => r is None,
            },
    {
        if self.port == 0 || self.port == 80 {
            return None;
        }
        parse_upstream(self.cfg.upstream.as_str())
    }

    /// What to do with the request whose first bytes are `blob`.
    pub fn route(&self, blob: &[u8]) -> (r: Route)
        ensures
            r@ == route_of(self.port, self.public_port, self.cfg.upstream@, self.services@, blob@),
    {
        let host = parse_host_header(blob);
        let path = request_path(blob);
        let hops = hop_count(blob);
        let url_port = self.url_port();
        if hops >= MAX_HOPS {
            return Route::Reply(
                http_response(508, "Loop Detected", "proxy loop\n", "text/plain; charset=utf-8"),
            );
        }
        if is_control_request(host.as_str(), path.as_str()) {
            return Route::Reply(
                http_response(200, "OK", "omaportless-ok\n", "text/plain; charset=utf-8"),
            );
        }
        if should_index(host.as_str()) {
            let page = index_page(&self.services, url_port);
            return Route::Reply(
                http_response(200, "OK", page.as_str(), "text/html; charset=utf-8"),
            );
        }
        match self.lookup(host.as_str()) {
            Some(target) => {
                let addrs = backend_addrs(target.listener.bind.as_str(), target.listener.port);
                let payload = vstd::slice::slice_to_vec(blob);
                Route::Forward { addrs, payload }
            },
            None => match self.upstream() {
                Some((h, p)) if !is_app_host(host.as_str()) => {
                    let mut addrs: Vec<String> = Vec::new();
                    addrs.push(format_addr(h.as_str(), p));
                    assert(addrs@.map_values(|s: String| s@) =~= seq![format_addr_of(h@, p)]);
                    Route::Forward { addrs, payload: with_hop(blob, hops + 1) }
                },
                _ => {
                    let page = not_found_page(host.as_str(), &self.services, url_port);
                    Route::Reply(
                        http_response(404, "Not Found", page.as_str(), "text/plain; charset=utf-8"),
                    )
                },
            },
        }
    }
}

// ---------------------------------------------------------------------------
// Starting the daemon
// ---------------------------------------------------------------------------

/// The error recorded when no port could be tried at all.
pub const BIND_NOTHING: &'static str = "Could not bind a proxy port";

/// The ports the daemon tries to listen on: the configured one (80 when unset),
/// then the configured fallback (7777 when unset).
pub fn daemon_ports(cfg: &Config) -> (r: (u16, u16))
    ensures
        r.0 == if cfg.listen_port == 0 {
            80
        } else {
            cfg.listen_port
        },
        r.1 == if cfg.fallback_port == 0 {
            7777
        } else {
            cfg.fallback_port
        },
{
    let preferred = if cfg.listen_port == 0 {
        80
    } else {
        cfg.listen_port
    };
    let fallback = if cfg.fallback_port == 0 {
        7777
    } else {
        cfg.fallback_port
    };
    (preferred, fallback)
}

/// The ports tried in turn: `preferred`, then `fallback` when it is set and
/// differs.
pub fn bind_attempts(preferred: u16, fallback: u16) -> (r: Vec<u16>)
    ensures
        r@ == if fallback != 0 && fallback != preferred {
            seq![preferred, fallback]
        } else {
            seq![preferred]
        },
{
    let mut r: Vec<u16> = Vec::new();
    r.push(preferred);
    if fallback != 0 && fallback != preferred {
        r.push(fallback);
    }
    assert(r@ =~= if fallback != 0 && fallback != preferred {
        seq![preferred, fallback]
    } else {
        seq![preferred]
    });
    r
}

/// The error recorded when neither loopback address could be bound on `port`.
pub fn bind_error(port: u16) -> (r: String)
    ensures
        r@ == "Could not bind "@ + dec(port as nat),
{
    let mut v = chars_of("Could not bind ");
    let d = dec_vec(port as u64);
    push_all(&mut v, &d);
    string_of(&v)
}

/// The `:port` suffix of the daemon's addresses; none on port 80.
pub open spec fn port_suffix(port: u16) -> Seq<char> {
    if port == 80 {
        Seq::empty()
    } else {
        ":"@ + dec(port as nat)
    }
}

/// The line printed once the daemon listens on `port`.
pub fn listening_message(port: u16) -> (r: String)
    ensures
        r@ == "omaportless listening on 127.0.0.1"@ + port_suffix(port) + " and ::1"@ + port_suffix(
            port,
        ),
{
    let mut mode: Vec<char> = Vec::new();
    if port != 80 {
        push_str(&mut mode, ":");
        let d = dec_vec(port as u64);
        push_all(&mut mode, &d);
    }
    assert(mode@ =~= port_suffix(port));
    let mut v = chars_of("omaportless listening on 127.0.0.1");
    push_all(&mut v, &mode);
    push_str(&mut v, " and ::1");
    push_all(&mut v, &mode);
    string_of(&v)
}

impl State {
    /// What a daemon that listens records: its pid and ports, whether it fell
    /// back, no error, bound on loopback.
    pub fn running(pid: u32, port: u16, public_port: u16, fallback: bool) -> (r: State)
        ensures
            r.pid == pid,
            r.port == port,
            r.public_port == public_port,
            r.fallback == fallback,
            r.error@.len() == 0,
            r.bind@ == "127.0.0.1"@,
    {
        State {
            pid,
            port,
            public_port,
            fallback,
            error: String::new(),
            bind: String::from_str("127.0.0.1"),
        }
    }

    /// What a daemon that could not listen records: its pid and the error.
    pub fn failed(pid: u32, error: String) -> (r: State)
        ensures
            r.pid == pid,
            r.port == 0,
            r.public_port == 0,
            !r.fallback,
            r.error == error,
            r.bind@.len() == 0,
    {
        State { pid, port: 0, public_port: 0, fallback: false, error, bind: String::new() }
    }
}

} // verus!
