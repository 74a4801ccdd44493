use omaportless::http::{
    hop_count, html_escape, http_response, index_page, is_control_request, not_found_page,
    parse_host_header, request_path, should_index, with_hop, MAX_HOPS,
};
use omaportless::names::NamedService;
use omaportless::scan::Listener;

fn service(hostname: &str, port: u16) -> NamedService {
    NamedService {
        listener: Listener {
            port,
            pid: 10,
            bind: "127.0.0.1".to_string(),
            comm: "node".to_string(),
            cmd: "node".to_string(),
            cwd: "/srv/app".to_string(),
            starttime: 5,
        },
        id: format!("port:{port}"),
        hostname: hostname.to_string(),
        pinned: false,
        alive: true,
        url: String::new(),
    }
}

#[test]
fn parses_host() {
    let raw = b"GET / HTTP/1.1\r\nHost: dashboard.localhost:7777\r\n\r\n";
    assert_eq!(parse_host_header(raw), "dashboard.localhost");
}

#[test]
fn ipv6_host() {
    let raw = b"GET / HTTP/1.1\r\nHost: [::1]:80\r\n\r\n";
    assert_eq!(parse_host_header(raw), "::1");
}

#[test]
fn path_and_hops() {
    let raw = b"GET /__omaportless/ping HTTP/1.1\r\nHost: x\r\n\r\n";
    assert_eq!(request_path(raw), "/__omaportless/ping");
    let bumped = with_hop(b"GET / HTTP/1.1\r\nHost: x\r\n\r\n", 1);
    assert_eq!(hop_count(&bumped), 1);
    assert!(String::from_utf8_lossy(&bumped).contains("X-Omaportless-Hops: 1"));
}

#[test]
fn host_header_name_ignores_case_and_value_is_normalized() {
    let raw = b"GET / HTTP/1.1\r\nhOsT:   Dash.LocalHost.:3000  \r\n\r\nbody";
    assert_eq!(parse_host_header(raw), "dash.localhost");
}

#[test]
fn host_from_absolute_target_when_no_header() {
    let raw = b"GET http://user@App.localhost:8080/x?y HTTP/1.1\r\n\r\n";
    assert_eq!(parse_host_header(raw), "app.localhost");
    assert_eq!(request_path(raw), "/x");
}

#[test]
fn no_host_at_all_is_empty() {
    assert_eq!(parse_host_header(b"GET / HTTP/1.1\r\n\r\n"), "");
    assert_eq!(parse_host_header(b""), "");
}

#[test]
fn invalid_utf8_in_the_head_is_replaced() {
    let raw = b"GET / HTTP/1.1\r\nHost: a\xffb.localhost\r\n\r\n";
    assert_eq!(parse_host_header(raw), "a\u{fffd}b.localhost");
}

#[test]
fn path_defaults_and_query() {
    assert_eq!(request_path(b"GET"), "/");
    assert_eq!(request_path(b"GET /a/b?c=d HTTP/1.1\r\n\r\n"), "/a/b");
    assert_eq!(request_path(b"GET https://h.localhost HTTP/1.1\r\n\r\n"), "/");
}

#[test]
fn hop_count_reads_the_first_counter() {
    let raw = b"GET / HTTP/1.1\r\nX-Omaportless-Hops: 2\r\nx-omaportless-hops: 7\r\n\r\n";
    assert_eq!(hop_count(raw), 2);
    assert_eq!(hop_count(b"GET / HTTP/1.1\r\nX-Omaportless-Hops: many\r\n\r\n"), 0);
    assert_eq!(hop_count(b"GET / HTTP/1.1\r\n\r\n"), 0);
}

#[test]
fn with_hop_replaces_the_counter_and_keeps_the_body() {
    let raw = b"POST /x HTTP/1.1\r\nHost: h\r\nX-Omaportless-Hops: 1\r\n\r\npayload";
    let out = with_hop(raw, 2);
    assert_eq!(
        out,
        b"POST /x HTTP/1.1\r\nHost: h\r\nX-Omaportless-Hops: 2\r\n\r\npayload".to_vec()
    );
    assert_eq!(hop_count(&out), 2);
}

#[test]
fn with_hop_on_a_head_without_blank_line() {
    let out = with_hop(b"GET / HTTP/1.1\r\nHost: h", 3);
    assert_eq!(out, b"GET / HTTP/1.1\r\nHost: h\r\nX-Omaportless-Hops: 3\r\n\r\n".to_vec());
    assert_eq!(hop_count(&out), MAX_HOPS);
}

#[test]
fn with_hop_written_count_reads_back_on_odd_heads() {
    let raw = b"G\xffT / HTTP/1.1\r\nHost: \xfe\r\n\r\n\r\n\r\nrest";
    for n in [0u32, 1, 9, 10, 4294967295] {
        assert_eq!(hop_count(&with_hop(raw, n)), n);
    }
}

#[test]
fn escapes_html() {
    assert_eq!(html_escape("<a href=\"x\">'&'</a>", true), "&lt;a href=&quot;x&quot;&gt;&#x27;&amp;&#x27;&lt;/a&gt;");
    assert_eq!(html_escape("\"'", false), "\"'");
}

#[test]
fn response_bytes_layout() {
    let r = http_response(404, "Not Found", "héllo", "text/plain");
    let expected = "HTTP/1.1 404 Not Found\r\nContent-Type: text/plain\r\nContent-Length: 6\r\nConnection: close\r\nCache-Control: no-store\r\n\r\nhéllo";
    assert_eq!(r, expected.as_bytes().to_vec());
}

#[test]
fn index_page_rows() {
    let empty = index_page(&Vec::new(), 80);
    assert!(empty.contains("<li class=\"empty\">Nothing listening</li>\n  </ul>"));
    assert!(empty.starts_with("<!doctype html>\n"));
    let page = index_page(&vec![service("a&b", 3000)], 7777);
    assert!(page.contains(
        "<li><a href=\"http://a&amp;b.localhost:7777\"><span class=\"name\">a&amp;b.localhost</span><span class=\"port\">3000</span></a></li>\n\n  </ul>\n</main>\n"
    ));
}

#[test]
fn not_found_lists_names() {
    assert_eq!(
        not_found_page("", &Vec::new(), 7777),
        "No app registered for unknown host.\nListening: none\nProxy port: 7777\n"
    );
    let ss = vec![service("a", 1), service("b", 2)];
    assert_eq!(
        not_found_page("x.localhost", &ss, 80),
        "No app registered for x.localhost.\nListening: a.localhost, b.localhost\nProxy port: 80\n"
    );
}

#[test]
fn control_and_index_requests() {
    assert!(is_control_request("anything", "/__omaportless/ping"));
    assert!(is_control_request("omaportless.localhost.", "/"));
    assert!(!is_control_request("dash.localhost", "/"));
    assert!(should_index("LOCALHOST."));
    assert!(should_index(""));
    assert!(!should_index("dash.localhost"));
}
