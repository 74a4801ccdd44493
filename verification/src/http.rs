//! The proxy's view of HTTP: reading the request head, rewriting the hop
//! counter, and the responses it writes itself.
use vstd::prelude::*;
use vstd::slice::slice_subrange;
use vstd::utf8::{
    char_is_scalar, char_u32_cast, decode_utf8, encode_scalar, encode_utf8, encode_utf8_decode_utf8,
    encode_utf8_valid_utf8, last_continuation_byte, leading_byte_width_1, leading_byte_width_2,
    leading_byte_width_3, leading_byte_width_4, second_last_continuation_byte,
    third_last_continuation_byte, valid_utf8,
};

use crate::names::{
    is_index_host_chars, is_index_host_of, service_url_chars, service_url_of, short_name_chars,
    short_name_of, NamedService,
};
use crate::text::{
    after_last, after_last_vec, before_first, before_first_vec, chars_eq, chars_eq_str, chars_of,
    copy_chars, dec, dec_vec, find_char, index_of, lemma_index_of, lemma_split_crlf_len, lower,
    lower_vec, parse_unsigned, parse_unsigned_vec, push_all, push_str, seqs_of, split_crlf,
    split_crlf_vec, starts_with, starts_with_vec, string_of, subvec, tokens, tokens_vec, trim,
    trim_end_char, trim_end_char_vec, trim_vec, lemma_dec, lemma_parse_dec, is_digit, is_ws, trim_start, trim_end,
};

verus! {

/// Requests that already went through the proxy this many times are refused.
pub const MAX_HOPS: u32 = 3;

/// The document around the rows of the index page.
pub const INDEX_HEAD: &'static str = r#"<!doctype html>
<html lang="en">
<meta charset="utf-8">
<meta name="viewport" content="width=device-width, initial-scale=1">
<title>localhost</title>
<style>
  * { box-sizing: border-box; margin: 0; padding: 0; }
  body {
    background: #fff;
    color: #111;
    font: 15px/1.45 ui-sans-serif, system-ui, sans-serif;
  }
  main {
    max-width: 36rem;
    margin: 0 auto;
    padding: 4rem 1.5rem;
  }
  h1 {
    font-size: 15px;
    font-weight: 600;
    letter-spacing: 0;
    margin: 0 0 1.5rem;
  }
  ul { list-style: none; }
  li + li a, li + li.empty { border-top: 1px solid #eee; }
  a {
    display: grid;
    grid-template-columns: minmax(0, 1fr) 4.5rem;
    align-items: baseline;
    gap: 1.5rem;
    padding: 0.7rem 0;
    color: inherit;
    text-decoration: none;
  }
  a:hover .name { text-decoration: underline; }
  .name { overflow: hidden; text-overflow: ellipsis; white-space: nowrap; }
  .port {
    text-align: right;
    color: #666;
    font-variant-numeric: tabular-nums;
  }
  .empty { color: #888; padding: 0.7rem 0; }
</style>
<main>
  <h1>localhost</h1>
  <ul>
"#;

pub const INDEX_TAIL: &'static str = "\n  </ul>\n</main>\n";

// ---------------------------------------------------------------------------
// Decoding the request head
// ---------------------------------------------------------------------------

/// What `String::from_utf8_lossy` makes of `bytes`.
pub uninterp spec fn lossy_utf8(bytes: Seq<u8>) -> Seq<char>;

/// `String::from_utf8_lossy(bytes)`. Its result is named `lossy_utf8(bytes)`;
/// the one fact stated of it is the documented one, that valid UTF-8 is
/// decoded unchanged. How invalid sequences are replaced is left unsaid.
#[verifier::external_body]
pub(crate) fn decode_lossy(bytes: &[u8]) -> (s: String)
    ensures
        s@ == lossy_utf8(bytes@),
        valid_utf8(bytes@) ==> s@ == decode_utf8(bytes@),
{
    String::from_utf8_lossy(bytes).into_owned()
}

/// The four bytes `\r\n\r\n` start at `i`.
pub open spec fn is_blank_at(b: Seq<u8>, i: int) -> bool {
    0 <= i && i + 4 <= b.len() && b[i] == 13 && b[i + 1] == 10 && b[i + 2] == 13 && b[i + 3] == 10
}

/// Where the first `\r\n\r\n` starts, if anywhere.
pub open spec fn blank_line(b: Seq<u8>) -> Option<int>
    decreases b.len(),
{
    if b.len() < 4 {
        None
    } else {
        match blank_line(b.drop_last()) {
            Some(i) => Some(i),
            None => if is_blank_at(b, b.len() - 4) {
                Some(b.len() - 4)
            } else {
                None
            },
        }
    }
}

/// The request head: everything before the first `\r\n\r\n`, or all of it.
pub open spec fn header_part(b: Seq<u8>) -> Seq<u8> {
    match blank_line(b) {
        Some(i) => b.take(i),
        None => b,
    }
}

pub proof fn lemma_blank_line(b: Seq<u8>)
    ensures
        match blank_line(b) {
            Some(i) => is_blank_at(b, i) && forall|j: int| 0 <= j < i ==> !is_blank_at(b, j),
            None => forall|j: int| 0 <= j ==> !is_blank_at(b, j),
        },
    decreases b.len(),
{
    if b.len() >= 4 {
        let t = b.drop_last();
        lemma_blank_line(t);
        assert forall|j: int| 0 <= j && j + 4 <= t.len() implies #[trigger] is_blank_at(b, j)
            == is_blank_at(t, j) by {
            assert(t[j] == b[j] && t[j + 1] == b[j + 1] && t[j + 2] == b[j + 2] && t[j + 3] == b[j
                + 3]);
        }
        match blank_line(t) {
            Some(i) => {
                assert forall|j: int| 0 <= j < i implies !is_blank_at(b, j) by {
                    assert(!is_blank_at(t, j));
                }
            },
            None => {
                assert forall|j: int| 0 <= j implies !is_blank_at(b, j) || j == b.len() - 4 by {
                    if j + 4 <= t.len() {
                        assert(!is_blank_at(t, j));
                    }
                }
            },
        }
    }
}

pub(crate) fn blank_line_pos(b: &[u8]) -> (r: Option<usize>)
    ensures
        r matches Some(i) ==> blank_line(b@) == Some(i as int) && i + 4 <= b.len(),
        r is None ==> blank_line(b@) is None,
{
    let mut i: usize = 0;
    while b.len() >= 4 && i <= b.len() - 4
        invariant
            forall|j: int| 0 <= j < i ==> !is_blank_at(b@, j),
        decreases b.len() - i,
    {
        if b[i] == 13 && b[i + 1] == 10 && b[i + 2] == 13 && b[i + 3] == 10 {
            proof {
                lemma_blank_line(b@);
                match blank_line(b@) {
                    Some(k) => {
                        if k < i {
                            assert(!is_blank_at(b@, k));
                        } else if k > i {
                            assert(!is_blank_at(b@, i as int));
                        }
                    },
                    None => {
                        assert(!is_blank_at(b@, i as int));
                    },
                }
            }
            return Some(i);
        }
        i = i + 1;
    }
    proof {
        lemma_blank_line(b@);
        match blank_line(b@) {
            Some(k) => {
                assert(!is_blank_at(b@, k));
            },
            None => {},
        }
    }
    None
}

/// The bytes of the request head.
fn split_headers(blob: &[u8]) -> (r: &[u8])
    ensures
        r@ == header_part(blob@),
{
    match blank_line_pos(blob) {
        Some(i) => slice_subrange(blob, 0, i),
        None => blob,
    }
}

// ---------------------------------------------------------------------------
// Header lines
// ---------------------------------------------------------------------------

/// The line is a header whose name equals `name`, ignoring ASCII case.
pub open spec fn header_named(line: Seq<char>, name: Seq<char>) -> bool {
    match index_of(line, ':') {
        Some(i) => lower(line.take(i)) == lower(name),
        None => false,
    }
}

/// What follows the first `:` of a header line.
pub open spec fn header_value(line: Seq<char>) -> Seq<char> {
    match index_of(line, ':') {
        Some(i) => line.skip(i + 1),
        None => Seq::empty(),
    }
}

/// The first line after the request line that is a header named `name`.
pub open spec fn first_header(lines: Seq<Seq<char>>, name: Seq<char>) -> Option<int>
    decreases lines.len(),
{
    if lines.len() <= 1 {
        None
    } else {
        match first_header(lines.drop_last(), name) {
            Some(k) => Some(k),
            None => if header_named(lines.last(), name) {
                Some(lines.len() - 1)
            } else {
                None
            },
        }
    }
}

pub proof fn lemma_first_header(lines: Seq<Seq<char>>, name: Seq<char>)
    ensures
        match first_header(lines, name) {
            Some(k) => 1 <= k < lines.len() && header_named(lines[k], name) && forall|j: int|
                1 <= j < k ==> !header_named(lines[j], name),
            None => forall|j: int| 1 <= j < lines.len() ==> !header_named(lines[j], name),
        },
    decreases lines.len(),
{
    if lines.len() > 1 {
        let t = lines.drop_last();
        lemma_first_header(t, name);
        assert forall|j: int| 0 <= j < t.len() implies t[j] == lines[j] by {}
    }
}

fn header_named_vec(line: &Vec<char>, want: &Vec<char>) -> (r: bool)
    requires
        want@ == lower(want@),
    ensures
        r == (match index_of(line@, ':') {
            Some(i) => lower(line@.take(i)) == want@,
            None => false,
        }),
{
    match find_char(line, ':') {
        Some(i) => {
            let n = subvec(line, 0, i);
            let ln = lower_vec(&n);
            chars_eq(&ln, want)
        },
        None => false,
    }
}

proof fn lemma_lower_idem(s: Seq<char>)
    ensures
        lower(lower(s)) == lower(s),
{
    assert(lower(lower(s)) =~= lower(s));
}

fn find_header(lines: &Vec<Vec<char>>, name: &str) -> (r: Option<usize>)
    ensures
        r matches Some(k) ==> first_header(seqs_of(lines@), name@) == Some(k as int) && k
            < lines.len(),
        r is None ==> first_header(seqs_of(lines@), name@) is None,
{
    let nm = chars_of(name);
    let want = lower_vec(&nm);
    proof {
        lemma_lower_idem(nm@);
    }
    let ghost ls = seqs_of(lines@);
    let mut k: usize = 1;
    while k < lines.len()
        invariant
            1 <= k,
            ls == seqs_of(lines@),
            want@ == lower(name@),
            want@ == lower(want@),
            forall|j: int| 1 <= j < k && j < ls.len() ==> !header_named(ls[j], name@),
        decreases lines.len() - k,
    {
        assert(ls[k as int] == lines@[k as int]@);
        if header_named_vec(&lines[k], &want) {
            proof {
                lemma_first_header(ls, name@);
                match first_header(ls, name@) {
                    Some(m) => {
                        if m < k {
                            assert(!header_named(ls[m], name@));
                        } else if m > k {
                            assert(!header_named(ls[k as int], name@));
                        }
                    },
                    None => {
                        assert(!header_named(ls[k as int], name@));
                    },
                }
            }
            return Some(k);
        }
        k = k + 1;
    }
    proof {
        lemma_first_header(ls, name@);
        match first_header(ls, name@) {
            Some(m) => {
                assert(!header_named(ls[m], name@));
            },
            None => {},
        }
    }
    None
}

fn header_value_vec(line: &Vec<char>) -> (r: Vec<char>)
    ensures
        r@ == header_value(line@),
{
    match find_char(line, ':') {
        Some(i) => subvec(line, i + 1, line.len()),
        None => Vec::new(),
    }
}

// ---------------------------------------------------------------------------
// Host, path and hop count
// ---------------------------------------------------------------------------

/// A `Host` value without port, brackets, trailing dots or uppercase.
pub open spec fn normalize_host_of(raw: Seq<char>) -> Seq<char> {
    let host = if raw.len() > 0 && raw[0] == '[' {
        before_first(raw.drop_first(), ']')
    } else {
        before_first(raw, ':')
    };
    lower(trim_end_char(trim(host), '.'))
}

/// An absolute-form request target without its `http://` or `https://`.
pub open spec fn strip_scheme(t: Seq<char>) -> Option<Seq<char>> {
    if starts_with(t, "http://"@) {
        Some(t.skip("http://"@.len() as int))
    } else if starts_with(t, "https://"@) {
        Some(t.skip("https://"@.len() as int))
    } else {
        None
    }
}

/// The host a request head names: its first `Host` header, else the
/// authority of an absolute request target, else `""`.
pub open spec fn host_of_head(h: Seq<char>) -> Seq<char> {
    let lines = split_crlf(h);
    match first_header(lines, "host"@) {
        Some(k) => normalize_host_of(trim(header_value(lines[k]))),
        None => {
            let toks = tokens(lines[0]);
            if toks.len() >= 2 {
                match strip_scheme(toks[1]) {
                    Some(rest) => normalize_host_of(after_last(before_first(rest, '/'), '@')),
                    None => Seq::empty(),
                }
            } else {
                Seq::empty()
            }
        },
    }
}

/// The path a request head asks for, without its query.
pub open spec fn path_of_head(h: Seq<char>) -> Seq<char> {
    let toks = tokens(split_crlf(h)[0]);
    let target = if toks.len() >= 2 {
        toks[1]
    } else {
        "/"@
    };
    match strip_scheme(target) {
        Some(rest) => {
            let path = match index_of(rest, '/') {
                Some(i) => rest.skip(i),
                None => "/"@,
            };
            before_first(path, '?')
        },
        None => before_first(target, '?'),
    }
}

/// The hop count a request head carries; `0` when absent or unreadable.
pub open spec fn hops_of_head(h: Seq<char>) -> u32 {
    let lines = split_crlf(h);
    match first_header(lines, "x-omaportless-hops"@) {
        Some(k) => match parse_unsigned(trim(header_value(lines[k])), u32::MAX as nat) {
            Some(v) => v as u32,
            None => 0,
        },
        None => 0,
    }
}

fn strip_scheme_vec(t: &Vec<char>) -> (r: Option<Vec<char>>)
    ensures
        r matches Some(v) ==> strip_scheme(t@) == Some(v@),
        r is None ==> strip_scheme(t@) is None,
{
    let http = chars_of("http://");
    let https = chars_of("https://");
    if starts_with_vec(t, &http) {
        Some(subvec(t, http.len(), t.len()))
    } else if starts_with_vec(t, &https) {
        Some(subvec(t, https.len(), t.len()))
    } else {
        None
    }
}

fn normalize_host(raw: &Vec<char>) -> (r: Vec<char>)
    ensures
        r@ == normalize_host_of(raw@),
{
    let host = if raw.len() > 0 && raw[0] == '[' {
        let inner = subvec(raw, 1, raw.len());
        assert(inner@ == raw@.drop_first());
        before_first_vec(&inner, ']')
    } else {
        before_first_vec(raw, ':')
    };
    let t = trim_vec(&host);
    let d = trim_end_char_vec(&t, '.');
    lower_vec(&d)
}

/// `host_of_head` of a decoded request head.
pub fn host_from_head(head: &str) -> (r: String)
    ensures
        r@ == host_of_head(head@),
{
    let h = chars_of(head);
    let lines = split_crlf_vec(&h);
    proof {
        lemma_split_crlf_len(h@);
    }
    let ghost ls = seqs_of(lines@);
    match find_header(&lines, "host") {
        Some(k) => {
            assert(ls[k as int] == lines@[k as int]@);
            let v = header_value_vec(&lines[k]);
            let t = trim_vec(&v);
            let n = normalize_host(&t);
            string_of(&n)
        },
        None => {
            assert(ls[0] == lines@[0]@);
            let toks = tokens_vec(&lines[0]);
            if toks.len() >= 2 {
                assert(seqs_of(toks@)[1] == toks@[1]@);
                match strip_scheme_vec(&toks[1]) {
                    Some(rest) => {
                        let hp = before_first_vec(&rest, '/');
                        let hp = after_last_vec(&hp, '@');
                        let n = normalize_host(&hp);
                        string_of(&n)
                    },
                    None => String::new(),
                }
            } else {
                String::new()
            }
        },
    }
}

/// The host a request is for (lowercase, without port or trailing dot).
pub fn parse_host_header(blob: &[u8]) -> (r: String)
    ensures
        r@ == host_of_head(lossy_utf8(header_part(blob@))),
        valid_utf8(header_part(blob@)) ==> r@ == host_of_head(decode_utf8(header_part(blob@))),
{
    let head = decode_lossy(split_headers(blob));
    host_from_head(head.as_str())
}

/// `path_of_head` of a decoded request head.
pub fn path_from_head(head: &str) -> (r: String)
    ensures
        r@ == path_of_head(head@),
{
    let h = chars_of(head);
    let lines = split_crlf_vec(&h);
    proof {
        lemma_split_crlf_len(h@);
    }
    assert(seqs_of(lines@)[0] == lines@[0]@);
    let toks = tokens_vec(&lines[0]);
    let target = if toks.len() >= 2 {
        assert(seqs_of(toks@)[1] == toks@[1]@);
        copy_chars(&toks[1])
    } else {
        chars_of("/")
    };
    let r = match strip_scheme_vec(&target) {
        Some(rest) => {
            let path = match find_char(&rest, '/') {
                Some(i) => subvec(&rest, i, rest.len()),
                None => chars_of("/"),
            };
            before_first_vec(&path, '?')
        },
        None => before_first_vec(&target, '?'),
    };
    string_of(&r)
}

/// The path a request asks for, without its query string.
pub fn request_path(blob: &[u8]) -> (r: String)
    ensures
        r@ == path_of_head(lossy_utf8(header_part(blob@))),
        valid_utf8(header_part(blob@)) ==> r@ == path_of_head(decode_utf8(header_part(blob@))),
{
    let head = decode_lossy(split_headers(blob));
    path_from_head(head.as_str())
}

/// `hops_of_head` of a decoded request head.
pub fn hops_from_head(head: &str) -> (r: u32)
    ensures
        r == hops_of_head(head@),
{
    let h = chars_of(head);
    let lines = split_crlf_vec(&h);
    let ghost ls = seqs_of(lines@);
    match find_header(&lines, "x-omaportless-hops") {
        Some(k) => {
            assert(ls[k as int] == lines@[k as int]@);
            let v = header_value_vec(&lines[k]);
            let t = trim_vec(&v);
            match parse_unsigned_vec(&t, 0xffff_ffff) {
                Some(n) => n as u32,
                None => 0,
            }
        },
        None => 0,
    }
}

/// How many times this request has already passed through the proxy.
pub fn hop_count(blob: &[u8]) -> (r: u32)
    ensures
        r == hops_of_head(lossy_utf8(header_part(blob@))),
        valid_utf8(header_part(blob@)) ==> r == hops_of_head(decode_utf8(header_part(blob@))),
{
    let head = decode_lossy(split_headers(blob));
    hops_from_head(head.as_str())
}


// ---------------------------------------------------------------------------
// Rewriting the hop counter
// ---------------------------------------------------------------------------

/// A header line that carries the hop counter.
pub open spec fn is_hops_line(line: Seq<char>) -> bool {
    header_named(line, "x-omaportless-hops"@)
}

/// The header lines kept when forwarding: non-empty and not a hop counter.
pub open spec fn kept_lines(ls: Seq<Seq<char>>) -> Seq<Seq<char>>
    decreases ls.len(),
{
    if ls.len() == 0 {
        seq![]
    } else {
        let r = kept_lines(ls.drop_last());
        let x = ls.last();
        if x.len() > 0 && !is_hops_line(x) {
            r.push(x)
        } else {
            r
        }
    }
}

/// `xs.join("\r\n")`.
pub open spec fn join_crlf(xs: Seq<Seq<char>>) -> Seq<char>
    decreases xs.len(),
{
    if xs.len() == 0 {
        Seq::empty()
    } else if xs.len() == 1 {
        xs[0]
    } else {
        join_crlf(xs.drop_last()) + "\r\n"@ + xs.last()
    }
}

/// The hop counter header written by the proxy.
pub open spec fn hops_line(hops: u32) -> Seq<char> {
    "X-Omaportless-Hops: "@ + dec(hops as nat)
}

/// The request head as forwarded: the request line, the kept headers, and a
/// fresh hop counter.
pub open spec fn rewritten_head(h: Seq<char>, hops: u32) -> Seq<char> {
    let lines = split_crlf(h);
    join_crlf(seq![lines[0]] + kept_lines(lines.drop_first()) + seq![hops_line(hops)])
}

/// `\r\n\r\n`.
pub open spec fn blank_bytes() -> Seq<u8> {
    seq![13u8, 10u8, 13u8, 10u8]
}

/// What `with_hop` sends: the rewritten head, a blank line, and the bytes
/// that followed the incoming head.
pub open spec fn with_hop_of(b: Seq<u8>, hops: u32) -> Seq<u8> {
    match blank_line(b) {
        Some(i) => encode_utf8(rewritten_head(lossy_utf8(b.take(i)), hops)) + blank_bytes()
            + b.skip(i + 4),
        None => encode_utf8(rewritten_head(lossy_utf8(b), hops)) + blank_bytes(),
    }
}

fn join_crlf_vec(xs: &Vec<Vec<char>>) -> (r: Vec<char>)
    ensures
        r@ == join_crlf(seqs_of(xs@)),
{
    let ghost ss = seqs_of(xs@);
    let mut r: Vec<char> = Vec::new();
    let mut i: usize = 0;
    while i < xs.len()
        invariant
            i <= xs.len(),
            ss == seqs_of(xs@),
            r@ == join_crlf(ss.take(i as int)),
        decreases xs.len() - i,
    {
        assert(ss.take(i + 1).drop_last() == ss.take(i as int));
        assert(ss[i as int] == xs@[i as int]@);
        if i > 0 {
            push_str(&mut r, "\r\n");
        } else {
            assert(ss.take(1) == seq![ss[0]]);
        }
        push_all(&mut r, &xs[i]);
        i = i + 1;
    }
    assert(ss.take(xs.len() as int) == ss);
    r
}

/// `x` has `\r\n` starting at `i`.
pub open spec fn crlf_at(x: Seq<char>, i: int) -> bool {
    0 <= i && i + 1 < x.len() && x[i] == '\r' && x[i + 1] == '\n'
}

/// `x` holds no `\r\n`.
pub open spec fn no_crlf(x: Seq<char>) -> bool {
    forall|i: int| !#[trigger] crlf_at(x, i)
}

/// The pieces of `split_crlf` hold no `\r\n`, and a non-empty last piece
/// ends as the text does.
proof fn lemma_split_crlf_pieces(s: Seq<char>)
    ensures
        split_crlf(s).len() >= 1,
        forall|k: int| 0 <= k < split_crlf(s).len() ==> no_crlf(#[trigger] split_crlf(s)[k]),
        split_crlf(s).last().len() > 0 ==> s.len() > 0 && split_crlf(s).last().last() == s.last(),
    decreases s.len(),
{
    lemma_split_crlf_len(s);
    if s.len() == 0 {
        assert(split_crlf(s) =~= seq![Seq::<char>::empty()]);
        assert forall|k: int| 0 <= k < split_crlf(s).len() implies no_crlf(#[trigger] split_crlf(s)[k]) by {
            assert forall|i: int| !#[trigger] crlf_at(split_crlf(s)[k], i) by {}
        }
    } else if s.len() >= 2 && s[s.len() - 2] == '\r' && s[s.len() - 1] == '\n' {
        let t = s.take(s.len() - 2);
        lemma_split_crlf_pieces(t);
        let p = split_crlf(t);
        assert forall|k: int| 0 <= k < split_crlf(s).len() implies no_crlf(#[trigger] split_crlf(s)[k]) by {
            if k < p.len() {
                assert(split_crlf(s)[k] == p[k]);
            } else {
                assert forall|i: int| !#[trigger] crlf_at(split_crlf(s)[k], i) by {}
            }
        }
    } else {
        let t = s.drop_last();
        lemma_split_crlf_pieces(t);
        lemma_split_crlf_len(t);
        let p = split_crlf(t);
        let q = split_crlf(s);
        let last = p.last().push(s.last());
        assert(q == p.update(p.len() - 1, last));
        assert forall|k: int| 0 <= k < q.len() implies no_crlf(#[trigger] q[k]) by {
            if k < p.len() - 1 {
                assert(q[k] == p[k]);
            } else {
                assert(q[k] == last);
                assert(no_crlf(p.last()));
                assert forall|i: int| !#[trigger] crlf_at(last, i) by {
                    if crlf_at(last, i) {
                        if i + 1 < p.last().len() {
                            assert(crlf_at(p.last(), i));
                        } else {
                            assert(p.last().len() > 0);
                            assert(p.last().last() == t.last());
                            assert(t.last() == s[s.len() - 2]);
                        }
                    }
                }
            }
        }
    }
}

/// Appending text without `\r\n` (that does not complete one at the seam)
/// grows the last piece.
proof fn lemma_split_crlf_append(a: Seq<char>, x: Seq<char>)
    requires
        no_crlf(x),
        !(a.len() > 0 && x.len() > 0 && a.last() == '\r' && x[0] == '\n'),
    ensures
        split_crlf(a + x) == split_crlf(a).update(
            split_crlf(a).len() - 1,
            split_crlf(a).last() + x,
        ),
    decreases x.len(),
{
    lemma_split_crlf_len(a);
    let p = split_crlf(a);
    if x.len() == 0 {
        assert(a + x =~= a);
        assert(p.update(p.len() - 1, p.last() + x) =~= p);
    } else {
        let s = a + x;
        let x0 = x.drop_last();
        assert forall|i: int| !#[trigger] crlf_at(x0, i) by {
            if crlf_at(x0, i) {
                assert(crlf_at(x, i));
            }
        }
        lemma_split_crlf_append(a, x0);
        assert(s.drop_last() =~= a + x0);
        if x.len() >= 2 {
            assert(!crlf_at(x, x.len() - 2));
        }
        assert(!(s.len() >= 2 && s[s.len() - 2] == '\r' && s[s.len() - 1] == '\n'));
        lemma_split_crlf_len(a + x0);
        let q = split_crlf(a + x0);
        assert(q.last() == p.last() + x0);
        assert(q.last().push(s.last()) =~= p.last() + x);
        assert(split_crlf(s) == q.update(q.len() - 1, q.last().push(s.last())));
        assert(split_crlf(s) =~= p.update(p.len() - 1, p.last() + x));
    }
}

/// Joining lines without `\r\n` and splitting again gives the lines back.
proof fn lemma_split_join(xs: Seq<Seq<char>>)
    requires
        xs.len() >= 1,
        forall|k: int| 0 <= k < xs.len() ==> no_crlf(#[trigger] xs[k]),
    ensures
        split_crlf(join_crlf(xs)) == xs,
    decreases xs.len(),
{
    reveal_strlit("\r\n");
    let e = Seq::<char>::empty();
    if xs.len() == 1 {
        assert(no_crlf(xs[0]));
        lemma_split_crlf_append(e, xs[0]);
        assert(e + xs[0] =~= xs[0]);
        assert(split_crlf(e) =~= seq![e]);
        assert(seq![e].update(0, e + xs[0]) =~= xs);
    } else {
        let init = xs.drop_last();
        assert forall|k: int| 0 <= k < init.len() implies no_crlf(#[trigger] init[k]) by {
            assert(init[k] == xs[k]);
        }
        lemma_split_join(init);
        let j = join_crlf(init);
        let a = j + "\r\n"@;
        assert(a.take(a.len() - 2) =~= j);
        assert(split_crlf(a) == split_crlf(j).push(e));
        assert(no_crlf(xs.last()));
        lemma_split_crlf_append(a, xs.last());
        assert(join_crlf(xs) =~= a + xs.last());
        assert(init.push(e).update(init.len() as int, e + xs.last()) =~= xs);
    }
}

/// The lines kept when forwarding are non-empty, are not hop counters, and
/// keep the property of holding no `\r\n`.
proof fn lemma_kept_lines(ls: Seq<Seq<char>>)
    requires
        forall|k: int| 0 <= k < ls.len() ==> no_crlf(#[trigger] ls[k]),
    ensures
        forall|k: int|
            0 <= k < kept_lines(ls).len() ==> no_crlf(#[trigger] kept_lines(ls)[k]) && kept_lines(
                ls,
            )[k].len() > 0 && !is_hops_line(kept_lines(ls)[k]),
    decreases ls.len(),
{
    if ls.len() > 0 {
        let t = ls.drop_last();
        assert forall|k: int| 0 <= k < t.len() implies no_crlf(#[trigger] t[k]) by {
            assert(t[k] == ls[k]);
        }
        lemma_kept_lines(t);
        let r = kept_lines(t);
        assert forall|k: int| 0 <= k < kept_lines(ls).len() implies no_crlf(
            #[trigger] kept_lines(ls)[k],
        ) && kept_lines(ls)[k].len() > 0 && !is_hops_line(kept_lines(ls)[k]) by {
            if k < r.len() {
                assert(kept_lines(ls)[k] == r[k]);
            } else {
                assert(kept_lines(ls)[k] == ls.last());
                assert(no_crlf(ls[ls.len() - 1]));
            }
        }
    }
}

/// `\r\n\r\n` starts at `i`.
pub open spec fn blank_chars_at(s: Seq<char>, i: int) -> bool {
    crlf_at(s, i) && crlf_at(s, i + 2)
}

/// Joined lines, the ones after the first non-empty, never hold
/// `\r\n\r\n`, nor end with `\r\n`.
proof fn lemma_join_no_blank(xs: Seq<Seq<char>>)
    requires
        xs.len() >= 1,
        forall|k: int| 0 <= k < xs.len() ==> no_crlf(#[trigger] xs[k]),
        forall|k: int| 1 <= k < xs.len() ==> (#[trigger] xs[k]).len() > 0,
    ensures
        forall|i: int| !#[trigger] blank_chars_at(join_crlf(xs), i),
        !crlf_at(join_crlf(xs), join_crlf(xs).len() - 2),
    decreases xs.len(),
{
    reveal_strlit("\r\n");
    let j = join_crlf(xs);
    if xs.len() == 1 {
        assert(no_crlf(xs[0]));
        assert forall|i: int| !#[trigger] blank_chars_at(j, i) by {
            if blank_chars_at(j, i) {
                assert(crlf_at(xs[0], i));
            }
        }
        assert(!crlf_at(xs[0], j.len() - 2));
    } else {
        let init = xs.drop_last();
        assert forall|k: int| 0 <= k < init.len() implies no_crlf(#[trigger] init[k]) by {
            assert(init[k] == xs[k]);
        }
        assert forall|k: int| 1 <= k < init.len() implies (#[trigger] init[k]).len() > 0 by {
            assert(init[k] == xs[k]);
        }
        lemma_join_no_blank(init);
        let j0 = join_crlf(init);
        let x = xs.last();
        assert(no_crlf(x));
        assert(x.len() > 0);
        assert(j == j0 + "\r\n"@ + x);
        let n0: int = j0.len() as int;
        assert(j[n0] == '\r' && j[n0 + 1] == '\n');
        assert forall|i: int| !#[trigger] blank_chars_at(j, i) by {
            if blank_chars_at(j, i) {
                if i + 4 <= n0 {
                    assert(blank_chars_at(j0, i));
                } else if i == n0 - 2 {
                    assert(crlf_at(j0, n0 - 2));
                } else if i == n0 - 3 || i == n0 - 1 || i == n0 + 1 {
                } else if i == n0 {
                    assert(crlf_at(x, 0));
                } else {
                    assert(crlf_at(x, i - n0 - 2));
                }
            }
        }
        if x.len() >= 2 {
            assert(!crlf_at(x, x.len() - 2));
        }
    }
}

/// The hop counter line is a `x-omaportless-hops` header with value `hops`,
/// holds no `\r` or `\n`, and ends with a digit.
proof fn lemma_hops_line(hops: u32)
    ensures
        forall|i: int|
            0 <= i < hops_line(hops).len() ==> #[trigger] hops_line(hops)[i] != '\r'
                && hops_line(hops)[i] != '\n',
        no_crlf(hops_line(hops)),
        hops_line(hops).len() > 0,
        is_hops_line(hops_line(hops)),
        parse_unsigned(trim(header_value(hops_line(hops))), u32::MAX as nat) == Some(hops as nat),
{
    reveal_strlit("X-Omaportless-Hops: ");
    reveal_strlit("x-omaportless-hops");
    let p = "X-Omaportless-Hops: "@;
    let d = dec(hops as nat);
    let line = hops_line(hops);
    lemma_dec(hops as nat);
    assert forall|i: int| 0 <= i < line.len() implies #[trigger] line[i] != '\r' && line[i]
        != '\n' by {
        if i >= p.len() {
            assert(line[i] == d[i - p.len()]);
            assert(is_digit(d[i - p.len()]));
        }
    }
    assert forall|i: int| !#[trigger] crlf_at(line, i) by {
        if 0 <= i < line.len() {
            assert(line[i] != '\r');
        }
    }
    lemma_index_of(line, ':');
    assert(line[18] == ':');
    assert forall|j: int| 0 <= j < 18 implies line[j] != ':' by {}
    match index_of(line, ':') {
        Some(k) => {
            if k < 18 {
                assert(line[k] != ':');
            }
            assert(k == 18);
        },
        None => {
            assert(line[18] != ':');
        },
    }
    assert(lower(line.take(18)) =~= lower("x-omaportless-hops"@));
    let v = header_value(line);
    assert(v =~= seq![' '] + d);
    assert(v[0] == ' ');
    assert(is_ws(v[0]));
    assert(v.drop_first() =~= d);
    assert(trim_start(v) == trim_start(d));
    assert(is_digit(d[0]));
    assert(trim_start(d) == d);
    assert(is_digit(d.last()));
    assert(trim_end(d) == d);
    lemma_parse_dec(hops as nat, u32::MAX as nat);
}

/// The forwarded head carries exactly the hop count written into it.
proof fn lemma_rewritten_hops(h: Seq<char>, hops: u32)
    ensures
        hops_of_head(rewritten_head(h, hops)) == hops,
        forall|i: int| !#[trigger] blank_chars_at(rewritten_head(h, hops), i),
        rewritten_head(h, hops).len() > 0,
        rewritten_head(h, hops).last() != '\r' && rewritten_head(h, hops).last() != '\n',
{
    let lines = split_crlf(h);
    lemma_split_crlf_pieces(h);
    let rest = lines.drop_first();
    assert forall|k: int| 0 <= k < rest.len() implies no_crlf(#[trigger] rest[k]) by {
        assert(rest[k] == lines[k + 1]);
    }
    lemma_kept_lines(rest);
    let kept = kept_lines(rest);
    lemma_hops_line(hops);
    let last = hops_line(hops);
    let ls = seq![lines[0]] + kept + seq![last];
    let n = ls.len();
    assert forall|k: int| 0 <= k < n implies no_crlf(#[trigger] ls[k]) by {
        if k == 0 {
            assert(ls[0] == lines[0]);
        } else if k < n - 1 {
            assert(ls[k] == kept[k - 1]);
        } else {
            assert(ls[k] == last);
        }
    }
    assert forall|k: int| 1 <= k < n implies (#[trigger] ls[k]).len() > 0 by {
        if k < n - 1 {
            assert(ls[k] == kept[k - 1]);
        } else {
            assert(ls[k] == last);
        }
    }
    lemma_split_join(ls);
    lemma_join_no_blank(ls);
    let head = rewritten_head(h, hops);
    assert(head == join_crlf(ls));
    let name = "x-omaportless-hops"@;
    lemma_first_header(ls, name);
    assert forall|j: int| 1 <= j < n - 1 implies !header_named(#[trigger] ls[j], name) by {
        assert(ls[j] == kept[j - 1]);
    }
    assert(ls[n - 1] == last);
    match first_header(ls, name) {
        Some(k) => {
            if k < n - 1 {
                assert(!header_named(ls[k], name));
            }
            assert(k == n - 1);
        },
        None => {
            assert(!header_named(ls[n - 1], name));
        },
    }
    assert(head.len() >= last.len());
    lemma_join_last(ls);
    assert(head.last() == last.last());
    assert(last[last.len() - 1] != '\r');
}

/// A join of lines ends with the last line, when that one is not empty.
proof fn lemma_join_last(xs: Seq<Seq<char>>)
    requires
        xs.len() >= 1,
        xs.last().len() > 0,
    ensures
        join_crlf(xs).len() >= xs.last().len(),
        join_crlf(xs).last() == xs.last().last(),
{
    if xs.len() > 1 {
        let j = join_crlf(xs);
        assert(j == join_crlf(xs.drop_last()) + "\r\n"@ + xs.last());
    }
}

/// A character below 128 is encoded as itself; any other only as bytes of
/// 128 and above.
proof fn lemma_scalar_bytes(c: char)
    ensures
        (c as u32) < 128 ==> encode_scalar(c as u32) == seq![(c as u32) as u8] && ((c as u32) as u8)
            as u32 == c as u32,
        (c as u32) >= 128 ==> forall|k: int|
            0 <= k < encode_scalar(c as u32).len() ==> #[trigger] encode_scalar(c as u32)[k] >= 128,
{
    let v = c as u32;
    char_is_scalar(c);
    if v < 128 {
        assert(leading_byte_width_1(v) == v as u8) by (bit_vector)
            requires
                v < 128,
        ;
        assert((v as u8) as u32 == v) by (bit_vector)
            requires
                v < 128,
        ;
    } else {
        assert(leading_byte_width_2(v) >= 128) by (bit_vector);
        assert(leading_byte_width_3(v) >= 128) by (bit_vector);
        assert(leading_byte_width_4(v) >= 128) by (bit_vector);
        assert(last_continuation_byte(v) >= 128) by (bit_vector);
        assert(second_last_continuation_byte(v) >= 128) by (bit_vector);
        assert(third_last_continuation_byte(v) >= 128) by (bit_vector);
    }
}

/// An encoding that starts with a byte below 128 starts with that character.
proof fn lemma_first_byte(t: Seq<char>)
    requires
        t.len() > 0,
        encode_utf8(t)[0] < 128,
    ensures
        t[0] as u32 == encode_utf8(t)[0] as u32,
        encode_utf8(t).drop_first() == encode_utf8(t.drop_first()),
{
    lemma_scalar_bytes(t[0]);
    let sc = encode_scalar(t[0] as u32);
    assert(encode_utf8(t) == sc + encode_utf8(t.drop_first()));
    if (t[0] as u32) >= 128 {
        assert(sc[0] >= 128);
    }
    assert(encode_utf8(t).drop_first() =~= encode_utf8(t.drop_first()));
}

/// The encoding of two texts one after the other.
proof fn lemma_encode_concat(a: Seq<char>, b: Seq<char>)
    ensures
        encode_utf8(a + b) == encode_utf8(a) + encode_utf8(b),
    decreases a.len(),
{
    if a.len() == 0 {
        assert(a + b =~= b);
        assert(encode_utf8(a) + encode_utf8(b) =~= encode_utf8(b));
    } else {
        assert((a + b).drop_first() =~= a.drop_first() + b);
        assert((a + b)[0] == a[0]);
        lemma_encode_concat(a.drop_first(), b);
        assert(encode_utf8(a + b) =~= encode_utf8(a) + encode_utf8(b));
    }
}

/// A `\r\n\r\n` in the bytes of a text is one in the text, at the
/// character whose encoding starts there.
proof fn lemma_blank_bytes(s: Seq<char>, j: int)
    requires
        is_blank_at(encode_utf8(s), j),
    ensures
        exists|i: int| blank_chars_at(s, i) && #[trigger] encode_utf8(s.take(i)).len() == j,
    decreases s.len(),
{
    let e = encode_utf8(s);
    if s.len() == 0 {
        assert(e.len() == 0);
    } else {
        let sc = encode_scalar(s[0] as u32);
        let rest = s.drop_first();
        let r = encode_utf8(rest);
        assert(e == sc + r);
        lemma_scalar_bytes(s[0]);
        if j >= sc.len() {
            let j2 = j - sc.len();
            assert(is_blank_at(r, j2)) by {
                assert(r[j2] == e[j]);
                assert(r[j2 + 1] == e[j + 1]);
                assert(r[j2 + 2] == e[j + 2]);
                assert(r[j2 + 3] == e[j + 3]);
            }
            lemma_blank_bytes(rest, j2);
            let i = choose|i: int| blank_chars_at(rest, i) && #[trigger] encode_utf8(rest.take(i)).len()
                == j2;
            assert(s.take(i + 1).drop_first() =~= rest.take(i));
            assert(s.take(i + 1)[0] == s[0]);
            assert(encode_utf8(s.take(i + 1)) == sc + encode_utf8(rest.take(i)));
            assert(blank_chars_at(s, i + 1)) by {
                assert(s[i + 1] == rest[i]);
                assert(s[i + 2] == rest[i + 1]);
                assert(s[i + 3] == rest[i + 2]);
                assert(s[i + 4] == rest[i + 3]);
            }
        } else {
            assert(sc[j] == 13);
            assert((s[0] as u32) < 128);
            assert(j == 0);
            assert(s[0] as u32 == 13);
            assert(r[0] == 10);
            lemma_first_byte(rest);
            let rest2 = rest.drop_first();
            let r2 = encode_utf8(rest2);
            assert(r2[0] == 13);
            lemma_first_byte(rest2);
            let rest3 = rest2.drop_first();
            let r3 = encode_utf8(rest3);
            assert(r3[0] == 10);
            lemma_first_byte(rest3);
            assert(s[1] == rest[0] && s[2] == rest2[0] && s[3] == rest3[0]);
            assert('\r' as u32 == 13 && '\n' as u32 == 10);
            char_u32_cast(s[0], 13);
            char_u32_cast('\r', 13);
            char_u32_cast(s[1], 10);
            char_u32_cast('\n', 10);
            char_u32_cast(s[2], 13);
            char_u32_cast(s[3], 10);
            assert(s[0] == '\r' && s[1] == '\n' && s[2] == '\r' && s[3] == '\n');
            assert(s.len() >= 4);
            assert(blank_chars_at(s, 0));
            assert(s.take(0) =~= Seq::<char>::empty());
            assert(encode_utf8(s.take(0)).len() == 0);
        }
    }
}

/// The bytes of `\r\n\r\n`.
proof fn lemma_sep_bytes()
    ensures
        encode_utf8("\r\n\r\n"@) == blank_bytes(),
{
    reveal_strlit("\r\n\r\n");
    let sep = "\r\n\r\n"@;
    let s1 = sep.drop_first();
    let s2 = s1.drop_first();
    let s3 = s2.drop_first();
    let s4 = s3.drop_first();
    assert(s4 =~= Seq::<char>::empty());
    assert('\r' as u32 == 13 && '\n' as u32 == 10);
    lemma_scalar_bytes(sep[0]);
    lemma_scalar_bytes(s1[0]);
    lemma_scalar_bytes(s2[0]);
    lemma_scalar_bytes(s3[0]);
    assert(encode_utf8(s4) =~= Seq::<u8>::empty());
    assert(encode_utf8(s3) =~= seq![10u8]);
    assert(encode_utf8(s2) =~= seq![13u8, 10u8]);
    assert(encode_utf8(s1) =~= seq![10u8, 13u8, 10u8]);
    assert(encode_utf8(sep) =~= blank_bytes());
}

/// A head without `\r\n\r\n` that does not end in `\r` or `\n`, written
/// before a blank line, ends exactly there.
proof fn lemma_first_blank(head: Seq<char>, rest: Seq<u8>)
    requires
        forall|i: int| !#[trigger] blank_chars_at(head, i),
        head.len() > 0,
        head.last() != '\r' && head.last() != '\n',
    ensures
        blank_line(encode_utf8(head) + blank_bytes() + rest) == Some(encode_utf8(head).len() as int),
{
    let sep = "\r\n\r\n"@;
    let c = head + sep;
    let e = encode_utf8(head);
    let out = e + blank_bytes() + rest;
    lemma_sep_bytes();
    lemma_encode_concat(head, sep);
    assert(out =~= encode_utf8(c) + rest);
    let n = e.len() as int;
    assert(is_blank_at(out, n));
    assert forall|j: int| 0 <= j < n implies !is_blank_at(out, j) by {
        if is_blank_at(out, j) {
            assert(is_blank_at(encode_utf8(c), j));
            lemma_blank_bytes(c, j);
            let i = choose|i: int| blank_chars_at(c, i) && #[trigger] encode_utf8(c.take(i)).len() == j;
            let hl = head.len() as int;
            if i + 4 <= hl {
                assert(blank_chars_at(head, i));
            } else if i < hl {
                assert(c[hl - 1] == head.last());
            } else {
                assert(c.take(i) =~= head + sep.take(i - hl));
                lemma_encode_concat(head, sep.take(i - hl));
            }
        }
    }
    lemma_blank_line(out);
    match blank_line(out) {
        Some(k) => {
            if k > n {
                assert(!is_blank_at(out, n));
            }
            assert(k == n);
        },
        None => {},
    }
}

/// What follows the head and its blank line; nothing when there is no blank
/// line.
pub open spec fn body_part(b: Seq<u8>) -> Seq<u8> {
    match blank_line(b) {
        Some(i) => b.skip(i + 4),
        None => Seq::empty(),
    }
}

/// What `with_hop` writes, `hop_count` reads back: the head of a forwarded
/// request is valid UTF-8 and carries exactly the hop count it was given,
/// whatever bytes the incoming request held; and the bytes after the head
/// are forwarded unchanged.
pub proof fn law_hop_count_reads_with_hop(b: Seq<u8>, hops: u32)
    ensures
        valid_utf8(header_part(with_hop_of(b, hops))),
        hops_of_head(decode_utf8(header_part(with_hop_of(b, hops)))) == hops,
        body_part(with_hop_of(b, hops)) == body_part(b),
{
    let h0 = match blank_line(b) {
        Some(i) => lossy_utf8(b.take(i)),
        None => lossy_utf8(b),
    };
    let rest = match blank_line(b) {
        Some(i) => b.skip(i + 4),
        None => Seq::<u8>::empty(),
    };
    let head = rewritten_head(h0, hops);
    lemma_rewritten_hops(h0, hops);
    let e = encode_utf8(head);
    let out = with_hop_of(b, hops);
    assert(out =~= e + blank_bytes() + rest);
    lemma_first_blank(head, rest);
    assert(header_part(out) =~= e);
    assert(body_part(out) =~= rest);
    encode_utf8_valid_utf8(head);
    encode_utf8_decode_utf8(head);
}

/// The header lines the proxy forwards: non-empty and not a hop counter.
pub open spec fn forwarded() -> spec_fn(Seq<char>) -> bool {
    |x: Seq<char>| x.len() > 0 && !is_hops_line(x)
}

proof fn lemma_kept_is_filter(ls: Seq<Seq<char>>)
    ensures
        kept_lines(ls) == ls.filter(forwarded()),
    decreases ls.len(),
{
    reveal(Seq::filter);
    if ls.len() > 0 {
        lemma_kept_is_filter(ls.drop_last());
    }
}

/// The lines of a rewritten head: the request line, the kept header lines,
/// and the counter.
proof fn lemma_rewritten_split(h: Seq<char>, hops: u32)
    ensures
        split_crlf(rewritten_head(h, hops)) == seq![split_crlf(h)[0]] + kept_lines(
            split_crlf(h).drop_first(),
        ) + seq![hops_line(hops)],
{
    let lines = split_crlf(h);
    lemma_split_crlf_pieces(h);
    let rest = lines.drop_first();
    assert forall|k: int| 0 <= k < rest.len() implies no_crlf(#[trigger] rest[k]) by {
        assert(rest[k] == lines[k + 1]);
    }
    lemma_kept_lines(rest);
    let kept = kept_lines(rest);
    lemma_hops_line(hops);
    let ls = seq![lines[0]] + kept + seq![hops_line(hops)];
    assert forall|k: int| 0 <= k < ls.len() implies no_crlf(#[trigger] ls[k]) by {
        if k == 0 {
            assert(ls[0] == lines[0]);
        } else if k < ls.len() - 1 {
            assert(ls[k] == kept[k - 1]);
        } else {
            assert(ls[k] == hops_line(hops));
        }
    }
    lemma_split_join(ls);
}

/// Forwarding keeps every header: the forwarded head is the incoming request
/// line, then every non-empty header line of the incoming head that is not a
/// hop counter, in order, then one counter line `X-Omaportless-Hops: <hops>`.
pub proof fn law_rewrite_keeps_headers(h: Seq<char>, hops: u32)
    ensures
        ({
            let incoming = split_crlf(h);
            let out = split_crlf(rewritten_head(h, hops));
            let headers = incoming.drop_first().filter(forwarded());
            &&& out.len() == headers.len() + 2
            &&& out[0] == incoming[0]
            &&& out.last() == "X-Omaportless-Hops: "@ + dec(hops as nat)
            &&& out.subrange(1, out.len() - 1) == headers
        }),
{
    lemma_split_crlf_pieces(h);
    lemma_rewritten_split(h, hops);
    lemma_kept_is_filter(split_crlf(h).drop_first());
    let out = split_crlf(rewritten_head(h, hops));
    let headers = split_crlf(h).drop_first().filter(forwarded());
    assert(out.subrange(1, out.len() - 1) =~= headers);
}

/// Lines already kept are kept again.
proof fn lemma_kept_lines_fixed(ls: Seq<Seq<char>>)
    requires
        forall|k: int| 0 <= k < ls.len() ==> (#[trigger] ls[k]).len() > 0 && !is_hops_line(ls[k]),
    ensures
        kept_lines(ls) == ls,
    decreases ls.len(),
{
    if ls.len() > 0 {
        let t = ls.drop_last();
        assert forall|k: int| 0 <= k < t.len() implies (#[trigger] t[k]).len() > 0 && !is_hops_line(
            t[k],
        ) by {
            assert(t[k] == ls[k]);
        }
        lemma_kept_lines_fixed(t);
        assert(ls.last().len() > 0 && !is_hops_line(ls[ls.len() - 1]));
        assert(t.push(ls.last()) =~= ls);
    }
}

/// Rewriting a head that was already rewritten keeps only the newer counter.
pub proof fn law_rewrite_twice(h: Seq<char>, first: u32, hops: u32)
    ensures
        rewritten_head(rewritten_head(h, first), hops) == rewritten_head(h, hops),
{
    let lines = split_crlf(h);
    lemma_split_crlf_pieces(h);
    let rest = lines.drop_first();
    assert forall|k: int| 0 <= k < rest.len() implies no_crlf(#[trigger] rest[k]) by {
        assert(rest[k] == lines[k + 1]);
    }
    lemma_kept_lines(rest);
    let kept = kept_lines(rest);
    lemma_hops_line(first);
    let ls = seq![lines[0]] + kept + seq![hops_line(first)];
    assert forall|k: int| 0 <= k < ls.len() implies no_crlf(#[trigger] ls[k]) by {
        if k == 0 {
            assert(ls[0] == lines[0]);
        } else if k < ls.len() - 1 {
            assert(ls[k] == kept[k - 1]);
        } else {
            assert(ls[k] == hops_line(first));
        }
    }
    lemma_split_join(ls);
    let r1 = rewritten_head(h, first);
    assert(split_crlf(r1) == ls);
    let rest1 = ls.drop_first();
    assert(rest1 =~= kept + seq![hops_line(first)]);
    assert(rest1.drop_last() =~= kept);
    assert(rest1.last() == hops_line(first));
    assert(kept_lines(rest1) == kept_lines(kept));
    assert forall|k: int| 0 <= k < kept.len() implies (#[trigger] kept[k]).len() > 0 && !is_hops_line(
        kept[k],
    ) by {}
    lemma_kept_lines_fixed(kept);
    assert(ls[0] == lines[0]);
    assert(seq![ls[0]] + kept_lines(rest1) + seq![hops_line(hops)] =~= seq![lines[0]] + kept
        + seq![hops_line(hops)]);
}

/// `with_hop` on a request whose head is valid UTF-8: the head decoded
/// exactly, rewritten, then the blank line and the rest unchanged.
pub open spec fn with_hop_valid(b: Seq<u8>, hops: u32) -> Seq<u8> {
    encode_utf8(rewritten_head(decode_utf8(header_part(b)), hops)) + blank_bytes() + body_part(b)
}

/// Stamping a forwarded request again keeps exactly one hop counter, the last
/// one: the head `with_hop` writes is valid UTF-8, and `with_hop` on the
/// result with `hops` gives what `with_hop` with `hops` gives on the request
/// as it first came.
pub proof fn law_second_stamp_wins(b: Seq<u8>, first: u32, hops: u32)
    ensures
        valid_utf8(header_part(with_hop_of(b, first))),
        with_hop_valid(with_hop_of(b, first), hops) == with_hop_of(b, hops),
{
    let h0 = match blank_line(b) {
        Some(i) => lossy_utf8(b.take(i)),
        None => lossy_utf8(b),
    };
    let rest = match blank_line(b) {
        Some(i) => b.skip(i + 4),
        None => Seq::<u8>::empty(),
    };
    let r1 = rewritten_head(h0, first);
    lemma_rewritten_hops(h0, first);
    let e = encode_utf8(r1);
    let out = with_hop_of(b, first);
    assert(out =~= e + blank_bytes() + rest);
    lemma_first_blank(r1, rest);
    assert(header_part(out) =~= e);
    assert(body_part(out) =~= rest);
    encode_utf8_valid_utf8(r1);
    encode_utf8_decode_utf8(r1);
    law_rewrite_twice(h0, first, hops);
    assert(with_hop_valid(out, hops) =~= with_hop_of(b, hops));
}

/// `rewritten_head` of a decoded request head.
pub fn rewrite_head(head: &str, hops: u32) -> (r: String)
    ensures
        r@ == rewritten_head(head@, hops),
{
    let h = chars_of(head);
    let lines = split_crlf_vec(&h);
    proof {
        lemma_split_crlf_len(h@);
    }
    let ghost ls = seqs_of(lines@);
    let ghost rest = ls.drop_first();
    let hops_name = chars_of("x-omaportless-hops");
    let want = lower_vec(&hops_name);
    let mut kept: Vec<Vec<char>> = Vec::new();
    kept.push(copy_chars(&lines[0]));
    let mut i: usize = 1;
    while i < lines.len()
        invariant
            1 <= i <= lines.len(),
            ls == seqs_of(lines@),
            rest == ls.drop_first(),
            want@ == lower("x-omaportless-hops"@),
            seqs_of(kept@) == seq![ls[0]] + kept_lines(rest.take(i - 1)),
        decreases lines.len() - i,
    {
        assert(rest.take(i as int).drop_last() == rest.take(i - 1));
        assert(rest[i - 1] == lines@[i as int]@);
        let ghost prev = seqs_of(kept@);
        proof {
            lemma_lower_idem("x-omaportless-hops"@);
        }
        if lines[i].len() > 0 && !header_named_vec(&lines[i], &want) {
            kept.push(copy_chars(&lines[i]));
            assert(seqs_of(kept@) =~= prev.push(rest[i - 1]));
        }
        i = i + 1;
    }
    assert(rest.take(lines.len() - 1) == rest);
    let mut last = chars_of("X-Omaportless-Hops: ");
    let d = dec_vec(hops as u64);
    push_all(&mut last, &d);
    let ghost before = seqs_of(kept@);
    kept.push(last);
    assert(seqs_of(kept@) =~= before + seq![hops_line(hops)]);
    let joined = join_crlf_vec(&kept);
    string_of(&joined)
}

fn push_bytes(out: &mut Vec<u8>, b: &[u8])
    ensures
        final(out)@ == old(out)@ + b@,
{
    let mut i: usize = 0;
    while i < b.len()
        invariant
            i <= b.len(),
            out@ == old(out)@ + b@.take(i as int),
        decreases b.len() - i,
    {
        out.push(b[i]);
        i = i + 1;
        assert(b@.take(i as int) == b@.take(i - 1).push(b@[i - 1]));
    }
    assert(b@.take(b.len() as int) == b@);
}

fn push_utf8(out: &mut Vec<u8>, s: &str)
    ensures
        final(out)@ == old(out)@ + encode_utf8(s@),
{
    push_bytes(out, s.as_bytes());
}

/// The request with its hop counter set to `hops` (any earlier counter
/// removed), ready to forward upstream.
pub fn with_hop(blob: &[u8], hops: u32) -> (r: Vec<u8>)
    ensures
        r@ == with_hop_of(blob@, hops),
        valid_utf8(header_part(r@)),
        hops_of_head(decode_utf8(header_part(r@))) == hops,
        body_part(r@) == body_part(blob@),
        valid_utf8(header_part(blob@)) ==> r@ == with_hop_valid(blob@, hops),
{
    proof {
        law_hop_count_reads_with_hop(blob@, hops);
    }
    let pos = blank_line_pos(blob);
    let (head, rest): (&[u8], &[u8]) = match pos {
        Some(i) => (slice_subrange(blob, 0, i), slice_subrange(blob, i + 4, blob.len())),
        None => (blob, slice_subrange(blob, 0, 0)),
    };
    let text = decode_lossy(head);
    let rewritten = rewrite_head(text.as_str(), hops);
    let mut out: Vec<u8> = Vec::new();
    push_utf8(&mut out, rewritten.as_str());
    out.push(13);
    out.push(10);
    out.push(13);
    out.push(10);
    push_bytes(&mut out, rest);
    proof {
        match pos {
            Some(i) => {
                assert(out@ =~= with_hop_of(blob@, hops));
                assert(head@ == header_part(blob@));
                assert(rest@ == body_part(blob@));
                if valid_utf8(header_part(blob@)) {
                    assert(out@ =~= with_hop_valid(blob@, hops));
                }
            },
            None => {
                assert(out@ =~= with_hop_of(blob@, hops));
                assert(head@ == header_part(blob@));
                assert(rest@ =~= body_part(blob@));
                if valid_utf8(header_part(blob@)) {
                    assert(out@ =~= with_hop_valid(blob@, hops));
                }
            },
        }
    }
    out
}

// ---------------------------------------------------------------------------
// Responses written by the proxy
// ---------------------------------------------------------------------------

/// How one character is written into HTML text (and, with `quote`, into an
/// attribute value).
pub open spec fn escape_char(c: char, quote: bool) -> Seq<char> {
    if c == '&' {
        "&amp;"@
    } else if c == '<' {
        "&lt;"@
    } else if c == '>' {
        "&gt;"@
    } else if c == '"' && quote {
        "&quot;"@
    } else if c == '\'' && quote {
        "&#x27;"@
    } else {
        seq![c]
    }
}

/// `html_escape(value, quote)`.
pub open spec fn escape_html(s: Seq<char>, quote: bool) -> Seq<char>
    decreases s.len(),
{
    if s.len() == 0 {
        Seq::empty()
    } else {
        escape_html(s.drop_last(), quote) + escape_char(s.last(), quote)
    }
}

fn escape_html_vec(v: &Vec<char>, quote: bool) -> (r: Vec<char>)
    ensures
        r@ == escape_html(v@, quote),
{
    let mut out: Vec<char> = Vec::new();
    let mut i: usize = 0;
    while i < v.len()
        invariant
            i <= v.len(),
            out@ == escape_html(v@.take(i as int), quote),
        decreases v.len() - i,
    {
        let c = v[i];
        assert(v@.take(i + 1).drop_last() == v@.take(i as int));
        if c == '&' {
            push_str(&mut out, "&amp;");
        } else if c == '<' {
            push_str(&mut out, "&lt;");
        } else if c == '>' {
            push_str(&mut out, "&gt;");
        } else if c == '"' && quote {
            push_str(&mut out, "&quot;");
        } else if c == '\'' && quote {
            push_str(&mut out, "&#x27;");
        } else {
            let ghost before = out@;
            out.push(c);
            assert(out@ =~= before + seq![c]);
        }
        i = i + 1;
    }
    assert(v@.take(v.len() as int) == v@);
    out
}

/// `s.replace(pat, rep)`: from the left, each match of `pat` that does not
/// overlap an earlier one is replaced by `rep`.
pub open spec fn replace_all(s: Seq<char>, pat: Seq<char>, rep: Seq<char>) -> Seq<char>
    decreases s.len(),
{
    if s.len() == 0 {
        Seq::empty()
    } else if pat.len() > 0 && starts_with(s, pat) {
        rep + replace_all(s.skip(pat.len() as int), pat, rep)
    } else {
        seq![s[0]] + replace_all(s.drop_first(), pat, rep)
    }
}

/// Undoing `escape_html` with `str::replace`, `&amp;` last.
pub open spec fn unescape_html(s: Seq<char>) -> Seq<char> {
    replace_all(
        replace_all(
            replace_all(replace_all(replace_all(s, "&lt;"@, "<"@), "&gt;"@, ">"@), "&quot;"@, "\""@),
            "&#x27;"@,
            "'"@,
        ),
        "&amp;"@,
        "&"@,
    )
}

/// A character that `escape_html` may rewrite.
pub open spec fn is_markup_char(c: char) -> bool {
    c == '&' || c == '<' || c == '>' || c == '"' || c == '\''
}

/// The entity for `c` once the first `k` replacements of `unescape_html`
/// have run: `<`, `>`, `"`, `'`, `&` are restored in that order.
spec fn stage_piece(c: char, quote: bool, k: nat) -> Seq<char> {
    if (c == '<' && k >= 1) || (c == '>' && k >= 2) || (c == '"' && quote && k >= 3) || (c
        == '\'' && quote && k >= 4) || (c == '&' && k >= 5) {
        seq![c]
    } else {
        escape_char(c, quote)
    }
}

/// The text after the first `k` replacements of `unescape_html`.
spec fn staged(s: Seq<char>, quote: bool, k: nat) -> Seq<char>
    decreases s.len(),
{
    if s.len() == 0 {
        Seq::empty()
    } else {
        stage_piece(s[0], quote, k) + staged(s.drop_first(), quote, k)
    }
}

/// The pattern and replacement of the `k`-th replacement step.
spec fn stage_pat(k: nat) -> Seq<char> {
    if k == 0 {
        "&lt;"@
    } else if k == 1 {
        "&gt;"@
    } else if k == 2 {
        "&quot;"@
    } else if k == 3 {
        "&#x27;"@
    } else {
        "&amp;"@
    }
}

spec fn stage_rep(k: nat) -> Seq<char> {
    if k == 0 {
        "<"@
    } else if k == 1 {
        ">"@
    } else if k == 2 {
        "\""@
    } else if k == 3 {
        "'"@
    } else {
        "&"@
    }
}

/// Text without `&` is left alone by a replacement of an `&`-pattern.
proof fn lemma_replace_no_amp(p: Seq<char>, r: Seq<char>, pat: Seq<char>, rep: Seq<char>)
    requires
        pat.len() >= 1,
        pat[0] == '&',
        forall|j: int| 0 <= j < p.len() ==> p[j] != '&',
    ensures
        replace_all(p + r, pat, rep) == p + replace_all(r, pat, rep),
    decreases p.len(),
{
    if p.len() == 0 {
        assert(p + r =~= r);
        assert(p + replace_all(r, pat, rep) =~= replace_all(r, pat, rep));
    } else {
        let s = p + r;
        assert(s[0] == p[0]);
        assert(!starts_with(s, pat));
        assert(s.drop_first() =~= p.drop_first() + r);
        lemma_replace_no_amp(p.drop_first(), r, pat, rep);
        assert(seq![p[0]] + (p.drop_first() + replace_all(r, pat, rep)) =~= p + replace_all(
            r,
            pat,
            rep,
        ));
    }
}

/// One piece in front of any text: replaced whole when it is the pattern,
/// kept when its only `&` leads and differs from the pattern right after.
proof fn lemma_replace_piece(p: Seq<char>, r: Seq<char>, pat: Seq<char>, rep: Seq<char>)
    requires
        pat.len() >= 2,
        pat[0] == '&',
        forall|j: int| 1 <= j < p.len() ==> p[j] != '&',
        p == pat || p.len() == 0 || p[0] != '&' || (p.len() >= 2 && p[1] != pat[1]),
    ensures
        replace_all(p + r, pat, rep) == (if p == pat {
            rep
        } else {
            p
        }) + replace_all(r, pat, rep),
{
    let s = p + r;
    if p == pat {
        assert(s.take(pat.len() as int) =~= pat);
        assert(s.skip(pat.len() as int) =~= r);
    } else if p.len() == 0 {
        assert(s =~= r);
        assert(p + replace_all(r, pat, rep) =~= replace_all(r, pat, rep));
    } else if p[0] != '&' {
        lemma_replace_no_amp(p, r, pat, rep);
    } else {
        assert(s[1] == p[1]);
        assert(!starts_with(s, pat)) by {
            if starts_with(s, pat) {
                assert(s.take(pat.len() as int)[1] == pat[1]);
            }
        }
        let q = p.drop_first();
        assert(s.drop_first() =~= q + r);
        lemma_replace_no_amp(q, r, pat, rep);
        assert(seq![p[0]] + (q + replace_all(r, pat, rep)) =~= p + replace_all(r, pat, rep));
    }
}

/// Each replacement step of `unescape_html` takes one stage to the next.
proof fn lemma_stage_step(s: Seq<char>, quote: bool, k: nat)
    requires
        k < 5,
    ensures
        replace_all(staged(s, quote, k), stage_pat(k), stage_rep(k)) == staged(s, quote, k + 1),
    decreases s.len(),
{
    reveal_strlit("&lt;");
    reveal_strlit("&gt;");
    reveal_strlit("&quot;");
    reveal_strlit("&#x27;");
    reveal_strlit("&amp;");
    reveal_strlit("<");
    reveal_strlit(">");
    reveal_strlit("\"");
    reveal_strlit("'");
    reveal_strlit("&");
    if s.len() == 0 {
    } else {
        let c = s[0];
        let p = stage_piece(c, quote, k);
        let rest = staged(s.drop_first(), quote, k);
        lemma_stage_step(s.drop_first(), quote, k);
        assert(stage_pat(k).len() >= 2 && stage_pat(k)[0] == '&');
        assert(forall|j: int| 1 <= j < p.len() ==> p[j] != '&');
        assert(p == stage_pat(k) || p[0] != '&' || (p.len() >= 2 && p[1] != stage_pat(k)[1]));
        lemma_replace_piece(p, rest, stage_pat(k), stage_rep(k));
        assert("<"@ =~= seq!['<']);
        assert(">"@ =~= seq!['>']);
        assert("\""@ =~= seq!['"']);
        assert("'"@ =~= seq!['\'']);
        assert("&"@ =~= seq!['&']);
        if p != stage_pat(k) {
            assert(p == stage_piece(c, quote, k + 1));
        } else {
            let pat = stage_pat(k);
            assert(pat.len() >= 4);
            assert(k == 0 ==> pat[1] == 'l');
            assert(k == 1 ==> pat[1] == 'g');
            assert(k == 2 ==> pat[1] == 'q');
            assert(k == 3 ==> pat[1] == '#');
            assert(k == 4 ==> pat[1] == 'a');
            assert(p.len() >= 4);
            if c == '&' {
                assert(p[1] == 'a');
            } else if c == '<' {
                assert(p[1] == 'l');
            } else if c == '>' {
                assert(p[1] == 'g');
            } else if c == '"' {
                assert(p[1] == 'q');
            } else if c == '\'' {
                assert(p[1] == '#');
            }
            assert(stage_rep(k) == stage_piece(c, quote, k + 1));
        }
        assert((if p == stage_pat(k) {
            stage_rep(k)
        } else {
            p
        }) == stage_piece(c, quote, k + 1));
    }
}

/// The first stage is the escaped text, and the last the text itself.
proof fn lemma_stage_ends(s: Seq<char>, quote: bool)
    ensures
        staged(s, quote, 0) == escape_html(s, quote),
        staged(s, quote, 5) == s,
    decreases s.len(),
{
    if s.len() > 0 {
        lemma_stage_ends(s.drop_first(), quote);
        assert(staged(s, quote, 5) =~= seq![s[0]] + s.drop_first());
        lemma_escape_front(s, quote);
    }
}

/// `escape_html` read from the front.
proof fn lemma_escape_front(s: Seq<char>, quote: bool)
    requires
        s.len() > 0,
    ensures
        escape_html(s, quote) == escape_char(s[0], quote) + escape_html(s.drop_first(), quote),
    decreases s.len(),
{
    if s.len() == 1 {
        assert(s.drop_last() =~= Seq::<char>::empty());
        assert(s.drop_first() =~= Seq::<char>::empty());
        assert(escape_char(s[0], quote) + Seq::<char>::empty() =~= escape_char(s[0], quote));
    } else {
        lemma_escape_front(s.drop_last(), quote);
        assert(s.drop_last().drop_first() =~= s.drop_first().drop_last());
        assert(s.drop_first().last() == s.last());
        assert(s.drop_last()[0] == s[0]);
    }
}

/// Escaped text holds no `<` or `>`, and with `quote` no quote marks; it
/// unescapes back to the input with the `str::replace` chain, `&amp;` last;
/// and text without any of `&<>"'` is left as it is.
pub proof fn law_escape_html(value: Seq<char>, quote: bool)
    ensures
        forall|i: int|
            0 <= i < escape_html(value, quote).len() ==> #[trigger] escape_html(value, quote)[i] != '<'
                && escape_html(value, quote)[i] != '>' && (quote ==> escape_html(value, quote)[i]
                != '"' && escape_html(value, quote)[i] != '\''),
        unescape_html(escape_html(value, quote)) == value,
        (forall|i: int| 0 <= i < value.len() ==> !is_markup_char(#[trigger] value[i])) ==> escape_html(
            value,
            quote,
        ) == value,
{
    lemma_escape_chars(value, quote);
    lemma_stage_ends(value, quote);
    lemma_stage_step(value, quote, 0);
    lemma_stage_step(value, quote, 1);
    lemma_stage_step(value, quote, 2);
    lemma_stage_step(value, quote, 3);
    lemma_stage_step(value, quote, 4);
}

proof fn lemma_escape_chars(value: Seq<char>, quote: bool)
    ensures
        forall|i: int|
            0 <= i < escape_html(value, quote).len() ==> #[trigger] escape_html(value, quote)[i] != '<'
                && escape_html(value, quote)[i] != '>' && (quote ==> escape_html(value, quote)[i]
                != '"' && escape_html(value, quote)[i] != '\''),
        (forall|i: int| 0 <= i < value.len() ==> !is_markup_char(#[trigger] value[i])) ==> escape_html(
            value,
            quote,
        ) == value,
    decreases value.len(),
{
    reveal_strlit("&lt;");
    reveal_strlit("&gt;");
    reveal_strlit("&quot;");
    reveal_strlit("&#x27;");
    reveal_strlit("&amp;");
    if value.len() > 0 {
        let t = value.drop_last();
        lemma_escape_chars(t, quote);
        let a = escape_html(t, quote);
        let b = escape_char(value.last(), quote);
        let e = escape_html(value, quote);
        assert(e == a + b);
        assert forall|i: int| 0 <= i < e.len() implies #[trigger] e[i] != '<' && e[i] != '>' && (
        quote ==> e[i] != '"' && e[i] != '\'') by {
            if i < a.len() {
                assert(e[i] == a[i]);
            } else {
                assert(e[i] == b[i - a.len()]);
            }
        }
        if forall|i: int| 0 <= i < value.len() ==> !is_markup_char(#[trigger] value[i]) {
            assert forall|i: int| 0 <= i < t.len() implies !is_markup_char(#[trigger] t[i]) by {
                assert(t[i] == value[i]);
            }
            assert(!is_markup_char(value[value.len() - 1]));
            assert(a + b =~= value);
        }
    }
}

/// Escapes `&`, `<` and `>` (and, with `quote`, both quote marks) for HTML.
pub fn html_escape(value: &str, quote: bool) -> (r: String)
    ensures
        r@ == escape_html(value@, quote),
        unescape_html(r@) == value@,
{
    proof {
        law_escape_html(value@, quote);
    }
    let v = chars_of(value);
    let e = escape_html_vec(&v, quote);
    string_of(&e)
}

/// The status line and headers of a response with a body of `body_len` bytes.
pub open spec fn response_head(status: u16, reason: Seq<char>, body_len: nat, content_type: Seq<
    char,
>) -> Seq<char> {
    "HTTP/1.1 "@ + dec(status as nat) + " "@ + reason + "\r\nContent-Type: "@ + content_type
        + "\r\nContent-Length: "@ + dec(body_len) + "\r\nConnection: close\r\nCache-Control: no-store\r\n\r\n"@
}

/// A complete response that closes the connection.
pub open spec fn response_bytes(status: u16, reason: Seq<char>, body: Seq<char>, content_type: Seq<
    char,
>) -> Seq<u8> {
    encode_utf8(response_head(status, reason, encode_utf8(body).len(), content_type))
        + encode_utf8(body)
}

/// A complete `HTTP/1.1` response with `Connection: close`.
pub fn http_response(status: u16, reason: &str, body: &str, content_type: &str) -> (r: Vec<u8>)
    ensures
        r@ == response_bytes(status, reason@, body@, content_type@),
{
    let payload = body.as_bytes();
    let mut head = chars_of("HTTP/1.1 ");
    let d = dec_vec(status as u64);
    push_all(&mut head, &d);
    push_str(&mut head, " ");
    push_str(&mut head, reason);
    push_str(&mut head, "\r\nContent-Type: ");
    push_str(&mut head, content_type);
    push_str(&mut head, "\r\nContent-Length: ");
    let n = dec_vec(payload.len() as u64);
    push_all(&mut head, &n);
    push_str(&mut head, "\r\nConnection: close\r\nCache-Control: no-store\r\n\r\n");
    let text = string_of(&head);
    let mut out: Vec<u8> = Vec::new();
    push_utf8(&mut out, text.as_str());
    push_bytes(&mut out, payload);
    assert(out@ =~= response_bytes(status, reason@, body@, content_type@));
    out
}


/// One row of the index page.
pub open spec fn index_row(svc: NamedService, proxy_port: u16) -> Seq<char> {
    "<li><a href=\""@ + escape_html(service_url_of(svc.hostname@, proxy_port), true)
        + "\"><span class=\"name\">"@ + escape_html(svc.hostname@ + ".localhost"@, false)
        + "</span><span class=\"port\">"@ + dec(svc.listener.port as nat)
        + "</span></a></li>\n"@
}

/// The rows of the index page, in order.
pub open spec fn index_rows(ss: Seq<NamedService>, proxy_port: u16) -> Seq<char>
    decreases ss.len(),
{
    if ss.len() == 0 {
        Seq::empty()
    } else {
        index_rows(ss.drop_last(), proxy_port) + index_row(ss.last(), proxy_port)
    }
}

/// The index page listing every named service.
pub open spec fn index_page_of(ss: Seq<NamedService>, proxy_port: u16) -> Seq<char> {
    let rows = if ss.len() == 0 {
        "<li class=\"empty\">Nothing listening</li>"@
    } else {
        index_rows(ss, proxy_port)
    };
    INDEX_HEAD@ + rows + INDEX_TAIL@
}

/// The total length of the rows for `ss`.
pub open spec fn rows_width(ss: Seq<NamedService>, proxy_port: u16) -> nat
    decreases ss.len(),
{
    if ss.len() == 0 {
        0
    } else {
        rows_width(ss.drop_last(), proxy_port) + index_row(ss.last(), proxy_port).len()
    }
}

proof fn lemma_index_rows_slices(ss: Seq<NamedService>, proxy_port: u16)
    ensures
        index_rows(ss, proxy_port).len() == rows_width(ss, proxy_port),
        forall|k: int|
            0 <= k < ss.len() ==> #[trigger] index_rows(ss, proxy_port).subrange(
                rows_width(ss.take(k), proxy_port) as int,
                rows_width(ss.take(k + 1), proxy_port) as int,
            ) == index_row(ss[k], proxy_port),
    decreases ss.len(),
{
    if ss.len() > 0 {
        let t = ss.drop_last();
        lemma_index_rows_slices(t, proxy_port);
        let r = index_rows(ss, proxy_port);
        let rt = index_rows(t, proxy_port);
        assert(r == rt + index_row(ss.last(), proxy_port));
        assert forall|k: int| 0 <= k < ss.len() implies #[trigger] index_rows(ss, proxy_port).subrange(
            rows_width(ss.take(k), proxy_port) as int,
            rows_width(ss.take(k + 1), proxy_port) as int,
        ) == index_row(ss[k], proxy_port) by {
            if k < t.len() {
                assert(ss.take(k) == t.take(k));
                assert(ss.take(k + 1) == t.take(k + 1));
                assert(t[k] == ss[k]);
                lemma_rows_width_prefix(t, k + 1, proxy_port);
                lemma_rows_width_prefix(t.take(k + 1), k, proxy_port);
                assert(t.take(k + 1).take(k) == t.take(k));
                assert(r.subrange(
                    rows_width(t.take(k), proxy_port) as int,
                    rows_width(t.take(k + 1), proxy_port) as int,
                ) =~= rt.subrange(
                    rows_width(t.take(k), proxy_port) as int,
                    rows_width(t.take(k + 1), proxy_port) as int,
                ));
            } else {
                assert(ss.take(k) == t);
                assert(ss.take(k + 1) == ss);
                assert(r.subrange(rt.len() as int, r.len() as int) =~= index_row(ss.last(), proxy_port));
            }
        }
    }
}

proof fn lemma_rows_width_prefix(ss: Seq<NamedService>, k: int, proxy_port: u16)
    requires
        0 <= k <= ss.len(),
    ensures
        rows_width(ss.take(k), proxy_port) <= rows_width(ss, proxy_port),
    decreases ss.len() - k,
{
    if k < ss.len() {
        lemma_rows_width_prefix(ss, k + 1, proxy_port);
        assert(ss.take(k + 1).drop_last() == ss.take(k));
    } else {
        assert(ss.take(k) == ss);
    }
}

/// The index lists every service, once and in order: after the document head
/// come the rows, the `k`-th row being that of `ss[k]`, and then the document
/// tail; with no service, a single "Nothing listening" row stands there.
pub proof fn law_index_lists_every_service(ss: Seq<NamedService>, proxy_port: u16)
    ensures
        ({
            let page = index_page_of(ss, proxy_port);
            let h = INDEX_HEAD@.len() as int;
            &&& page.take(h) == INDEX_HEAD@
            &&& ss.len() > 0 ==> page.len() == h + rows_width(ss, proxy_port) + INDEX_TAIL@.len()
            &&& ss.len() > 0 ==> page.skip(h + rows_width(ss, proxy_port)) == INDEX_TAIL@
            &&& forall|k: int|
                0 <= k < ss.len() ==> #[trigger] page.subrange(
                    h + rows_width(ss.take(k), proxy_port),
                    h + rows_width(ss.take(k + 1), proxy_port),
                ) == index_row(ss[k], proxy_port)
            &&& ss.len() == 0 ==> page == INDEX_HEAD@ + "<li class=\"empty\">Nothing listening</li>"@
                + INDEX_TAIL@
        }),
{
    let page = index_page_of(ss, proxy_port);
    let h = INDEX_HEAD@.len() as int;
    assert(page.take(h) =~= INDEX_HEAD@);
    if ss.len() > 0 {
        lemma_index_rows_slices(ss, proxy_port);
        let rows = index_rows(ss, proxy_port);
        assert(page.skip(h + rows_width(ss, proxy_port)) =~= INDEX_TAIL@);
        assert forall|k: int| 0 <= k < ss.len() implies #[trigger] page.subrange(
            h + rows_width(ss.take(k), proxy_port),
            h + rows_width(ss.take(k + 1), proxy_port),
        ) == index_row(ss[k], proxy_port) by {
            lemma_rows_width_prefix(ss, k + 1, proxy_port);
            lemma_rows_width_prefix(ss.take(k + 1), k, proxy_port);
            assert(ss.take(k + 1).take(k) == ss.take(k));
            assert(page.subrange(
                h + rows_width(ss.take(k), proxy_port),
                h + rows_width(ss.take(k + 1), proxy_port),
            ) =~= rows.subrange(
                rows_width(ss.take(k), proxy_port) as int,
                rows_width(ss.take(k + 1), proxy_port) as int,
            ));
        }
    }
}

fn index_row_vec(svc: &NamedService, proxy_port: u16) -> (r: Vec<char>)
    ensures
        r@ == index_row(*svc, proxy_port),
{
    let h = chars_of(svc.hostname.as_str());
    let url = service_url_chars(&h, proxy_port);
    let url_e = escape_html_vec(&url, true);
    let mut name = copy_chars(&h);
    push_str(&mut name, ".localhost");
    let name_e = escape_html_vec(&name, false);
    let mut r = chars_of("<li><a href=\"");
    push_all(&mut r, &url_e);
    push_str(&mut r, "\"><span class=\"name\">");
    push_all(&mut r, &name_e);
    push_str(&mut r, "</span><span class=\"port\">");
    let d = dec_vec(svc.listener.port as u64);
    push_all(&mut r, &d);
    push_str(&mut r, "</span></a></li>\n");
    r
}

/// The HTML page served for `localhost` itself: a list of named apps.
pub fn index_page(services: &Vec<NamedService>, proxy_port: u16) -> (r: String)
    ensures
        r@ == index_page_of(services@, proxy_port),
{
    let mut rows: Vec<char> = Vec::new();
    if services.len() == 0 {
        push_str(&mut rows, "<li class=\"empty\">Nothing listening</li>");
    } else {
        let mut i: usize = 0;
        while i < services.len()
            invariant
                i <= services.len(),
                rows@ == index_rows(services@.take(i as int), proxy_port),
            decreases services.len() - i,
        {
            assert(services@.take(i + 1).drop_last() == services@.take(i as int));
            let row = index_row_vec(&services[i], proxy_port);
            push_all(&mut rows, &row);
            i = i + 1;
        }
        assert(services@.take(services.len() as int) == services@);
    }
    let mut page = chars_of(INDEX_HEAD);
    push_all(&mut page, &rows);
    push_str(&mut page, INDEX_TAIL);
    string_of(&page)
}

/// `name.localhost` for every service, joined with `, `.
pub open spec fn listing(ss: Seq<NamedService>) -> Seq<char>
    decreases ss.len(),
{
    if ss.len() == 0 {
        Seq::empty()
    } else if ss.len() == 1 {
        ss[0].hostname@ + ".localhost"@
    } else {
        listing(ss.drop_last()) + ", "@ + ss.last().hostname@ + ".localhost"@
    }
}

/// The plain-text body answered for an unknown app host.
pub open spec fn not_found_page_of(host: Seq<char>, ss: Seq<NamedService>, proxy_port: u16) -> Seq<
    char,
> {
    let names = if ss.len() == 0 {
        "none"@
    } else {
        listing(ss)
    };
    let shown = if host.len() == 0 {
        "unknown host"@
    } else {
        host
    };
    "No app registered for "@ + shown + ".\nListening: "@ + names + "\nProxy port: "@ + dec(
        proxy_port as nat,
    ) + "\n"@
}

/// The body answered for a host that no app is registered under.
pub fn not_found_page(host: &str, services: &Vec<NamedService>, proxy_port: u16) -> (r: String)
    ensures
        r@ == not_found_page_of(host@, services@, proxy_port),
{
    let mut names: Vec<char> = Vec::new();
    if services.len() == 0 {
        push_str(&mut names, "none");
    } else {
        let mut i: usize = 0;
        while i < services.len()
            invariant
                i <= services.len(),
                names@ == listing(services@.take(i as int)),
            decreases services.len() - i,
        {
            assert(services@.take(i + 1).drop_last() == services@.take(i as int));
            if i > 0 {
                push_str(&mut names, ", ");
            } else {
                assert(services@.take(1) == seq![services@[0]]);
            }
            push_str(&mut names, services[i].hostname.as_str());
            push_str(&mut names, ".localhost");
            i = i + 1;
        }
        assert(services@.take(services.len() as int) == services@);
    }
    let mut r = chars_of("No app registered for ");
    let h = chars_of(host);
    if h.len() == 0 {
        push_str(&mut r, "unknown host");
    } else {
        push_all(&mut r, &h);
    }
    push_str(&mut r, ".\nListening: ");
    push_all(&mut r, &names);
    push_str(&mut r, "\nProxy port: ");
    let d = dec_vec(proxy_port as u64);
    push_all(&mut r, &d);
    push_str(&mut r, "\n");
    string_of(&r)
}

/// Requests the proxy answers itself: its health check path, or its own name.
pub open spec fn is_control_request_of(host: Seq<char>, path: Seq<char>) -> bool {
    path == "/__omaportless/ping"@ || short_name_of(host) == "omaportless"@
}

/// Whether the proxy answers this request itself.
pub fn is_control_request(host: &str, path: &str) -> (r: bool)
    ensures
        r == is_control_request_of(host@, path@),
{
    let p = chars_of(path);
    if chars_eq_str(&p, "/__omaportless/ping") {
        return true;
    }
    let h = chars_of(host);
    let n = short_name_chars(&h);
    chars_eq_str(&n, "omaportless")
}

/// Whether the request is answered with the index page.
pub fn should_index(host: &str) -> (r: bool)
    ensures
        r == is_index_host_of(host@),
{
    let h = chars_of(host);
    is_index_host_chars(&h)
}

} // verus!
