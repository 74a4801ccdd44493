//! Hostnames for local services: slugs, validity rules, the `.localhost`
//! namespace, and the assignment of one hostname to every listener.
use vstd::prelude::*;

use crate::text::{
    chars_eq, chars_eq_str, chars_of, copy_chars, dec, dec_vec, lemma_dec, ends_with, ends_with_vec, is_alnum,
    is_alnum_exec, lemma_split_char_covers, lemma_split_char_len, lower, lower_char, lower_vec, push_all, push_str, seqs_of, split_char, split_char_vec,
    string_of, subvec, trim, trim_end, is_ws, upper, upper_char, trim_char, trim_char_vec, trim_end_char, trim_end_char_vec, trim_start, trim_start_char, trim_vec,
};

verus! {

// ---------------------------------------------------------------------------
// Slugs
// ---------------------------------------------------------------------------

/// One step of slug building: keep ASCII letters and digits, turn every run of
/// anything else into a single `-`.
pub open spec fn slug_step(acc: (Seq<char>, bool), c: char) -> (Seq<char>, bool) {
    if is_alnum(c) {
        (acc.0.push(c), false)
    } else if !acc.1 {
        (acc.0.push('-'), true)
    } else {
        acc
    }
}

/// The characters kept by slug building, and whether the last one was a `-`.
pub open spec fn dash_runs(s: Seq<char>) -> (Seq<char>, bool)
    decreases s.len(),
{
    if s.len() == 0 {
        (Seq::empty(), false)
    } else {
        slug_step(dash_runs(s.drop_last()), s.last())
    }
}

/// The longest slug kept, in characters.
pub open spec fn max_label() -> nat {
    63
}

/// `slug(value)`: trimmed, lowercased, runs of non-alphanumerics collapsed
/// to `-`, `-` trimmed from both ends, cut to 63 characters.
pub open spec fn slug_of(s: Seq<char>) -> Seq<char> {
    let t = trim_char(dash_runs(lower(trim(s))).0, '-');
    if t.len() <= max_label() {
        t
    } else {
        t.take(max_label() as int)
    }
}

/// A character a slug may hold: a lowercase ASCII letter, a digit, or `-`.
pub open spec fn is_slug_char(c: char) -> bool {
    ('a' <= c && c <= 'z') || ('0' <= c && c <= '9') || c == '-'
}

/// What every slug looks like: at most 63 slug characters, not starting with
/// `-`, and never two `-` in a row.
pub open spec fn slug_shaped(r: Seq<char>) -> bool {
    &&& r.len() <= max_label()
    &&& forall|i: int| 0 <= i < r.len() ==> is_slug_char(#[trigger] r[i])
    &&& r.len() > 0 ==> r[0] != '-'
    &&& r.len() > 0 && r.last() == '-' ==> r.len() == max_label()
    &&& forall|i: int| 0 <= i < r.len() - 1 ==> !(#[trigger] r[i] == '-' && r[i + 1] == '-')
}

/// Slug characters with no `-` twice in a row.
spec fn single_dashes(r: Seq<char>) -> bool {
    &&& forall|i: int| 0 <= i < r.len() ==> is_slug_char(#[trigger] r[i])
    &&& forall|i: int| 0 <= i < r.len() - 1 ==> !(#[trigger] r[i] == '-' && r[i + 1] == '-')
}

proof fn lemma_dash_runs(s: Seq<char>)
    requires
        forall|i: int| 0 <= i < s.len() ==> !('A' <= #[trigger] s[i] && s[i] <= 'Z'),
    ensures
        single_dashes(dash_runs(s).0),
        dash_runs(s).1 == (dash_runs(s).0.len() > 0 && dash_runs(s).0.last() == '-'),
    decreases s.len(),
{
    if s.len() > 0 {
        let t = s.drop_last();
        assert forall|i: int| 0 <= i < t.len() implies !('A' <= #[trigger] t[i] && t[i] <= 'Z') by {
            assert(t[i] == s[i]);
        }
        lemma_dash_runs(t);
        let d = dash_runs(t);
        let c = s.last();
        assert(!('A' <= s[s.len() - 1] && s[s.len() - 1] <= 'Z'));
        if is_alnum(c) || !d.1 {
            let o = dash_runs(s).0;
            assert(o == d.0.push(if is_alnum(c) { c } else { '-' }));
            assert forall|i: int| 0 <= i < o.len() implies is_slug_char(#[trigger] o[i]) by {
                if i < d.0.len() {
                    assert(o[i] == d.0[i]);
                }
            }
            assert forall|i: int| 0 <= i < o.len() - 1 implies !(#[trigger] o[i] == '-' && o[i + 1]
                == '-') by {
                if i + 1 < d.0.len() {
                    assert(o[i] == d.0[i] && o[i + 1] == d.0[i + 1]);
                } else {
                    assert(o[i] == d.0.last());
                }
            }
        }
    }
}

/// `trim_start_char` drops a prefix, after which no `c` leads.
proof fn lemma_trim_start_char(s: Seq<char>, c: char) -> (k: int)
    ensures
        0 <= k <= s.len(),
        trim_start_char(s, c) == s.skip(k),
        trim_start_char(s, c).len() > 0 ==> trim_start_char(s, c)[0] != c,
    decreases s.len(),
{
    if s.len() > 0 && s[0] == c {
        let k0 = lemma_trim_start_char(s.drop_first(), c);
        assert(s.drop_first().skip(k0) =~= s.skip(k0 + 1));
        k0 + 1
    } else {
        assert(s.skip(0) =~= s);
        0
    }
}

/// `trim_end_char` keeps a prefix, which does not end with `c`.
proof fn lemma_trim_end_char(s: Seq<char>, c: char) -> (m: int)
    ensures
        0 <= m <= s.len(),
        trim_end_char(s, c) == s.take(m),
        trim_end_char(s, c).len() > 0 ==> trim_end_char(s, c).last() != c,
    decreases s.len(),
{
    if s.len() > 0 && s.last() == c {
        let m0 = lemma_trim_end_char(s.drop_last(), c);
        assert(s.drop_last().take(m0) =~= s.take(m0));
        m0
    } else {
        assert(s.take(s.len() as int) =~= s);
        s.len() as int
    }
}

/// Every slug is made of lowercase letters, digits and single hyphens, does
/// not start with a hyphen, has at most 63 characters, and ends with a hyphen
/// only when it was cut at 63.
pub proof fn law_slug_shape(value: Seq<char>)
    ensures
        slug_shaped(slug_of(value)),
{
    let l = lower(trim(value));
    assert forall|i: int| 0 <= i < l.len() implies !('A' <= #[trigger] l[i] && l[i] <= 'Z') by {
        assert(l[i] == lower_char(trim(value)[i]));
    }
    lemma_dash_runs(l);
    let o = dash_runs(l).0;
    let k = lemma_trim_start_char(o, '-');
    let t1 = trim_start_char(o, '-');
    let m = lemma_trim_end_char(t1, '-');
    let t = trim_char(o, '-');
    assert(t == t1.take(m));
    assert forall|i: int| 0 <= i < t.len() implies t[i] == o[i + k] by {}
    let r = slug_of(value);
    assert forall|i: int| 0 <= i < r.len() implies r[i] == o[i + k] by {}
    assert forall|i: int| 0 <= i < r.len() implies is_slug_char(#[trigger] r[i]) by {
        assert(r[i] == o[i + k]);
    }
    assert forall|i: int| 0 <= i < r.len() - 1 implies !(#[trigger] r[i] == '-' && r[i + 1] == '-') by {
        assert(r[i] == o[i + k] && r[i + 1] == o[i + 1 + k]);
    }
    if r.len() > 0 {
        assert(r[0] == t1[0]);
        if t.len() <= max_label() {
            assert(r == t);
        }
    }
}

proof fn lemma_trim_start_upper(s: Seq<char>)
    ensures
        trim_start(upper(s)) == upper(trim_start(s)),
    decreases s.len(),
{
    if s.len() > 0 {
        assert(upper(s)[0] == upper_char(s[0]));
        if is_ws(s[0]) {
            assert(upper(s).drop_first() =~= upper(s.drop_first()));
            lemma_trim_start_upper(s.drop_first());
        } else {
            assert(!is_ws(upper(s)[0]));
        }
    }
}

proof fn lemma_trim_end_upper(s: Seq<char>)
    ensures
        trim_end(upper(s)) == upper(trim_end(s)),
    decreases s.len(),
{
    if s.len() > 0 {
        assert(upper(s).last() == upper_char(s.last()));
        if is_ws(s.last()) {
            assert(upper(s).drop_last() =~= upper(s.drop_last()));
            lemma_trim_end_upper(s.drop_last());
        } else {
            assert(!is_ws(upper(s).last()));
        }
    }
}

/// Slug characters with no `-` twice in a row are kept as they are by the
/// run collapsing.
proof fn lemma_dash_runs_fixed(r: Seq<char>)
    requires
        single_dashes(r),
    ensures
        dash_runs(r).0 == r,
        dash_runs(r).1 == (r.len() > 0 && r.last() == '-'),
    decreases r.len(),
{
    if r.len() > 0 {
        let t = r.drop_last();
        assert forall|i: int| 0 <= i < t.len() implies is_slug_char(#[trigger] t[i]) by {
            assert(t[i] == r[i]);
        }
        assert forall|i: int| 0 <= i < t.len() - 1 implies !(#[trigger] t[i] == '-' && t[i + 1]
            == '-') by {
            assert(t[i] == r[i] && t[i + 1] == r[i + 1]);
        }
        lemma_dash_runs_fixed(t);
        assert(is_slug_char(r[r.len() - 1]));
        if r.last() == '-' && t.len() > 0 {
            assert(!(r[r.len() - 2] == '-' && r[r.len() - 1] == '-'));
        }
        assert(t.push(r.last()) =~= r);
    }
}

/// Slugging ignores ASCII case, and slugging a slug only drops the hyphen
/// that a cut at 63 characters may have left at its end.
pub proof fn law_slug_stable(value: Seq<char>)
    ensures
        slug_of(upper(value)) == slug_of(value),
        slug_of(slug_of(value)) == trim_end_char(slug_of(value), '-'),
{
    lemma_trim_start_upper(value);
    lemma_trim_end_upper(trim_start(value));
    let t = trim(value);
    assert(trim(upper(value)) == upper(t));
    assert(lower(upper(t)) =~= lower(t));
    let r = slug_of(value);
    law_slug_shape(value);
    assert forall|i: int| 0 <= i < r.len() implies !is_ws(#[trigger] r[i]) by {
        assert(is_slug_char(r[i]));
    }
    if r.len() > 0 {
        assert(!is_ws(r[0]) && !is_ws(r.last()));
    }
    assert(trim_start(r) == r);
    assert(trim_end(r) == r);
    assert(lower(r) =~= r) by {
        assert forall|i: int| 0 <= i < r.len() implies lower(r)[i] == r[i] by {
            assert(is_slug_char(r[i]));
        }
    }
    lemma_dash_runs_fixed(r);
    assert(trim_start_char(r, '-') == r);
    let m = lemma_trim_end_char(r, '-');
    assert(trim_end_char(r, '-').len() <= max_label());
}

pub fn slug_chars(value: &Vec<char>) -> (r: Vec<char>)
    ensures
        r@ == slug_of(value@),
{
    let t = trim_vec(value);
    let l = lower_vec(&t);
    let mut out: Vec<char> = Vec::new();
    let mut prev_dash = false;
    let mut i: usize = 0;
    while i < l.len()
        invariant
            i <= l.len(),
            (out@, prev_dash) == dash_runs(l@.take(i as int)),
        decreases l.len() - i,
    {
        let c = l[i];
        assert(l@.take(i + 1).drop_last() == l@.take(i as int));
        if is_alnum_exec(c) {
            out.push(c);
            prev_dash = false;
        } else if !prev_dash {
            out.push('-');
            prev_dash = true;
        }
        i = i + 1;
    }
    assert(l@.take(l.len() as int) == l@);
    let trimmed = trim_char_vec(&out, '-');
    if trimmed.len() <= 63 {
        trimmed
    } else {
        subvec(&trimmed, 0, 63)
    }
}

/// A DNS-style label from free text: lowercase ASCII letters, digits and
/// single hyphens.
pub fn slug(value: &str) -> (r: String)
    ensures
        r@ == slug_of(value@),
        slug_shaped(r@),
{
    proof {
        law_slug_shape(value@);
    }
    let v = chars_of(value);
    let s = slug_chars(&v);
    string_of(&s)
}

// ---------------------------------------------------------------------------
// Hostname validity
// ---------------------------------------------------------------------------

/// An ASCII letter, digit or `-`.
pub open spec fn is_label_char(c: char) -> bool {
    is_alnum(c) || c == '-'
}

/// A DNS label: 1 to 63 ASCII letters, digits and hyphens, starting and
/// ending with a letter or digit.
pub open spec fn valid_label_of(s: Seq<char>) -> bool {
    &&& 1 <= s.len() <= max_label()
    &&& is_alnum(s[0])
    &&& is_alnum(s.last())
    &&& forall|i: int| 0 <= i < s.len() ==> is_label_char(#[trigger] s[i])
}

/// A name the user may pin: after trimming and lowercasing it is non-empty,
/// every dot-separated label is valid, and no label is `localhost`.
pub open spec fn valid_hostname_of(s: Seq<char>) -> bool {
    let name = lower(trim(s));
    let labels = split_char(name, '.');
    &&& name.len() > 0
    &&& forall|i: int|
        0 <= i < labels.len() ==> #[trigger] labels[i] != "localhost"@ && valid_label_of(
            labels[i],
        )
}

fn valid_label(label: &Vec<char>) -> (r: bool)
    ensures
        r == valid_label_of(label@),
{
    if label.len() == 0 || label.len() > 63 {
        return false;
    }
    if !is_alnum_exec(label[0]) || !is_alnum_exec(label[label.len() - 1]) {
        return false;
    }
    let mut i: usize = 0;
    while i < label.len()
        invariant
            i <= label.len(),
            forall|j: int| 0 <= j < i ==> is_label_char(#[trigger] label@[j]),
        decreases label.len() - i,
    {
        let c = label[i];
        if !(is_alnum_exec(c) || c == '-') {
            return false;
        }
        i = i + 1;
    }
    true
}

pub fn valid_hostname_chars(value: &Vec<char>) -> (r: bool)
    ensures
        r == valid_hostname_of(value@),
{
    let t = trim_vec(value);
    let name = lower_vec(&t);
    if name.len() == 0 {
        return false;
    }
    let labels = split_char_vec(&name, '.');
    let ghost ls = seqs_of(labels@);
    let mut i: usize = 0;
    while i < labels.len()
        invariant
            i <= labels.len(),
            ls == seqs_of(labels@),
            ls == split_char(lower(trim(value@)), '.'),
            lower(trim(value@)).len() > 0,
            forall|j: int|
                0 <= j < i ==> #[trigger] ls[j] != "localhost"@ && valid_label_of(ls[j]),
        decreases labels.len() - i,
    {
        assert(ls[i as int] == labels@[i as int]@);
        if chars_eq_str(&labels[i], "localhost") {
            return false;
        }
        if !valid_label(&labels[i]) {
            return false;
        }
        i = i + 1;
    }
    true
}

/// Whether `value` may be pinned as a hostname.
pub fn valid_hostname(value: &str) -> (r: bool)
    ensures
        r == valid_hostname_of(value@),
{
    let v = chars_of(value);
    valid_hostname_chars(&v)
}


// ---------------------------------------------------------------------------
// The `.localhost` namespace
// ---------------------------------------------------------------------------

/// A host as compared by the router: trailing dots dropped, ASCII lowercased.
pub open spec fn host_key(host: Seq<char>) -> Seq<char> {
    lower(trim_end_char(host, '.'))
}

/// `short_name(host)`: the name under `.localhost`, `""` for `localhost`
/// itself, and any other host unchanged (but normalized).
pub open spec fn short_name_of(host: Seq<char>) -> Seq<char> {
    let h = host_key(host);
    if ends_with(h, ".localhost"@) {
        h.take(h.len() - ".localhost"@.len())
    } else if h == "localhost"@ {
        Seq::empty()
    } else {
        h
    }
}

/// Hosts that are answered with the index page.
pub open spec fn is_index_host_of(host: Seq<char>) -> bool {
    let h = host_key(host);
    h.len() == 0 || h == "localhost"@ || h == "127.0.0.1"@ || h == "::1"@ || h
        == "https://example.net/id/garnet"@
}

/// Hosts inside the `.localhost` namespace.
pub open spec fn is_app_host_of(host: Seq<char>) -> bool {
    let h = host_key(host);
    ends_with(h, ".localhost"@) && h != "localhost"@
}

/// The URL under which `hostname` is reachable through the proxy.
pub open spec fn service_url_of(hostname: Seq<char>, proxy_port: u16) -> Seq<char> {
    if proxy_port == 0 || proxy_port == 80 {
        "http://"@ + hostname + ".localhost"@
    } else {
        "http://"@ + hostname + ".localhost"@ + ":"@ + dec(proxy_port as nat)
    }
}

fn host_key_vec(host: &Vec<char>) -> (r: Vec<char>)
    ensures
        r@ == host_key(host@),
{
    let t = trim_end_char_vec(host, '.');
    lower_vec(&t)
}

pub fn short_name_chars(host: &Vec<char>) -> (r: Vec<char>)
    ensures
        r@ == short_name_of(host@),
{
    let h = host_key_vec(host);
    let suffix = chars_of(".localhost");
    if ends_with_vec(&h, &suffix) {
        subvec(&h, 0, h.len() - suffix.len())
    } else if chars_eq_str(&h, "localhost") {
        Vec::new()
    } else {
        h
    }
}

/// The hostname part of `host` below `.localhost`.
pub fn short_name(host: &str) -> (r: String)
    ensures
        r@ == short_name_of(host@),
{
    let v = chars_of(host);
    let r = short_name_chars(&v);
    string_of(&r)
}

pub fn is_index_host_chars(host: &Vec<char>) -> (r: bool)
    ensures
        r == is_index_host_of(host@),
{
    let h = host_key_vec(host);
    h.len() == 0 || chars_eq_str(&h, "localhost") || chars_eq_str(&h, "127.0.0.1")
        || chars_eq_str(&h, "::1") || chars_eq_str(&h, "https://example.net/id/garnet")
}

/// Whether `host` asks for the index of named apps.
pub fn is_index_host(host: &str) -> (r: bool)
    ensures
        r == is_index_host_of(host@),
{
    let v = chars_of(host);
    is_index_host_chars(&v)
}

/// `name.localhost` is this proxy's namespace. Unknown names here must not
/// fall through to the upstream server, or the user sees that server's 404.
pub fn is_app_host(host: &str) -> (r: bool)
    ensures
        r == is_app_host_of(host@),
{
    let v = chars_of(host);
    let h = host_key_vec(&v);
    let suffix = chars_of(".localhost");
    ends_with_vec(&h, &suffix) && !chars_eq_str(&h, "localhost")
}

pub fn service_url_chars(hostname: &Vec<char>, proxy_port: u16) -> (r: Vec<char>)
    ensures
        r@ == service_url_of(hostname@, proxy_port),
{
    let mut r = chars_of("http://");
    push_all(&mut r, hostname);
    push_str(&mut r, ".localhost");
    if !(proxy_port == 0 || proxy_port == 80) {
        push_str(&mut r, ":");
        let d = dec_vec(proxy_port as u64);
        push_all(&mut r, &d);
    }
    r
}

/// The URL of a named service; port 80 (or an unknown port) is left out.
pub fn service_url(hostname: &str, proxy_port: u16) -> (r: String)
    ensures
        r@ == service_url_of(hostname@, proxy_port),
{
    let h = chars_of(hostname);
    let r = service_url_chars(&h, proxy_port);
    string_of(&r)
}


// ---------------------------------------------------------------------------
// Unix paths, compared and named as `std::path::Path` does
// ---------------------------------------------------------------------------

/// The path starts at the root directory.
pub open spec fn path_rooted(p: Seq<char>) -> bool {
    p.len() > 0 && p[0] == '/'
}

/// A relative path that starts with a `.` component.
pub open spec fn path_cur_dir(p: Seq<char>) -> bool {
    !path_rooted(p) && p.len() > 0 && p[0] == '.' && (p.len() == 1 || p[1] == '/')
}

/// The pieces between `/` that name something: empty pieces and `.` dropped.
pub open spec fn named_parts(parts: Seq<Seq<char>>) -> Seq<Seq<char>>
    decreases parts.len(),
{
    if parts.len() == 0 {
        seq![]
    } else {
        let r = named_parts(parts.drop_last());
        let x = parts.last();
        if x.len() == 0 || x == seq!['.'] {
            r
        } else {
            r.push(x)
        }
    }
}

/// The components of a path after its root or leading `.`.
pub open spec fn path_parts(p: Seq<char>) -> Seq<Seq<char>> {
    named_parts(split_char(p, '/'))
}

/// `Path::new(a) == Path::new(b)`: the same components.
pub open spec fn same_path(a: Seq<char>, b: Seq<char>) -> bool {
    path_rooted(a) == path_rooted(b) && path_cur_dir(a) == path_cur_dir(b) && path_parts(a)
        == path_parts(b)
}

/// `Path::file_name`: the last component, unless it is `..` or there is none.
pub open spec fn file_name_of(p: Seq<char>) -> Option<Seq<char>> {
    let parts = path_parts(p);
    if parts.len() > 0 && parts.last() != seq!['.', '.'] {
        Some(parts.last())
    } else {
        None
    }
}

/// No path component is empty.
pub proof fn lemma_file_name_nonempty(p: Seq<char>)
    ensures
        file_name_of(p) matches Some(n) ==> n.len() > 0,
{
    lemma_named_parts_nonempty(split_char(p, '/'));
}

proof fn lemma_named_parts_nonempty(parts: Seq<Seq<char>>)
    ensures
        forall|i: int|
            0 <= i < named_parts(parts).len() ==> #[trigger] named_parts(parts)[i].len() > 0,
    decreases parts.len(),
{
    if parts.len() > 0 {
        let r = named_parts(parts.drop_last());
        lemma_named_parts_nonempty(parts.drop_last());
        assert forall|i: int| 0 <= i < named_parts(parts).len() implies #[trigger] named_parts(
            parts,
        )[i].len() > 0 by {
            if i < r.len() {
                assert(named_parts(parts)[i] == r[i]);
            }
        }
    }
}

fn is_dot(v: &Vec<char>) -> (r: bool)
    ensures
        r == (v@ == seq!['.']),
{
    let r = v.len() == 1 && v[0] == '.';
    assert(r ==> v@ =~= seq!['.']);
    r
}

fn is_dot_dot(v: &Vec<char>) -> (r: bool)
    ensures
        r == (v@ == seq!['.', '.']),
{
    let r = v.len() == 2 && v[0] == '.' && v[1] == '.';
    assert(r ==> v@ =~= seq!['.', '.']);
    r
}

fn path_parts_vec(p: &Vec<char>) -> (r: Vec<Vec<char>>)
    ensures
        seqs_of(r@) == path_parts(p@),
{
    let pieces = split_char_vec(p, '/');
    let ghost ps = seqs_of(pieces@);
    let mut r: Vec<Vec<char>> = Vec::new();
    let mut i: usize = 0;
    while i < pieces.len()
        invariant
            i <= pieces.len(),
            ps == seqs_of(pieces@),
            seqs_of(r@) == named_parts(ps.take(i as int)),
        decreases pieces.len() - i,
    {
        assert(ps.take(i + 1).drop_last() == ps.take(i as int));
        let ghost prev = seqs_of(r@);
        if !(pieces[i].len() == 0 || is_dot(&pieces[i])) {
            let x = copy_chars(&pieces[i]);
            r.push(x);
            assert(seqs_of(r@) =~= prev.push(ps[i as int]));
        }
        i = i + 1;
    }
    assert(ps.take(pieces.len() as int) == ps);
    r
}

fn path_rooted_vec(p: &Vec<char>) -> (r: bool)
    ensures
        r == path_rooted(p@),
{
    p.len() > 0 && p[0] == '/'
}

fn path_cur_dir_vec(p: &Vec<char>) -> (r: bool)
    ensures
        r == path_cur_dir(p@),
{
    !path_rooted_vec(p) && p.len() > 0 && p[0] == '.' && (p.len() == 1 || p[1] == '/')
}

fn parts_eq(a: &Vec<Vec<char>>, b: &Vec<Vec<char>>) -> (r: bool)
    ensures
        r == (seqs_of(a@) == seqs_of(b@)),
{
    if a.len() != b.len() {
        assert(seqs_of(a@).len() != seqs_of(b@).len());
        return false;
    }
    let mut i: usize = 0;
    while i < a.len()
        invariant
            a.len() == b.len(),
            i <= a.len(),
            forall|j: int| 0 <= j < i ==> a@[j]@ == b@[j]@,
        decreases a.len() - i,
    {
        if !chars_eq(&a[i], &b[i]) {
            assert(seqs_of(a@)[i as int] != seqs_of(b@)[i as int]);
            return false;
        }
        i = i + 1;
    }
    assert(seqs_of(a@) =~= seqs_of(b@));
    true
}

/// `Path::new(a) == Path::new(b)`.
pub fn same_path_chars(a: &Vec<char>, b: &Vec<char>) -> (r: bool)
    ensures
        r == same_path(a@, b@),
{
    if path_rooted_vec(a) != path_rooted_vec(b) || path_cur_dir_vec(a) != path_cur_dir_vec(b) {
        return false;
    }
    let pa = path_parts_vec(a);
    let pb = path_parts_vec(b);
    parts_eq(&pa, &pb)
}

/// `Path::file_name`, with a missing name as `""`.
pub fn file_name_chars(p: &Vec<char>) -> (r: Vec<char>)
    ensures
        r@ == match file_name_of(p@) {
            Some(n) => n,
            None => Seq::empty(),
        },
{
    let parts = path_parts_vec(p);
    let n = parts.len();
    if n > 0 && !is_dot_dot(&parts[n - 1]) {
        copy_chars(&parts[n - 1])
    } else {
        Vec::new()
    }
}

// ---------------------------------------------------------------------------
// Service identity and default names
// ---------------------------------------------------------------------------

/// `service_id`: the working directory when it says something about the
/// project, else the port.
pub open spec fn service_id_of(cwd: Seq<char>, port: u16, home: Seq<char>) -> Seq<char> {
    if cwd.len() > 0 && cwd != "/"@ && !same_path(cwd, home) {
        "cwd:"@ + cwd
    } else {
        "port:"@ + dec(port as nat)
    }
}

/// The last path component, or `""`.
pub open spec fn base_name(p: Seq<char>) -> Seq<char> {
    match file_name_of(p) {
        Some(n) => n,
        None => Seq::empty(),
    }
}

/// Directory names that say nothing about a project.
pub open spec fn is_generic_name(name: Seq<char>, home: Seq<char>) -> bool {
    name.len() == 0 || name == "home"@ || name == "tmp"@ || name == "src"@ || name == "app"@
        || name == "apps"@ || name == slug_of(base_name(home))
}

/// `suggested_name`: the slug of the working directory's name, or of the
/// command name when that says nothing, or `port-<port>`.
pub open spec fn suggested_name_of(cwd: Seq<char>, comm: Seq<char>, port: u16, home: Seq<char>) -> Seq<
    char,
> {
    let name = slug_of(base_name(cwd));
    let name = if is_generic_name(name, home) {
        slug_of(comm)
    } else {
        name
    };
    if name.len() == 0 {
        "port-"@ + dec(port as nat)
    } else {
        name
    }
}

/// The key under which a listener's pinned name is stored.
pub fn service_id(item: &crate::scan::Listener, home: &str) -> (r: String)
    ensures
        r@ == service_id_of(item.cwd@, item.port, home@),
{
    let cwd = chars_of(item.cwd.as_str());
    let h = chars_of(home);
    if cwd.len() > 0 && !chars_eq_str(&cwd, "/") && !same_path_chars(&cwd, &h) {
        let mut r = chars_of("cwd:");
        push_all(&mut r, &cwd);
        string_of(&r)
    } else {
        let mut r = chars_of("port:");
        let d = dec_vec(item.port as u64);
        push_all(&mut r, &d);
        string_of(&r)
    }
}

/// The hostname a listener gets when none is pinned.
pub fn suggested_name(item: &crate::scan::Listener, home: &str) -> (r: String)
    ensures
        r@ == suggested_name_of(item.cwd@, item.comm@, item.port, home@),
{
    let cwd = chars_of(item.cwd.as_str());
    let h = chars_of(home);
    let base = file_name_chars(&cwd);
    let home_name = file_name_chars(&h);
    let mut name = slug_chars(&base);
    let home_slug = slug_chars(&home_name);
    if name.len() == 0 || chars_eq_str(&name, "home") || chars_eq_str(&name, "tmp")
        || chars_eq_str(&name, "src") || chars_eq_str(&name, "app") || chars_eq_str(&name, "apps")
        || chars_eq(&name, &home_slug) {
        let comm = chars_of(item.comm.as_str());
        name = slug_chars(&comm);
    }
    if name.len() == 0 {
        let mut r = chars_of("port-");
        let d = dec_vec(item.port as u64);
        push_all(&mut r, &d);
        string_of(&r)
    } else {
        string_of(&name)
    }
}


// ---------------------------------------------------------------------------
// Pinned names
// ---------------------------------------------------------------------------

/// The value stored under `key` in a list of `(key, value)` pairs; the first
/// entry with that key wins.
pub open spec fn lookup_name(names: Seq<(String, String)>, key: Seq<char>) -> Option<Seq<char>>
    decreases names.len(),
{
    if names.len() == 0 {
        None
    } else if names[0].0@ == key {
        Some(names[0].1@)
    } else {
        lookup_name(names.drop_first(), key)
    }
}

/// The names table as a map from service id to pinned hostname.
pub open spec fn names_map(names: Seq<(String, String)>) -> Map<Seq<char>, Seq<char>> {
    Map::new(|k: Seq<char>| lookup_name(names, k) is Some, |k: Seq<char>| lookup_name(names, k)->0)
}

/// The entries whose key is not `key`, in order.
pub open spec fn without_key(names: Seq<(String, String)>, key: Seq<char>) -> Seq<(String, String)>
    decreases names.len(),
{
    if names.len() == 0 {
        seq![]
    } else if names[0].0@ == key {
        without_key(names.drop_first(), key)
    } else {
        seq![names[0]] + without_key(names.drop_first(), key)
    }
}

pub proof fn lemma_lookup_single(x: (String, String), key: Seq<char>)
    ensures
        without_key(seq![x], key) == if x.0@ == key {
            seq![]
        } else {
            seq![x]
        },
        lookup_name(seq![x], key) == if x.0@ == key {
            Some(x.1@)
        } else {
            None
        },
{
    let e = Seq::<(String, String)>::empty();
    assert(without_key(e, key) == e);
    assert(lookup_name(e, key) is None);
    assert(seq![x].drop_first() =~= e);
    assert(seq![x][0] == x);
    assert(seq![x] + e =~= seq![x]);
    if x.0@ != key {
        assert(without_key(seq![x], key) == seq![x] + without_key(e, key));
    }
}

/// Looking up in two lists one after the other.
pub proof fn lemma_lookup_append(a: Seq<(String, String)>, b: Seq<(String, String)>, k: Seq<char>)
    ensures
        lookup_name(a + b, k) == match lookup_name(a, k) {
            Some(v) => Some(v),
            None => lookup_name(b, k),
        },
    decreases a.len(),
{
    if a.len() > 0 {
        assert((a + b).drop_first() == a.drop_first() + b);
        lemma_lookup_append(a.drop_first(), b, k);
    } else {
        assert(a + b == b);
    }
}

/// Removing a key leaves every other key's value alone.
pub proof fn lemma_lookup_without(names: Seq<(String, String)>, key: Seq<char>, k: Seq<char>)
    ensures
        lookup_name(without_key(names, key), k) == if k == key {
            None
        } else {
            lookup_name(names, k)
        },
    decreases names.len(),
{
    if names.len() > 0 {
        lemma_lookup_without(names.drop_first(), key, k);
        if names[0].0@ != key {
            lemma_lookup_append(seq![names[0]], without_key(names.drop_first(), key), k);
            lemma_lookup_single(names[0], k);
        }
    }
}

pub proof fn lemma_without_append(a: Seq<(String, String)>, b: Seq<(String, String)>, key: Seq<char>)
    ensures
        without_key(a + b, key) == without_key(a, key) + without_key(b, key),
    decreases a.len(),
{
    if a.len() > 0 {
        assert((a + b).drop_first() == a.drop_first() + b);
        lemma_without_append(a.drop_first(), b, key);
        assert((a + b)[0] == a[0]);
        if a[0].0@ != key {
            assert(seq![a[0]] + (without_key(a.drop_first(), key) + without_key(b, key)) =~= (
            seq![a[0]] + without_key(a.drop_first(), key)) + without_key(b, key));
        }
    } else {
        assert(a + b == b);
        assert(without_key(a, key) =~= Seq::<(String, String)>::empty());
        assert(without_key(a, key) + without_key(b, key) =~= without_key(b, key));
    }
}

/// A key is found only where it is stored.
pub proof fn lemma_lookup_some(names: Seq<(String, String)>, k: Seq<char>)
    ensures
        lookup_name(names, k) is Some ==> exists|j: int| 0 <= j < names.len() && #[trigger] names[j].0@ == k,
    decreases names.len(),
{
    if names.len() > 0 && names[0].0@ != k {
        lemma_lookup_some(names.drop_first(), k);
        if lookup_name(names, k) is Some {
            let j = choose|j: int| 0 <= j < names.drop_first().len() && #[trigger] names.drop_first()[j].0@ == k;
            assert(names[j + 1].0@ == k);
        }
    }
}

/// No key occurs twice in the names table.
pub open spec fn keys_unique(names: Seq<(String, String)>) -> bool {
    forall|i: int, j: int|
        #![trigger names[i], names[j]]
        0 <= i < j < names.len() ==> names[i].0@ != names[j].0@
}

/// The entries left by `without_key` are entries of the table, none with
/// `key`, and a table without repeated keys stays so.
pub proof fn lemma_without_key_unique(names: Seq<(String, String)>, key: Seq<char>)
    ensures
        forall|i: int|
            0 <= i < without_key(names, key).len() ==> (#[trigger] without_key(names, key)[i]).0@
                != key && exists|j: int| 0 <= j < names.len() && names[j] == without_key(names, key)[i],
        keys_unique(names) ==> keys_unique(without_key(names, key)),
    decreases names.len(),
{
    if names.len() > 0 {
        let t = names.drop_first();
        lemma_without_key_unique(t, key);
        let w = without_key(names, key);
        let wt = without_key(t, key);
        assert forall|i: int| 0 <= i < w.len() implies (#[trigger] w[i]).0@ != key && exists|j: int|
            0 <= j < names.len() && names[j] == w[i] by {
            if names[0].0@ == key {
                assert(w[i] == wt[i]);
                let j = choose|j: int| 0 <= j < t.len() && t[j] == wt[i];
                assert(names[j + 1] == w[i]);
            } else if i == 0 {
                assert(w[0] == names[0]);
            } else {
                assert(w[i] == wt[i - 1]);
                let j = choose|j: int| 0 <= j < t.len() && t[j] == wt[i - 1];
                assert(names[j + 1] == w[i]);
            }
        }
        if keys_unique(names) {
            assert forall|i: int, j: int| 0 <= i < j < t.len() implies #[trigger] t[i].0@ != #[trigger] t[j].0@ by {
                assert(names[i + 1] == t[i] && names[j + 1] == t[j]);
            }
            assert forall|i: int, j: int| 0 <= i < j < w.len() implies #[trigger] w[i].0@ != #[trigger] w[j].0@ by {
                if names[0].0@ == key {
                    assert(w[i] == wt[i] && w[j] == wt[j]);
                } else if i == 0 {
                    assert(w[j] == wt[j - 1]);
                    let m = choose|m: int| 0 <= m < t.len() && t[m] == wt[j - 1];
                    assert(names[m + 1] == w[j]);
                    assert(names[0].0@ != names[m + 1].0@);
                } else {
                    assert(w[i] == wt[i - 1] && w[j] == wt[j - 1]);
                }
            }
        }
    }
}

/// The entries whose key is not `key`.
pub fn remove_key(names: &Vec<(String, String)>, key: &Vec<char>) -> (r: Vec<(String, String)>)
    ensures
        r@ == without_key(names@, key@),
{
    let mut r: Vec<(String, String)> = Vec::new();
    let mut i: usize = 0;
    while i < names.len()
        invariant
            i <= names.len(),
            r@ == without_key(names@.take(i as int), key@),
        decreases names.len() - i,
    {
        let k = chars_of(names[i].0.as_str());
        proof {
            assert(names@.take(i + 1) == names@.take(i as int) + seq![names@[i as int]]);
            lemma_without_append(names@.take(i as int), seq![names@[i as int]], key@);
            lemma_lookup_single(names@[i as int], key@);
        }
        if !chars_eq(&k, key) {
            let ghost before = r@;
            r.push((names[i].0.clone(), names[i].1.clone()));
            assert(r@ =~= before + seq![names@[i as int]]);
        } else {
            assert(r@ =~= r@ + Seq::<(String, String)>::empty());
        }
        i = i + 1;
    }
    assert(names@.take(names.len() as int) == names@);
    r
}

/// The value stored under `key`, if any.
pub fn lookup(names: &Vec<(String, String)>, key: &Vec<char>) -> (r: Option<Vec<char>>)
    ensures
        r matches Some(v) ==> lookup_name(names@, key@) == Some(v@),
        r is None ==> lookup_name(names@, key@) is None,
{
    let mut i: usize = 0;
    assert(names@.skip(0) == names@);
    while i < names.len()
        invariant
            i <= names.len(),
            lookup_name(names@, key@) == lookup_name(names@.skip(i as int), key@),
        decreases names.len() - i,
    {
        let k = chars_of(names[i].0.as_str());
        assert(names@.skip(i as int).drop_first() == names@.skip(i + 1));
        if chars_eq(&k, key) {
            return Some(chars_of(names[i].1.as_str()));
        }
        i = i + 1;
    }
    None
}

/// The pinned hostname of a listener: stored under its id, else under its
/// port; an invalid stored name counts as none.
pub open spec fn pinned_of(
    names: Seq<(String, String)>,
    item: crate::scan::Listener,
    home: Seq<char>,
) -> Seq<char> {
    let id = service_id_of(item.cwd@, item.port, home);
    let raw = match lookup_name(names, id) {
        Some(v) => v,
        None => match lookup_name(names, "port:"@ + dec(item.port as nat)) {
            Some(v) => v,
            None => Seq::empty(),
        },
    };
    if raw.len() > 0 && !valid_hostname_of(raw) {
        Seq::empty()
    } else {
        raw
    }
}

/// The pinned name, or else the suggested one.
pub open spec fn base_of(
    names: Seq<(String, String)>,
    item: crate::scan::Listener,
    home: Seq<char>,
) -> Seq<char> {
    let p = pinned_of(names, item, home);
    if p.len() == 0 {
        suggested_name_of(item.cwd@, item.comm@, item.port, home)
    } else {
        p
    }
}

/// The suggested names of the unpinned listeners, in order.
pub open spec fn unpinned_bases(
    ls: Seq<crate::scan::Listener>,
    names: Seq<(String, String)>,
    home: Seq<char>,
) -> Seq<Seq<char>>
    decreases ls.len(),
{
    if ls.len() == 0 {
        seq![]
    } else {
        let r = unpinned_bases(ls.drop_last(), names, home);
        if pinned_of(names, ls.last(), home).len() == 0 {
            r.push(base_of(names, ls.last(), home))
        } else {
            r
        }
    }
}

/// How often `x` occurs in `s`.
pub open spec fn count_of(s: Seq<Seq<char>>, x: Seq<char>) -> nat
    decreases s.len(),
{
    if s.len() == 0 {
        0
    } else {
        count_of(s.drop_last(), x) + if s.last() == x {
            1nat
        } else {
            0nat
        }
    }
}

/// The hostname of the `i`-th listener: its base name, with `-<port>` added
/// when it is unpinned and an earlier unpinned listener has the same base name.
pub open spec fn hostname_at(
    ls: Seq<crate::scan::Listener>,
    names: Seq<(String, String)>,
    home: Seq<char>,
    i: int,
) -> Seq<char> {
    let b = base_of(names, ls[i], home);
    if pinned_of(names, ls[i], home).len() == 0 && count_of(
        unpinned_bases(ls.take(i), names, home),
        b,
    ) >= 1 {
        b + "-"@ + dec(ls[i].port as nat)
    } else {
        b
    }
}

proof fn lemma_count_push(s: Seq<Seq<char>>, x: Seq<char>, y: Seq<char>)
    ensures
        count_of(s.push(x), y) >= count_of(s, y),
        x == y ==> count_of(s.push(x), y) >= 1,
{
    assert(s.push(x).drop_last() == s);
}

/// An earlier unpinned listener's base name is counted among the bases seen
/// before a later one.
proof fn lemma_earlier_base_counted(
    ls: Seq<crate::scan::Listener>,
    names: Seq<(String, String)>,
    home: Seq<char>,
    i: int,
    j: int,
)
    requires
        0 <= i < j <= ls.len(),
        pinned_of(names, ls[i], home).len() == 0,
    ensures
        count_of(unpinned_bases(ls.take(j), names, home), base_of(names, ls[i], home)) >= 1,
    decreases j,
{
    let t = ls.take(j);
    assert(t.drop_last() == ls.take(j - 1));
    assert(t.last() == ls[j - 1]);
    let prev = unpinned_bases(ls.take(j - 1), names, home);
    let b = base_of(names, ls[i], home);
    if i == j - 1 {
        lemma_count_push(prev, base_of(names, ls[j - 1], home), b);
    } else {
        lemma_earlier_base_counted(ls, names, home, i, j - 1);
        if pinned_of(names, ls[j - 1], home).len() == 0 {
            lemma_count_push(prev, base_of(names, ls[j - 1], home), b);
        }
    }
}

/// `dec` never writes two numbers the same way.
proof fn lemma_dec_injective(a: nat, b: nat)
    requires
        dec(a) == dec(b),
    ensures
        a == b,
{
    lemma_dec(a);
    lemma_dec(b);
}

/// Repeated suggestions get the port: when an unpinned listener has the same
/// base name as an earlier unpinned one, its hostname is that name, `-`, and
/// its port; so two unpinned listeners with the same base name and different
/// ports never share a hostname.
pub proof fn law_repeats_get_their_port(
    ls: Seq<crate::scan::Listener>,
    names: Seq<(String, String)>,
    home: Seq<char>,
    i: int,
    j: int,
)
    requires
        0 <= i < j < ls.len(),
        pinned_of(names, ls[i], home).len() == 0,
        pinned_of(names, ls[j], home).len() == 0,
        base_of(names, ls[i], home) == base_of(names, ls[j], home),
    ensures
        hostname_at(ls, names, home, j) == base_of(names, ls[j], home) + "-"@ + dec(
            ls[j].port as nat,
        ),
        ls[i].port != ls[j].port ==> hostname_at(ls, names, home, i) != hostname_at(
            ls,
            names,
            home,
            j,
        ),
{
    reveal_strlit("-");
    lemma_earlier_base_counted(ls, names, home, i, j);
    let b = base_of(names, ls[j], home);
    let hi = hostname_at(ls, names, home, i);
    let hj = hostname_at(ls, names, home, j);
    if ls[i].port != ls[j].port && hi == hj {
        lemma_dec(ls[i].port as nat);
        lemma_dec(ls[j].port as nat);
        if hi == b {
            assert(hi.len() < hj.len());
        } else {
            assert(hi == b + "-"@ + dec(ls[i].port as nat));
            let n: int = b.len() as int + 1;
            assert(hi.skip(n) =~= dec(ls[i].port as nat));
            assert(hj.skip(n) =~= dec(ls[j].port as nat));
            lemma_dec_injective(ls[i].port as nat, ls[j].port as nat);
        }
    }
}

/// A listener together with the hostname the proxy routes to it.
#[derive(Clone, Debug)]
pub struct NamedService {
    pub listener: crate::scan::Listener,
    pub id: String,
    pub hostname: String,
    pub pinned: bool,
    pub alive: bool,
    pub url: String,
}

impl NamedService {
    /// A field-by-field copy.
    pub fn duplicate(&self) -> (r: NamedService)
        ensures
            r == *self,
    {
        NamedService {
            listener: self.listener.duplicate(),
            id: self.id.clone(),
            hostname: self.hostname.clone(),
            pinned: self.pinned,
            alive: self.alive,
            url: self.url.clone(),
        }
    }
}

/// The naming of the `i`-th listener: everything but the URL.
pub open spec fn named_as(
    ls: Seq<crate::scan::Listener>,
    names: Seq<(String, String)>,
    home: Seq<char>,
    i: int,
    s: NamedService,
) -> bool {
    &&& s.listener == ls[i]
    &&& s.id@ == service_id_of(ls[i].cwd@, ls[i].port, home)
    &&& s.hostname@ == hostname_at(ls, names, home, i)
    &&& s.pinned == (pinned_of(names, ls[i], home).len() > 0)
    &&& s.alive
}

/// What `assign_names` produces for the `i`-th listener: its naming, and no URL yet.
pub open spec fn assigned_at(
    ls: Seq<crate::scan::Listener>,
    names: Seq<(String, String)>,
    home: Seq<char>,
    i: int,
    s: NamedService,
) -> bool {
    &&& named_as(ls, names, home, i, s)
    &&& s.url@ == Seq::<char>::empty()
}

fn count_in(used: &Vec<Vec<char>>, x: &Vec<char>) -> (r: usize)
    ensures
        r == count_of(seqs_of(used@), x@),
{
    let ghost us = seqs_of(used@);
    let mut n: usize = 0;
    let mut i: usize = 0;
    while i < used.len()
        invariant
            i <= used.len(),
            us == seqs_of(used@),
            n == count_of(us.take(i as int), x@),
            n <= i,
        decreases used.len() - i,
    {
        assert(us.take(i + 1).drop_last() == us.take(i as int));
        if chars_eq(&used[i], x) {
            n = n + 1;
        }
        i = i + 1;
    }
    assert(us.take(used.len() as int) == us);
    n
}

fn pinned_name(names: &Vec<(String, String)>, item: &crate::scan::Listener, home: &str) -> (r:
    Vec<char>)
    ensures
        r@ == pinned_of(names@, *item, home@),
{
    let id = service_id(item, home);
    let id_chars = chars_of(id.as_str());
    let raw = match lookup(names, &id_chars) {
        Some(v) => v,
        None => {
            let mut key = chars_of("port:");
            let d = dec_vec(item.port as u64);
            push_all(&mut key, &d);
            match lookup(names, &key) {
                Some(v) => v,
                None => Vec::new(),
            }
        },
    };
    if raw.len() > 0 && !valid_hostname_chars(&raw) {
        Vec::new()
    } else {
        raw
    }
}

/// Gives every listener a hostname: its pinned name when it has a valid one,
/// else its suggested name, with `-<port>` added to repeated suggestions.
pub fn assign_names(listeners: &Vec<crate::scan::Listener>, names: &Vec<(String, String)>, home: &str) -> (r: Vec<NamedService>)
    ensures
        r.len() == listeners.len(),
        forall|i: int|
            0 <= i < r.len() ==> assigned_at(listeners@, names@, home@, i, #[trigger] r@[i]),
{
    let mut used: Vec<Vec<char>> = Vec::new();
    let mut services: Vec<NamedService> = Vec::new();
    let mut i: usize = 0;
    while i < listeners.len()
        invariant
            i <= listeners.len(),
            services.len() == i,
            seqs_of(used@) == unpinned_bases(listeners@.take(i as int), names@, home@),
            forall|j: int|
                0 <= j < i ==> assigned_at(listeners@, names@, home@, j, #[trigger] services@[j]),
        decreases listeners.len() - i,
    {
        let item = &listeners[i];
        let id = service_id(item, home);
        let pinned = pinned_name(names, item, home);
        let base = if pinned.len() == 0 {
            let s = suggested_name(item, home);
            chars_of(s.as_str())
        } else {
            copy_chars(&pinned)
        };
        let mut hostname = copy_chars(&base);
        let ghost prev_used = seqs_of(used@);
        if pinned.len() == 0 {
            let n = count_in(&used, &base);
            if n >= 1 {
                push_str(&mut hostname, "-");
                let d = dec_vec(item.port as u64);
                push_all(&mut hostname, &d);
            }
            used.push(base);
            assert(seqs_of(used@) =~= prev_used.push(base_of(names@, *item, home@)));
        }
        proof {
            assert(listeners@.take(i + 1).drop_last() == listeners@.take(i as int));
            assert(listeners@.take(i + 1).last() == listeners@[i as int]);
        }
        services.push(
            NamedService {
                listener: item.duplicate(),
                id,
                hostname: string_of(&hostname),
                pinned: pinned.len() > 0,
                alive: true,
                url: String::new(),
            },
        );
        i = i + 1;
    }
    services
}

/// A valid hostname already trimmed and lowercased is made of letters,
/// digits, `-` and `.`, and ends with a letter or digit.
pub proof fn lemma_hostname_chars(h: Seq<char>)
    requires
        valid_hostname_of(h),
        h == lower(trim(h)),
    ensures
        h.len() > 0,
        forall|j: int| 0 <= j < h.len() ==> is_label_char(#[trigger] h[j]) || h[j] == '.',
        is_alnum(h.last()),
{
    let labels = split_char(h, '.');
    lemma_split_char_covers(h, '.');
    lemma_split_char_len(h, '.');
    assert forall|j: int| 0 <= j < h.len() implies is_label_char(#[trigger] h[j]) || h[j] == '.' by {
        if h[j] != '.' {
            let (k, m) = choose|k: int, m: int|
                0 <= k < labels.len() && 0 <= m < labels[k].len() && #[trigger] labels[k][m] == h[j];
            assert(valid_label_of(labels[k]));
            assert(is_label_char(labels[k][m]));
        }
    }
    assert(valid_label_of(labels[labels.len() - 1]));
}

/// A hostname stored under a listener's id, if it follows the hostname
/// rules, is the hostname that listener gets, with no port added.
pub proof fn law_pinned_hostname_used(
    names: Seq<(String, String)>,
    ls: Seq<crate::scan::Listener>,
    home: Seq<char>,
    i: int,
)
    requires
        0 <= i < ls.len(),
        names_map(names).contains_key(service_id_of(ls[i].cwd@, ls[i].port, home)),
        valid_hostname_of(names_map(names)[service_id_of(ls[i].cwd@, ls[i].port, home)]),
    ensures
        pinned_of(names, ls[i], home) == names_map(names)[service_id_of(
            ls[i].cwd@,
            ls[i].port,
            home,
        )],
        hostname_at(ls, names, home, i) == names_map(names)[service_id_of(
            ls[i].cwd@,
            ls[i].port,
            home,
        )],
{
    let id = service_id_of(ls[i].cwd@, ls[i].port, home);
    let h = names_map(names)[id];
    assert(lookup_name(names, id) == Some(h));
    assert(lower(trim(h)).len() > 0);
    if h.len() == 0 {
        assert(trim_start(h) == h);
        assert(trim(h) == h);
        assert(lower(trim(h)).len() == 0);
    }
}

// ---------------------------------------------------------------------------
// The newest service behind a hostname
// ---------------------------------------------------------------------------

/// A live service with the given hostname.
pub open spec fn is_candidate(s: NamedService, hostname: Seq<char>) -> bool {
    s.alive && s.hostname@ == hostname
}

/// `a` started no earlier than `b`: `(starttime, pid)` compared in order.
pub open spec fn started_no_earlier(a: NamedService, b: NamedService) -> bool {
    a.listener.starttime > b.listener.starttime || (a.listener.starttime == b.listener.starttime
        && a.listener.pid >= b.listener.pid)
}

/// The index of the candidate with the greatest `(starttime, pid)`; the last
/// one among equals.
pub open spec fn newest_index(ss: Seq<NamedService>, hostname: Seq<char>) -> Option<int>
    decreases ss.len(),
{
    if ss.len() == 0 {
        None
    } else {
        let b = newest_index(ss.drop_last(), hostname);
        if is_candidate(ss.last(), hostname) && (b is None || started_no_earlier(
            ss.last(),
            ss[b->0],
        )) {
            Some(ss.len() - 1)
        } else {
            b
        }
    }
}

pub proof fn lemma_newest_index_in_range(ss: Seq<NamedService>, hostname: Seq<char>)
    ensures
        newest_index(ss, hostname) matches Some(k) ==> 0 <= k < ss.len(),
    decreases ss.len(),
{
    if ss.len() > 0 {
        lemma_newest_index_in_range(ss.drop_last(), hostname);
    }
}

/// Of the live services named `hostname`, the one picked started no earlier
/// than any other; none is picked exactly when there is no such service.
pub proof fn law_newest_started_last(ss: Seq<NamedService>, hostname: Seq<char>)
    ensures
        match newest_index(ss, hostname) {
            Some(k) => 0 <= k < ss.len() && is_candidate(ss[k], hostname) && forall|j: int|
                0 <= j < ss.len() && is_candidate(#[trigger] ss[j], hostname) ==> started_no_earlier(
                    ss[k],
                    ss[j],
                ),
            None => forall|j: int| 0 <= j < ss.len() ==> !is_candidate(#[trigger] ss[j], hostname),
        },
    decreases ss.len(),
{
    if ss.len() > 0 {
        let t = ss.drop_last();
        let n = ss.len() - 1;
        law_newest_started_last(t, hostname);
        match newest_index(t, hostname) {
            Some(b) => {
                assert(t[b] == ss[b]);
                if is_candidate(ss[n], hostname) && started_no_earlier(ss[n], ss[b]) {
                    assert forall|j: int|
                        0 <= j < ss.len() && is_candidate(#[trigger] ss[j], hostname) implies started_no_earlier(
                        ss[n],
                        ss[j],
                    ) by {
                        if j < n {
                            assert(t[j] == ss[j]);
                        }
                    }
                } else {
                    assert forall|j: int|
                        0 <= j < ss.len() && is_candidate(#[trigger] ss[j], hostname) implies started_no_earlier(
                        ss[b],
                        ss[j],
                    ) by {
                        if j < n {
                            assert(t[j] == ss[j]);
                        }
                    }
                }
            },
            None => {
                assert forall|j: int| 0 <= j < n implies !is_candidate(#[trigger] ss[j], hostname) by {
                    assert(t[j] == ss[j]);
                }
            },
        }
    }
}

/// The live service named `hostname` that started last.
pub fn newest_for_hostname<'a>(services: &'a Vec<NamedService>, hostname: &str) -> (r: Option<
    &'a NamedService,
>)
    ensures
        match newest_index(services@, hostname@) {
            Some(k) => r == Some(&services@[k]),
            None => r is None,
        },
{
    let name = chars_of(hostname);
    let mut best: Option<usize> = None;
    let mut i: usize = 0;
    while i < services.len()
        invariant
            i <= services.len(),
            name@ == hostname@,
            match best {
                Some(b) => newest_index(services@.take(i as int), hostname@) == Some(b as int)
                    && b < i,
                None => newest_index(services@.take(i as int), hostname@) is None,
            },
        decreases services.len() - i,
    {
        let s = &services[i];
        proof {
            assert(services@.take(i + 1).drop_last() == services@.take(i as int));
        }
        let h = chars_of(s.hostname.as_str());
        if s.alive && chars_eq(&h, &name) {
            match best {
                None => {
                    best = Some(i);
                },
                Some(b) => {
                    let o = &services[b];
                    if s.listener.starttime > o.listener.starttime || (s.listener.starttime
                        == o.listener.starttime && s.listener.pid >= o.listener.pid) {
                        best = Some(i);
                    }
                },
            }
        }
        i = i + 1;
    }
    assert(services@.take(services.len() as int) == services@);
    match best {
        Some(b) => Some(&services[b]),
        None => None,
    }
}

} // verus!
