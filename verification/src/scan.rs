//! Listening sockets as found in the kernel's socket tables.
use vstd::prelude::*;
use vstd::string::StringSliceAdditionalSpecFns;
use vstd::utf8::{decode_utf8, encode_utf8, valid_utf8};

use crate::config::{hex_digit, hex_digit_exec};
use crate::http::{decode_lossy, lossy_utf8};
use crate::text::{
    dec, dec_vec, trim_end_char, trim_end_char_vec, lemma_split_char_len, lines_of, split_char, split_char_vec, strip_cr, chars_eq, chars_eq_str, chars_of, lemma_rindex_of, parse_unsigned, parse_unsigned_vec,
    push_all, push_str, rfind_char, rindex_of, seqs_of, starts_with, starts_with_vec, string_of,
    subvec, tokens, tokens_vec, trim, trim_vec,
};

verus! {

/// A process listening on a local TCP port.
#[derive(Clone, Debug)]
pub struct Listener {
    pub port: u16,
    pub pid: i32,
    pub bind: String,
    pub comm: String,
    pub cmd: String,
    pub cwd: String,
    pub starttime: u64,
}

impl Listener {
    /// A field-by-field copy.
    pub fn duplicate(&self) -> (r: Listener)
        ensures
            r == *self,
    {
        Listener {
            port: self.port,
            pid: self.pid,
            bind: self.bind.clone(),
            comm: self.comm.clone(),
            cmd: self.cmd.clone(),
            cwd: self.cwd.clone(),
            starttime: self.starttime,
        }
    }
}


// ---------------------------------------------------------------------------
// Which sockets and processes count
// ---------------------------------------------------------------------------

/// Addresses reachable through loopback: any-address, `127.*`, and `::1`.
pub open spec fn is_local_bind_of(ip: Seq<char>) -> bool {
    ip == "0.0.0.0"@ || ip == "::"@ || ip == "::0"@ || ip == "*"@ || starts_with(ip, "127."@) || ip
        == "::1"@ || ip == "https://example.net/id/garnet"@
}

/// Whether a listener bound to `ip` can be reached through loopback.
pub fn is_local_bind(ip: &str) -> (r: bool)
    ensures
        r == is_local_bind_of(ip@),
{
    let v = chars_of(ip);
    let p = chars_of("127.");
    chars_eq_str(&v, "0.0.0.0") || chars_eq_str(&v, "::") || chars_eq_str(&v, "::0")
        || chars_eq_str(&v, "*") || starts_with_vec(&v, &p) || chars_eq_str(&v, "::1")
        || chars_eq_str(&v, "https://example.net/id/garnet")
}

/// System services that are never offered a name.
pub open spec fn is_skipped_command_of(comm: Seq<char>) -> bool {
    comm == "apache2"@ || comm == "avahi-daemon"@ || comm == "caddy"@ || comm == "clash-verge"@
        || comm == "cupsd"@ || comm == "dropbox"@ || comm == "httpd"@ || comm == "moshi"@ || comm
        == "moshi-hook"@ || comm == "nginx"@ || comm == "sshd"@ || comm == "systemd"@ || comm
        == "systemd-resolved"@
}

/// Whether listeners of the command `comm` are left out.
pub fn is_skipped_command(comm: &str) -> (r: bool)
    ensures
        r == is_skipped_command_of(comm@),
{
    let c = chars_of(comm);
    chars_eq_str(&c, "apache2") || chars_eq_str(&c, "avahi-daemon") || chars_eq_str(&c, "caddy")
        || chars_eq_str(&c, "clash-verge") || chars_eq_str(&c, "cupsd") || chars_eq_str(
        &c,
        "dropbox",
    ) || chars_eq_str(&c, "httpd") || chars_eq_str(&c, "moshi") || chars_eq_str(&c, "moshi-hook")
        || chars_eq_str(&c, "nginx") || chars_eq_str(&c, "sshd") || chars_eq_str(&c, "systemd")
        || chars_eq_str(&c, "systemd-resolved")
}

/// `p` occurs in `s`.
pub open spec fn contains_seq(s: Seq<char>, p: Seq<char>) -> bool {
    exists|i: int| 0 <= i && i + p.len() <= s.len() && #[trigger] s.subrange(i, i + p.len()) == p
}

fn contains_vec(s: &Vec<char>, p: &Vec<char>) -> (r: bool)
    ensures
        r == contains_seq(s@, p@),
{
    if p.len() > s.len() {
        return false;
    }
    let end = s.len() - p.len();
    let mut i: usize = 0;
    loop
        invariant
            p.len() <= s.len(),
            end == s.len() - p.len(),
            i <= end,
            forall|j: int| 0 <= j < i ==> #[trigger] s@.subrange(j, j + p.len()) != p@,
        decreases end - i,
    {
        let w = subvec(s, i, i + p.len());
        if chars_eq(&w, p) {
            return true;
        }
        if i == end {
            return false;
        }
        i = i + 1;
    }
}

/// A live process is the proxy when its command is `omaportless` or its
/// command line mentions it.
pub open spec fn is_proxy_process_of(comm: Seq<char>, cmd: Seq<char>) -> bool {
    comm == "omaportless"@ || contains_seq(cmd, "omaportless"@)
}

/// Whether the process with command `comm` and command line `cmd` is the proxy.
pub fn is_proxy_process(comm: &str, cmd: &str) -> (r: bool)
    ensures
        r == is_proxy_process_of(comm@, cmd@),
{
    let c = chars_of(comm);
    if chars_eq_str(&c, "omaportless") {
        return true;
    }
    let m = chars_of(cmd);
    let p = chars_of("omaportless");
    contains_vec(&m, &p)
}

// ---------------------------------------------------------------------------
// Process fields
// ---------------------------------------------------------------------------

/// `/proc/<pid>/stat` can be cut after the last `)`: the character after it
/// is a single byte.
pub open spec fn stat_cuttable(stat: Seq<char>) -> bool {
    match rindex_of(stat, ')') {
        Some(k) => k + 1 < stat.len() && (stat[k + 1] as u32) < 128,
        None => true,
    }
}

/// The start time field of `/proc/<pid>/stat` (the 20th field after the
/// command name), or 0.
pub open spec fn starttime_of(stat: Seq<char>) -> u64 {
    match rindex_of(stat, ')') {
        Some(k) => {
            let fields = tokens(stat.skip(k + 2));
            if fields.len() > 19 {
                match parse_unsigned(fields[19], u64::MAX as nat) {
                    Some(v) => v as u64,
                    None => 0,
                }
            } else {
                0
            }
        },
        None => 0,
    }
}

/// Whether `parse_starttime` can cut `stat` after its last `)`.
pub fn stat_is_cuttable(stat: &str) -> (r: bool)
    ensures
        r == stat_cuttable(stat@),
{
    let v = chars_of(stat);
    proof {
        lemma_rindex_of(v@, ')');
    }
    match rfind_char(&v, ')') {
        Some(k) => k + 1 < v.len() && (v[k + 1] as u32) < 128,
        None => true,
    }
}

/// When the process started, from the text of `/proc/<pid>/stat`.
pub fn parse_starttime(stat: &str) -> (r: u64)
    requires
        stat_cuttable(stat@),
    ensures
        r == starttime_of(stat@),
{
    let v = chars_of(stat);
    proof {
        lemma_rindex_of(v@, ')');
    }
    match rfind_char(&v, ')') {
        Some(k) => {
            let rest = subvec(&v, k + 2, v.len());
            assert(rest@ == v@.skip(k + 2));
            let fields = tokens_vec(&rest);
            if fields.len() > 19 {
                assert(seqs_of(fields@)[19] == fields@[19]@);
                match parse_unsigned_vec(&fields[19], 0xffff_ffff_ffff_ffff) {
                    Some(n) => n,
                    None => 0,
                }
            } else {
                0
            }
        },
        None => 0,
    }
}

/// `bytes` split at every NUL byte.
pub open spec fn split_nul(b: Seq<u8>) -> Seq<Seq<u8>>
    decreases b.len(),
{
    if b.len() == 0 {
        seq![Seq::empty()]
    } else {
        let p = split_nul(b.drop_last());
        if b.last() == 0 {
            p.push(Seq::empty())
        } else {
            p.update(p.len() - 1, p.last().push(b.last()))
        }
    }
}

/// The non-empty arguments, decoded.
pub open spec fn cmdline_words(args: Seq<Seq<u8>>) -> Seq<Seq<char>>
    decreases args.len(),
{
    if args.len() == 0 {
        seq![]
    } else {
        let r = cmdline_words(args.drop_last());
        if args.last().len() == 0 {
            r
        } else {
            r.push(lossy_utf8(args.last()))
        }
    }
}

/// `words.join(" ")`.
pub open spec fn join_space(ws: Seq<Seq<char>>) -> Seq<char>
    decreases ws.len(),
{
    if ws.len() == 0 {
        Seq::empty()
    } else if ws.len() == 1 {
        ws[0]
    } else {
        join_space(ws.drop_last()) + " "@ + ws.last()
    }
}

/// The non-empty arguments, decoded, joined with spaces.
pub open spec fn cmdline_text(args: Seq<Seq<u8>>) -> Seq<char> {
    join_space(cmdline_words(args))
}

/// How a `/proc/<pid>/<name>` file reads as text: the command line with its
/// arguments joined by spaces, anything else decoded and trimmed.
pub open spec fn proc_text_of(name: Seq<char>, raw: Seq<u8>) -> Seq<char> {
    if name == "cmdline"@ {
        cmdline_text(split_nul(raw))
    } else {
        trim(lossy_utf8(raw))
    }
}

fn split_nul_vec(b: &[u8]) -> (r: Vec<Vec<u8>>)
    ensures
        r@.map_values(|x: Vec<u8>| x@) == split_nul(b@),
{
    let mut done: Vec<Vec<u8>> = Vec::new();
    let mut cur: Vec<u8> = Vec::new();
    let mut i: usize = 0;
    while i < b.len()
        invariant
            i <= b.len(),
            done@.map_values(|x: Vec<u8>| x@).push(cur@) == split_nul(b@.take(i as int)),
        decreases b.len() - i,
    {
        let ghost prev = done@.map_values(|x: Vec<u8>| x@).push(cur@);
        proof {
            lemma_split_nul_len(b@.take(i as int));
            assert(b@.take(i + 1).drop_last() == b@.take(i as int));
        }
        if b[i] == 0 {
            done.push(cur);
            cur = Vec::new();
            assert(done@.map_values(|x: Vec<u8>| x@).push(cur@) =~= prev.push(Seq::empty()));
        } else {
            cur.push(b[i]);
            assert(done@.map_values(|x: Vec<u8>| x@).push(cur@) =~= prev.update(
                prev.len() - 1,
                prev.last().push(b@[i as int]),
            ));
        }
        i = i + 1;
    }
    assert(b@.take(b.len() as int) == b@);
    done.push(cur);
    assert(done@.map_values(|x: Vec<u8>| x@) =~= split_nul(b@));
    done
}

proof fn lemma_split_nul_len(b: Seq<u8>)
    ensures
        split_nul(b).len() >= 1,
    decreases b.len(),
{
    if b.len() > 0 {
        lemma_split_nul_len(b.drop_last());
    }
}

/// `words.join(" ")`.
pub fn join_words(words: &Vec<String>) -> (r: String)
    ensures
        r@ == join_space(words@.map_values(|w: String| w@)),
{
    let ghost ws = words@.map_values(|w: String| w@);
    let mut out: Vec<char> = Vec::new();
    let mut i: usize = 0;
    while i < words.len()
        invariant
            i <= words.len(),
            ws == words@.map_values(|w: String| w@),
            out@ == join_space(ws.take(i as int)),
        decreases words.len() - i,
    {
        let w = chars_of(words[i].as_str());
        assert(ws[i as int] == w@);
        assert(ws.take(i + 1).drop_last() == ws.take(i as int));
        if i > 0 {
            push_str(&mut out, " ");
        } else {
            assert(ws.take(1) =~= seq![ws[0]]);
        }
        push_all(&mut out, &w);
        i = i + 1;
    }
    assert(ws.take(words.len() as int) == ws);
    string_of(&out)
}

/// The text of a `/proc/<pid>/<name>` file whose bytes are `raw`.
pub fn proc_text(name: &str, raw: &[u8]) -> (r: String)
    ensures
        r@ == proc_text_of(name@, raw@),
{
    let n = chars_of(name);
    if chars_eq_str(&n, "cmdline") {
        let pieces = split_nul_vec(raw);
        let ghost ps = pieces@.map_values(|x: Vec<u8>| x@);
        let mut words: Vec<String> = Vec::new();
        let mut i: usize = 0;
        while i < pieces.len()
            invariant
                i <= pieces.len(),
                ps == pieces@.map_values(|x: Vec<u8>| x@),
                words@.map_values(|w: String| w@) == cmdline_words(ps.take(i as int)),
            decreases pieces.len() - i,
        {
            assert(ps.take(i + 1).drop_last() == ps.take(i as int));
            assert(ps[i as int] == pieces@[i as int]@);
            if pieces[i].len() > 0 {
                let ghost before = words@.map_values(|w: String| w@);
                let word = decode_lossy(pieces[i].as_slice());
                words.push(word);
                assert(words@.map_values(|w: String| w@) =~= before.push(lossy_utf8(ps[i as int])));
            }
            i = i + 1;
        }
        assert(ps.take(pieces.len() as int) == ps);
        join_words(&words)
    } else {
        let text = decode_lossy(raw);
        let v = chars_of(text.as_str());
        let t = trim_vec(&v);
        string_of(&t)
    }
}


// ---------------------------------------------------------------------------
// One listener per port
// ---------------------------------------------------------------------------

/// Ports strictly increase along the list.
pub open spec fn ports_increasing(s: Seq<Listener>) -> bool {
    forall|i: int, j: int| 0 <= i < j < s.len() ==> s[i].port < s[j].port
}

/// The listener kept for `port`, if any.
pub open spec fn entry_for(s: Seq<Listener>, port: u16) -> Option<Listener> {
    if exists|i: int| 0 <= i < s.len() && s[i].port == port {
        Some(s[choose|i: int| 0 <= i < s.len() && s[i].port == port])
    } else {
        None
    }
}

proof fn lemma_entry_at(s: Seq<Listener>, i: int)
    requires
        ports_increasing(s),
        0 <= i < s.len(),
    ensures
        entry_for(s, s[i].port) == Some(s[i]),
{
    let c = choose|c: int| 0 <= c < s.len() && s[c].port == s[i].port;
    if c < i {
        assert(s[c].port < s[i].port);
    } else if c > i {
        assert(s[i].port < s[c].port);
    }
}

/// Keeps `l` in a list ordered by port, replacing what was kept for its port.
fn insert_by_port(items: &mut Vec<Listener>, l: Listener)
    requires
        ports_increasing(old(items)@),
    ensures
        ports_increasing(final(items)@),
        forall|p: u16|
            #[trigger] entry_for(final(items)@, p) == if p == l.port {
                Some(l)
            } else {
                entry_for(old(items)@, p)
            },
{
    let ghost before = items@;
    let mut pos: usize = 0;
    while pos < items.len() && items[pos].port < l.port
        invariant
            pos <= items.len(),
            items@ == before,
            forall|k: int| 0 <= k < pos ==> items@[k].port < l.port,
        decreases items.len() - pos,
    {
        pos = pos + 1;
    }
    if pos < items.len() && items[pos].port == l.port {
        items.set(pos, l);
        let ghost after = items@;
        assert(ports_increasing(after)) by {
            assert forall|i: int, j: int| 0 <= i < j < after.len() implies after[i].port
                < after[j].port by {
                assert(before[i].port < before[j].port);
            }
        }
        assert forall|p: u16|
            #[trigger] entry_for(after, p) == if p == l.port {
                Some(l)
            } else {
                entry_for(before, p)
            } by {
            if p == l.port {
                lemma_entry_at(after, pos as int);
            } else if exists|i: int| 0 <= i < before.len() && before[i].port == p {
                let i = choose|i: int| 0 <= i < before.len() && before[i].port == p;
                lemma_entry_at(before, i);
                lemma_entry_at(after, i);
            } else {
                assert forall|i: int| 0 <= i < after.len() implies after[i].port != p by {
                    if i != pos {
                        assert(after[i] == before[i]);
                    }
                }
            }
        }
    } else {
        items.insert(pos, l);
        let ghost after = items@;
        assert(ports_increasing(after)) by {
            assert forall|i: int, j: int| 0 <= i < j < after.len() implies after[i].port
                < after[j].port by {
                if j < pos {
                    assert(after[i] == before[i] && after[j] == before[j]);
                } else if j == pos {
                    assert(after[i] == before[i]);
                } else if i == pos {
                    assert(after[j] == before[j - 1]);
                    if j - 1 > pos {
                        assert(before[pos as int].port < before[j - 1].port);
                    }
                } else if i < pos {
                    assert(after[i] == before[i] && after[j] == before[j - 1]);
                } else {
                    assert(after[i] == before[i - 1] && after[j] == before[j - 1]);
                }
            }
        }
        assert forall|p: u16|
            #[trigger] entry_for(after, p) == if p == l.port {
                Some(l)
            } else {
                entry_for(before, p)
            } by {
            if p == l.port {
                lemma_entry_at(after, pos as int);
            } else if exists|i: int| 0 <= i < before.len() && before[i].port == p {
                let i = choose|i: int| 0 <= i < before.len() && before[i].port == p;
                lemma_entry_at(before, i);
                if i < pos {
                    assert(after[i] == before[i]);
                    lemma_entry_at(after, i);
                } else {
                    assert(after[i + 1] == before[i]);
                    lemma_entry_at(after, i + 1);
                }
            } else {
                assert forall|i: int| 0 <= i < after.len() implies after[i].port != p by {
                    if i < pos {
                        assert(after[i] == before[i]);
                    } else if i > pos {
                        assert(after[i] == before[i - 1]);
                    }
                }
            }
        }
    }
}

/// The listeners found so far, one per port, kept in port order.
pub struct ListenerTable {
    items: Vec<Listener>,
}

impl ListenerTable {
    /// Ports strictly increase.
    #[verifier::type_invariant]
    spec fn sorted(self) -> bool {
        ports_increasing(self.items@)
    }

    /// The listeners kept, in port order.
    pub closed spec fn entries(&self) -> Seq<Listener> {
        self.items@
    }

    /// An empty table.
    pub fn new() -> (r: ListenerTable)
        ensures
            r.entries().len() == 0,
    {
        ListenerTable { items: Vec::new() }
    }

    /// The listener kept for `port` belongs to process `pid`.
    pub fn holds(&self, port: u16, pid: i32) -> (r: bool)
        ensures
            r == (entry_for(self.entries(), port) matches Some(l) && l.pid == pid),
    {
        proof {
            use_type_invariant(self);
        }
        let mut i: usize = 0;
        while i < self.items.len()
            invariant
                i <= self.items.len(),
                ports_increasing(self.items@),
                forall|j: int| 0 <= j < i ==> self.items@[j].port != port,
            decreases self.items.len() - i,
        {
            if self.items[i].port == port {
                proof {
                    lemma_entry_at(self.items@, i as int);
                }
                return self.items[i].pid == pid;
            }
            i = i + 1;
        }
        false
    }

    /// Whether the scan keeps the process `pid` found listening on `port`:
    /// it belongs to the user `uid` (or its owner is unknown), its command is
    /// not one that is never shown, and the listener already kept for the
    /// port is not this same process.
    pub fn admits(&self, port: u16, pid: i32, owner: Option<u32>, uid: u32, comm: &str) -> (r: bool)
        ensures
            r == ((owner is None || owner == Some(uid)) && !is_skipped_command_of(comm@) && !(
            entry_for(self.entries(), port) matches Some(l) && l.pid == pid)),
    {
        match owner {
            Some(o) => {
                if o != uid {
                    return false;
                }
            },
            None => {},
        }
        if is_skipped_command(comm) {
            return false;
        }
        !self.holds(port, pid)
    }

    /// Keeps `l` for its port, replacing what was kept for that port.
    pub fn insert(&mut self, l: Listener)
        ensures
            forall|p: u16|
                #[trigger] entry_for(final(self).entries(), p) == if p == l.port {
                    Some(l)
                } else {
                    entry_for(old(self).entries(), p)
                },
    {
        proof {
            use_type_invariant(&*self);
        }
        let mut items: Vec<Listener> = Vec::new();
        std::mem::swap(&mut items, &mut self.items);
        insert_by_port(&mut items, l);
        self.items = items;
    }

    /// The listeners kept, one per port, in increasing port order.
    pub fn into_sorted(self) -> (r: Vec<Listener>)
        ensures
            r@ == self.entries(),
            ports_increasing(r@),
    {
        proof {
            use_type_invariant(&self);
        }
        self.items
    }
}

// ---------------------------------------------------------------------------
// Socket table addresses
// ---------------------------------------------------------------------------

/// Index of the first `c` in `s`.
pub open spec fn byte_index(s: Seq<u8>, c: u8) -> Option<int>
    decreases s.len(),
{
    if s.len() == 0 {
        None
    } else {
        match byte_index(s.drop_last(), c) {
            Some(i) => Some(i),
            None => if s.last() == c {
                Some(s.len() - 1)
            } else {
                None
            },
        }
    }
}

proof fn lemma_byte_index(s: Seq<u8>, c: u8)
    ensures
        match byte_index(s, c) {
            Some(i) => 0 <= i < s.len() && s[i] == c && forall|j: int| 0 <= j < i ==> s[j] != c,
            None => forall|j: int| 0 <= j < s.len() ==> s[j] != c,
        },
    decreases s.len(),
{
    if s.len() > 0 {
        let t = s.drop_last();
        lemma_byte_index(t, c);
        assert forall|j: int| 0 <= j < t.len() implies t[j] == s[j] by {}
    }
}

fn find_byte(b: &[u8], c: u8) -> (r: Option<usize>)
    ensures
        r matches Some(i) ==> i < b.len() && byte_index(b@, c) == Some(i as int),
        r is None ==> byte_index(b@, c) is None,
{
    let mut i: usize = 0;
    while i < b.len()
        invariant
            i <= b.len(),
            forall|j: int| 0 <= j < i ==> b@[j] != c,
        decreases b.len() - i,
    {
        if b[i] == c {
            proof {
                lemma_byte_index(b@, c);
                match byte_index(b@, c) {
                    Some(k) => {
                        if k < i {
                            assert(b@[k] != c);
                        } else if k > i {
                            assert(b@[i as int] != c);
                        }
                    },
                    None => {
                        assert(b@[i as int] != c);
                    },
                }
            }
            return Some(i);
        }
        i = i + 1;
    }
    proof {
        lemma_byte_index(b@, c);
        match byte_index(b@, c) {
            Some(k) => {
                assert(b@[k] != c);
            },
            None => {},
        }
    }
    None
}

/// An ASCII hex digit.
pub open spec fn is_hex_byte(b: u8) -> bool {
    (48 <= b <= 57) || (97 <= b <= 102) || (65 <= b <= 70)
}

/// The value of an ASCII hex digit.
pub open spec fn hex_val(b: u8) -> nat {
    if 48 <= b <= 57 {
        (b - 48) as nat
    } else if 97 <= b <= 102 {
        (b - 87) as nat
    } else {
        (b - 55) as nat
    }
}

/// The value of a run of hex digits.
pub open spec fn hex_value(s: Seq<u8>) -> nat
    decreases s.len(),
{
    if s.len() == 0 {
        0
    } else {
        hex_value(s.drop_last()) * 16 + hex_val(s.last())
    }
}

/// Every byte is an ASCII hex digit.
pub open spec fn all_hex(d: Seq<u8>) -> bool {
    forall|i: int| 0 <= i < d.len() ==> is_hex_byte(#[trigger] d[i])
}

/// The digits of an unsigned literal: an optional leading `+` dropped.
pub open spec fn hex_digits(s: Seq<u8>) -> Seq<u8> {
    if s.len() > 0 && s[0] == 43 {
        s.drop_first()
    } else {
        s
    }
}

/// `uN::from_str_radix(s, 16)` on the bytes of `s`, where `max` is `uN::MAX`:
/// an optional `+`, then at least one hex digit, with a value up to `max`.
pub open spec fn parse_hex(s: Seq<u8>, max: nat) -> Option<nat> {
    let d = hex_digits(s);
    if d.len() > 0 && all_hex(d) && hex_value(d) <= max {
        Some(hex_value(d))
    } else {
        None
    }
}

proof fn lemma_hex_value_prefix(s: Seq<u8>, k: int)
    requires
        0 <= k <= s.len(),
    ensures
        hex_value(s.take(k)) <= hex_value(s),
    decreases s.len() - k,
{
    if k < s.len() {
        lemma_hex_value_prefix(s, k + 1);
        assert(s.take(k + 1).drop_last() == s.take(k));
    } else {
        assert(s.take(k) == s);
    }
}

fn parse_hex_bytes(s: &[u8], max: u64) -> (r: Option<u64>)
    ensures
        r matches Some(x) ==> parse_hex(s@, max as nat) == Some(x as nat),
        r is None ==> parse_hex(s@, max as nat) is None,
{
    let start: usize = if s.len() > 0 && s[0] == 43 {
        1
    } else {
        0
    };
    let ghost d = hex_digits(s@);
    assert(d == s@.skip(start as int));
    if start >= s.len() {
        return None;
    }
    let mut acc: u128 = 0;
    let mut i: usize = start;
    while i < s.len()
        invariant
            start <= i <= s.len(),
            d == s@.skip(start as int),
            d == hex_digits(s@),
            acc == hex_value(d.take(i - start)),
            acc <= max,
            all_hex(d.take(i - start)),
        decreases s.len() - i,
    {
        let c = s[i];
        assert(d[i - start] == c);
        let v: u128 = if 48 <= c && c <= 57 {
            (c - 48) as u128
        } else if 97 <= c && c <= 102 {
            (c - 87) as u128
        } else if 65 <= c && c <= 70 {
            (c - 55) as u128
        } else {
            assert(!is_hex_byte(d[i - start]));
            assert(!all_hex(d));
            return None;
        };
        acc = acc * 16 + v;
        assert(d.take(i + 1 - start).drop_last() == d.take(i - start));
        assert(all_hex(d.take(i + 1 - start)));
        i = i + 1;
        if acc > max as u128 {
            proof {
                lemma_hex_value_prefix(d, i - start);
            }
            return None;
        }
    }
    assert(d.take(i - start) == d);
    Some(acc as u64)
}

/// An IPv4 address from its `u32` in the kernel's byte order, as
/// `Ipv4Addr`'s `Display` writes it.
pub open spec fn ipv4_text(ip: nat) -> Seq<char> {
    dec(ip % 256) + "."@ + dec((ip / 256) % 256) + "."@ + dec((ip / 65536) % 256) + "."@ + dec(
        (ip / 16777216) % 256,
    )
}

/// `parse_ipv4_port` on the bytes of `hex_ip:hex_port`.
pub open spec fn ipv4_port_of(b: Seq<u8>) -> Option<(Seq<char>, u16)> {
    match byte_index(b, 58) {
        None => None,
        Some(i) => match parse_hex(b.take(i), u32::MAX as nat) {
            None => None,
            Some(ip) => match parse_hex(b.skip(i + 1), u16::MAX as nat) {
                None => None,
                Some(port) => Some((ipv4_text(ip), port as u16)),
            },
        },
    }
}

fn dotted(a: u64, b: u64, c: u64, d: u64) -> (r: Vec<char>)
    ensures
        r@ == dec(a as nat) + "."@ + dec(b as nat) + "."@ + dec(c as nat) + "."@ + dec(d as nat),
{
    let mut r = dec_vec(a);
    push_str(&mut r, ".");
    let x = dec_vec(b);
    push_all(&mut r, &x);
    push_str(&mut r, ".");
    let x = dec_vec(c);
    push_all(&mut r, &x);
    push_str(&mut r, ".");
    let x = dec_vec(d);
    push_all(&mut r, &x);
    r
}

/// The IPv4 address and port of a `/proc/net/tcp` address column.
pub fn parse_ipv4_port(addr: &str) -> (r: Option<(String, u16)>)
    ensures
        match ipv4_port_of(addr.spec_bytes()) {
            Some((ip, port)) => r matches Some((rip, rport)) && rip@ == ip && rport == port,
            None => r is None,
        },
{
    let b = addr.as_bytes();
    let i = match find_byte(b, 58) {
        Some(i) => i,
        None => return None,
    };
    let ip = match parse_hex_bytes(vstd::slice::slice_subrange(b, 0, i), 0xffff_ffff) {
        Some(v) => v,
        None => return None,
    };
    let port = match parse_hex_bytes(vstd::slice::slice_subrange(b, i + 1, b.len()), 0xffff) {
        Some(v) => v,
        None => return None,
    };
    let text = dotted(ip % 256, (ip / 256) % 256, (ip / 65536) % 256, (ip / 16777216) % 256);
    Some((string_of(&text), port as u16))
}


// ---------------------------------------------------------------------------
// Hex-encoded bytes
// ---------------------------------------------------------------------------

/// A UTF-8 continuation byte: slicing a string just before it panics.
pub open spec fn is_cont_byte(b: u8) -> bool {
    128 <= b < 192
}

/// The bytes encoded by consecutive pairs of hex digits; nothing once a
/// pair does not read as a byte.
pub open spec fn hex_pairs(b: Seq<u8>) -> Option<Seq<u8>>
    decreases b.len(),
{
    if b.len() < 2 {
        Some(seq![])
    } else {
        match parse_hex(b.take(2), 255) {
            None => None,
            Some(v) => match hex_pairs(b.skip(2)) {
                Some(r) => Some(seq![v as u8] + r),
                None => None,
            },
        }
    }
}

/// Cutting the text into two-byte pieces, up to the first piece that is
/// not a byte, never cuts inside a character.
pub open spec fn pairs_safe(b: Seq<u8>) -> bool
    decreases b.len(),
{
    if b.len() < 2 {
        true
    } else {
        !(b.len() > 2 && is_cont_byte(b[2])) && (parse_hex(b.take(2), 255) is None || pairs_safe(
            b.skip(2),
        ))
    }
}

/// `hex_decode` on the bytes of its text: an even number of hex digits.
pub open spec fn hex_decode_of(b: Seq<u8>) -> Option<Seq<u8>> {
    if b.len() % 2 != 0 {
        None
    } else {
        hex_pairs(b)
    }
}

/// The inputs on which `hex_decode` returns rather than panics.
pub open spec fn hex_decode_safe(b: Seq<u8>) -> bool {
    b.len() % 2 != 0 || pairs_safe(b)
}

fn pairs_safe_exec(b: &[u8]) -> (r: bool)
    ensures
        r == pairs_safe(b@),
{
    let mut i: usize = 0;
    assert(b@.skip(0) == b@);
    while b.len() >= 2 && i <= b.len() - 2
        invariant
            i <= b.len(),
            pairs_safe(b@) == pairs_safe(b@.skip(i as int)),
        decreases b.len() - i,
    {
        let ghost rest = b@.skip(i as int);
        assert(rest.take(2) == b@.subrange(i as int, i + 2));
        assert(rest.skip(2) == b@.skip(i + 2));
        if i + 2 < b.len() && 128 <= b[i + 2] && b[i + 2] < 192 {
            assert(rest[2] == b@[i + 2]);
            return false;
        }
        assert(i + 2 < b.len() ==> rest[2] == b@[i + 2]);
        if parse_hex_bytes(vstd::slice::slice_subrange(b, i, i + 2), 255).is_none() {
            return true;
        }
        i = i + 2;
    }
    true
}

/// Whether `hex_decode(s)` returns rather than panics.
pub fn hex_decode_is_safe(s: &str) -> (r: bool)
    ensures
        r == hex_decode_safe(s.spec_bytes()),
{
    let b = s.as_bytes();
    b.len() % 2 != 0 || pairs_safe_exec(b)
}

/// The bytes written as pairs of hex digits in `s`.
pub fn hex_decode(s: &str) -> (r: Option<Vec<u8>>)
    requires
        hex_decode_safe(s.spec_bytes()),
    ensures
        match hex_decode_of(s.spec_bytes()) {
            Some(v) => r matches Some(rv) && rv@ == v,
            None => r is None,
        },
{
    let b = s.as_bytes();
    if b.len() % 2 != 0 {
        return None;
    }
    hex_pairs_checked(b)
}

// ---------------------------------------------------------------------------
// IPv6 addresses as text
// ---------------------------------------------------------------------------

/// The `k`-th 16-bit group of an address.
pub open spec fn group(o: Seq<u8>, k: int) -> nat {
    (o[2 * k] as nat) * 256 + (o[2 * k + 1] as nat)
}

/// The eight groups of an address.
pub open spec fn groups(o: Seq<u8>) -> Seq<nat> {
    Seq::new(8, |k: int| group(o, k))
}

/// `{:x}`: lowercase hex without leading zeros.
pub open spec fn hex_text(n: nat) -> Seq<char>
    decreases n,
{
    if n < 16 {
        seq![hex_digit(n)]
    } else {
        hex_text(n / 16).push(hex_digit(n % 16))
    }
}

/// Groups in hex, separated by `:`.
pub open spec fn join_groups(s: Seq<nat>) -> Seq<char>
    decreases s.len(),
{
    if s.len() == 0 {
        Seq::empty()
    } else if s.len() == 1 {
        hex_text(s[0])
    } else {
        join_groups(s.drop_last()) + ":"@ + hex_text(s.last())
    }
}

/// Scanning for the longest run of zero groups: `(start, len)` of the first
/// longest run, then `(start, len)` of the run in progress.
pub open spec fn zero_runs(s: Seq<nat>) -> (int, int, int, int)
    decreases s.len(),
{
    if s.len() == 0 {
        (0, 0, 0, 0)
    } else {
        let (bs, bl, cs, cl) = zero_runs(s.drop_last());
        if s.last() == 0 {
            let start = if cl == 0 {
                s.len() - 1
            } else {
                cs
            };
            if cl + 1 > bl {
                (start, cl + 1, start, cl + 1)
            } else {
                (bs, bl, start, cl + 1)
            }
        } else {
            (bs, bl, 0, 0)
        }
    }
}

/// An IPv6 address as `Ipv6Addr`'s `Display` writes it (RFC 5952): an
/// IPv4-mapped address as `::ffff:a.b.c.d`; else the groups in lowercase hex
/// with the first longest run of two or more zero groups written as `::`.
pub open spec fn ipv6_text(o: Seq<u8>) -> Seq<char> {
    let g = groups(o);
    if (forall|i: int| 0 <= i < 10 ==> o[i] == 0) && o[10] == 255 && o[11] == 255 {
        "::ffff:"@ + dec(o[12] as nat) + "."@ + dec(o[13] as nat) + "."@ + dec(o[14] as nat) + "."@
            + dec(o[15] as nat)
    } else {
        let (bs, bl, cs, cl) = zero_runs(g);
        if bl > 1 {
            join_groups(g.take(bs)) + "::"@ + join_groups(g.skip(bs + bl))
        } else {
            join_groups(g)
        }
    }
}

fn hex_text_vec(n: u64) -> (r: Vec<char>)
    ensures
        r@ == hex_text(n as nat),
    decreases n,
{
    if n < 16 {
        let mut r: Vec<char> = Vec::new();
        r.push(hex_digit_exec((n as u8)));
        assert(r@ =~= seq![hex_digit(n as nat)]);
        r
    } else {
        let mut r = hex_text_vec(n / 16);
        r.push(hex_digit_exec((n % 16) as u8));
        r
    }
}

fn join_groups_vec(g: &Vec<u64>, lo: usize, hi: usize, Ghost(gs): Ghost<Seq<nat>>) -> (r: Vec<char>)
    requires
        lo <= hi <= g.len(),
        gs.len() == g.len(),
        forall|k: int| 0 <= k < g.len() ==> g@[k] as nat == gs[k],
    ensures
        r@ == join_groups(gs.subrange(lo as int, hi as int)),
{
    let mut r: Vec<char> = Vec::new();
    let mut i: usize = lo;
    while i < hi
        invariant
            lo <= i <= hi <= g.len(),
            gs.len() == g.len(),
            forall|k: int| 0 <= k < g.len() ==> g@[k] as nat == gs[k],
            r@ == join_groups(gs.subrange(lo as int, i as int)),
        decreases hi - i,
    {
        assert(gs.subrange(lo as int, i + 1).drop_last() == gs.subrange(lo as int, i as int));
        if i > lo {
            push_str(&mut r, ":");
        } else {
            assert(gs.subrange(lo as int, i + 1) == seq![gs[i as int]]);
        }
        let h = hex_text_vec(g[i]);
        push_all(&mut r, &h);
        i = i + 1;
    }
    r
}

/// `Ipv6Addr::from(octets).to_string()`.
fn ipv6_string(o: &Vec<u8>) -> (r: Vec<char>)
    requires
        o.len() == 16,
    ensures
        r@ == ipv6_text(o@),
{
    let mut mapped = o[10] == 255 && o[11] == 255;
    let mut i: usize = 0;
    while i < 10
        invariant
            i <= 10,
            o.len() == 16,
            mapped ==> forall|j: int| 0 <= j < i ==> o@[j] == 0,
            mapped ==> o@[10] == 255 && o@[11] == 255,
            !mapped ==> !((forall|j: int| 0 <= j < 10 ==> o@[j] == 0) && o@[10] == 255 && o@[11]
                == 255),
        decreases 10 - i,
    {
        if o[i] != 0 {
            mapped = false;
        }
        i = i + 1;
    }
    if mapped {
        let mut r = chars_of("::ffff:");
        let d = dotted(o[12] as u64, o[13] as u64, o[14] as u64, o[15] as u64);
        push_all(&mut r, &d);
        return r;
    }
    let ghost gs = groups(o@);
    let mut g: Vec<u64> = Vec::new();
    let mut k: usize = 0;
    while k < 8
        invariant
            k <= 8,
            o.len() == 16,
            gs == groups(o@),
            g.len() == k,
            forall|j: int| 0 <= j < k ==> g@[j] as nat == gs[j],
        decreases 8 - k,
    {
        g.push((o[2 * k] as u64) * 256 + (o[2 * k + 1] as u64));
        k = k + 1;
    }
    let mut bs: usize = 0;
    let mut bl: usize = 0;
    let mut cs: usize = 0;
    let mut cl: usize = 0;
    let mut k: usize = 0;
    while k < 8
        invariant
            k <= 8,
            g.len() == 8,
            gs.len() == 8,
            forall|j: int| 0 <= j < 8 ==> g@[j] as nat == gs[j],
            (bs as int, bl as int, cs as int, cl as int) == zero_runs(gs.take(k as int)),
            bs + bl <= k,
            cs + cl == k || cl == 0,
            cl <= k,
            cs <= k,
        decreases 8 - k,
    {
        assert(gs.take(k + 1).drop_last() == gs.take(k as int));
        if g[k] == 0 {
            if cl == 0 {
                cs = k;
            }
            cl = cl + 1;
            if cl > bl {
                bs = cs;
                bl = cl;
            }
        } else {
            cs = 0;
            cl = 0;
        }
        k = k + 1;
    }
    assert(gs.take(8) == gs);
    if bl > 1 {
        let mut r = join_groups_vec(&g, 0, bs, Ghost(gs));
        push_str(&mut r, "::");
        let tail = join_groups_vec(&g, bs + bl, 8, Ghost(gs));
        push_all(&mut r, &tail);
        assert(gs.subrange(0, bs as int) == gs.take(bs as int));
        assert(gs.subrange(bs + bl, 8) == gs.skip(bs + bl));
        r
    } else {
        let r = join_groups_vec(&g, 0, 8, Ghost(gs));
        assert(gs.subrange(0, 8) == gs);
        r
    }
}

/// The groups as the kernel writes them: every 4-byte word byte-reversed.
pub open spec fn words_of(raw: Seq<u8>) -> Seq<u8> {
    Seq::new(16, |k: int| raw[4 * (k / 4) + 3 - k % 4])
}

/// `parse_ipv6_port` on the bytes of `hex_ip:hex_port`.
pub open spec fn ipv6_port_of(b: Seq<u8>) -> Option<(Seq<char>, u16)> {
    match byte_index(b, 58) {
        None => None,
        Some(i) => if i != 32 {
            None
        } else {
            match hex_decode_of(b.take(i)) {
                None => None,
                Some(raw) => match parse_hex(b.skip(i + 1), u16::MAX as nat) {
                    None => None,
                    Some(port) => Some((ipv6_text(words_of(raw)), port as u16)),
                },
            }
        },
    }
}

/// The inputs on which `parse_ipv6_port` returns rather than panics.
pub open spec fn ipv6_port_safe(b: Seq<u8>) -> bool {
    match byte_index(b, 58) {
        Some(i) => i != 32 || hex_decode_safe(b.take(i)),
        None => true,
    }
}

proof fn lemma_hex_pairs_len(b: Seq<u8>)
    requires
        b.len() % 2 == 0,
    ensures
        hex_pairs(b) matches Some(r) ==> r.len() * 2 == b.len(),
    decreases b.len(),
{
    if b.len() >= 2 {
        lemma_hex_pairs_len(b.skip(2));
    }
}

/// The IPv6 address and port of a `/proc/net/tcp6` address column.
pub fn parse_ipv6_port(addr: &str) -> (r: Option<(String, u16)>)
    requires
        ipv6_port_safe(addr.spec_bytes()),
    ensures
        match ipv6_port_of(addr.spec_bytes()) {
            Some((ip, port)) => r matches Some((rip, rport)) && rip@ == ip && rport == port,
            None => r is None,
        },
{
    let b = addr.as_bytes();
    let i = match find_byte(b, 58) {
        Some(i) => i,
        None => return None,
    };
    if i != 32 {
        return None;
    }
    let ip_hex = vstd::slice::slice_subrange(b, 0, i);
    let raw = match hex_pairs_checked(ip_hex) {
        Some(v) => v,
        None => return None,
    };
    proof {
        lemma_hex_pairs_len(b@.take(32));
    }
    let mut words: Vec<u8> = Vec::new();
    let mut w: usize = 0;
    while w < 16
        invariant
            w <= 16,
            raw@.len() == 16,
            words@.len() == w,
            forall|k: int| 0 <= k < w ==> words@[k] == raw@[4 * (k / 4) + 3 - k % 4],
        decreases 16 - w,
    {
        let src = 4 * (w / 4) + 3 - w % 4;
        words.push(raw[src]);
        w = w + 1;
    }
    assert(words@ =~= words_of(raw@));
    let port = match parse_hex_bytes(vstd::slice::slice_subrange(b, i + 1, b.len()), 0xffff) {
        Some(v) => v,
        None => return None,
    };
    let text = ipv6_string(&words);
    Some((string_of(&text), port as u16))
}

/// Whether `parse_ipv6_port(addr)` returns rather than panics.
pub fn ipv6_port_is_safe(addr: &str) -> (r: bool)
    ensures
        r == ipv6_port_safe(addr.spec_bytes()),
{
    let b = addr.as_bytes();
    match find_byte(b, 58) {
        None => true,
        Some(i) => {
            if i != 32 {
                true
            } else {
                let h = vstd::slice::slice_subrange(b, 0, i);
                assert(h@ == b@.take(i as int));
                h.len() % 2 != 0 || pairs_safe_exec(h)
            }
        },
    }
}

// ---------------------------------------------------------------------------
// Rows of the kernel's socket tables
// ---------------------------------------------------------------------------

/// A listening socket read from one row of `/proc/net/tcp` or `tcp6`.
pub struct Socket {
    pub ip: String,
    pub port: u16,
    pub inode: u64,
}

/// The address column of a row, as parsed for its table.
pub open spec fn address_of(col: Seq<char>, ipv6: bool) -> Option<(Seq<char>, u16)> {
    if ipv6 {
        ipv6_port_of(encode_utf8(col))
    } else {
        ipv4_port_of(encode_utf8(col))
    }
}

/// The listening socket a row describes, if it is one to report: the row has
/// ten columns or more, its state column is `0A` (listening), its address
/// parses, its port is not 0 and not skipped, the address is reachable
/// through loopback, and its inode column is a number.
pub open spec fn socket_of(line: Seq<char>, ipv6: bool, skip: Seq<u16>) -> Option<(Seq<char>, u16, u64)> {
    let parts = tokens(line);
    if parts.len() < 10 || parts[3] != "0A"@ {
        None
    } else {
        match address_of(parts[1], ipv6) {
            None => None,
            Some((ip, port)) => {
                if port == 0 || skip.contains(port) || !is_local_bind_of(ip) {
                    None
                } else {
                    match parse_unsigned(parts[9], u64::MAX as nat) {
                        None => None,
                        Some(inode) => Some((ip, port, inode as u64)),
                    }
                }
            },
        }
    }
}

/// The rows on which reading an IPv6 address would not panic.
pub open spec fn socket_line_safe(line: Seq<char>, ipv6: bool) -> bool {
    let parts = tokens(line);
    parts.len() < 10 || parts[3] != "0A"@ || !ipv6 || ipv6_port_safe(encode_utf8(parts[1]))
}

/// Whether `parse_socket_line` can be called on `line`.
pub fn socket_line_is_safe(line: &str, ipv6: bool) -> (r: bool)
    ensures
        r == socket_line_safe(line@, ipv6),
{
    let v = chars_of(line);
    let parts = tokens_vec(&v);
    if parts.len() < 10 || !chars_eq_str(&parts[3], "0A") || !ipv6 {
        proof {
            if parts.len() >= 10 {
                assert(seqs_of(parts@)[3] == parts@[3]@);
            }
        }
        return true;
    }
    assert(seqs_of(parts@)[3] == parts@[3]@);
    assert(seqs_of(parts@)[1] == parts@[1]@);
    let addr = string_of(&parts[1]);
    ipv6_port_is_safe(addr.as_str())
}

/// The rows of a socket table: its lines after the heading.
pub open spec fn rows_of(text: Seq<char>) -> Seq<Seq<char>> {
    let ls = lines_of(text);
    if ls.len() == 0 {
        ls
    } else {
        ls.skip(1)
    }
}

/// The rows of the text of `/proc/net/tcp` or `tcp6`, heading left out.
pub fn table_rows(text: &str) -> (r: Vec<String>)
    ensures
        r@.map_values(|x: String| x@) == rows_of(text@),
{
    let v = chars_of(text);
    let pieces = split_char_vec(&v, '\n');
    let ghost p = split_char(text@, '\n');
    proof {
        lemma_split_char_len(text@, '\n');
    }
    let ghost ls = lines_of(text@);
    let n = pieces.len();
    assert(seqs_of(pieces@)[n - 1] == pieces@[n - 1]@);
    let count = if pieces[n - 1].len() == 0 {
        n - 1
    } else {
        n
    };
    assert(count == ls.len());
    let mut out: Vec<String> = Vec::new();
    if count == 0 {
        assert(out@.map_values(|x: String| x@) =~= rows_of(text@));
        return out;
    }
    let mut k: usize = 1;
    while k < count
        invariant
            1 <= k <= count,
            count == ls.len(),
            count <= n,
            n == p.len(),
            seqs_of(pieces@) == p,
            p == split_char(text@, '\n'),
            ls == lines_of(text@),
            out@.len() == k - 1,
            forall|j: int| 0 <= j < k - 1 ==> #[trigger] out@[j]@ == ls[j + 1],
        decreases count - k,
    {
        assert(seqs_of(pieces@)[k as int] == pieces@[k as int]@);
        let piece = &pieces[k];
        if k + 1 < n {
            let m = piece.len();
            let line = if m > 0 && piece[m - 1] == '\r' {
                subvec(piece, 0, m - 1)
            } else {
                subvec(piece, 0, m)
            };
            assert(line@ =~= strip_cr(p[k as int]));
            out.push(string_of(&line));
            assert(ls[k as int] == strip_cr(p[k as int]));
        } else {
            out.push(string_of(piece));
            assert(ls[k as int] == p[k as int]);
        }
        k = k + 1;
    }
    assert(out@.map_values(|x: String| x@) =~= rows_of(text@));
    out
}

/// The socket inode a `/proc/<pid>/fd/*` link points at: the number after
/// `socket:[`, closing brackets dropped.
pub open spec fn socket_inode_of(link: Seq<char>) -> Option<u64> {
    if starts_with(link, "socket:["@) {
        match parse_unsigned(trim_end_char(link.skip(8), ']'), u64::MAX as nat) {
            Some(v) => Some(v as u64),
            None => None,
        }
    } else {
        None
    }
}

/// The socket inode behind a file descriptor link, if it is a socket.
pub fn socket_inode(link: &str) -> (r: Option<u64>)
    ensures
        r == socket_inode_of(link@),
{
    let v = chars_of(link);
    let pre = chars_of("socket:[");
    proof {
        reveal_strlit("socket:[");
    }
    if !starts_with_vec(&v, &pre) {
        return None;
    }
    let rest = subvec(&v, 8, v.len());
    let t = trim_end_char_vec(&rest, ']');
    match parse_unsigned_vec(&t, 0xffff_ffff_ffff_ffff) {
        Some(n) => Some(n),
        None => None,
    }
}

fn port_listed(skip: &[u16], port: u16) -> (r: bool)
    ensures
        r == skip@.contains(port),
{
    let mut i: usize = 0;
    while i < skip.len()
        invariant
            i <= skip.len(),
            forall|j: int| 0 <= j < i ==> skip@[j] != port,
        decreases skip.len() - i,
    {
        if skip[i] == port {
            assert(skip@[i as int] == port);
            return true;
        }
        i = i + 1;
    }
    false
}

/// The listening socket described by one row of a socket table, if it is to
/// be reported; `skip` lists ports that are never reported.
pub fn parse_socket_line(line: &str, ipv6: bool, skip: &[u16]) -> (r: Option<Socket>)
    requires
        socket_line_safe(line@, ipv6),
    ensures
        match socket_of(line@, ipv6, skip@) {
            Some((ip, port, inode)) => r matches Some(s) && s.ip@ == ip && s.port == port
                && s.inode == inode,
            None => r is None,
        },
{
    let v = chars_of(line);
    let parts = tokens_vec(&v);
    if parts.len() < 10 {
        return None;
    }
    assert(seqs_of(parts@)[3] == parts@[3]@);
    assert(seqs_of(parts@)[1] == parts@[1]@);
    assert(seqs_of(parts@)[9] == parts@[9]@);
    if !chars_eq_str(&parts[3], "0A") {
        return None;
    }
    let addr = string_of(&parts[1]);
    let parsed = if ipv6 {
        parse_ipv6_port(addr.as_str())
    } else {
        parse_ipv4_port(addr.as_str())
    };
    let (ip, port) = match parsed {
        Some(x) => x,
        None => return None,
    };
    if port == 0 || port_listed(skip, port) || !is_local_bind(ip.as_str()) {
        return None;
    }
    match parse_unsigned_vec(&parts[9], 0xffff_ffff_ffff_ffff) {
        Some(inode) => Some(Socket { ip, port, inode }),
        None => None,
    }
}

/// `hex_decode` on bytes whose length is even and whose decoding never
/// cuts inside a character.
fn hex_pairs_checked(b: &[u8]) -> (r: Option<Vec<u8>>)
    requires
        b.len() % 2 == 0,
    ensures
        match hex_pairs(b@) {
            Some(v) => r matches Some(rv) && rv@ == v,
            None => r is None,
        },
{
    let mut out: Vec<u8> = Vec::new();
    let mut i: usize = 0;
    assert(b@.skip(0) == b@);
    assert(out@ + seq![] == out@);
    while b.len() >= 2 && i <= b.len() - 2
        invariant
            i <= b.len(),
            b.len() % 2 == 0,
            i % 2 == 0,
            hex_pairs(b@) == match hex_pairs(b@.skip(i as int)) {
                Some(r) => Some(out@ + r),
                None => None,
            },
        decreases b.len() - i,
    {
        let ghost rest = b@.skip(i as int);
        assert(rest.take(2) == b@.subrange(i as int, i + 2));
        assert(rest.skip(2) == b@.skip(i + 2));
        match parse_hex_bytes(vstd::slice::slice_subrange(b, i, i + 2), 255) {
            None => {
                return None;
            },
            Some(v) => {
                let ghost before = out@;
                out.push(v as u8);
                proof {
                    match hex_pairs(b@.skip(i + 2)) {
                        Some(r) => {
                            assert(before + (seq![v as u8] + r) =~= out@ + r);
                        },
                        None => {},
                    }
                }
            },
        }
        i = i + 2;
    }
    assert(b@.skip(i as int).len() == 0);
    assert(out@ + Seq::<u8>::empty() =~= out@);
    Some(out)
}

} // verus!
