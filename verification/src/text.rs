//! Character-level string model shared by the rest of the crate.
//!
//! Every string operation the library needs (trimming, ASCII case folding,
//! splitting, searching, decimal numbers) is stated here once as a spec
//! function over `Seq<char>`, together with an executable version proved
//! against it.
use vstd::prelude::*;

verus! {

// ---------------------------------------------------------------------------
// Character classes
// ---------------------------------------------------------------------------

/// `char::is_ascii_digit`.
pub open spec fn is_digit(c: char) -> bool {
    '0' <= c && c <= '9'
}

/// `char::is_ascii_alphanumeric`.
pub open spec fn is_alnum(c: char) -> bool {
    ('a' <= c && c <= 'z') || ('A' <= c && c <= 'Z') || ('0' <= c && c <= '9')
}

/// `char::is_whitespace`: the Unicode `White_Space` property.
pub open spec fn is_ws(c: char) -> bool {
    let x = c as u32;
    (0x09 <= x && x <= 0x0d) || x == 0x20 || x == 0x85 || x == 0xa0 || x == 0x1680 || (0x2000
        <= x && x <= 0x200a) || x == 0x2028 || x == 0x2029 || x == 0x202f || x == 0x205f || x
        == 0x3000
}

/// `char::to_ascii_lowercase`.
pub open spec fn lower_char(c: char) -> char {
    if 'A' <= c && c <= 'Z' {
        ((c as u32) + 32) as char
    } else {
        c
    }
}

/// `str::to_ascii_lowercase`.
pub open spec fn lower(s: Seq<char>) -> Seq<char> {
    s.map_values(|c: char| lower_char(c))
}

/// `char::to_ascii_uppercase`.
pub open spec fn upper_char(c: char) -> char {
    if 'a' <= c && c <= 'z' {
        ((c as u32) - 32) as char
    } else {
        c
    }
}

/// `str::to_ascii_uppercase`.
pub open spec fn upper(s: Seq<char>) -> Seq<char> {
    s.map_values(|c: char| upper_char(c))
}

pub fn is_digit_exec(c: char) -> (r: bool)
    ensures
        r == is_digit(c),
{
    '0' <= c && c <= '9'
}

pub fn is_alnum_exec(c: char) -> (r: bool)
    ensures
        r == is_alnum(c),
{
    ('a' <= c && c <= 'z') || ('A' <= c && c <= 'Z') || ('0' <= c && c <= '9')
}

pub fn is_ws_exec(c: char) -> (r: bool)
    ensures
        r == is_ws(c),
{
    let x = c as u32;
    (0x09 <= x && x <= 0x0d) || x == 0x20 || x == 0x85 || x == 0xa0 || x == 0x1680 || (0x2000
        <= x && x <= 0x200a) || x == 0x2028 || x == 0x2029 || x == 0x202f || x == 0x205f || x
        == 0x3000
}

pub fn lower_char_exec(c: char) -> (r: char)
    ensures
        r == lower_char(c),
{
    if 'A' <= c && c <= 'Z' {
        let x: u32 = (c as u32) + 32;
        (x as u8) as char
    } else {
        c
    }
}

// ---------------------------------------------------------------------------
// Conversions between `str`, `String` and `Vec<char>`
// ---------------------------------------------------------------------------

/// `String::push`, taken on trust: afterwards the string holds its old
/// characters followed by `c`.
#[verifier::external_body]
fn push_char(s: &mut String, c: char)
    ensures
        final(s)@ == old(s)@.push(c),
{
    s.push(c);
}

/// The characters of `s`, in order.
pub fn chars_of(s: &str) -> (v: Vec<char>)
    ensures
        v@ == s@,
{
    let mut v: Vec<char> = Vec::new();
    for c in it: s.chars()
        invariant
            v@ == it.seq().take(it.index() as int),
            it.seq() == s@,
    {
        v.push(c);
    }
    v
}

/// A `String` holding exactly the characters of `v`.
pub fn string_of(v: &Vec<char>) -> (s: String)
    ensures
        s@ == v@,
{
    let mut s = String::new();
    let mut i: usize = 0;
    while i < v.len()
        invariant
            i <= v.len(),
            s@ == v@.take(i as int),
        decreases v.len() - i,
    {
        push_char(&mut s, v[i]);
        i = i + 1;
        assert(v@.take(i as int) == v@.take(i - 1).push(v@[i - 1]));
    }
    assert(v@.take(v.len() as int) == v@);
    s
}

/// Appends every character of `b` to `a`.
pub fn push_all(a: &mut Vec<char>, b: &Vec<char>)
    ensures
        final(a)@ == old(a)@ + b@,
{
    let mut i: usize = 0;
    while i < b.len()
        invariant
            i <= b.len(),
            a@ == old(a)@ + b@.take(i as int),
        decreases b.len() - i,
    {
        a.push(b[i]);
        i = i + 1;
        assert(b@.take(i as int) == b@.take(i - 1).push(b@[i - 1]));
    }
    assert(b@.take(b.len() as int) == b@);
}

/// Appends every character of the string `b` to `a`.
pub fn push_str(a: &mut Vec<char>, b: &str)
    ensures
        final(a)@ == old(a)@ + b@,
{
    let v = chars_of(b);
    push_all(a, &v);
}

/// `v[lo..hi]` as a new vector.
pub fn subvec(v: &Vec<char>, lo: usize, hi: usize) -> (r: Vec<char>)
    requires
        lo <= hi <= v.len(),
    ensures
        r@ == v@.subrange(lo as int, hi as int),
{
    let mut r: Vec<char> = Vec::new();
    let mut i: usize = lo;
    while i < hi
        invariant
            lo <= i <= hi <= v.len(),
            r@ == v@.subrange(lo as int, i as int),
        decreases hi - i,
    {
        r.push(v[i]);
        i = i + 1;
        assert(v@.subrange(lo as int, i as int) == v@.subrange(lo as int, i - 1).push(
            v@[i - 1],
        ));
    }
    r
}

/// A copy of `v`.
pub fn copy_chars(v: &Vec<char>) -> (r: Vec<char>)
    ensures
        r@ == v@,
{
    let r = subvec(v, 0, v.len());
    assert(v@.subrange(0, v@.len() as int) == v@);
    r
}

/// `a == b` on character sequences.
pub fn chars_eq(a: &Vec<char>, b: &Vec<char>) -> (r: bool)
    ensures
        r == (a@ == b@),
{
    if a.len() != b.len() {
        return false;
    }
    let mut i: usize = 0;
    while i < a.len()
        invariant
            a.len() == b.len(),
            i <= a.len(),
            forall|j: int| 0 <= j < i ==> a@[j] == b@[j],
        decreases a.len() - i,
    {
        if a[i] != b[i] {
            return false;
        }
        i = i + 1;
    }
    assert(a@ =~= b@);
    true
}

/// `v == s` for a string slice `s`.
pub fn chars_eq_str(v: &Vec<char>, s: &str) -> (r: bool)
    ensures
        r == (v@ == s@),
{
    let w = chars_of(s);
    chars_eq(v, &w)
}

/// ASCII lowercase of every character.
pub fn lower_vec(v: &Vec<char>) -> (r: Vec<char>)
    ensures
        r@ == lower(v@),
{
    let mut r: Vec<char> = Vec::new();
    let mut i: usize = 0;
    while i < v.len()
        invariant
            i <= v.len(),
            r@ == lower(v@.take(i as int)),
        decreases v.len() - i,
    {
        let c = lower_char_exec(v[i]);
        r.push(c);
        i = i + 1;
        assert(lower(v@.take(i as int)) =~= lower(v@.take(i - 1)).push(lower_char(v@[i - 1])));
    }
    assert(v@.take(v.len() as int) == v@);
    r
}

// ---------------------------------------------------------------------------
// Trimming
// ---------------------------------------------------------------------------

/// `str::trim_start`.
pub open spec fn trim_start(s: Seq<char>) -> Seq<char>
    decreases s.len(),
{
    if s.len() > 0 && is_ws(s[0]) {
        trim_start(s.drop_first())
    } else {
        s
    }
}

/// `str::trim_end`.
pub open spec fn trim_end(s: Seq<char>) -> Seq<char>
    decreases s.len(),
{
    if s.len() > 0 && is_ws(s.last()) {
        trim_end(s.drop_last())
    } else {
        s
    }
}

/// `str::trim`.
pub open spec fn trim(s: Seq<char>) -> Seq<char> {
    trim_end(trim_start(s))
}

/// `str::trim_start_matches(c)` for one character.
pub open spec fn trim_start_char(s: Seq<char>, c: char) -> Seq<char>
    decreases s.len(),
{
    if s.len() > 0 && s[0] == c {
        trim_start_char(s.drop_first(), c)
    } else {
        s
    }
}

/// `str::trim_end_matches(c)` for one character.
pub open spec fn trim_end_char(s: Seq<char>, c: char) -> Seq<char>
    decreases s.len(),
{
    if s.len() > 0 && s.last() == c {
        trim_end_char(s.drop_last(), c)
    } else {
        s
    }
}

/// `str::trim_matches(c)` for one character.
pub open spec fn trim_char(s: Seq<char>, c: char) -> Seq<char> {
    trim_end_char(trim_start_char(s, c), c)
}

/// Index of the first character of `v` that is not whitespace.
fn trim_start_index(v: &Vec<char>) -> (i: usize)
    ensures
        i <= v.len(),
        v@.skip(i as int) == trim_start(v@),
{
    let mut i: usize = 0;
    assert(v@.skip(0) == v@);
    while i < v.len() && is_ws_exec(v[i])
        invariant
            i <= v.len(),
            trim_start(v@) == trim_start(v@.skip(i as int)),
        decreases v.len() - i,
    {
        assert(v@.skip(i as int).drop_first() == v@.skip(i + 1));
        i = i + 1;
    }
    i
}

/// `str::trim`.
pub fn trim_vec(v: &Vec<char>) -> (r: Vec<char>)
    ensures
        r@ == trim(v@),
{
    let lo = trim_start_index(v);
    let mut hi: usize = v.len();
    assert(v@.subrange(lo as int, v.len() as int) == v@.skip(lo as int));
    while hi > lo && is_ws_exec(v[hi - 1])
        invariant
            lo <= hi <= v.len(),
            trim(v@) == trim_end(v@.subrange(lo as int, hi as int)),
        decreases hi,
    {
        assert(v@.subrange(lo as int, hi as int).drop_last() == v@.subrange(
            lo as int,
            hi - 1,
        ));
        hi = hi - 1;
    }
    subvec(v, lo, hi)
}

/// `str::trim_end_matches(c)`.
pub fn trim_end_char_vec(v: &Vec<char>, c: char) -> (r: Vec<char>)
    ensures
        r@ == trim_end_char(v@, c),
{
    let mut hi: usize = v.len();
    assert(v@.subrange(0, v.len() as int) == v@);
    while hi > 0 && v[hi - 1] == c
        invariant
            hi <= v.len(),
            trim_end_char(v@, c) == trim_end_char(v@.subrange(0, hi as int), c),
        decreases hi,
    {
        assert(v@.subrange(0, hi as int).drop_last() == v@.subrange(0, hi - 1));
        hi = hi - 1;
    }
    subvec(v, 0, hi)
}

/// `str::trim_matches(c)`.
pub fn trim_char_vec(v: &Vec<char>, c: char) -> (r: Vec<char>)
    ensures
        r@ == trim_char(v@, c),
{
    let mut lo: usize = 0;
    assert(v@.skip(0) == v@);
    while lo < v.len() && v[lo] == c
        invariant
            lo <= v.len(),
            trim_start_char(v@, c) == trim_start_char(v@.skip(lo as int), c),
        decreases v.len() - lo,
    {
        assert(v@.skip(lo as int).drop_first() == v@.skip(lo + 1));
        lo = lo + 1;
    }
    let s = subvec(v, lo, v.len());
    assert(s@ == v@.skip(lo as int));
    trim_end_char_vec(&s, c)
}


// ---------------------------------------------------------------------------
// Searching
// ---------------------------------------------------------------------------

/// Index of the first `c` in `s` (`str::find` for one character).
pub open spec fn index_of(s: Seq<char>, c: char) -> Option<int>
    decreases s.len(),
{
    if s.len() == 0 {
        None
    } else {
        match index_of(s.drop_last(), c) {
            Some(i) => Some(i),
            None => if s.last() == c {
                Some(s.len() - 1)
            } else {
                None
            },
        }
    }
}

/// Index of the last `c` in `s` (`str::rfind` for one character).
pub open spec fn rindex_of(s: Seq<char>, c: char) -> Option<int>
    decreases s.len(),
{
    if s.len() == 0 {
        None
    } else if s.last() == c {
        Some(s.len() - 1)
    } else {
        rindex_of(s.drop_last(), c)
    }
}

/// The part of `s` before its first `c`, or all of `s` (`s.split(c).next()`).
pub open spec fn before_first(s: Seq<char>, c: char) -> Seq<char> {
    match index_of(s, c) {
        Some(i) => s.take(i),
        None => s,
    }
}

/// The part of `s` after its last `c`, or all of `s` (`s.split(c).next_back()`).
pub open spec fn after_last(s: Seq<char>, c: char) -> Seq<char> {
    match rindex_of(s, c) {
        Some(i) => s.skip(i + 1),
        None => s,
    }
}

/// `s.contains(c)`.
pub open spec fn has_char(s: Seq<char>, c: char) -> bool {
    exists|i: int| 0 <= i < s.len() && s[i] == c
}

/// `s.starts_with(p)`.
pub open spec fn starts_with(s: Seq<char>, p: Seq<char>) -> bool {
    p.len() <= s.len() && s.take(p.len() as int) == p
}

/// `s.ends_with(p)`.
pub open spec fn ends_with(s: Seq<char>, p: Seq<char>) -> bool {
    p.len() <= s.len() && s.skip(s.len() - p.len()) == p
}

/// `index_of` finds the first occurrence, and `None` means there is none.
pub proof fn lemma_index_of(s: Seq<char>, c: char)
    ensures
        match index_of(s, c) {
            Some(i) => 0 <= i < s.len() && s[i] == c && forall|j: int| 0 <= j < i ==> s[j] != c,
            None => forall|j: int| 0 <= j < s.len() ==> s[j] != c,
        },
    decreases s.len(),
{
    if s.len() > 0 {
        let t = s.drop_last();
        lemma_index_of(t, c);
        assert forall|j: int| 0 <= j < t.len() implies t[j] == s[j] by {}
    }
}

/// `rindex_of` finds the last occurrence, and `None` means there is none.
pub proof fn lemma_rindex_of(s: Seq<char>, c: char)
    ensures
        match rindex_of(s, c) {
            Some(i) => 0 <= i < s.len() && s[i] == c && forall|j: int| i < j < s.len() ==> s[j]
                != c,
            None => forall|j: int| 0 <= j < s.len() ==> s[j] != c,
        },
    decreases s.len(),
{
    if s.len() > 0 {
        let t = s.drop_last();
        lemma_rindex_of(t, c);
        assert forall|j: int| 0 <= j < t.len() implies t[j] == s[j] by {}
    }
}

/// Position of the first `c` in `v`.
pub fn find_char(v: &Vec<char>, c: char) -> (r: Option<usize>)
    ensures
        r matches Some(i) ==> i < v.len() && index_of(v@, c) == Some(i as int),
        r is None ==> index_of(v@, c) is None,
{
    proof {
        lemma_index_of(v@, c);
    }
    let mut i: usize = 0;
    while i < v.len()
        invariant
            i <= v.len(),
            forall|j: int| 0 <= j < i ==> v@[j] != c,
        decreases v.len() - i,
    {
        if v[i] == c {
            proof {
                lemma_index_of(v@, c);
                match index_of(v@, c) {
                    Some(k) => {
                        if k < i {
                            assert(v@[k] != c);
                        } else if k > i {
                            assert(v@[i as int] != c);
                        }
                    },
                    None => {
                        assert(v@[i as int] != c);
                    },
                }
            }
            return Some(i);
        }
        i = i + 1;
    }
    None
}

/// Position of the last `c` in `v`.
pub fn rfind_char(v: &Vec<char>, c: char) -> (r: Option<usize>)
    ensures
        r matches Some(i) ==> i < v.len() && rindex_of(v@, c) == Some(i as int),
        r is None ==> rindex_of(v@, c) is None,
{
    proof {
        lemma_rindex_of(v@, c);
    }
    let mut i: usize = v.len();
    while i > 0
        invariant
            i <= v.len(),
            forall|j: int| i <= j < v.len() ==> v@[j] != c,
        decreases i,
    {
        if v[i - 1] == c {
            proof {
                lemma_rindex_of(v@, c);
                let m = i - 1;
                match rindex_of(v@, c) {
                    Some(k) => {
                        if k < m {
                            assert(v@[m] != c);
                        } else if k > m {
                            assert(v@[k] != c);
                        }
                    },
                    None => {
                        assert(v@[m] != c);
                    },
                }
            }
            return Some(i - 1);
        }
        i = i - 1;
    }
    None
}

/// `s.split(c).next()`.
pub fn before_first_vec(v: &Vec<char>, c: char) -> (r: Vec<char>)
    ensures
        r@ == before_first(v@, c),
{
    match find_char(v, c) {
        Some(i) => subvec(v, 0, i),
        None => copy_chars(v),
    }
}

/// `s.split(c).next_back()`.
pub fn after_last_vec(v: &Vec<char>, c: char) -> (r: Vec<char>)
    ensures
        r@ == after_last(v@, c),
{
    proof {
        lemma_rindex_of(v@, c);
    }
    match rfind_char(v, c) {
        Some(i) => subvec(v, i + 1, v.len()),
        None => copy_chars(v),
    }
}

/// `s.starts_with(p)`.
pub fn starts_with_vec(v: &Vec<char>, p: &Vec<char>) -> (r: bool)
    ensures
        r == starts_with(v@, p@),
{
    if p.len() > v.len() {
        return false;
    }
    let head = subvec(v, 0, p.len());
    chars_eq(&head, p)
}

/// `s.ends_with(p)`.
pub fn ends_with_vec(v: &Vec<char>, p: &Vec<char>) -> (r: bool)
    ensures
        r == ends_with(v@, p@),
{
    if p.len() > v.len() {
        return false;
    }
    let tail = subvec(v, v.len() - p.len(), v.len());
    chars_eq(&tail, p)
}

/// `s.contains(c)`.
pub fn has_char_vec(v: &Vec<char>, c: char) -> (r: bool)
    ensures
        r == has_char(v@, c),
{
    proof {
        lemma_index_of(v@, c);
    }
    find_char(v, c).is_some()
}

// ---------------------------------------------------------------------------
// Splitting
// ---------------------------------------------------------------------------

/// The views of a vector of character vectors.
pub open spec fn seqs_of(v: Seq<Vec<char>>) -> Seq<Seq<char>> {
    v.map_values(|x: Vec<char>| x@)
}

/// `str::split(c)`: the pieces between occurrences of `c`, empty ones included.
pub open spec fn split_char(s: Seq<char>, c: char) -> Seq<Seq<char>>
    decreases s.len(),
{
    if s.len() == 0 {
        seq![Seq::empty()]
    } else {
        let p = split_char(s.drop_last(), c);
        if s.last() == c {
            p.push(Seq::empty())
        } else {
            p.update(p.len() - 1, p.last().push(s.last()))
        }
    }
}

/// A line without the `\r` of a `\r\n` ending.
pub open spec fn strip_cr(p: Seq<char>) -> Seq<char> {
    if p.len() > 0 && p.last() == '\r' {
        p.drop_last()
    } else {
        p
    }
}

/// `str::lines`: the pieces ended by `\n` (a `\r` before it dropped), then
/// what follows the last `\n` unless it is empty.
pub open spec fn lines_of(s: Seq<char>) -> Seq<Seq<char>> {
    let p = split_char(s, '\n');
    let ended = p.drop_last().map_values(|x: Seq<char>| strip_cr(x));
    if p.last().len() == 0 {
        ended
    } else {
        ended.push(p.last())
    }
}

/// `str::split("\r\n")`.
pub open spec fn split_crlf(s: Seq<char>) -> Seq<Seq<char>>
    decreases s.len(),
{
    if s.len() == 0 {
        seq![Seq::empty()]
    } else if s.len() >= 2 && s[s.len() - 2] == '\r' && s[s.len() - 1] == '\n' {
        split_crlf(s.take(s.len() - 2)).push(Seq::empty())
    } else {
        let p = split_crlf(s.drop_last());
        p.update(p.len() - 1, p.last().push(s.last()))
    }
}

/// `str::split_whitespace`: the maximal runs of non-whitespace characters.
pub open spec fn tokens(s: Seq<char>) -> Seq<Seq<char>>
    decreases s.len(),
{
    if s.len() == 0 {
        seq![]
    } else {
        let p = tokens(s.drop_last());
        if is_ws(s.last()) {
            p
        } else if s.len() >= 2 && !is_ws(s[s.len() - 2]) {
            p.update(p.len() - 1, p.last().push(s.last()))
        } else {
            p.push(seq![s.last()])
        }
    }
}

pub proof fn lemma_split_char_len(s: Seq<char>, c: char)
    ensures
        split_char(s, c).len() >= 1,
    decreases s.len(),
{
    if s.len() > 0 {
        lemma_split_char_len(s.drop_last(), c);
    }
}

/// Every character other than `c` sits in one of the pieces; the last piece
/// is empty exactly when `s` ends with `c`, and otherwise ends as `s` does.
pub proof fn lemma_split_char_covers(s: Seq<char>, c: char)
    ensures
        forall|j: int|
            0 <= j < s.len() && s[j] != c ==> exists|k: int, m: int|
                0 <= k < split_char(s, c).len() && 0 <= m < split_char(s, c)[k].len()
                    && #[trigger] split_char(s, c)[k][m] == s[j],
        s.len() > 0 && s.last() == c ==> split_char(s, c).last().len() == 0,
        s.len() > 0 && s.last() != c ==> split_char(s, c).last().len() > 0
            && split_char(s, c).last().last() == s.last(),
    decreases s.len(),
{
    lemma_split_char_len(s, c);
    if s.len() > 0 {
        let t = s.drop_last();
        let p = split_char(t, c);
        let q = split_char(s, c);
        lemma_split_char_covers(t, c);
        lemma_split_char_len(t, c);
        assert forall|j: int| 0 <= j < s.len() && s[j] != c implies exists|k: int, m: int|
            0 <= k < q.len() && 0 <= m < q[k].len() && #[trigger] q[k][m] == s[j] by {
            if j < t.len() {
                assert(t[j] == s[j]);
                let (k, m) = choose|k: int, m: int|
                    0 <= k < p.len() && 0 <= m < p[k].len() && #[trigger] p[k][m] == t[j];
                if s.last() == c {
                    assert(q[k] == p[k]);
                } else if k < p.len() - 1 {
                    assert(q[k] == p[k]);
                } else {
                    assert(q[k] == p[k].push(s.last()));
                    assert(q[k][m] == p[k][m]);
                }
                assert(q[k][m] == s[j]);
            } else {
                assert(q.last() == p.last().push(s.last()));
                assert(q[q.len() - 1][p.last().len() as int] == s[j]);
            }
        }
    }
}

pub proof fn lemma_split_crlf_len(s: Seq<char>)
    ensures
        split_crlf(s).len() >= 1,
    decreases s.len(),
{
    if s.len() >= 2 && s[s.len() - 2] == '\r' && s[s.len() - 1] == '\n' {
        lemma_split_crlf_len(s.take(s.len() - 2));
    } else if s.len() > 0 {
        lemma_split_crlf_len(s.drop_last());
    }
}

pub proof fn lemma_tokens_len(s: Seq<char>)
    ensures
        s.len() > 0 && !is_ws(s.last()) ==> tokens(s).len() >= 1,
    decreases s.len(),
{
    if s.len() > 0 {
        lemma_tokens_len(s.drop_last());
    }
}

/// `str::split(c)`.
pub fn split_char_vec(v: &Vec<char>, c: char) -> (r: Vec<Vec<char>>)
    ensures
        seqs_of(r@) == split_char(v@, c),
{
    let mut done: Vec<Vec<char>> = Vec::new();
    let mut cur: Vec<char> = Vec::new();
    let mut i: usize = 0;
    while i < v.len()
        invariant
            i <= v.len(),
            seqs_of(done@).push(cur@) == split_char(v@.take(i as int), c),
        decreases v.len() - i,
    {
        let ghost prev = seqs_of(done@).push(cur@);
        proof {
            lemma_split_char_len(v@.take(i as int), c);
            assert(v@.take(i + 1).drop_last() == v@.take(i as int));
        }
        if v[i] == c {
            done.push(cur);
            cur = Vec::new();
            assert(seqs_of(done@).push(cur@) =~= prev.push(Seq::empty()));
        } else {
            cur.push(v[i]);
            assert(seqs_of(done@).push(cur@) =~= prev.update(
                prev.len() - 1,
                prev.last().push(v@[i as int]),
            ));
        }
        i = i + 1;
    }
    assert(v@.take(v.len() as int) == v@);
    done.push(cur);
    assert(seqs_of(done@) =~= split_char(v@, c));
    done
}

/// `str::split("\r\n")`.
pub fn split_crlf_vec(v: &Vec<char>) -> (r: Vec<Vec<char>>)
    ensures
        seqs_of(r@) == split_crlf(v@),
{
    let mut done: Vec<Vec<char>> = Vec::new();
    let mut cur: Vec<char> = Vec::new();
    let mut i: usize = 0;
    while i < v.len()
        invariant
            i <= v.len(),
            seqs_of(done@).push(cur@) == split_crlf(v@.take(i as int)),
            0 < i < v.len() && v@[i - 1] == '\r' ==> v@[i as int] != '\n',
        decreases v.len() - i,
    {
        let ghost prev = seqs_of(done@).push(cur@);
        proof {
            lemma_split_crlf_len(v@.take(i as int));
        }
        if v[i] == '\r' && i + 1 < v.len() && v[i + 1] == '\n' {
            done.push(cur);
            cur = Vec::new();
            assert(v@.take(i + 2).take(i as int) == v@.take(i as int));
            assert(seqs_of(done@).push(cur@) =~= prev.push(Seq::empty()));
            i = i + 2;
        } else {
            cur.push(v[i]);
            assert(v@.take(i + 1).drop_last() == v@.take(i as int));
            assert(seqs_of(done@).push(cur@) =~= prev.update(
                prev.len() - 1,
                prev.last().push(v@[i as int]),
            ));
            i = i + 1;
        }
    }
    assert(v@.take(v.len() as int) == v@);
    done.push(cur);
    assert(seqs_of(done@) =~= split_crlf(v@));
    done
}

/// `str::split_whitespace`.
pub fn tokens_vec(v: &Vec<char>) -> (r: Vec<Vec<char>>)
    ensures
        seqs_of(r@) == tokens(v@),
{
    let mut done: Vec<Vec<char>> = Vec::new();
    let mut cur: Vec<char> = Vec::new();
    let mut i: usize = 0;
    while i < v.len()
        invariant
            i <= v.len(),
            cur@.len() == 0 <==> (i == 0 || is_ws(v@[i - 1])),
            tokens(v@.take(i as int)) == if cur@.len() == 0 {
                seqs_of(done@)
            } else {
                seqs_of(done@).push(cur@)
            },
        decreases v.len() - i,
    {
        let ghost pd = seqs_of(done@);
        let ghost pc = cur@;
        proof {
            assert(v@.take(i + 1).drop_last() == v@.take(i as int));
            lemma_tokens_len(v@.take(i as int));
        }
        if is_ws_exec(v[i]) {
            if cur.len() > 0 {
                done.push(cur);
                cur = Vec::new();
                assert(seqs_of(done@) =~= pd.push(pc));
            }
        } else {
            cur.push(v[i]);
            if cur.len() == 1 {
                assert(cur@ =~= seq![v@[i as int]]);
                assert(seqs_of(done@).push(cur@) =~~= tokens(v@.take(i as int)).push(
                    seq![v@[i as int]],
                ));
            } else {
                assert(seqs_of(done@).push(cur@) =~= pd.push(pc).update(
                    pd.len() as int,
                    pc.push(v@[i as int]),
                ));
            }
        }
        i = i + 1;
    }
    assert(v@.take(v.len() as int) == v@);
    if cur.len() > 0 {
        done.push(cur);
    }
    assert(seqs_of(done@) =~= tokens(v@));
    done
}


// ---------------------------------------------------------------------------
// Decimal numbers
// ---------------------------------------------------------------------------

/// The ASCII digit for `d < 10`.
pub open spec fn digit_char(d: nat) -> char {
    (('0' as u32) + d) as char
}

/// The decimal text of `n`, as `Display` writes an unsigned integer.
pub open spec fn dec(n: nat) -> Seq<char>
    decreases n,
{
    if n < 10 {
        seq![digit_char(n)]
    } else {
        dec(n / 10).push(digit_char(n % 10))
    }
}

/// The value of an ASCII digit.
pub open spec fn digit_val(c: char) -> nat {
    ((c as u32) - ('0' as u32)) as nat
}

/// Every character is an ASCII digit.
pub open spec fn all_digits(s: Seq<char>) -> bool {
    forall|i: int| 0 <= i < s.len() ==> is_digit(#[trigger] s[i])
}

/// The value of a run of decimal digits.
pub open spec fn digits_value(s: Seq<char>) -> nat
    decreases s.len(),
{
    if s.len() == 0 {
        0
    } else {
        digits_value(s.drop_last()) * 10 + digit_val(s.last())
    }
}

/// The digits of an unsigned decimal literal: an optional leading `+` is dropped.
pub open spec fn unsigned_digits(s: Seq<char>) -> Seq<char> {
    if s.len() > 0 && s[0] == '+' {
        s.drop_first()
    } else {
        s
    }
}

/// `<uN as FromStr>::from_str` where `max` is `uN::MAX`: an optional `+`, then
/// at least one ASCII digit, with a value no greater than `max`.
pub open spec fn parse_unsigned(s: Seq<char>, max: nat) -> Option<nat> {
    let d = unsigned_digits(s);
    if d.len() > 0 && all_digits(d) && digits_value(d) <= max {
        Some(digits_value(d))
    } else {
        None
    }
}

fn digit_char_exec(d: u64) -> (c: char)
    requires
        d < 10,
    ensures
        c == digit_char(d as nat),
{
    let x: u8 = (d as u8) + 48;
    x as char
}

/// `n.to_string()` for an unsigned integer.
pub fn dec_vec(n: u64) -> (r: Vec<char>)
    ensures
        r@ == dec(n as nat),
    decreases n,
{
    if n < 10 {
        let mut r: Vec<char> = Vec::new();
        r.push(digit_char_exec(n));
        assert(r@ =~= seq![digit_char(n as nat)]);
        r
    } else {
        let mut r = dec_vec(n / 10);
        r.push(digit_char_exec(n % 10));
        r
    }
}

/// `n.to_string()` as a `String`.
pub fn dec_string(n: u64) -> (r: String)
    ensures
        r@ == dec(n as nat),
{
    let v = dec_vec(n);
    string_of(&v)
}

proof fn lemma_digit_char(d: nat)
    requires
        d < 10,
    ensures
        is_digit(digit_char(d)),
        digit_val(digit_char(d)) == d,
{
    assert(('0' as u32) == 48);
    let c = digit_char(d);
    assert(c as u32 == 48 + d);
}

/// `dec(n)` is a non-empty run of ASCII digits whose value is `n`.
pub proof fn lemma_dec(n: nat)
    ensures
        dec(n).len() > 0,
        all_digits(dec(n)),
        digits_value(dec(n)) == n,
    decreases n,
{
    lemma_digit_char(n % 10);
    if n < 10 {
        assert(dec(n).drop_last() =~= Seq::<char>::empty());
        assert(digits_value(dec(n)) == digits_value(Seq::<char>::empty()) * 10 + digit_val(
            digit_char(n),
        ));
    } else {
        lemma_dec(n / 10);
        let d = dec(n / 10);
        assert(dec(n).drop_last() == d);
        assert(all_digits(dec(n))) by {
            assert forall|i: int| 0 <= i < dec(n).len() implies is_digit(#[trigger] dec(n)[i]) by {
                if i < d.len() {
                    assert(dec(n)[i] == d[i]);
                }
            }
        }
        assert(n == (n / 10) * 10 + n % 10) by (nonlinear_arith);
    }
}

/// Reading back what `dec` writes: `n` itself, when it fits.
pub proof fn lemma_parse_dec(n: nat, max: nat)
    requires
        n <= max,
    ensures
        parse_unsigned(dec(n), max) == Some(n),
{
    lemma_dec(n);
    assert(is_digit(dec(n)[0]));
    assert(unsigned_digits(dec(n)) == dec(n));
}

/// A longer run of digits has a value at least as large.
pub proof fn lemma_digits_value_prefix(s: Seq<char>, k: int)
    requires
        0 <= k <= s.len(),
    ensures
        digits_value(s.take(k)) <= digits_value(s),
    decreases s.len() - k,
{
    if k < s.len() {
        lemma_digits_value_prefix(s, k + 1);
        assert(s.take(k + 1).drop_last() == s.take(k));
    } else {
        assert(s.take(k) == s);
    }
}

/// `<uN as FromStr>::from_str` for `max == uN::MAX`.
pub fn parse_unsigned_vec(v: &Vec<char>, max: u64) -> (r: Option<u64>)
    ensures
        r matches Some(x) ==> parse_unsigned(v@, max as nat) == Some(x as nat),
        r is None ==> parse_unsigned(v@, max as nat) is None,
{
    let start: usize = if v.len() > 0 && v[0] == '+' {
        1
    } else {
        0
    };
    let ghost d = unsigned_digits(v@);
    assert(d == v@.skip(start as int));
    if start >= v.len() {
        return None;
    }
    let mut acc: u128 = 0;
    let mut i: usize = start;
    while i < v.len()
        invariant
            start <= i <= v.len(),
            d == v@.skip(start as int),
            d == unsigned_digits(v@),
            acc == digits_value(d.take(i - start)),
            acc <= max,
            all_digits(d.take(i - start)),
        decreases v.len() - i,
    {
        let c = v[i];
        assert(d[i - start] == c);
        if !is_digit_exec(c) {
            assert(!all_digits(d));
            return None;
        }
        let dv: u128 = ((c as u32) - 48) as u128;
        acc = acc * 10 + dv;
        assert(d.take(i + 1 - start).drop_last() == d.take(i - start));
        i = i + 1;
        assert(all_digits(d.take(i - start)));
        if acc > max as u128 {
            proof {
                lemma_digits_value_prefix(d, i - start);
            }
            return None;
        }
    }
    assert(d.take(i - start) == d);
    Some(acc as u64)
}

} // verus!
