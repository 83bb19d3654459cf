//! The character classes and the grammar of identifiers, as spec functions,
//! with the scanning routines that decide it.
use vstd::prelude::*;

verus! {

/// A letter or digit, matched without regard to case. Case-insensitive
/// matching of `k` and `s` also admits the Kelvin sign and the long s.
pub open spec fn is_alnum(c: char) -> bool {
    ('a' <= c && c <= 'z') || ('A' <= c && c <= 'Z') || ('0' <= c && c <= '9') || c
        == '\u{17f}' || c == '\u{212a}'
}

/// Characters allowed after `did:` in a decentralized-identifier host.
pub open spec fn is_did_char(c: char) -> bool {
    is_alnum(c) || c == ':' || c == '%' || c == '-'
}

/// Characters allowed after the first one in a domain-like host.
pub open spec fn is_domain_char(c: char) -> bool {
    is_alnum(c) || c == '.' || c == ':' || c == '-'
}

/// Unicode white space.
pub open spec fn is_space(c: char) -> bool {
    ('\u{9}' <= c && c <= '\u{d}') || c == ' ' || c == '\u{85}' || c == '\u{a0}' || c
        == '\u{1680}' || ('\u{2000}' <= c && c <= '\u{200a}') || c == '\u{2028}' || c
        == '\u{2029}' || c == '\u{202f}' || c == '\u{205f}' || c == '\u{3000}'
}

pub open spec fn no_space(s: Seq<char>) -> bool {
    forall|k: int| 0 <= k < s.len() ==> !is_space(#[trigger] s[k])
}

/// Index of the first character of `s` that is one of `stops`, or the length of `s`.
pub open spec fn first_in(s: Seq<char>, stops: Seq<char>) -> nat
    decreases s.len(),
{
    if s.len() == 0 {
        0
    } else if stops.contains(s[0]) {
        0
    } else {
        1 + first_in(s.drop_first(), stops)
    }
}

/// `i` is the first index of a character of `stops` in `s` (or the length).
pub proof fn lemma_first_in(s: Seq<char>, stops: Seq<char>, i: int)
    requires
        0 <= i <= s.len(),
        forall|k: int| 0 <= k < i ==> !stops.contains(#[trigger] s[k]),
        i < s.len() ==> stops.contains(s[i]),
    ensures
        first_in(s, stops) == i,
    decreases s.len(),
{
    if s.len() > 0 && i > 0 {
        assert forall|k: int| 0 <= k < i - 1 implies !stops.contains(#[trigger] s.drop_first()[k]) by {
            assert(s.drop_first()[k] == s[k + 1]);
        }
        lemma_first_in(s.drop_first(), stops, i - 1);
    }
}


pub open spec fn no_space_from(s: Seq<char>, i: int) -> bool {
    forall|k: int| i <= k < s.len() ==> !is_space(#[trigger] s[k])
}

/// The scheme marker `at://`, letters in either case.
pub open spec fn has_scheme(s: Seq<char>) -> bool {
    s.len() >= 5 && (s[0] == 'a' || s[0] == 'A') && (s[1] == 't' || s[1] == 'T') && s[2] == ':'
        && s[3] == '/' && s[4] == '/'
}

/// `did:` (in either case) followed by one or more identifier characters.
pub open spec fn is_did_host(h: Seq<char>) -> bool {
    &&& h.len() >= 5
    &&& h[0] == 'd' || h[0] == 'D'
    &&& h[1] == 'i' || h[1] == 'I'
    &&& h[2] == 'd' || h[2] == 'D'
    &&& h[3] == ':'
    &&& forall|k: int| 4 <= k < h.len() ==> is_did_char(#[trigger] h[k])
}

/// A letter or digit followed by letters, digits, `.`, `:` or `-`.
pub open spec fn is_domain_host(h: Seq<char>) -> bool {
    &&& h.len() >= 1
    &&& is_alnum(h[0])
    &&& forall|k: int| 1 <= k < h.len() ==> is_domain_char(#[trigger] h[k])
}

pub open spec fn is_host(h: Seq<char>) -> bool {
    is_did_host(h) || is_domain_host(h)
}

/// Splits what follows the host into path, query and fragment:
/// `(/<path>)?(?<query>)?(#<fragment>)?` where the path holds no `?`, `#` or
/// white space, the query no `#` or white space, the fragment no white space,
/// and a present query or fragment is not empty. The path is returned with its
/// leading `/`, the query with its leading `?`, the fragment without its `#`.
pub open spec fn split_tail(t: Seq<char>) -> Option<(Seq<char>, Seq<char>, Seq<char>)> {
    let p = first_in(t, seq!['?', '#']) as int;
    let h = p + first_in(t.subrange(p, t.len() as int), seq!['#']);
    let path = t.subrange(0, p);
    let query = t.subrange(p, h);
    let frag = if h < t.len() {
        t.subrange(h + 1, t.len() as int)
    } else {
        Seq::empty()
    };
    if (path.len() == 0 || path[0] == '/') && (query.len() != 1) && (h < t.len() ==> frag.len()
        >= 1) && no_space(t) {
        Some((path, query, frag))
    } else {
        None
    }
}

/// The absolute grammar with the host starting at `start`.
pub open spec fn match_from(s: Seq<char>, start: int) -> Option<
    (Seq<char>, Seq<char>, Seq<char>, Seq<char>),
> {
    let rest = s.subrange(start, s.len() as int);
    let e = first_in(rest, seq!['/', '?', '#']) as int;
    let host = rest.subrange(0, e);
    if is_host(host) {
        match split_tail(rest.subrange(e, rest.len() as int)) {
            Some(t) => Some((host, t.0, t.1, t.2)),
            None => None,
        }
    } else {
        None
    }
}

/// `(at://)?<host>(/<path>)?(?<query>)?(#<fragment>)?`, matched as a whole:
/// host, path, query and fragment, or `None`. The scheme marker is taken when
/// the rest then matches; otherwise the whole input is tried without it.
pub open spec fn match_absolute(s: Seq<char>) -> Option<
    (Seq<char>, Seq<char>, Seq<char>, Seq<char>),
> {
    if has_scheme(s) && match_from(s, 5) is Some {
        match_from(s, 5)
    } else {
        match_from(s, 0)
    }
}

pub fn alnum(c: char) -> (r: bool)
    ensures
        r == is_alnum(c),
{
    ('a' <= c && c <= 'z') || ('A' <= c && c <= 'Z') || ('0' <= c && c <= '9') || c == '\u{17f}'
        || c == '\u{212a}'
}

pub fn space(c: char) -> (r: bool)
    ensures
        r == is_space(c),
{
    ('\u{9}' <= c && c <= '\u{d}') || c == ' ' || c == '\u{85}' || c == '\u{a0}' || c == '\u{1680}'
        || ('\u{2000}' <= c && c <= '\u{200a}') || c == '\u{2028}' || c == '\u{2029}' || c
        == '\u{202f}' || c == '\u{205f}' || c == '\u{3000}'
}

/// Position of the first of `a`, `b`, `c` in `s` at or after `from`, or the length.
pub fn find_any(s: &str, n: usize, from: usize, a: char, b: char, c: char) -> (r: usize)
    requires
        n == s@.len(),
        from <= n,
    ensures
        r == from + first_in(s@.subrange(from as int, n as int), seq![a, b, c]),
        from <= r <= n,
{
    let ghost t = s@.subrange(from as int, n as int);
    let ghost stops = seq![a, b, c];
    proof {
        lemma_three(a, b, c);
    }
    let mut i: usize = from;
    while i < n
        invariant
            from <= i <= n,
            n == s@.len(),
            t == s@.subrange(from as int, n as int),
            stops == seq![a, b, c],
            forall|x: char| stops.contains(x) <==> (x == a || x == b || x == c),
            forall|k: int| 0 <= k < i - from ==> !stops.contains(#[trigger] t[k]),
        decreases n - i,
    {
        let x = s.get_char(i);
        assert(t[i - from] == s@[i as int]);
        if x == a || x == b || x == c {
            proof {
                lemma_first_in(t, stops, i - from);
            }
            return i;
        }
        i = i + 1;
    }
    proof {
        lemma_first_in(t, stops, i - from);
    }
    i
}

pub proof fn lemma_three(a: char, b: char, c: char)
    ensures
        forall|x: char| seq![a, b, c].contains(x) <==> (x == a || x == b || x == c),
{
    let q = seq![a, b, c];
    assert(q[0] == a && q[1] == b && q[2] == c);
    assert forall|x: char| q.contains(x) <==> (x == a || x == b || x == c) by {
        if x == a {
            assert(q[0] == x);
        } else if x == b {
            assert(q[1] == x);
        } else if x == c {
            assert(q[2] == x);
        }
    }
}

/// Whether `s` holds no white space at or after `from`.
pub fn no_space_after(s: &str, n: usize, from: usize) -> (r: bool)
    requires
        n == s@.len(),
        from <= n,
    ensures
        r == no_space_from(s@, from as int),
{
    let mut i: usize = from;
    while i < n
        invariant
            from <= i <= n,
            n == s@.len(),
            forall|k: int| from <= k < i ==> !is_space(#[trigger] s@[k]),
        decreases n - i,
    {
        if space(s.get_char(i)) {
            return false;
        }
        i = i + 1;
    }
    true
}

/// Where the path, query and fragment of `s[from..n]` end, if it matches the
/// tail of the grammar: the path is `s[from..p]`, the query `s[p..h]`, the
/// fragment `s[h + 1..n]` when `h < n`.
pub fn match_tail(s: &str, n: usize, from: usize) -> (r: Option<(usize, usize)>)
    requires
        n == s@.len(),
        from <= n,
    ensures
        r is Some <==> split_tail(s@.subrange(from as int, n as int)) is Some,
        r matches Some((p, h)) ==> from <= p <= h <= n && split_tail(
            s@.subrange(from as int, n as int),
        ) == Some(
            (
                s@.subrange(from as int, p as int),
                s@.subrange(p as int, h as int),
                if h < n {
                    s@.subrange(h + 1, n as int)
                } else {
                    Seq::empty()
                },
            ),
        ),
{
    let ghost t = s@.subrange(from as int, n as int);
    let p = find_any(s, n, from, '?', '#', '#');
    let h = find_any(s, n, p, '#', '#', '#');
    proof {
        lemma_two_stops(t);
        assert(t.subrange(p - from, t.len() as int) =~= s@.subrange(p as int, n as int));
        assert(t.subrange(0, p - from) =~= s@.subrange(from as int, p as int));
        assert(t.subrange(p - from, h - from) =~= s@.subrange(p as int, h as int));
        assert(h < n ==> t.subrange(h - from + 1, t.len() as int) =~= s@.subrange(h + 1, n as int));
        assert(p < n ==> t[p - from] == s@[p as int]);
        assert(no_space(t) <==> no_space_from(s@, from as int)) by {
            if no_space_from(s@, from as int) {
                assert forall|k: int| 0 <= k < t.len() implies !is_space(#[trigger] t[k]) by {
                    assert(t[k] == s@[k + from]);
                }
            }
            if no_space(t) {
                assert forall|k: int| from <= k < s@.len() implies !is_space(#[trigger] s@[k]) by {
                    assert(t[k - from] == s@[k]);
                }
            }
        }
    }
    let path_ok = p == from || s.get_char(from) == '/';
    let query_ok = h - p != 1;
    let frag_ok = h == n || n - h >= 2;
    if path_ok && query_ok && frag_ok && no_space_after(s, n, from) {
        Some((p, h))
    } else {
        None
    }
}

proof fn lemma_two_stops(t: Seq<char>)
    ensures
        first_in(t, seq!['?', '#', '#']) == first_in(t, seq!['?', '#']),
        forall|u: Seq<char>| first_in(u, seq!['#', '#', '#']) == #[trigger] first_in(u, seq!['#']),
{
    lemma_three('?', '#', '#');
    lemma_three('#', '#', '#');
    assert(seq!['#'][0] == '#');
    assert forall|x: char| seq!['#'].contains(x) <==> x == '#' by {
        if x == '#' {
            assert(seq!['#'][0] == x);
        }
    }
    lemma_same_stops(t, seq!['?', '#', '#'], seq!['?', '#']);
    assert forall|u: Seq<char>| first_in(u, seq!['#', '#', '#']) == #[trigger] first_in(
        u,
        seq!['#'],
    ) by {
        lemma_same_stops(u, seq!['#', '#', '#'], seq!['#']);
    }
}

/// Two stop lists holding the same characters stop at the same place.
pub proof fn lemma_same_stops(t: Seq<char>, a: Seq<char>, b: Seq<char>)
    requires
        forall|x: char| a.contains(x) <==> b.contains(x),
    ensures
        first_in(t, a) == first_in(t, b),
    decreases t.len(),
{
    if t.len() > 0 {
        lemma_same_stops(t.drop_first(), a, b);
    }
}

fn ci_eq(c: char, lower: char, upper: char) -> (r: bool)
    ensures
        r == (c == lower || c == upper),
{
    c == lower || c == upper
}

/// Whether `s[start..e]` is a host.
pub fn host_ok(s: &str, start: usize, e: usize) -> (r: bool)
    requires
        start <= e <= s@.len(),
    ensures
        r == is_host(s@.subrange(start as int, e as int)),
{
    let ghost h = s@.subrange(start as int, e as int);
    let did = e - start >= 5 && ci_eq(s.get_char(start), 'd', 'D') && ci_eq(
        s.get_char(start + 1),
        'i',
        'I',
    ) && ci_eq(s.get_char(start + 2), 'd', 'D') && s.get_char(start + 3) == ':';
    if did {
        assert(h[0] == s@[start as int] && h[1] == s@[start + 1] && h[2] == s@[start + 2] && h[3]
            == s@[start + 3]);
        let mut i: usize = start + 4;
        let mut all = true;
        while i < e
            invariant
                start + 4 <= i <= e <= s@.len(),
                h == s@.subrange(start as int, e as int),
                all == forall|k: int| 4 <= k < i - start ==> is_did_char(#[trigger] h[k]),
            decreases e - i,
        {
            let c = s.get_char(i);
            assert(h[i - start] == c);
            if !(alnum(c) || c == ':' || c == '%' || c == '-') {
                all = false;
            }
            i = i + 1;
        }
        if all {
            return true;
        }
    }
    if e == start || !alnum(s.get_char(start)) {
        return false;
    }
    assert(h[0] == s@[start as int]);
    let mut i: usize = start + 1;
    while i < e
        invariant
            start + 1 <= i <= e <= s@.len(),
            h == s@.subrange(start as int, e as int),
            !is_did_host(h),
            forall|k: int| 1 <= k < i - start ==> is_domain_char(#[trigger] h[k]),
        decreases e - i,
    {
        let c = s.get_char(i);
        assert(h[i - start] == c);
        if !(alnum(c) || c == '.' || c == ':' || c == '-') {
            return false;
        }
        i = i + 1;
    }
    true
}

/// The absolute grammar with the host starting at `start`: where the host,
/// path and query end (see `match_tail`).
pub fn match_at(s: &str, n: usize, start: usize) -> (r: Option<(usize, usize, usize)>)
    requires
        n == s@.len(),
        start <= n,
    ensures
        r is Some <==> match_from(s@, start as int) is Some,
        r matches Some((e, p, h)) ==> split_tail(s@.subrange(e as int, n as int)) == Some(
            (
                s@.subrange(e as int, p as int),
                s@.subrange(p as int, h as int),
                if h < n {
                    s@.subrange(h + 1, n as int)
                } else {
                    Seq::empty()
                },
            ),
        ),
        r matches Some((e, p, h)) ==> start <= e <= p <= h <= n && match_from(s@, start as int)
            == Some(
            (
                s@.subrange(start as int, e as int),
                s@.subrange(e as int, p as int),
                s@.subrange(p as int, h as int),
                if h < n {
                    s@.subrange(h + 1, n as int)
                } else {
                    Seq::empty()
                },
            ),
        ),
{
    let ghost rest = s@.subrange(start as int, n as int);
    let e = find_any(s, n, start, '/', '?', '#');
    proof {
        assert(rest.subrange(0, e - start) =~= s@.subrange(start as int, e as int));
        assert(rest.subrange(e - start, rest.len() as int) =~= s@.subrange(e as int, n as int));
    }
    if !host_ok(s, start, e) {
        return None;
    }
    match match_tail(s, n, e) {
        Some((p, h)) => Some((e, p, h)),
        None => None,
    }
}

/// Matches the absolute grammar: where the host starts, and where it, the
/// path and the query end (see `match_tail`).
pub fn match_absolute_at(s: &str) -> (r: Option<(usize, usize, usize, usize)>)
    ensures
        r is Some <==> match_absolute(s@) is Some,
        r matches Some((start, e, p, h)) ==> split_tail(s@.subrange(e as int, s@.len() as int)) == Some(
            (
                s@.subrange(e as int, p as int),
                s@.subrange(p as int, h as int),
                if h < s@.len() {
                    s@.subrange(h + 1, s@.len() as int)
                } else {
                    Seq::empty()
                },
            ),
        ),
        r matches Some((start, e, p, h)) ==> start == (if has_scheme(s@) && match_from(s@, 5) is Some {
            5int
        } else {
            0int
        }),
        r matches Some((start, e, p, h)) ==> start <= e <= p <= h <= s@.len() && match_absolute(
            s@,
        ) == Some(
            (
                s@.subrange(start as int, e as int),
                s@.subrange(e as int, p as int),
                s@.subrange(p as int, h as int),
                if h < s@.len() {
                    s@.subrange(h + 1, s@.len() as int)
                } else {
                    Seq::empty()
                },
            ),
        ),
{
    let n = s.unicode_len();
    let scheme = n >= 5 && ci_eq(s.get_char(0), 'a', 'A') && ci_eq(s.get_char(1), 't', 'T')
        && s.get_char(2) == ':' && s.get_char(3) == '/' && s.get_char(4) == '/';
    if scheme {
        if let Some((e, p, h)) = match_at(s, n, 5) {
            return Some((5, e, p, h));
        }
    }
    match match_at(s, n, 0) {
        Some((e, p, h)) => Some((0, e, p, h)),
        None => None,
    }
}

/// Membership in the stop lists of the grammar.
pub proof fn lemma_stop_lists()
    ensures
        forall|x: char| seq!['/', '?', '#'].contains(x) <==> (x == '/' || x == '?' || x == '#'),
        forall|x: char| seq!['?', '#'].contains(x) <==> (x == '?' || x == '#'),
        forall|x: char| seq!['#'].contains(x) <==> x == '#',
{
    lemma_three('/', '?', '#');
    let q = seq!['?', '#'];
    assert(q[0] == '?' && q[1] == '#');
    assert forall|x: char| q.contains(x) <==> (x == '?' || x == '#') by {
        if x == '?' {
            assert(q[0] == x);
        } else if x == '#' {
            assert(q[1] == x);
        }
    }
    assert forall|x: char| seq!['#'].contains(x) <==> x == '#' by {
        if x == '#' {
            assert(seq!['#'][0] == x);
        }
    }
}

/// A stop right after a stretch without stops ends the scan there.
pub proof fn lemma_first_in_concat(a: Seq<char>, b: Seq<char>, stops: Seq<char>)
    requires
        forall|k: int| 0 <= k < a.len() ==> !stops.contains(#[trigger] a[k]),
        b.len() > 0 ==> stops.contains(b[0]),
    ensures
        first_in(a + b, stops) == a.len(),
{
    let s = a + b;
    assert forall|k: int| 0 <= k < a.len() implies !stops.contains(#[trigger] s[k]) by {
        assert(s[k] == a[k]);
    }
    if b.len() > 0 {
        assert(s[a.len() as int] == b[0]);
    }
    lemma_first_in(s, stops, a.len() as int);
}

pub proof fn lemma_first_in_bound(s: Seq<char>, stops: Seq<char>)
    ensures
        first_in(s, stops) <= s.len(),
        first_in(s, stops) < s.len() ==> stops.contains(s[first_in(s, stops) as int]),
    decreases s.len(),
{
    if s.len() > 0 && !stops.contains(s[0]) {
        lemma_first_in_bound(s.drop_first(), stops);
    }
}

/// Nothing before the first stop is a stop.
pub proof fn lemma_first_in_prefix(s: Seq<char>, stops: Seq<char>)
    ensures
        forall|k: int| 0 <= k < first_in(s, stops) ==> !stops.contains(#[trigger] s[k]),
    decreases s.len(),
{
    if s.len() > 0 && !stops.contains(s[0]) {
        lemma_first_in_prefix(s.drop_first(), stops);
        lemma_first_in_bound(s, stops);
        assert forall|k: int| 0 <= k < first_in(s, stops) implies !stops.contains(#[trigger] s[k]) by {
            if k > 0 {
                assert(s[k] == s.drop_first()[k - 1]);
            }
        }
    }
}

/// The fragment capture: `#` and the fragment, or empty.
pub open spec fn frag_capture(frag: Seq<char>) -> Seq<char> {
    if frag.len() == 0 {
        frag
    } else {
        seq!['#'] + frag
    }
}

fn frag_piece<'a>(s: &'a str, n: usize, h: usize) -> (r: &'a str)
    requires
        n == s@.len(),
        h <= n,
        h < n ==> s@[h as int] == '#' && n - h >= 2,
    ensures
        r@ == frag_capture(
            if h < n {
                s@.subrange(h + 1, n as int)
            } else {
                Seq::empty()
            },
        ),
{
    let r = s.substring_char(h, n);
    if h < n {
        assert(r@ =~= seq!['#'] + s@.subrange(h + 1, n as int));
    }
    r
}

/// The captures of the absolute grammar: the scheme marker as written (or
/// empty), the host, the path, the query with its `?`, the fragment with its
/// `#`; `None` where it does not match.
pub fn atp_uri_regex(input: &str) -> (r: Option<Vec<&str>>)
    ensures
        match match_absolute(input@) {
            None => r is None,
            Some((host, path, query, frag)) => r matches Some(v) && v@.len() == 5 && v@[0]@ == (
            if has_scheme(input@) && match_from(input@, 5) is Some {
                input@.subrange(0, 5)
            } else {
                Seq::empty()
            }) && v@[1]@ == host && v@[2]@ == path && v@[3]@ == query && v@[4]@ == frag_capture(
                frag,
            ),
        },
{
    match match_absolute_at(input) {
        None => None,
        Some((start, e, p, h)) => {
            let n = input.unicode_len();
            proof {
                lemma_tail_marks(input@, e as int, p as int, h as int);
            }
            let mut v: Vec<&str> = Vec::new();
            v.push(input.substring_char(0, start));
            v.push(input.substring_char(start, e));
            v.push(input.substring_char(e, p));
            v.push(input.substring_char(p, h));
            v.push(frag_piece(input, n, h));
            Some(v)
        },
    }
}

/// The captures of the relative grammar: the path, the query with its `?`,
/// the fragment with its `#`; `None` where it does not match.
pub fn relative_regex(input: &str) -> (r: Option<Vec<&str>>)
    ensures
        match split_tail(input@) {
            None => r is None,
            Some((path, query, frag)) => r matches Some(v) && v@.len() == 3 && v@[0]@ == path
                && v@[1]@ == query && v@[2]@ == frag_capture(frag),
        },
{
    let n = input.unicode_len();
    assert(input@.subrange(0, n as int) =~= input@);
    match match_tail(input, n, 0) {
        None => None,
        Some((p, h)) => {
            proof {
                lemma_tail_marks(input@, 0, p as int, h as int);
            }
            let mut v: Vec<&str> = Vec::new();
            v.push(input.substring_char(0, p));
            v.push(input.substring_char(p, h));
            v.push(frag_piece(input, n, h));
            Some(v)
        },
    }
}

/// Where a matched tail has a query, it starts with `?`; where it has a
/// fragment, that starts with `#` and is not empty.
pub proof fn lemma_tail_marks(s: Seq<char>, from: int, p: int, h: int)
    requires
        0 <= from <= p <= h <= s.len(),
        split_tail(s.subrange(from, s.len() as int)) == Some(
            (
                s.subrange(from, p),
                s.subrange(p, h),
                if h < s.len() {
                    s.subrange(h + 1, s.len() as int)
                } else {
                    Seq::empty()
                },
            ),
        ),
    ensures
        h < s.len() ==> s[h] == '#' && s.len() - h >= 2,
        p < h ==> s[p] == '?',
{
    let t = s.subrange(from, s.len() as int);
    lemma_stop_lists();
    let p2 = first_in(t, seq!['?', '#']) as int;
    let u = t.subrange(p2, t.len() as int);
    lemma_first_in_bound(t, seq!['?', '#']);
    lemma_first_in_bound(u, seq!['#']);
    let h2 = p2 + first_in(u, seq!['#']);
    let parts = split_tail(t)->Some_0;
    assert(parts.0 == t.subrange(0, p2));
    assert(parts.1 == t.subrange(p2, h2));
    assert(parts.0.len() == p - from);
    assert(parts.1.len() == h - p);
    assert(p2 + from == p);
    if p < h {
        assert(u[0] == t[p2]);
        assert(t[p2] == s[p]);
        if u[0] == '#' {
            assert(first_in(u, seq!['#']) == 0);
        }
    }
    if h < s.len() {
        assert(h2 + from == h);
        assert(u[h2 - p2] == t[h2]);
        assert(t[h2] == s[h]);
    }
}

} // verus!
