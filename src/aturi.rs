//! The `at://` identifier: parsing against the grammar, construction,
//! accessors and mutators of its path segments, and rendering.
use vstd::prelude::*;
use vstd::string::StrSliceExecFns;
use vstd::string::StringExecFns;

pub use crate::grammar::{atp_uri_regex, relative_regex};
use crate::grammar::{
    first_in, is_host, is_space, lemma_first_in_concat, lemma_stop_lists, match_absolute,
    match_absolute_at, match_from, match_tail, no_space, split_tail,
};

verus! {

#[verifier::external_type_specification]
#[verifier::external_body]
pub struct ExUrlParseError(url::ParseError);

/// The key/value pairs that the `url` crate decodes from the query of a URL,
/// or `None` where it does not parse the URL.
pub uninterp spec fn url_query_pairs(u: Seq<char>) -> Option<Seq<(Seq<char>, Seq<char>)>>;

/// The query that the `url` crate gives a URL parsed from `base` once `pairs`
/// are appended to it form-urlencoded; `None` where it does not parse `base`.
pub uninterp spec fn url_params_query(base: Seq<char>, pairs: Seq<(Seq<char>, Seq<char>)>) -> Option<
    Option<Seq<char>>,
>;

/// A character that form-urlencoding writes: ASCII letters and digits,
/// `*`, `-`, `.`, `_`, `+` for a space, `%` escapes, `&` and `=`.
pub open spec fn is_form_char(c: char) -> bool {
    ('a' <= c && c <= 'z') || ('A' <= c && c <= 'Z') || ('0' <= c && c <= '9') || c == '*' || c
        == '-' || c == '.' || c == '_' || c == '+' || c == '%' || c == '&' || c == '='
}

pub open spec fn pairs_view(v: Seq<(String, String)>) -> Seq<(Seq<char>, Seq<char>)> {
    v.map_values(|p: (String, String)| (p.0@, p.1@))
}

/// Relies on `url::Url::parse` and `Url::query_pairs`: the query of the parsed
/// URL split into percent-decoded key/value pairs, in order. The parser fails
/// on the neutral base followed by a query or a fragment only where the URL
/// it writes outgrows a `u32` length; each character takes at most twelve
/// bytes there (four UTF-8 bytes, each a `%` escape).
#[verifier::external_body]
fn decode_url_query(u: &str) -> (r: Result<Vec<(String, String)>, url::ParseError>)
    ensures
        match r {
            Ok(v) => url_query_pairs(u@) == Some(pairs_view(v@)),
            Err(_) => url_query_pairs(u@) is None,
        },
        u@.len() < 0x1000_0000 && u@.len() >= query_base().len() && u@.subrange(
            0,
            query_base().len() as int,
        ) == query_base() && (u@.len() == query_base().len() || u@[query_base().len() as int]
            == '?' || u@[query_base().len() as int] == '#') ==> r is Ok,
{
    match url::Url::parse(u) {
        Ok(url) => Ok(url.query_pairs().map(|(k, v)| (k.to_string(), v.to_string())).collect()),
        Err(e) => Err(e),
    }
}

/// Relies on `url::Url::parse_with_params` and `Url::query`: the pairs
/// appended to the query of `base` by `form_urlencoded::Serializer`, which
/// writes each byte of a key or value as itself (ASCII letters and digits,
/// `*-._`), as `+` (a space) or as a `%` escape, with `=` and `&` between.
/// The neutral base parses, holds no query or fragment, and so gets a query
/// made of the pairs alone; with no fragment to restore, nothing panics.
#[verifier::external_body]
fn encode_url_query(base: &str, pairs: &Vec<(String, String)>) -> (r: Result<
    Option<String>,
    url::ParseError,
>)
    requires
        base@ == query_base(),
    ensures
        r matches Ok(Some(x)) && url_params_query(base@, pairs_view(pairs@)) == Some(Some(x@))
            && forall|k: int| 0 <= k < x@.len() ==> is_form_char(#[trigger] x@[k]),
{
    match url::Url::parse_with_params(base, pairs) {
        Ok(url) => Ok(url.query().map(|q| q.to_string())),
        Err(e) => Err(e),
    }
}

/// The neutral URL against which query strings are decoded and encoded.
pub open spec fn query_base() -> Seq<char> {
    "http://example.com"@
}

/// Why an identifier could not be built.
#[derive(Debug, Clone, Copy, PartialEq, Eq, Structural)]
pub enum AtUriError {
    /// The input does not match the absolute grammar.
    InvalidIdentifier,
    /// The base does not match the absolute grammar.
    InvalidBase,
    /// The input does not match the relative grammar.
    InvalidPath,
    /// The query decoder refused the query.
    InvalidQuery,
}

/// The fields of an identifier as sequences.
pub struct AtUriView {
    pub host: Seq<char>,
    pub pathname: Seq<char>,
    pub search_params: Seq<(Seq<char>, Seq<char>)>,
    pub hash: Seq<char>,
}

/// Path, query pairs and fragment of a relative identifier.
pub struct RelativeView {
    pub pathname: Seq<char>,
    pub search_params: Seq<(Seq<char>, Seq<char>)>,
    pub hash: Seq<char>,
}

/// An absolute identifier as the parser returns it.
pub struct ParsedOutput {
    pub hash: String,
    pub host: String,
    pub pathname: String,
    pub search_params: Vec<(String, String)>,
}

/// A relative identifier as the parser returns it.
pub struct ParsedRelativeOutput {
    pub hash: String,
    pub pathname: String,
    pub search_params: Vec<(String, String)>,
}

/// A record identifier: host, path (collection and record key), query pairs
/// in order, and fragment without its `#`.
#[derive(Debug, Clone, PartialEq, Eq)]
pub struct AtUri {
    pub hash: String,
    pub host: String,
    pub pathname: String,
    pub search_params: Vec<(String, String)>,
}

impl View for ParsedOutput {
    type V = AtUriView;

    open spec fn view(&self) -> AtUriView {
        AtUriView {
            host: self.host@,
            pathname: self.pathname@,
            search_params: pairs_view(self.search_params@),
            hash: self.hash@,
        }
    }
}

impl View for ParsedRelativeOutput {
    type V = RelativeView;

    open spec fn view(&self) -> RelativeView {
        RelativeView {
            pathname: self.pathname@,
            search_params: pairs_view(self.search_params@),
            hash: self.hash@,
        }
    }
}

impl View for AtUri {
    type V = AtUriView;

    open spec fn view(&self) -> AtUriView {
        AtUriView {
            host: self.host@,
            pathname: self.pathname@,
            search_params: pairs_view(self.search_params@),
            hash: self.hash@,
        }
    }
}

/// The query pairs decoded from a query component (with its `?`, or empty).
pub open spec fn decoded_query(query: Seq<char>) -> Option<Seq<(Seq<char>, Seq<char>)>> {
    url_query_pairs(query_base() + query)
}

/// What parsing against the absolute grammar gives: `Ok(None)` where the
/// grammar does not match.
pub open spec fn spec_parse(s: Seq<char>) -> Result<Option<AtUriView>, AtUriError> {
    match match_absolute(s) {
        None => Ok(None),
        Some((host, path, query, frag)) => match decoded_query(query) {
            None => Err(AtUriError::InvalidQuery),
            Some(pairs) => Ok(
                Some(AtUriView { host, pathname: path, search_params: pairs, hash: frag }),
            ),
        },
    }
}

/// What parsing against the relative grammar gives.
pub open spec fn spec_parse_relative(s: Seq<char>) -> Result<Option<RelativeView>, AtUriError> {
    match split_tail(s) {
        None => Ok(None),
        Some((path, query, frag)) => match decoded_query(query) {
            None => Err(AtUriError::InvalidQuery),
            Some(pairs) => Ok(Some(RelativeView { pathname: path, search_params: pairs, hash: frag })),
        },
    }
}

/// What constructing an identifier gives: from `uri` alone, or from the
/// relative `uri` resolved against the host of `base`.
pub open spec fn spec_new(uri: Seq<char>, base: Option<Seq<char>>) -> Result<AtUriView, AtUriError> {
    match base {
        Some(b) => match spec_parse(b) {
            Err(e) => Err(e),
            Ok(None) => Err(AtUriError::InvalidBase),
            Ok(Some(pb)) => match spec_parse_relative(uri) {
                Err(e) => Err(e),
                Ok(None) => Err(AtUriError::InvalidPath),
                Ok(Some(rel)) => Ok(
                    AtUriView {
                        host: pb.host,
                        pathname: rel.pathname,
                        search_params: rel.search_params,
                        hash: rel.hash,
                    },
                ),
            },
        },
        None => match spec_parse(uri) {
            Err(e) => Err(e),
            Ok(None) => Err(AtUriError::InvalidIdentifier),
            Ok(Some(p)) => Ok(p),
        },
    }
}

fn substring(s: &str, from: usize, to: usize) -> (r: String)
    requires
        from <= to <= s@.len(),
    ensures
        r@ == s@.subrange(from as int, to as int),
{
    String::from_str(s.substring_char(from, to))
}

/// Decodes a query component (with its `?`, or empty) into key/value pairs.
fn decode_query(query: &str) -> (r: Result<Vec<(String, String)>, AtUriError>)
    ensures
        match decoded_query(query@) {
            None => r == Err::<Vec<(String, String)>, AtUriError>(AtUriError::InvalidQuery),
            Some(p) => r matches Ok(v) && pairs_view(v@) == p,
        },
        decodable_len(query@.len()) && (query@.len() == 0 || query@[0] == '?') ==> r is Ok,
{
    let mut u = String::from_str("http://example.com");
    u.append(query);
    proof {
        reveal_strlit("http://example.com");
        assert(query_base().len() == 18);
        assert(u@.subrange(0, 18) =~= query_base());
        if query@.len() > 0 {
            assert(u@[18] == query@[0]);
        }
    }
    match decode_url_query(u.as_str()) {
        Ok(v) => Ok(v),
        Err(_) => Err(AtUriError::InvalidQuery),
    }
}

/// A length of input for which the query decoder does not overflow.
pub open spec fn decodable_len(n: nat) -> bool {
    n < 0x0fff_0000
}

/// Parses `s` against the absolute grammar; `Ok(None)` where it does not match.
pub fn parse(s: &String) -> (r: Result<Option<ParsedOutput>, AtUriError>)
    ensures
        match r {
            Ok(Some(p)) => spec_parse(s@) == Ok::<Option<AtUriView>, AtUriError>(Some(p@)),
            Ok(None) => spec_parse(s@) == Ok::<Option<AtUriView>, AtUriError>(None),
            Err(e) => spec_parse(s@) == Err::<Option<AtUriView>, AtUriError>(e),
        },
        decodable_len(s@.len()) ==> r is Ok,
{
    let t = s.as_str();
    match match_absolute_at(t) {
        None => Ok(None),
        Some((start, e, p, h)) => {
            let n = t.unicode_len();
            proof {
                crate::grammar::lemma_tail_marks(t@, e as int, p as int, h as int);
            }
            let query = t.substring_char(p, h);
            let search_params = decode_query(query)?;
            let hash = if h < n {
                substring(t, h + 1, n)
            } else {
                String::new()
            };
            Ok(
                Some(
                    ParsedOutput {
                        hash,
                        host: substring(t, start, e),
                        pathname: substring(t, e, p),
                        search_params,
                    },
                ),
            )
        },
    }
}

/// Parses `s` against the relative grammar (path, query, fragment; no host).
pub fn parse_relative(s: &String) -> (r: Result<Option<ParsedRelativeOutput>, AtUriError>)
    ensures
        match r {
            Ok(Some(p)) => spec_parse_relative(s@) == Ok::<Option<RelativeView>, AtUriError>(
                Some(p@),
            ),
            Ok(None) => spec_parse_relative(s@) == Ok::<Option<RelativeView>, AtUriError>(None),
            Err(e) => spec_parse_relative(s@) == Err::<Option<RelativeView>, AtUriError>(e),
        },
        decodable_len(s@.len()) ==> r is Ok,
{
    let t = s.as_str();
    let n = t.unicode_len();
    assert(t@.subrange(0, n as int) =~= t@);
    match match_tail(t, n, 0) {
        None => Ok(None),
        Some((p, h)) => {
            proof {
                crate::grammar::lemma_tail_marks(t@, 0, p as int, h as int);
            }
            let query = t.substring_char(p, h);
            let search_params = decode_query(query)?;
            let hash = if h < n {
                substring(t, h + 1, n)
            } else {
                String::new()
            };
            Ok(Some(ParsedRelativeOutput { hash, pathname: substring(t, 0, p), search_params }))
        },
    }
}

/// Where the segments of a path begin: after its leading `/`, if any.
pub open spec fn seg_start(path: Seq<char>) -> int {
    if path.len() > 0 && path[0] == '/' {
        1
    } else {
        0
    }
}

/// Where the segment that begins at `i` ends: at the next `/`, or the end.
pub open spec fn seg_end(path: Seq<char>, i: int) -> int {
    i + first_in(path.subrange(i, path.len() as int), seq!['/'])
}

/// A path holds segments unless it is empty or a lone `/`.
pub open spec fn has_segments(path: Seq<char>) -> bool {
    seg_start(path) < path.len()
}

/// A path holds two segments or more.
pub open spec fn has_two_segments(path: Seq<char>) -> bool {
    has_segments(path) && seg_end(path, seg_start(path)) < path.len()
}

/// The first segment of a path (the collection), or empty.
pub open spec fn collection_of(path: Seq<char>) -> Seq<char> {
    if has_segments(path) {
        path.subrange(seg_start(path), seg_end(path, seg_start(path)))
    } else {
        Seq::empty()
    }
}

/// The second segment of a path (the record key), or empty.
pub open spec fn rkey_of(path: Seq<char>) -> Seq<char> {
    let e = seg_end(path, seg_start(path));
    if has_two_segments(path) {
        path.subrange(e + 1, seg_end(path, e + 1))
    } else {
        Seq::empty()
    }
}

/// The path with its first segment replaced by `v`, or `v` appended where it
/// has no segment.
pub open spec fn with_collection(path: Seq<char>, v: Seq<char>) -> Seq<char> {
    let b = seg_start(path);
    if has_segments(path) {
        path.subrange(0, b) + v + path.subrange(seg_end(path, b), path.len() as int)
    } else {
        path + v
    }
}

/// The path with its second segment replaced by `v`; with one segment, `v`
/// appended as the second; with none, the placeholder `undefined` as the
/// first segment and `v` as the second.
pub open spec fn with_rkey(path: Seq<char>, v: Seq<char>) -> Seq<char> {
    let e = seg_end(path, seg_start(path));
    if has_two_segments(path) {
        path.subrange(0, e + 1) + v + path.subrange(seg_end(path, e + 1), path.len() as int)
    } else if has_segments(path) {
        path + seq!['/'] + v
    } else {
        path + "undefined/"@ + v
    }
}

/// The rendered path: `/` where empty, with a `/` put in front where missing.
pub open spec fn rendered_path(path: Seq<char>) -> Seq<char> {
    if path.len() == 0 {
        seq!['/']
    } else if path[0] == '/' {
        path
    } else {
        seq!['/'] + path
    }
}

/// The rendered query: `?` and the query where it is not empty and lacks one.
pub open spec fn rendered_query(q: Option<Option<Seq<char>>>) -> Seq<char> {
    match q {
        Some(Some(x)) => if x.len() == 0 {
            x
        } else if x[0] == '?' {
            x
        } else {
            seq!['?'] + x
        },
        _ => Seq::empty(),
    }
}

/// The rendered fragment: `#` and the fragment where it is not empty and lacks one.
pub open spec fn rendered_hash(h: Seq<char>) -> Seq<char> {
    if h.len() == 0 {
        h
    } else if h[0] == '#' {
        h
    } else {
        seq!['#'] + h
    }
}

/// The text of an identifier, given what the encoder made of its query pairs.
pub open spec fn render(u: AtUriView, q: Option<Option<Seq<char>>>) -> Seq<char> {
    "at://"@ + u.host + rendered_path(u.pathname) + rendered_query(q) + rendered_hash(u.hash)
}

/// What the encoder makes of query pairs, against the neutral base.
pub open spec fn encoded_query(pairs: Seq<(Seq<char>, Seq<char>)>) -> Option<Option<Seq<char>>> {
    url_params_query(query_base(), pairs)
}

pub open spec fn opt_view(o: Option<String>) -> Option<Seq<char>> {
    match o {
        Some(s) => Some(s@),
        None => None,
    }
}

/// The string that `make` hands to the parser.
pub open spec fn make_input(
    handle_or_did: Seq<char>,
    collection: Option<Seq<char>>,
    rkey: Option<Seq<char>>,
) -> Seq<char> {
    let a = match collection {
        Some(c) => handle_or_did + seq!['/'] + c,
        None => handle_or_did,
    };
    match rkey {
        Some(k) => a + seq!['/'] + k,
        None => a,
    }
}

/// No two `c` stand side by side in `s`.
pub open spec fn no_double(s: Seq<char>, c: char) -> bool {
    forall|i: int| 0 <= i < s.len() - 1 ==> !(#[trigger] s[i] == c && s[i + 1] == c)
}

/// `s` holds neither `?` nor `#`.
pub open spec fn lacks_markers(s: Seq<char>) -> bool {
    forall|k: int| 0 <= k < s.len() ==> #[trigger] s[k] != '?' && s[k] != '#'
}

/// What the encoder wrote, where it wrote a query, is form-urlencoded text.
pub open spec fn form_query(q: Option<Option<Seq<char>>>) -> bool {
    q matches Some(Some(x)) ==> forall|k: int| 0 <= k < x.len() ==> is_form_char(#[trigger] x[k])
}

/// The shape of the fields that parsing gives: a host of the grammar, a path
/// that is empty or begins with `/` and holds no `?`, `#` or white space, a
/// fragment without white space.
pub open spec fn parsed_shape(u: AtUriView) -> bool {
    &&& is_host(u.host)
    &&& u.pathname.len() == 0 || u.pathname[0] == '/'
    &&& lacks_markers(u.pathname)
    &&& no_space(u.pathname)
    &&& no_space(u.hash)
}

proof fn lemma_host_chars(h: Seq<char>)
    requires
        is_host(h),
    ensures
        forall|k: int|
            0 <= k < h.len() ==> #[trigger] h[k] != '/' && h[k] != '?' && h[k] != '#' && !is_space(
                h[k],
            ),
{
}

proof fn lemma_no_double_concat(x: Seq<char>, y: Seq<char>, c: char)
    requires
        no_double(x, c),
        no_double(y, c),
        x.len() > 0 && y.len() > 0 ==> !(x.last() == c && y[0] == c),
    ensures
        no_double(x + y, c),
{
    let s = x + y;
    assert forall|i: int| 0 <= i < s.len() - 1 implies !(#[trigger] s[i] == c && s[i + 1] == c) by {
        if i + 1 < x.len() {
            assert(s[i] == x[i] && s[i + 1] == x[i + 1]);
        } else if i >= x.len() {
            assert(s[i] == y[i - x.len()] && s[i + 1] == y[i + 1 - x.len()]);
        } else {
            assert(s[i] == x.last() && s[i + 1] == y[0]);
        }
    }
}

/// Parsing gives fields of the parsed shape.
pub proof fn lemma_parse_shape(s: Seq<char>)
    requires
        spec_parse(s) is Ok,
        spec_parse(s)->Ok_0 is Some,
    ensures
        parsed_shape(spec_parse(s)->Ok_0->Some_0),
{
    lemma_stop_lists();
    let start: int = if has_scheme_and_rest(s) {
        5
    } else {
        0
    };
    let rest = s.subrange(start, s.len() as int);
    let e = first_in(rest, seq!['/', '?', '#']) as int;
    let t = rest.subrange(e, rest.len() as int);
    let p = first_in(t, seq!['?', '#']) as int;
    let h = p + first_in(t.subrange(p, t.len() as int), seq!['#']);
    crate::grammar::lemma_first_in_bound(t, seq!['?', '#']);
    crate::grammar::lemma_first_in_bound(t.subrange(p, t.len() as int), seq!['#']);
    crate::grammar::lemma_first_in_prefix(t, seq!['?', '#']);
    let path = t.subrange(0, p);
    assert forall|k: int| 0 <= k < path.len() implies #[trigger] path[k] != '?' && path[k]
        != '#' by {
        assert(path[k] == t[k]);
    }
    assert(no_space(t));
    assert forall|k: int| 0 <= k < path.len() implies !is_space(#[trigger] path[k]) by {
        assert(path[k] == t[k]);
    }
    if h < t.len() {
        let frag = t.subrange(h + 1, t.len() as int);
        assert forall|k: int| 0 <= k < frag.len() implies !is_space(#[trigger] frag[k]) by {
            assert(frag[k] == t[k + h + 1]);
        }
    }
}

proof fn lemma_rendered_query(q: Option<Option<Seq<char>>>)
    requires
        form_query(q),
    ensures
        rendered_query(q).len() == 0 || (rendered_query(q).len() >= 2 && rendered_query(q)[0]
            == '?'),
        forall|k: int|
            0 <= k < rendered_query(q).len() ==> #[trigger] rendered_query(q)[k] != '#'
                && !is_space(rendered_query(q)[k]) && (k > 0 ==> rendered_query(q)[k] != '?'),
{
    if let Some(Some(x)) = q {
        if x.len() > 0 {
            assert(is_form_char(x[0]));
            let r = seq!['?'] + x;
            assert(rendered_query(q) == r);
            assert forall|k: int| 0 <= k < r.len() implies #[trigger] r[k] != '#' && !is_space(r[k])
                && (k > 0 ==> r[k] != '?') by {
                if k > 0 {
                    assert(r[k] == x[k - 1]);
                    assert(is_form_char(x[k - 1]));
                }
            }
        }
    }
}

proof fn lemma_path_piece(path: Seq<char>)
    requires
        path.len() == 0 || path[0] == '/',
        lacks_markers(path),
        no_space(path),
    ensures
        rendered_path(path).len() > 0 && rendered_path(path)[0] == '/',
        forall|k: int|
            0 <= k < rendered_path(path).len() ==> #[trigger] rendered_path(path)[k] != '?'
                && rendered_path(path)[k] != '#' && !is_space(rendered_path(path)[k]),
{
    let pp = rendered_path(path);
    assert forall|k: int| 0 <= k < pp.len() implies #[trigger] pp[k] != '?' && pp[k] != '#'
        && !is_space(pp[k]) by {
        if path.len() > 0 {
            assert(pp[k] == path[k]);
        }
    }
}

proof fn lemma_tail_split(pp: Seq<char>, qq: Seq<char>, hash: Seq<char>)
    requires
        pp.len() > 0 && pp[0] == '/',
        forall|k: int| 0 <= k < pp.len() ==> #[trigger] pp[k] != '?' && pp[k] != '#' && !is_space(pp[k]),
        qq.len() == 0 || (qq.len() >= 2 && qq[0] == '?'),
        forall|k: int| 0 <= k < qq.len() ==> #[trigger] qq[k] != '#' && !is_space(qq[k]),
        no_space(hash),
        !(hash.len() > 0 && hash[0] == '#'),
    ensures
        split_tail(pp + qq + rendered_hash(hash)) == Some((pp, qq, hash)),
{
    lemma_stop_lists();
    let hh = rendered_hash(hash);
    let tail = pp + qq + hh;
    if hash.len() > 0 {
        assert(hh =~= seq!['#'] + hash);
    }
    assert(hh.len() > 0 ==> hh[0] == '#');
    let qh = qq + hh;
    assert(qh.len() > 0 ==> (qh[0] == '?' || qh[0] == '#'));
    assert(tail =~= pp + qh);
    lemma_first_in_concat(pp, qh, seq!['?', '#']);
    let p = pp.len() as int;
    assert(tail.subrange(p, tail.len() as int) =~= qh);
    lemma_first_in_concat(qq, hh, seq!['#']);
    let h = p + qq.len();
    assert(tail.subrange(0, p) =~= pp);
    assert(tail.subrange(p, h) =~= qq);
    if h < tail.len() {
        assert(tail.subrange(h + 1, tail.len() as int) =~= hash);
    } else {
        assert(hash =~= Seq::<char>::empty());
    }
    assert forall|k: int| 0 <= k < tail.len() implies !is_space(#[trigger] tail[k]) by {
        if k < p {
            assert(tail[k] == pp[k]);
        } else if k < h {
            assert(tail[k] == qq[k - p]);
        } else {
            assert(tail[k] == hh[k - h]);
            if k > h {
                assert(hh[k - h] == hash[k - h - 1]);
            }
        }
    }
}

/// The text rendered from fields of the parsed shape, with a form-urlencoded
/// query, matches the absolute grammar: it gives back the host and the
/// fragment, the path with `/` for an empty one, and the rendered query.
pub proof fn lemma_render_matches(u: AtUriView, q: Option<Option<Seq<char>>>)
    requires
        parsed_shape(u),
        form_query(q),
        !(u.hash.len() > 0 && u.hash[0] == '#'),
    ensures
        match_absolute(render(u, q)) == Some(
            (u.host, rendered_path(u.pathname), rendered_query(q), u.hash),
        ),
{
    lemma_stop_lists();
    lemma_host_chars(u.host);
    lemma_rendered_query(q);
    lemma_path_piece(u.pathname);
    reveal_strlit("at://");
    let host = u.host;
    let pp = rendered_path(u.pathname);
    let qq = rendered_query(q);
    let tail = pp + qq + rendered_hash(u.hash);
    lemma_tail_split(pp, qq, u.hash);
    let r = render(u, q);
    assert(r =~= "at://"@ + (host + tail));
    assert(r[0] == 'a' && r[1] == 't' && r[2] == ':' && r[3] == '/' && r[4] == '/');
    let rest = r.subrange(5, r.len() as int);
    assert(rest =~= host + tail);
    assert(tail[0] == '/');
    lemma_first_in_concat(host, tail, seq!['/', '?', '#']);
    assert(rest.subrange(0, host.len() as int) =~= host);
    assert(rest.subrange(host.len() as int, rest.len() as int) =~= tail);
    assert(match_from(r, 5) == Some((host, pp, qq, u.hash)));
}

/// Round trip: where `s` parses, the text rendered from the result (its
/// query written by the encoder as form-urlencoded text `q`) parses again, to
/// the same host and fragment, the same path (`/` where it was empty, which
/// renders alike), and the pairs that the decoder gives for that query.
/// Left out: a fragment that itself begins with `#`, whose `#` the renderer
/// does not double and the parser then strips.
pub proof fn lemma_round_trip(s: Seq<char>, q: Option<Option<Seq<char>>>)
    requires
        spec_parse(s) matches Ok(Some(u)) && !(u.hash.len() > 0 && u.hash[0] == '#'),
        form_query(q),
    ensures
        ({
            let u = spec_parse(s)->Ok_0->Some_0;
            let t = render(u, q);
            &&& match_absolute(t) is Some
            &&& rendered_path(rendered_path(u.pathname)) == rendered_path(u.pathname)
            &&& u.pathname.len() > 0 ==> rendered_path(u.pathname) == u.pathname
            &&& decoded_query(rendered_query(q)) matches Some(pairs) ==> spec_parse(t) == Ok::<
                Option<AtUriView>,
                AtUriError,
            >(
                Some(
                    AtUriView {
                        host: u.host,
                        pathname: rendered_path(u.pathname),
                        search_params: pairs,
                        hash: u.hash,
                    },
                ),
            )
        }),
{
    lemma_parse_shape(s);
    let u = spec_parse(s)->Ok_0->Some_0;
    lemma_render_matches(u, q);
}

/// The markers `?` and `#` are never doubled by rendering: where the host and
/// the path hold neither marker (as parsed ones never do) and the fragment
/// holds neither `??` nor `##`, the text holds neither.
pub proof fn lemma_no_doubled_markers(u: AtUriView, q: Option<Option<Seq<char>>>)
    requires
        lacks_markers(u.host),
        lacks_markers(u.pathname),
        no_double(u.hash, '?'),
        no_double(u.hash, '#'),
        form_query(q),
    ensures
        no_double(render(u, q), '?'),
        no_double(render(u, q), '#'),
{
    reveal_strlit("at://");
    lemma_rendered_query(q);
    let a = "at://"@ + u.host + rendered_path(u.pathname);
    let qq = rendered_query(q);
    let hh = rendered_hash(u.hash);
    let pp = rendered_path(u.pathname);
    assert forall|k: int| 0 <= k < pp.len() implies #[trigger] pp[k] != '?' && pp[k] != '#' by {
        if u.pathname.len() > 0 && u.pathname[0] == '/' {
            assert(pp[k] == u.pathname[k]);
        } else if k > 0 {
            assert(pp[k] == u.pathname[k - 1]);
        }
    }
    assert(lacks_markers(a)) by {
        assert forall|k: int| 0 <= k < a.len() implies #[trigger] a[k] != '?' && a[k] != '#' by {
            if k >= 5 + u.host.len() {
                assert(a[k] == pp[k - 5 - u.host.len()]);
            } else if k >= 5 {
                assert(a[k] == u.host[k - 5]);
            }
        }
    }
    if u.hash.len() > 0 && u.hash[0] != '#' {
        assert(hh =~= seq!['#'] + u.hash);
    }
    assert(render(u, q) =~= a + qq + hh);
    let aq = a + qq;
    assert(aq.len() > 0 && aq.last() != '?' && aq.last() != '#') by {
        if qq.len() > 0 {
            assert(aq.last() == qq[qq.len() - 1]);
        } else {
            assert(aq.last() == a[a.len() - 1]);
        }
    }
    assert(hh.len() > 0 ==> hh[0] == '#');
    assert(no_double(a, '?') && no_double(a, '#'));
    assert(no_double(qq, '?') && no_double(qq, '#'));
    assert(no_double(hh, '?') && no_double(hh, '#')) by {
        if u.hash.len() > 0 && u.hash[0] != '#' {
            assert forall|i: int| 0 <= i < hh.len() - 1 implies !(#[trigger] hh[i] == '?' && hh[i
                + 1] == '?') && !(hh[i] == '#' && hh[i + 1] == '#') by {
                if i > 0 {
                    assert(hh[i] == u.hash[i - 1] && hh[i + 1] == u.hash[i]);
                }
            }
        }
    }
    lemma_no_double_concat(a, qq, '?');
    lemma_no_double_concat(a, qq, '#');
    lemma_no_double_concat(aq, hh, '?');
    lemma_no_double_concat(aq, hh, '#');
}

/// Resolving a relative identifier against a base keeps the host that the
/// base gives when constructed on its own.
pub proof fn lemma_relative_host(rel: Seq<char>, base: Seq<char>)
    requires
        spec_new(rel, Some(base)) is Ok,
    ensures
        spec_new(base, None) is Ok,
        spec_new(rel, Some(base))->Ok_0.host == spec_new(base, None)->Ok_0.host,
{
}

/// Whether the absolute grammar takes the scheme marker on `s`.
pub open spec fn has_scheme_and_rest(s: Seq<char>) -> bool {
    crate::grammar::has_scheme(s) && match_from(s, 5) is Some
}

/// The position where the segment of `path` beginning at `i` ends.
fn segment_end(path: &str, n: usize, i: usize) -> (r: usize)
    requires
        n == path@.len(),
        i <= n,
    ensures
        r == seg_end(path@, i as int),
        i <= r <= n,
{
    proof {
        crate::grammar::lemma_three('/', '/', '/');
        assert forall|x: char| seq!['/'].contains(x) <==> x == '/' by {
            if x == '/' {
                assert(seq!['/'][0] == x);
            }
        }
        crate::grammar::lemma_same_stops(
            path@.subrange(i as int, n as int),
            seq!['/', '/', '/'],
            seq!['/'],
        );
    }
    crate::grammar::find_any(path, n, i, '/', '/', '/')
}

fn segment_start(path: &str, n: usize) -> (r: usize)
    requires
        n == path@.len(),
    ensures
        r == seg_start(path@),
{
    if n > 0 && path.get_char(0) == '/' {
        1
    } else {
        0
    }
}

proof fn lemma_slash()
    ensures
        "/"@ == seq!['/'],
        "?"@ == seq!['?'],
        "#"@ == seq!['#'],
{
    reveal_strlit("/");
    reveal_strlit("?");
    reveal_strlit("#");
    assert("/"@ =~= seq!['/']);
    assert("?"@ =~= seq!['?']);
    assert("#"@ =~= seq!['#']);
}

impl AtUri {
    /// Builds an identifier from `uri` alone, or resolves the relative `uri`
    /// against the host of `base`.
    pub fn new(uri: String, base: Option<String>) -> (r: Result<Self, AtUriError>)
        ensures
            match r {
                Ok(u) => spec_new(uri@, opt_view(base)) == Ok::<
                    AtUriView,
                    AtUriError,
                >(u@),
                Err(e) => spec_new(uri@, opt_view(base)) == Err::<
                    AtUriView,
                    AtUriError,
                >(e),
            },
            decodable_len(uri@.len()) && (base matches Some(b) ==> decodable_len(b@.len())) ==> !(
            r matches Err(AtUriError::InvalidQuery)),
    {
        match base {
            Some(base) => match parse(&base)? {
                None => Err(AtUriError::InvalidBase),
                Some(parsed_base) => match parse_relative(&uri)? {
                    None => Err(AtUriError::InvalidPath),
                    Some(rel) => Ok(
                        AtUri {
                            hash: rel.hash,
                            host: parsed_base.host,
                            pathname: rel.pathname,
                            search_params: rel.search_params,
                        },
                    ),
                },
            },
            None => match parse(&uri)? {
                None => Err(AtUriError::InvalidIdentifier),
                Some(p) => Ok(
                    AtUri {
                        hash: p.hash,
                        host: p.host,
                        pathname: p.pathname,
                        search_params: p.search_params,
                    },
                ),
            },
        }
    }

    /// Builds an identifier from an authority, and a collection and a record
    /// key where given, each joined with `/`.
    pub fn make(handle_or_did: String, collection: Option<String>, rkey: Option<String>) -> (r:
        Result<Self, AtUriError>)
        ensures
            match r {
                Ok(u) => spec_new(
                    make_input(
                        handle_or_did@,
                        opt_view(collection),
                        opt_view(rkey),
                    ),
                    None,
                ) == Ok::<AtUriView, AtUriError>(u@),
                Err(e) => spec_new(
                    make_input(
                        handle_or_did@,
                        opt_view(collection),
                        opt_view(rkey),
                    ),
                    None,
                ) == Err::<AtUriView, AtUriError>(e),
            },
            decodable_len(
                make_input(handle_or_did@, opt_view(collection), opt_view(rkey)).len(),
            ) ==> !(r matches Err(AtUriError::InvalidQuery)),
    {
        proof {
            lemma_slash();
        }
        let mut s = handle_or_did;
        if let Some(c) = collection {
            s.append("/");
            s.append(c.as_str());
        }
        if let Some(k) = rkey {
            s.append("/");
            s.append(k.as_str());
        }
        AtUri::new(s, None)
    }

    /// The scheme label, `at:`.
    pub fn get_protocol(&self) -> (r: String)
        ensures
            r@ == "at:"@,
    {
        String::from_str("at:")
    }

    /// The scheme marker followed by the host.
    pub fn get_origin(&self) -> (r: String)
        ensures
            r@ == "at://"@ + self.host@,
    {
        let mut r = String::from_str("at://");
        r.append(self.host.as_str());
        r
    }

    pub fn get_hostname(&self) -> (r: &String)
        ensures
            r@ == self.host@,
    {
        &self.host
    }

    pub fn set_hostname(&mut self, v: String)
        ensures
            final(self)@ == (AtUriView { host: v@, ..old(self)@ }),
    {
        self.host = v;
    }

    /// The query pairs form-urlencoded; this always succeeds.
    pub fn get_search(&self) -> (r: Result<Option<String>, AtUriError>)
        ensures
            r matches Ok(Some(x)) && encoded_query(self@.search_params) == Some(Some(x@)),
            form_query(encoded_query(self@.search_params)),
    {
        match encode_url_query("http://example.com", &self.search_params) {
            Ok(q) => Ok(q),
            Err(_) => Err(AtUriError::InvalidQuery),
        }
    }

    /// Replaces the query pairs by those decoded from `v` appended to the
    /// neutral base; where the decoder refuses it, nothing changes.
    pub fn set_search(&mut self, v: String) -> (r: Result<(), AtUriError>)
        ensures
            match url_query_pairs(query_base() + v@) {
                Some(p) => r is Ok && final(self)@ == (AtUriView { search_params: p, ..old(self)@ }),
                None => r == Err::<(), AtUriError>(AtUriError::InvalidQuery) && final(self)@
                    == old(self)@,
            },
            decodable_len(v@.len()) && (v@.len() == 0 || v@[0] == '?' || v@[0] == '#') ==> r is Ok,
    {
        let mut u = String::from_str("http://example.com");
        u.append(v.as_str());
        proof {
            reveal_strlit("http://example.com");
            assert(query_base().len() == 18);
            assert(u@.subrange(0, 18) =~= query_base());
            if v@.len() > 0 {
                assert(u@[18] == v@[0]);
            }
        }
        match decode_url_query(u.as_str()) {
            Ok(pairs) => {
                self.search_params = pairs;
                Ok(())
            },
            Err(_) => Err(AtUriError::InvalidQuery),
        }
    }

    /// The first path segment, or empty.
    pub fn get_collection(&self) -> (r: String)
        ensures
            r@ == collection_of(self.pathname@),
    {
        let path = self.pathname.as_str();
        let n = path.unicode_len();
        let b = segment_start(path, n);
        if b >= n {
            return String::new();
        }
        let e = segment_end(path, n, b);
        substring(path, b, e)
    }

    /// Replaces the first path segment by `v`, or appends `v` where the path
    /// has no segment.
    pub fn set_collection(&mut self, v: String)
        ensures
            final(self)@ == (AtUriView {
                pathname: with_collection(old(self).pathname@, v@),
                ..old(self)@
            }),
    {
        let path = self.pathname.as_str();
        let n = path.unicode_len();
        let b = segment_start(path, n);
        let mut r: String;
        if b >= n {
            r = self.pathname.clone();
            r.append(v.as_str());
        } else {
            let e = segment_end(path, n, b);
            r = substring(path, 0, b);
            r.append(v.as_str());
            r.append(path.substring_char(e, n));
        }
        self.pathname = r;
    }

    /// The second path segment, or empty.
    pub fn get_rkey(&self) -> (r: String)
        ensures
            r@ == rkey_of(self.pathname@),
    {
        let path = self.pathname.as_str();
        let n = path.unicode_len();
        let b = segment_start(path, n);
        if b >= n {
            return String::new();
        }
        let e = segment_end(path, n, b);
        if e >= n {
            return String::new();
        }
        let e2 = segment_end(path, n, e + 1);
        substring(path, e + 1, e2)
    }

    /// Replaces the second path segment by `v`; with one segment, appends `v`;
    /// with none, puts the placeholder `undefined` first and `v` second.
    pub fn set_rkey(&mut self, v: String)
        ensures
            final(self)@ == (AtUriView {
                pathname: with_rkey(old(self).pathname@, v@),
                ..old(self)@
            }),
    {
        proof {
            lemma_slash();
        }
        let path = self.pathname.as_str();
        let n = path.unicode_len();
        let b = segment_start(path, n);
        let mut r: String;
        if b >= n {
            r = self.pathname.clone();
            r.append("undefined/");
            r.append(v.as_str());
        } else {
            let e = segment_end(path, n, b);
            if e >= n {
                r = self.pathname.clone();
                r.append("/");
                r.append(v.as_str());
            } else {
                let e2 = segment_end(path, n, e + 1);
                r = substring(path, 0, e + 1);
                r.append(v.as_str());
                r.append(path.substring_char(e2, n));
            }
        }
        self.pathname = r;
    }

    /// The text of the identifier: `at://`, the host, the path (`/` where
    /// empty, with a leading `/` put in where missing), `?` and the encoded
    /// query where not empty, `#` and the fragment where not empty; neither
    /// marker is doubled.
    pub fn to_string(&self) -> (r: String)
        ensures
            r@ == render(self@, encoded_query(self@.search_params)),
            parsed_shape(self@) && !(self.hash@.len() > 0 && self.hash@[0] == '#') ==> match_absolute(
                r@,
            ) == Some(
                (
                    self.host@,
                    rendered_path(self.pathname@),
                    rendered_query(encoded_query(self@.search_params)),
                    self.hash@,
                ),
            ),
            lacks_markers(self.host@) && lacks_markers(self.pathname@) && no_double(self.hash@, '?')
                && no_double(self.hash@, '#') ==> no_double(r@, '?') && no_double(r@, '#'),
    {
        proof {
            lemma_slash();
        }
        let mut r = self.get_origin();
        let path = self.pathname.as_str();
        let n = path.unicode_len();
        if n == 0 {
            r.append("/");
        } else {
            if path.get_char(0) != '/' {
                r.append("/");
            }
            r.append(path);
        }
        match self.get_search() {
            Ok(Some(q)) => {
                let qs = q.as_str();
                let m = qs.unicode_len();
                if m > 0 {
                    if qs.get_char(0) != '?' {
                        r.append("?");
                    }
                    r.append(qs);
                }
            },
            _ => {},
        }
        let h = self.hash.as_str();
        let k = h.unicode_len();
        if k > 0 {
            if h.get_char(0) != '#' {
                r.append("#");
            }
            r.append(h);
        }
        proof {
            let q = encoded_query(self@.search_params);
            assert(r@ == render(self@, q));
            if parsed_shape(self@) && !(self.hash@.len() > 0 && self.hash@[0] == '#') {
                lemma_render_matches(self@, q);
            }
            if lacks_markers(self.host@) && lacks_markers(self.pathname@) && no_double(
                self.hash@,
                '?',
            ) && no_double(self.hash@, '#') {
                lemma_no_doubled_markers(self@, q);
            }
        }
        r
    }

    /// The text of the identifier, as `to_string` renders it.
    pub fn get_href(&self) -> (r: String)
        ensures
            r@ == render(self@, encoded_query(self@.search_params)),
    {
        self.to_string()
    }
}

} // verus!
