use rsky_syntax::aturi::{parse, parse_relative, AtUri, AtUriError};

fn pairs(v: &[(&str, &str)]) -> Vec<(String, String)> {
    v.iter().map(|(k, v)| (k.to_string(), v.to_string())).collect()
}

#[test]
fn construct_host_collection_rkey() {
    let uri = AtUri::new("example.com/app.bsky.feed.post/123".to_string(), None).unwrap();
    assert_eq!(uri.host, "example.com");
    assert_eq!(uri.pathname, "/app.bsky.feed.post/123");
    assert_eq!(uri.get_collection(), "app.bsky.feed.post");
    assert_eq!(uri.get_rkey(), "123");
    assert_eq!(uri.to_string(), "at://example.com/app.bsky.feed.post/123");
}

#[test]
fn construct_with_scheme_and_upper_case() {
    let uri = AtUri::new("AT://Example.COM/a/b".to_string(), None).unwrap();
    assert_eq!(uri.host, "Example.COM");
    assert_eq!(uri.pathname, "/a/b");
    let did = AtUri::new("at://DID:plc:abc%20".to_string(), None).unwrap();
    assert_eq!(did.host, "DID:plc:abc%20");
}

#[test]
fn construct_empty_is_invalid() {
    assert_eq!(AtUri::new("".to_string(), None).unwrap_err(), AtUriError::InvalidIdentifier);
}

#[test]
fn construct_rejects_bad_inputs() {
    for s in ["-abc", "example.com/a b", "example.com?", "example.com#", "exa_mple.com", "/path"] {
        assert_eq!(
            AtUri::new(s.to_string(), None).unwrap_err(),
            AtUriError::InvalidIdentifier,
            "{}",
            s
        );
    }
}

#[test]
fn scheme_falls_back_to_host_at() {
    // With the marker the host would be invalid; without it, `at:` is a host.
    let uri = AtUri::new("at://exa_mple".to_string(), None).unwrap();
    assert_eq!(uri.host, "at:");
    assert_eq!(uri.pathname, "//exa_mple");
}

#[test]
fn construct_relative_against_base() {
    let uri = AtUri::new(
        "/app.bsky.feed.post/123?q=1#frag".to_string(),
        Some("did:plc:abc/ignored".to_string()),
    )
    .unwrap();
    assert_eq!(uri.host, "did:plc:abc");
    assert_eq!(uri.pathname, "/app.bsky.feed.post/123");
    assert_eq!(uri.get_search().unwrap(), Some("q=1".to_string()));
    assert_eq!(uri.search_params, pairs(&[("q", "1")]));
    assert_eq!(uri.hash, "frag");
}

#[test]
fn construct_relative_errors() {
    assert_eq!(
        AtUri::new("/a".to_string(), Some("bad base!".to_string())).unwrap_err(),
        AtUriError::InvalidBase
    );
    assert_eq!(
        AtUri::new("no-slash".to_string(), Some("example.com".to_string())).unwrap_err(),
        AtUriError::InvalidPath
    );
}

#[test]
fn relative_host_matches_base_host() {
    let base = AtUri::new("at://bob.test/x".to_string(), None).unwrap();
    let rel = AtUri::new("/y/z".to_string(), Some("at://bob.test/x".to_string())).unwrap();
    assert_eq!(rel.host, base.host);
}

#[test]
fn parse_decodes_query_in_order() {
    let p = parse(&"example.com/c/k?b=2&a=1;x&c=%20y+z".to_string()).unwrap().unwrap();
    assert_eq!(p.search_params, pairs(&[("b", "2"), ("a", "1;x"), ("c", " y z")]));
    assert_eq!(p.hash, "");
    assert!(parse(&"bad host".to_string()).unwrap().is_none());
}

#[test]
fn parse_relative_parts() {
    let p = parse_relative(&"/a/b?k=v#f#g".to_string()).unwrap().unwrap();
    assert_eq!(p.pathname, "/a/b");
    assert_eq!(p.search_params, pairs(&[("k", "v")]));
    assert_eq!(p.hash, "f#g");
    let e = parse_relative(&"".to_string()).unwrap().unwrap();
    assert_eq!(e.pathname, "");
    assert!(e.search_params.is_empty());
    assert!(parse_relative(&"a/b".to_string()).unwrap().is_none());
}

#[test]
fn make_joins_parts() {
    let uri = AtUri::make(
        "did:plc:abc".to_string(),
        Some("app.bsky.feed.post".to_string()),
        Some("3k".to_string()),
    )
    .unwrap();
    assert_eq!(uri.to_string(), "at://did:plc:abc/app.bsky.feed.post/3k");
    let bare = AtUri::make("alice.test".to_string(), None, None).unwrap();
    assert_eq!(bare.to_string(), "at://alice.test/");
    assert_eq!(
        AtUri::make("bad host".to_string(), None, None).unwrap_err(),
        AtUriError::InvalidIdentifier
    );
}

#[test]
fn accessors() {
    let mut uri = AtUri::new("at://alice.test/c/k".to_string(), None).unwrap();
    assert_eq!(uri.get_protocol(), "at:");
    assert_eq!(uri.get_origin(), "at://alice.test");
    assert_eq!(uri.get_hostname(), "alice.test");
    uri.set_hostname("bob.test".to_string());
    assert_eq!(uri.get_hostname(), "bob.test");
    assert_eq!(uri.get_href(), "at://bob.test/c/k");
}

#[test]
fn set_collection_replaces_first_segment() {
    let mut uri = AtUri::new("example.com".to_string(), None).unwrap();
    uri.pathname = "app.bsky.feed.post/123".to_string();
    uri.set_collection("app.bsky.feed.like".to_string());
    assert_eq!(uri.pathname, "app.bsky.feed.like/123");

    let mut parsed = AtUri::new("example.com/a/b".to_string(), None).unwrap();
    parsed.set_collection("c".to_string());
    assert_eq!(parsed.pathname, "/c/b");

    let mut empty = AtUri::new("example.com".to_string(), None).unwrap();
    empty.set_collection("c".to_string());
    assert_eq!(empty.pathname, "c");
    assert_eq!(empty.get_collection(), "c");
}

#[test]
fn set_rkey_policy() {
    let mut two = AtUri::new("example.com/a/b/c".to_string(), None).unwrap();
    two.set_rkey("k".to_string());
    assert_eq!(two.pathname, "/a/k/c");

    let mut one = AtUri::new("example.com/a".to_string(), None).unwrap();
    one.set_rkey("k".to_string());
    assert_eq!(one.pathname, "/a/k");
    assert_eq!(one.get_rkey(), "k");

    // With no segment, a placeholder takes the collection's place.
    let mut none = AtUri::new("example.com".to_string(), None).unwrap();
    none.set_rkey("k".to_string());
    assert_eq!(none.pathname, "undefined/k");
    assert_eq!(none.get_collection(), "undefined");
    assert_eq!(none.to_string(), "at://example.com/undefined/k");
}

#[test]
fn missing_segments_read_as_empty() {
    let uri = AtUri::new("example.com".to_string(), None).unwrap();
    assert_eq!(uri.get_collection(), "");
    assert_eq!(uri.get_rkey(), "");
    let one = AtUri::new("example.com/a".to_string(), None).unwrap();
    assert_eq!(one.get_rkey(), "");
}

#[test]
fn search_set_then_get() {
    let mut uri = AtUri::new("example.com/a".to_string(), None).unwrap();
    uri.set_search("?b=2&a=1".to_string()).unwrap();
    assert_eq!(uri.search_params, pairs(&[("b", "2"), ("a", "1")]));
    assert_eq!(uri.get_search().unwrap(), Some("b=2&a=1".to_string()));
    assert!(uri.set_search(":bad".to_string()).is_err());
    assert_eq!(uri.search_params, pairs(&[("b", "2"), ("a", "1")]));
}

#[test]
fn search_encoding_escapes_markers() {
    let mut uri = AtUri::new("example.com/a".to_string(), None).unwrap();
    uri.search_params = pairs(&[("a b", "c&d")]);
    assert_eq!(uri.get_search().unwrap(), Some("a+b=c%26d".to_string()));
    assert_eq!(uri.to_string(), "at://example.com/a?a+b=c%26d");
}

#[test]
fn markers_not_doubled() {
    let mut uri = AtUri::new("example.com/a".to_string(), None).unwrap();
    uri.hash = "#top".to_string();
    uri.search_params = pairs(&[("?k", "v")]);
    let s = uri.to_string();
    assert_eq!(s, "at://example.com/a?%3Fk=v#top");
    assert!(!s.contains("??") && !s.contains("##"));
}

#[test]
fn round_trip_is_stable() {
    for s in ["at://did:plc:abc/app.bsky.feed.post/1?x=1&y=2#f", "alice.test", "alice.test/c"] {
        let first = AtUri::new(s.to_string(), None).unwrap();
        let rendered = first.to_string();
        let second = AtUri::new(rendered.clone(), None).unwrap();
        assert_eq!(second.host, first.host);
        assert_eq!(second.hash, first.hash);
        assert_eq!(second.search_params, first.search_params);
        assert_eq!(second.to_string(), rendered);
    }
}

#[test]
fn absolute_captures() {
    let v = rsky_syntax::aturi::atp_uri_regex("at://alice.test/c/k?x=1#f").unwrap();
    assert_eq!(v, vec!["at://", "alice.test", "/c/k", "?x=1", "#f"]);
    let w = rsky_syntax::aturi::atp_uri_regex("did:plc:abc").unwrap();
    assert_eq!(w, vec!["", "did:plc:abc", "", "", ""]);
    assert!(rsky_syntax::aturi::atp_uri_regex("").is_none());
    assert!(rsky_syntax::aturi::atp_uri_regex("a b").is_none());
}

#[test]
fn relative_captures() {
    let v = rsky_syntax::aturi::relative_regex("/c/k?x=1#f").unwrap();
    assert_eq!(v, vec!["/c/k", "?x=1", "#f"]);
    assert_eq!(rsky_syntax::aturi::relative_regex("").unwrap(), vec!["", "", ""]);
    assert!(rsky_syntax::aturi::relative_regex("c/k").is_none());
}

#[test]
fn equal_identifiers_compare_equal() {
    let a = AtUri::new("at://alice.test/c/k?x=1#f".to_string(), None).unwrap();
    let b = AtUri::new("alice.test/c/k?x=1#f".to_string(), None).unwrap();
    assert_eq!(a, b);
    let mut c = b.clone();
    c.set_rkey("other".to_string());
    assert_ne!(a, c);
}

#[test]
fn empty_search_gives_empty_query() {
    let uri = AtUri::new("alice.test".to_string(), None).unwrap();
    assert_eq!(uri.get_search().unwrap(), Some(String::new()));
    assert_eq!(uri.to_string(), "at://alice.test/");
}
