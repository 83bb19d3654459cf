use rsky_syntax::aturi::{AtUri, AtUriError};

// Helper function that constructs AtUri using the new() method and returns a Result
fn create_at_uri(
    host: &str,
    pathname: &str,
    search_params: Vec<(String, String)>,
    hash: &str,
) -> Result<AtUri, AtUriError> {
    let mut uri = AtUri::new(host.to_string(), None)?;
    uri.pathname = pathname.to_string();
    uri.search_params = search_params;
    uri.hash = hash.to_string();
    Ok(uri)
}

#[test]
fn test_display_basic_uri() {
    let uri = create_at_uri("example.com", "app.bsky.feed.post/123", vec![], "")
        .expect("Should create valid basic URI");
    assert_eq!(uri.to_string(), "at://example.com/app.bsky.feed.post/123");
}

#[test]
fn test_display_empty_pathname() {
    let uri = create_at_uri("example.com", "", vec![], "")
        .expect("Should create valid URI with empty pathname");
    assert_eq!(uri.to_string(), "at://example.com/");
}

#[test]
fn test_display_with_did() {
    let uri = create_at_uri(
        "did:plc:44ybard66vv44zksje25o7dz",
        "app.bsky.feed.post/123",
        vec![],
        "",
    )
    .expect("Should create valid URI with DID");
    assert_eq!(
        uri.to_string(),
        "at://did:plc:44ybard66vv44zksje25o7dz/app.bsky.feed.post/123"
    );
}

#[test]
fn test_display_with_search_params() {
    let uri = create_at_uri(
        "example.com",
        "app.bsky.feed.post/123",
        vec![
            ("key1".to_string(), "value1".to_string()),
            ("key2".to_string(), "value2".to_string()),
        ],
        "",
    )
    .expect("Should create valid URI with search parameters");
    assert_eq!(
        uri.to_string(),
        "at://example.com/app.bsky.feed.post/123?key1=value1&key2=value2"
    );
}

#[test]
fn test_display_with_hash() {
    let uri = create_at_uri("example.com", "app.bsky.feed.post/123", vec![], "fragment")
        .expect("Should create valid URI with hash fragment");
    assert_eq!(
        uri.to_string(),
        "at://example.com/app.bsky.feed.post/123#fragment"
    );
}

#[test]
fn test_display_complete_uri() {
    let uri = create_at_uri(
        "example.com",
        "app.bsky.feed.post/123",
        vec![("key".to_string(), "value".to_string())],
        "fragment",
    )
    .expect("Should create valid complete URI");
    assert_eq!(
        uri.to_string(),
        "at://example.com/app.bsky.feed.post/123?key=value#fragment"
    );
}

#[test]
fn test_display_pathname_formatting() {
    let uri = create_at_uri("example.com", "app.bsky.feed.post/123", vec![], "")
        .expect("Should create valid URI with pathname");
    assert!(uri.to_string().contains("/app.bsky.feed.post/123"));
}

#[test]
fn test_display_search_params_formatting() {
    let uri = create_at_uri(
        "example.com",
        "path",
        vec![("key".to_string(), "value".to_string())],
        "",
    )
    .expect("Should create valid URI with search params");
    let result = uri.to_string();
    assert!(result.contains("?key=value"));
    assert!(
        !result.contains("??"),
        "Should not contain double question marks"
    );
}

#[test]
fn test_display_hash_formatting() {
    let uri = create_at_uri("example.com", "path", vec![], "fragment")
        .expect("Should create valid URI with hash");
    let result = uri.to_string();
    assert!(result.contains("#fragment"));
    assert!(
        !result.contains("##"),
        "Should not contain double hash symbols"
    );
}

#[test]
fn test_display_spec_compliance() {
    let cases = vec![
        (
            "foo.com",
            "com.example.foo/123",
            "at://foo.com/com.example.foo/123",
        ),
        (
            "did:plc:44ybard66vv44zksje25o7dz",
            "app.bsky.feed.post/3jwdwj2ctlk26",
            "at://did:plc:44ybard66vv44zksje25o7dz/app.bsky.feed.post/3jwdwj2ctlk26",
        ),
        (
            "bnewbold.bsky.team",
            "app.bsky.feed.post/3jwdwj2ctlk26",
            "at://bnewbold.bsky.team/app.bsky.feed.post/3jwdwj2ctlk26",
        ),
    ];

    for (host, pathname, expected) in cases {
        let uri = create_at_uri(host, pathname, vec![], "")
            .expect("Should create valid URI for spec compliance test");
        assert_eq!(uri.to_string(), expected);
    }
}

#[test]
fn test_invalid_query_parameters() {
    let invalid_cases = vec![
        vec![("".to_string(), "value".to_string())],
        vec![("??key".to_string(), "value".to_string())],
        vec![("key#invalid".to_string(), "value".to_string())],
    ];

    for search_params in invalid_cases {
        let result = create_at_uri("example.com", "path", search_params.clone(), "");
        if let Ok(uri) = result {
            let display_result = uri.to_string();
            assert!(
                display_result.matches('?').count() <= 1,
                "Query string should contain at most one question mark: {}",
                display_result
            );
        }
    }
}
