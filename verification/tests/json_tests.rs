use djazzy_rust::cache::Cache;
use djazzy_rust::cache::FileEntry;
use djazzy_rust::json::parse_cache;

fn entry(path: &str, patterns: &[&str], mtime: &str) -> FileEntry {
    FileEntry {
        path: path.to_string(),
        patterns: patterns.iter().map(|p| p.to_string()).collect(),
        mtime: mtime.to_string(),
    }
}

#[test]
fn test_serialization_shape() {
    let cache = Cache {
        urls: vec![entry("a/urls.py", &["home"], "2024-01-01T00:00:00Z")],
        last_modified_at: "2024-01-02T00:00:00Z".to_string(),
        version: "0.1.0".to_string(),
    };
    let text = cache.to_json();
    assert_eq!(
        text,
        "{\"urls\":{\"a/urls.py\":{\"patterns\":[\"home\"],\"mtime\":\"2024-01-01T00:00:00Z\"}},\
         \"last_modified_at\":\"2024-01-02T00:00:00Z\",\"version\":\"0.1.0\"}"
    );
}

#[test]
fn test_serialization_empty_cache() {
    let cache = Cache {
        urls: Vec::new(),
        last_modified_at: "T".to_string(),
        version: "0.1.0".to_string(),
    };
    assert_eq!(cache.to_json(), "{\"urls\":{},\"last_modified_at\":\"T\",\"version\":\"0.1.0\"}");
}

#[test]
fn test_round_trip_preserves_everything() {
    let cache = Cache {
        urls: vec![
            entry("a/urls.py", &["home", "user-profile"], "2024-01-01T00:00:00.123456+00:00"),
            entry("b c/urls.py", &[], "2024-01-03T00:00:00.000001+00:00"),
            entry("quote\"and\\slash/urls.py", &["na\"me", "tab\there"], "T3"),
        ],
        last_modified_at: "2024-01-04T00:00:00+00:00".to_string(),
        version: "0.1.0".to_string(),
    };
    let text = cache.to_json();
    let loaded = parse_cache(&text).expect("canonical text should load");
    assert_eq!(loaded.urls.len(), 3);
    for (a, b) in cache.urls.iter().zip(loaded.urls.iter()) {
        assert_eq!(a.path, b.path);
        assert_eq!(a.patterns, b.patterns);
        assert_eq!(a.mtime, b.mtime);
    }
    assert_eq!(loaded.last_modified_at, cache.last_modified_at);
    assert_eq!(loaded.version, cache.version);
    // The reloaded cache serializes to the very same bytes.
    assert_eq!(loaded.to_json(), text);
}

#[test]
fn test_malformed_documents_are_rejected() {
    assert!(parse_cache("").is_none());
    assert!(parse_cache("garbage").is_none());
    assert!(parse_cache("{\"urls\":{}}").is_none());
    // Valid JSON, but not the canonical form this library writes.
    assert!(
        parse_cache("{\"urls\": {}, \"last_modified_at\": \"T\", \"version\": \"0.1.0\"}")
            .is_none()
    );
    // Trailing bytes after the document.
    assert!(
        parse_cache("{\"urls\":{},\"last_modified_at\":\"T\",\"version\":\"0.1.0\"} ").is_none()
    );
    // A duplicated path cannot come from the writer.
    assert!(
        parse_cache(
            "{\"urls\":{\"a\":{\"patterns\":[],\"mtime\":\"T\"},\"a\":{\"patterns\":[],\"mtime\":\"T\"}},\
             \"last_modified_at\":\"T\",\"version\":\"0.1.0\"}"
        ).is_none()
    );
}

#[test]
fn test_control_characters_round_trip() {
    let cache = Cache {
        urls: vec![entry("a/urls.py", &["line\nbreak"], "T")],
        last_modified_at: "T".to_string(),
        version: "0.1.0".to_string(),
    };
    let text = cache.to_json();
    assert!(text.contains("\\u000a"));
    let loaded = parse_cache(&text).expect("canonical text should load");
    assert_eq!(loaded.urls[0].patterns, vec!["line\nbreak".to_string()]);
}
