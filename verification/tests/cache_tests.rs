use djazzy_rust::cache::Cache;
use djazzy_rust::cache::FileEntry;
use djazzy_rust::cache::cache_file_name;
use djazzy_rust::cache::fresh_entry;
use djazzy_rust::cache::is_ignored_dir;
use djazzy_rust::cache::is_urls_file;
use djazzy_rust::json::parse_cache;

const APP1_URLS: &str = r#"
            from django.urls import path
            urlpatterns = [
                path("", views.home, name="home"),
            ]
        "#;

const VENV_URLS: &str = r#"
            from django.urls import path
            urlpatterns = [
                path("", views.ignored, name="ignored"),
            ]
        "#;

const APP1_URLS_UPDATED: &str = r#"
            from django.urls import path
            urlpatterns = [
                path("", views.home, name="home"),
                path("new/", views.new, name="new-view"),
            ]
        "#;

/// Drives the scan as the walker would: ignored directories are skipped,
/// only `urls.py` files are read, and unchanged files reuse their entry.
fn scan(cache: &Cache, files: &[(&str, &str, &str)]) -> Vec<FileEntry> {
    let mut results = Vec::new();
    for (path, mtime, source) in files {
        let dir = path.split('/').next().unwrap();
        if is_ignored_dir(dir) {
            continue;
        }
        let base = path.split('/').last().unwrap();
        if !is_urls_file(base) {
            continue;
        }
        match cache.cached_entry(path, mtime) {
            Some(entry) => results.push(entry),
            None => results.push(fresh_entry(path.to_string(), mtime.to_string(), source)),
        }
    }
    results
}

#[test]
fn test_cache_creation() {
    let files = [
        ("app1/urls.py", "2024-01-01T00:00:00.000000+00:00", APP1_URLS),
        (".venv/urls.py", "2024-01-01T00:00:00.000000+00:00", VENV_URLS),
    ];
    let mut cache = Cache::new(Vec::new());
    let urls = scan(&cache, &files);
    cache.merge_results(urls);

    assert_eq!(cache_file_name(), ".djazzy_cache.json".to_string());
    let text = cache.to_json();
    let loaded = parse_cache(&text).expect("the written cache should load");
    assert_eq!(loaded.urls.len(), 1);
    assert!(loaded.urls.iter().any(|entry| entry.patterns.contains(&"home".to_string())));
}

#[test]
fn test_ignored_directories() {
    let files = [
        ("app1/urls.py", "2024-01-01T00:00:00.000000+00:00", APP1_URLS),
        (".venv/urls.py", "2024-01-01T00:00:00.000000+00:00", VENV_URLS),
    ];
    let cache = Cache::new(Vec::new());
    let urls = scan(&cache, &files);

    assert!(!urls.iter().any(|entry| entry.patterns.contains(&"ignored".to_string())));

    let all_patterns: Vec<_> = urls.iter().flat_map(|entry| &entry.patterns).collect();
    assert_eq!(all_patterns, vec!["home"]);
}

#[test]
fn test_cache_update() {
    let files = [
        ("app1/urls.py", "2024-01-01T00:00:00.000000+00:00", APP1_URLS),
        (".venv/urls.py", "2024-01-01T00:00:00.000000+00:00", VENV_URLS),
    ];
    let mut initial_cache = Cache::new(Vec::new());
    let urls = scan(&initial_cache, &files);
    initial_cache.merge_results(urls);
    let text = initial_cache.to_json();

    let updated_files = [
        ("app1/urls.py", "2024-01-02T00:00:00.000000+00:00", APP1_URLS_UPDATED),
        (".venv/urls.py", "2024-01-01T00:00:00.000000+00:00", VENV_URLS),
    ];
    let mut updated_cache = parse_cache(&text).expect("the written cache should load");
    let new_urls = scan(&updated_cache, &updated_files);
    updated_cache.merge_results(new_urls);

    assert_eq!(updated_cache.urls.len(), 1);
    let patterns: Vec<_> = updated_cache.urls.iter().flat_map(|entry| &entry.patterns).collect();
    assert!(patterns.contains(&&"home".to_string()));
    assert!(patterns.contains(&&"new-view".to_string()));
    assert_eq!(updated_cache.urls[0].mtime, "2024-01-02T00:00:00.000000+00:00");
}

#[test]
fn test_unchanged_rescan_is_byte_identical() {
    let files = [("app1/urls.py", "2024-01-01T00:00:00.000000+00:00", APP1_URLS), (
        "app2/urls.py",
        "2024-01-03T00:00:00.000000+00:00",
        APP1_URLS_UPDATED,
    )];
    let mut first = Cache::new(Vec::new());
    let urls = scan(&first, &files);
    first.merge_results(urls);
    first.last_modified_at = "2024-01-04T00:00:00.000000+00:00".to_string();
    let text1 = first.to_json();

    let mut second = parse_cache(&text1).expect("the written cache should load");
    let reused = scan(&second, &files);
    second.merge_results(reused);
    second.last_modified_at = "2024-01-04T00:00:00.000000+00:00".to_string();
    let text2 = second.to_json();

    assert_eq!(text1, text2);
}

#[test]
fn test_stale_entries_are_kept() {
    let files = [("gone/urls.py", "2024-01-01T00:00:00.000000+00:00", APP1_URLS)];
    let mut cache = Cache::new(Vec::new());
    let urls = scan(&cache, &files);
    cache.merge_results(urls);

    // The file has disappeared: a rescan sees nothing, the entry stays.
    cache.merge_results(Vec::new());
    assert_eq!(cache.urls.len(), 1);
    assert_eq!(cache.urls[0].path, "gone/urls.py");
}

#[test]
fn test_only_ignored_directories_yield_empty_map() {
    let files = [
        (".venv/urls.py", "2024-01-01T00:00:00.000000+00:00", VENV_URLS),
        ("node_modules/urls.py", "2024-01-01T00:00:00.000000+00:00", VENV_URLS),
        ("__pycache__/urls.py", "2024-01-01T00:00:00.000000+00:00", VENV_URLS),
        ("migrations/urls.py", "2024-01-01T00:00:00.000000+00:00", VENV_URLS),
    ];
    let mut cache = Cache::new(Vec::new());
    let urls = scan(&cache, &files);
    cache.merge_results(urls);
    assert!(cache.urls.is_empty());
}

#[test]
fn test_empty_urls_file_yields_empty_patterns() {
    let entry = fresh_entry(
        "app1/urls.py".to_string(),
        "2024-01-01T00:00:00.000000+00:00".to_string(),
        "",
    );
    assert!(entry.patterns.is_empty());
}

#[test]
fn test_mtime_mismatch_forces_reextraction() {
    let files = [("app1/urls.py", "2024-01-01T00:00:00.000000+00:00", APP1_URLS)];
    let mut cache = Cache::new(Vec::new());
    let urls = scan(&cache, &files);
    cache.merge_results(urls);

    assert!(cache.cached_entry("app1/urls.py", "2024-01-01T00:00:00.000000+00:00").is_some());
    assert!(cache.cached_entry("app1/urls.py", "2024-01-02T00:00:00.000000+00:00").is_none());
    assert!(cache.cached_entry("absent/urls.py", "2024-01-01T00:00:00.000000+00:00").is_none());
}
