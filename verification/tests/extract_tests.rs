use djazzy_rust::extract::extract_url_patterns;

#[test]
fn test_extract_basic_urls() {
    let source = r#"
            from django.urls import path
            urlpatterns = [
                path("", views.home, name="home"),
                path("profile/", views.profile, name="user-profile"),
            ]
            "#;

    let mut urls = extract_url_patterns(source);
    let mut expected = vec!["home".to_string(), "user-profile".to_string()];
    urls.sort();
    expected.sort();
    assert_eq!(urls, expected);
}

#[test]
fn test_extract_re_path_urls() {
    let source = r#"
            from django.urls import re_path
            urlpatterns = [
                re_path(r"^dashboard/$", views.dashboard, name="dashboard"),
            ]
            "#;

    let urls = extract_url_patterns(source);
    assert_eq!(urls, vec!["dashboard"]);
}

#[test]
fn test_ignore_include_urls() {
    let source = r#"
            from django.urls import path, include
            urlpatterns = [
                path("", views.home, name="home"),
                path("blog/", include("blog.urls")),
            ]
            "#;

    let urls = extract_url_patterns(source);
    assert_eq!(urls, vec!["home"]);
}

#[test]
fn test_no_urls_found() {
    let source = r#"
            # This is an empty urls.py file
            urlpatterns = []
            "#;

    let urls = extract_url_patterns(source);
    assert!(urls.is_empty());
}

#[test]
fn test_unrecognized_calls_yield_nothing() {
    let source = r#"
            urlpatterns = [
                route("", views.home, name="home"),
                url("profile/", views.profile, name="user-profile"),
            ]
            "#;

    let urls = extract_url_patterns(source);
    assert!(urls.is_empty());
}

#[test]
fn test_quotes_stripped_exactly_once() {
    let source = r#"
            urlpatterns = [
                path("", views.a, name="'x'"),
                path("b/", views.b, name='a"b'),
            ]
            "#;

    let mut urls = extract_url_patterns(source);
    let mut expected = vec!["'x'".to_string(), "a\"b".to_string()];
    urls.sort();
    expected.sort();
    assert_eq!(urls, expected);
}

#[test]
fn test_single_quoted_name() {
    let source = r#"
            urlpatterns = [
                path("", views.home, name='home'),
            ]
            "#;

    let urls = extract_url_patterns(source);
    assert_eq!(urls, vec!["home"]);
}

#[test]
fn test_empty_source_yields_nothing() {
    let urls = extract_url_patterns("");
    assert!(urls.is_empty());
}

#[test]
fn test_name_value_with_equals_sign() {
    // The span is split on the first `=`; the right-hand side is kept whole.
    let source = r#"
            urlpatterns = [
                path("", views.home, name="a=b"),
            ]
            "#;

    let urls = extract_url_patterns(source);
    assert_eq!(urls, vec!["a=b"]);
}

#[test]
fn test_last_name_argument_wins() {
    let source = r#"
            urlpatterns = [
                path("", views.home, name="first", name="second"),
            ]
            "#;

    let urls = extract_url_patterns(source);
    assert_eq!(urls.len(), 1);
    assert_eq!(urls[0], "second");
}
