// The URL class that owns a linked parameter list reads and writes its
// components through the `url` crate's WHATWG accessors; these scenarios pin
// the behaviour that the list's URL link relies on.
use url::{quirks, Url};

fn can_parse(input: &str, base: Option<&str>) -> bool {
    match base {
        Some(b) => match Url::parse(b) {
            Ok(base) => base.join(input).is_ok(),
            Err(_) => false,
        },
        None => Url::parse(input).is_ok(),
    }
}

fn check(url: &Url, parts: [&str; 9]) {
    assert_eq!(quirks::href(url), parts[0]);
    assert_eq!(quirks::protocol(url), parts[1]);
    assert_eq!(quirks::host(url), parts[2]);
    assert_eq!(quirks::hostname(url), parts[3]);
    assert_eq!(quirks::port(url), parts[4]);
    assert_eq!(quirks::pathname(url), parts[5]);
    assert_eq!(quirks::search(url), parts[6]);
    assert_eq!(quirks::hash(url), parts[7]);
    assert_eq!(url.as_str(), parts[8]);
}

#[test]
fn url_basic() {
    let url = Url::parse("https://example.com:8080/path/to/resource?query#fragment").unwrap();
    let href = "https://example.com:8080/path/to/resource?query#fragment";
    check(
        &url,
        [href, "https:", "example.com:8080", "example.com", "8080", "/path/to/resource", "?query", "#fragment", href],
    );
}

#[test]
fn url_base() {
    let base = Url::parse("http://example.org/").unwrap();
    let url = base.join("https://example.com:8080/path/to/resource?query#fragment").unwrap();
    let href = "https://example.com:8080/path/to/resource?query#fragment";
    check(
        &url,
        [href, "https:", "example.com:8080", "example.com", "8080", "/path/to/resource", "?query", "#fragment", href],
    );
    let url = base.join("/path/to/resource?query#fragment").unwrap();
    let href = "http://example.org/path/to/resource?query#fragment";
    check(
        &url,
        [href, "http:", "example.org", "example.org", "", "/path/to/resource", "?query", "#fragment", href],
    );
}

#[test]
fn url_setters() {
    let mut url = Url::parse("https://example.com:8080/path/to/resource?query#fragment").unwrap();
    quirks::set_protocol(&mut url, "http:").unwrap();
    quirks::set_host(&mut url, "example.org:80").unwrap();
    quirks::set_pathname(&mut url, "/new/path");
    quirks::set_search(&mut url, "?new-query");
    quirks::set_hash(&mut url, "#new-fragment");
    let href = "http://example.org/new/path?new-query#new-fragment";
    check(
        &url,
        [href, "http:", "example.org", "example.org", "", "/new/path", "?new-query", "#new-fragment", href],
    );
}

#[test]
fn url_static_methods() {
    assert!(can_parse("http://example.org/new/path?new-query#new-fragment", None));
    assert!(!can_parse("http//:example.org/new/path?new-query#new-fragment", None));
    assert!(!can_parse("http://example.org/new/path?new-query#new-fragment", Some("http:")));
    assert!(can_parse("/new/path?new-query#new-fragment", Some("http://example.org/")));
}
