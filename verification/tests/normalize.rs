use crawler::network;
use crawler::parsing;

#[test]
fn absolute_url_kept() {
    let r = network::normalize_url("https://example.com/", "https://other.com/x");
    assert_eq!(r, Some("https://other.com/x".to_string()));
}

#[test]
fn relative_path_resolved() {
    let r = network::normalize_url("https://example.com/a/b", "c");
    assert_eq!(r, Some("https://example.com/a/c".to_string()));
}

#[test]
fn root_relative_resolved() {
    let r = network::normalize_url("https://example.com/a/b", "/c");
    assert_eq!(r, Some("https://example.com/c".to_string()));
}

#[test]
fn empty_reference_rejected() {
    assert_eq!(network::normalize_url("https://example.com/", ""), None);
}

#[test]
fn javascript_scheme_rejected() {
    assert_eq!(network::normalize_url("https://example.com/", "javascript:void(0)"), None);
}

#[test]
fn mailto_rejected() {
    assert_eq!(network::normalize_url("https://example.com/", "mailto:someone@example.com"), None);
}

#[test]
fn malformed_base_returns_none_instead_of_panicking() {
    assert_eq!(network::normalize_url("not a url", "c"), None);
    assert_eq!(network::normalize_url("", "relative/path"), None);
}

#[test]
fn fragment_and_query_stripped() {
    let r = network::normalize_url("https://example.com/", "https://example.com/p?q=1#frag");
    assert_eq!(r, Some("https://example.com/p".to_string()));
}

#[test]
fn relative_reference_fragment_stripped() {
    let r = network::normalize_url("https://example.com/a/b", "c#section");
    assert_eq!(r, Some("https://example.com/a/c".to_string()));
}

#[test]
fn serialization_is_normalized_not_echoed() {
    let r = network::normalize_url("https://example.com/", "HTTPS://EXAMPLE.com/Path");
    assert_eq!(r, Some("https://example.com/Path".to_string()));
}

#[test]
fn idempotent_on_own_output() {
    let once = network::normalize_url("https://example.com/a/b", "c?x=1#y").unwrap();
    let twice = network::normalize_url(&once, &once).unwrap();
    assert_eq!(once, twice);

    let abs = network::normalize_url("https://example.com/", "HTTPS://EXAMPLE.com/Q?a=b").unwrap();
    let abs2 = network::normalize_url(&abs, &abs).unwrap();
    assert_eq!(abs, abs2);
}

#[test]
fn host_is_required() {
    assert_eq!(network::normalize_url("https://example.com/", "unix:/run/foo.socket"), None);
    assert_eq!(network::normalize_url("https://example.com/", "data:text/plain,Stuff"), None);
}

#[test]
fn parsing_normalize_takes_reference_first() {
    let r = parsing::normalize_url("c", "https://example.com/a/b");
    assert_eq!(r, Some("https://example.com/a/c".to_string()));
    let r = parsing::normalize_url("https://other.com/x#f", "https://example.com/");
    assert_eq!(r, Some("https://other.com/x".to_string()));
}

#[test]
fn bare_host_gets_canonical_path() {
    let r = network::normalize_url("https://example.com", "https://other.com");
    assert_eq!(r, Some("https://other.com/".to_string()));
}
