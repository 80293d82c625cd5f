use crawler::crawling::{outcome_of_fetch, FailureCause, FetchOutcome};
use crawler::parsing::{parse, ParseArguments, ParsedData};

fn args_for(url: &str) -> ParseArguments {
    ParseArguments { page_url: url.to_string(), base_url: url.to_string() }
}

#[test]
fn example_page_extraction() {
    let html = "<html><head><title>Home</title></head><body>\
                <a href=\"/about\">About</a><p>Hello</p></body></html>";
    let d: ParsedData = parse(args_for("https://x.test/"), html);
    assert_eq!(d.page_url, "https://x.test/");
    assert_eq!(d.page_title, "Home");
    assert_eq!(d.text, "Hello");
    assert_eq!(d.links, vec!["https://x.test/about".to_string()]);
}

#[test]
fn missing_title_is_empty() {
    let d = parse(args_for("https://x.test/"), "<html><body><p>Hi</p></body></html>");
    assert_eq!(d.page_title, "");
    assert_eq!(d.text, "Hi");
}

#[test]
fn first_title_wins() {
    let d = parse(
        args_for("https://x.test/"),
        "<html><head><title>First</title></head><body><title>Second</title></body></html>",
    );
    assert_eq!(d.page_title, "First");
}

#[test]
fn text_is_space_joined_in_document_order() {
    let d = parse(
        args_for("https://x.test/"),
        "<html><body><p>One</p><div>skip</div><b>Two</b><em>Three</em></body></html>",
    );
    assert_eq!(d.text, "One Two Three");
}

#[test]
fn empty_document_degrades_gracefully() {
    let d = parse(args_for("https://x.test/"), "");
    assert_eq!(d.page_title, "");
    assert_eq!(d.text, "");
    assert!(d.links.is_empty());
}

#[test]
fn duplicate_links_collapse() {
    let d = parse(
        args_for("https://x.test/dir/"),
        "<html><body><a href=\"/a\">one</a><a href=\"/a\">two</a>\
         <a href=\"https://x.test/a\">three</a></body></html>",
    );
    assert_eq!(d.links, vec!["https://x.test/a".to_string()]);
}

#[test]
fn link_elements_count_and_bad_references_drop() {
    let d = parse(
        args_for("https://x.test/"),
        "<html><head><link href=\"style.css\"></head><body>\
         <a href=\"javascript:void(0)\">no</a>\
         <a href=\"mailto:x@y.z\">no</a>\
         <a href=\"page#frag\">yes</a></body></html>",
    );
    assert_eq!(
        d.links,
        vec!["https://x.test/style.css".to_string(), "https://x.test/page".to_string()]
    );
}

#[test]
fn fetched_body_becomes_success_outcome() {
    let outcome = outcome_of_fetch(
        args_for("https://x.test/"),
        Some("<html><head><title>T</title></head><body><p>B</p></body></html>".to_string()),
    );
    match outcome {
        FetchOutcome::Success(d) => {
            assert_eq!(d.page_url, "https://x.test/");
            assert_eq!(d.page_title, "T");
            assert_eq!(d.text, "B");
        },
        FetchOutcome::Failure(_, _) => panic!("expected a success outcome"),
    }
}

#[test]
fn transport_failure_becomes_failure_outcome() {
    let outcome = outcome_of_fetch(args_for("https://x.test/"), None);
    match outcome {
        FetchOutcome::Success(_) => panic!("expected a failure outcome"),
        FetchOutcome::Failure(url, cause) => {
            assert_eq!(url, "https://x.test/");
            assert_eq!(cause, FailureCause::NetworkError);
        },
    }
}
