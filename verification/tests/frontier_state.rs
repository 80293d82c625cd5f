use crawler::crawling::{FailureCause, FetchOutcome};
use crawler::frontier::{Frontier, UrlState};
use crawler::parsing::ParsedData;

fn page(url: &str, links: Vec<&str>) -> ParsedData {
    ParsedData {
        page_url: url.to_string(),
        page_title: String::new(),
        text: String::new(),
        links: links.into_iter().map(|s| s.to_string()).collect(),
    }
}

#[test]
fn seed_is_canonicalized() {
    let f = Frontier::new("HTTPS://EXAMPLE.com/Start?q=1#f", 1).unwrap();
    assert_eq!(f.entries.len(), 1);
    assert_eq!(f.entries[0].url, "https://example.com/Start");
    assert_eq!(f.entries[0].state, UrlState::NotVisited);
}

#[test]
fn malformed_seed_is_an_error_not_a_crash() {
    assert!(Frontier::new("no scheme here", 1).is_none());
    assert!(Frontier::new("", 1).is_none());
}

#[test]
fn select_marks_dispatched_exactly_once() {
    let mut f = Frontier::new("https://example.com/", 1).unwrap();
    let batch = f.select_batch(10);
    assert_eq!(batch, vec!["https://example.com/".to_string()]);
    assert_eq!(f.entries[0].state, UrlState::Dispatched);
    let second = f.select_batch(10);
    assert!(second.is_empty());
}

#[test]
fn batch_respects_the_cap() {
    let mut f = Frontier::new("https://example.com/", 1).unwrap();
    f.apply_outcome(FetchOutcome::Success(page(
        "https://missing.test/",
        vec!["https://example.com/a", "https://example.com/b", "https://example.com/c"],
    )));
    let batch = f.select_batch(2);
    assert_eq!(batch.len(), 2);
    let rest = f.select_batch(10);
    assert_eq!(rest.len(), 2);
    for url in &batch {
        assert!(!rest.contains(url), "a dispatched URL entered a second batch");
    }
}

#[test]
fn success_marks_visited_and_merges_links_deduplicated() {
    let mut f = Frontier::new("https://example.com/", 2).unwrap();
    let batch = f.select_batch(10);
    assert_eq!(batch.len(), 1);
    f.apply_outcome(FetchOutcome::Success(page(
        "https://example.com/",
        vec![
            "https://example.com/a",
            "HTTPS://EXAMPLE.com/a#frag",
            "https://example.com/",
            "javascript:void(0)",
        ],
    )));
    assert_eq!(f.entries[0].state, UrlState::Visited);
    assert_eq!(f.entries.len(), 2);
    assert_eq!(f.entries[1].url, "https://example.com/a");
    assert_eq!(f.entries[1].state, UrlState::NotVisited);
}

#[test]
fn failure_retries_then_excludes_for_good() {
    let mut f = Frontier::new("https://example.com/", 1).unwrap();

    let b1 = f.select_batch(10);
    assert_eq!(b1.len(), 1);
    f.apply_outcome(FetchOutcome::Failure(
        "https://example.com/".to_string(),
        FailureCause::NetworkError,
    ));
    assert_eq!(f.entries[0].state, UrlState::NotVisited);
    assert_eq!(f.entries[0].attempts, 1);
    assert!(!f.is_exhausted());

    let b2 = f.select_batch(10);
    assert_eq!(b2.len(), 1);
    f.apply_outcome(FetchOutcome::Failure(
        "https://example.com/".to_string(),
        FailureCause::NetworkError,
    ));
    assert_eq!(f.entries[0].state, UrlState::Failed(FailureCause::NetworkError));
    assert!(f.select_batch(10).is_empty());
    assert!(f.is_exhausted());
}

#[test]
fn outcome_for_unknown_url_changes_nothing() {
    let mut f = Frontier::new("https://example.com/", 1).unwrap();
    f.apply_outcome(FetchOutcome::Failure(
        "https://elsewhere.test/".to_string(),
        FailureCause::ParseError,
    ));
    assert_eq!(f.entries.len(), 1);
    assert_eq!(f.entries[0].state, UrlState::NotVisited);
}

#[test]
fn crawl_of_small_graph_terminates_with_all_final() {
    let mut f = Frontier::new("https://g.test/", 0).unwrap();
    let mut fetched: Vec<(String, Vec<&str>)> = Vec::new();
    fetched.push(("https://g.test/".to_string(), vec!["/a", "https://g.test/b"]));
    fetched.push(("https://g.test/a".to_string(), vec!["https://g.test/b"]));
    fetched.push(("https://g.test/b".to_string(), vec![]));

    let mut steps = 0usize;
    while !f.is_exhausted() {
        steps += 1;
        assert!(steps < 100, "crawl failed to terminate");
        for url in f.select_batch(10) {
            let links = fetched
                .iter()
                .find(|(u, _)| *u == url)
                .map(|(_, ls)| ls.clone())
                .unwrap_or_default();
            let base = url.clone();
            let abs: Vec<String> = links
                .iter()
                .map(|l| crawler::network::normalize_url(&base, l).unwrap())
                .collect();
            f.apply_outcome(FetchOutcome::Success(page(
                &url,
                abs.iter().map(|s| s.as_str()).collect(),
            )));
        }
    }
    assert_eq!(f.entries.len(), 3);
    for e in &f.entries {
        assert_eq!(e.state, UrlState::Visited);
    }
    assert_eq!(f.visited_count(), 3);
}
