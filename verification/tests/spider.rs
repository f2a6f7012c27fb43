use spider::engine::{CrawlConfig, CrawlEngine, EngineStep};
use spider::error::SpiderError;
use spider::extract::extract;
use spider::frontier::Frontier;
use spider::rate::{Admission, RateAdmission};
use spider::scope::in_scope;
use spider::urls::resolve_candidate;

/// Drive one engine with a single worker over an in-memory site until
/// it reports `Done`; pages absent from `pages` fail their fetch.
fn run_crawl(
    seed: &str,
    pages: &[(&str, &str)],
    allow_external: bool,
    cap: Option<u64>,
) -> (Vec<String>, Vec<String>, u64) {
    let config = CrawlConfig::new(seed, 5, allow_external, true, cap).unwrap();
    let mut engine = CrawlEngine::new(config);
    let mut guard = 0;
    loop {
        guard += 1;
        assert!(guard < 10_000, "crawl did not terminate");
        match engine.next_task() {
            EngineStep::Fetch(url) => {
                let body = pages.iter().find(|(u, _)| *u == url).map(|(_, b)| *b);
                match body {
                    Some(b) => engine.complete_fetched(&url, b),
                    None => engine.complete_failed(&url),
                }
            }
            EngineStep::Wait => {}
            EngineStep::Done => break,
        }
    }
    (
        engine.visited_urls().clone(),
        engine.emails().clone(),
        engine.failed_count(),
    )
}

#[test]
fn error_round_trip() {
    let e = SpiderError::new(String::from("boom"));
    assert_eq!(e.message(), "boom");
}

#[test]
fn scope_same_host_case_insensitive() {
    assert!(in_scope("a.test", "A.TEST", false));
    assert!(in_scope("WWW.Example.ORG", "www.example.org", false));
}

#[test]
fn scope_external_rejected_unless_allowed() {
    assert!(!in_scope("b.test", "a.test", false));
    assert!(in_scope("b.test", "a.test", true));
}

#[test]
fn scope_is_exact_match_not_suffix() {
    assert!(!in_scope("sub.a.test", "a.test", false));
}

#[test]
fn scope_is_deterministic() {
    for _ in 0..3 {
        assert!(in_scope("a.test", "a.test", false));
        assert!(!in_scope("b.test", "a.test", false));
    }
}

#[test]
fn parse_normalizes_and_extracts_host() {
    let u = resolve_candidate("HTTP://A.TEST/Path", "http://x.test/").unwrap();
    assert_eq!(u.full, "http://a.test/Path");
    assert_eq!(u.host, "a.test");
    // an absolute URL without a host yields no candidate
    assert!(resolve_candidate("mailto:u@a.test", "http://x.test/").is_none());
}

#[test]
fn relative_candidates_resolve_against_page() {
    let u = resolve_candidate("about/page.html", "http://a.test/dir/").unwrap();
    assert_eq!(u.full, "http://a.test/dir/about/page.html");
    assert_eq!(u.host, "a.test");
    let v = resolve_candidate("http://b.test/x", "http://a.test/dir/").unwrap();
    assert_eq!(v.full, "http://b.test/x");
    assert_eq!(v.host, "b.test");
}

#[test]
fn frontier_offer_is_deduplicating() {
    let mut f = Frontier::new();
    f.offer(String::from("http://a.test/"));
    f.offer(String::from("http://a.test/"));
    let first = f.try_claim_next();
    assert_eq!(first, Some(String::from("http://a.test/")));
    assert_eq!(f.try_claim_next(), None);
}

#[test]
fn frontier_never_claims_twice() {
    let mut f = Frontier::new();
    f.offer(String::from("http://a.test/x"));
    f.offer(String::from("http://a.test/y"));
    let a = f.try_claim_next().unwrap();
    // offering a visited URL again must not resurrect it
    f.offer(a.clone());
    let b = f.try_claim_next().unwrap();
    assert_ne!(a, b);
    f.offer(b.clone());
    assert_eq!(f.try_claim_next(), None);
    assert!(f.is_drained());
    assert_eq!(f.visited_urls().len(), 2);
}

#[test]
fn frontier_records_emails_once() {
    let mut f = Frontier::new();
    f.record_email(String::from("u@a.test"));
    f.record_email(String::from("u@a.test"));
    f.record_email(String::from("v@a.test"));
    assert_eq!(f.emails(), &vec![String::from("u@a.test"), String::from("v@a.test")]);
}

#[test]
fn extract_empty_body_yields_nothing() {
    let (links, emails) = extract("", "http://a.test/");
    assert!(links.is_empty());
    assert!(emails.is_empty());
}

#[test]
fn extract_splits_links_and_emails() {
    let (links, emails) = extract(
        "visit http://a.test/x and mail me at u@a.test",
        "http://a.test/",
    );
    assert_eq!(links.len(), 1);
    assert_eq!(links[0].full, "http://a.test/x");
    assert_eq!(links[0].host, "a.test");
    assert_eq!(emails, vec![String::from("u@a.test")]);
    assert!(in_scope(&links[0].host, "a.test", false));
}

#[test]
fn config_rejects_zero_rate() {
    assert!(CrawlConfig::new("http://a.test/", 0, false, false, None).is_err());
}

#[test]
fn config_rejects_bad_seed() {
    assert!(CrawlConfig::new("no scheme here", 5, false, false, None).is_err());
}

#[test]
fn config_normalizes_seed() {
    let c = CrawlConfig::new("HTTP://A.TEST", 5, true, false, Some(7)).unwrap();
    assert_eq!(c.start.full, "http://a.test/");
    assert_eq!(c.start.host, "a.test");
    assert_eq!(c.requests_per_second, 5);
    assert!(c.include_external);
    assert!(!c.show_mail);
    assert_eq!(c.page_cap, Some(7));
}

#[test]
fn crawl_visits_acyclic_graph_exactly_once() {
    let pages = [
        (
            "http://a.test/",
            "start http://a.test/one plus http://a.test/two",
        ),
        ("http://a.test/one", "deeper: http://a.test/two"),
        ("http://a.test/two", "a leaf with no links"),
    ];
    let (visited, emails, failed) = run_crawl("http://a.test/", &pages, false, None);
    assert_eq!(visited.len(), 3);
    for (url, _) in &pages {
        assert_eq!(visited.iter().filter(|v| v == url).count(), 1);
    }
    assert!(emails.is_empty());
    assert_eq!(failed, 0);
}

#[test]
fn crawl_terminates_on_cycle() {
    let pages = [
        ("http://a.test/", "go to http://a.test/b"),
        ("http://a.test/b", "and back to http://a.test/"),
    ];
    let (visited, _, failed) = run_crawl("http://a.test/", &pages, false, None);
    assert_eq!(visited.len(), 2);
    assert_eq!(visited.iter().filter(|v| *v == "http://a.test/").count(), 1);
    assert_eq!(visited.iter().filter(|v| *v == "http://a.test/b").count(), 1);
    assert_eq!(failed, 0);
}

#[test]
fn crawl_keeps_external_links_out_of_scope() {
    let pages = [
        ("http://a.test/", "see http://b.test/far away"),
        ("http://b.test/far", "external page"),
    ];
    let (visited, _, _) = run_crawl("http://a.test/", &pages, false, None);
    assert_eq!(visited, vec![String::from("http://a.test/")]);
    let (visited_all, _, _) = run_crawl("http://a.test/", &pages, true, None);
    assert_eq!(visited_all.len(), 2);
}

#[test]
fn crawl_collects_emails_across_pages() {
    let pages = [
        (
            "http://a.test/",
            "contact u@a.test or see http://a.test/next",
        ),
        ("http://a.test/next", "again u@a.test and also v@b.test"),
    ];
    let (_, emails, _) = run_crawl("http://a.test/", &pages, false, None);
    assert_eq!(emails, vec![String::from("u@a.test"), String::from("v@b.test")]);
}

#[test]
fn crawl_counts_failed_fetches_and_continues() {
    let pages = [(
        "http://a.test/",
        "a dead link http://a.test/gone and a live one http://a.test/ok",
    ), ("http://a.test/ok", "fine")];
    let (visited, _, failed) = run_crawl("http://a.test/", &pages, false, None);
    assert_eq!(visited.len(), 3);
    assert_eq!(failed, 1);
}

#[test]
fn crawl_honours_page_cap() {
    let pages = [
        ("http://a.test/", "more http://a.test/one and http://a.test/two"),
        ("http://a.test/one", "x"),
        ("http://a.test/two", "y"),
    ];
    let (visited, _, _) = run_crawl("http://a.test/", &pages, false, Some(1));
    assert_eq!(visited, vec![String::from("http://a.test/")]);
}

#[test]
fn cancellation_stops_new_work_and_keeps_results() {
    let config = CrawlConfig::new("http://a.test/", 5, false, false, None).unwrap();
    let mut engine = CrawlEngine::new(config);
    let url = match engine.next_task() {
        EngineStep::Fetch(u) => u,
        _ => panic!("the seed must be handed out"),
    };
    engine.cancel();
    engine.complete_fetched(&url, "more work at http://a.test/next");
    match engine.next_task() {
        EngineStep::Done => {}
        _ => panic!("a cancelled engine with nothing in flight is done"),
    }
    assert_eq!(engine.visited_urls(), &vec![String::from("http://a.test/")]);
}

#[test]
fn rate_admission_rejects_zero_rate() {
    assert!(RateAdmission::new(0).is_err());
}

#[test]
fn rate_admission_waits_at_most_one_period() {
    let gate = RateAdmission::new(1000).unwrap();
    match gate.try_admit() {
        Admission::Admitted => {}
        Admission::Wait(ns) => assert!(ns <= 1_000_000_000),
    }
}
