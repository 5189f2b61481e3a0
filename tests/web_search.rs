use snippet_index::web_search::{
    check_rate_limit, ExaSearchRequest, HealthCheckResponse, RateLimitError, RequestCount,
    WebSearchAPI, WebSearchAPIEnum, WebSearchRequest, RATE_LIMIT_PER_MONTH, RATE_LIMIT_PER_SECOND,
};

#[test]
fn exa_request_carries_every_field() {
    let req = WebSearchRequest {
        query: "rust verus".to_string(),
        limit: 3,
        summary_query: Some("summary".to_string()),
        full_text: true,
        search_type: "auto".to_string(),
    };
    let exa = ExaSearchRequest::from_web_search_request(req);
    assert_eq!(exa.query, "rust verus");
    assert_eq!(exa.num_results, 3);
    assert_eq!(exa.search_type, "auto");
    assert!(exa.contents.text);
    assert_eq!(exa.contents.summary.query.as_deref(), Some("summary"));
}

#[test]
fn cache_prefixes() {
    assert_eq!(WebSearchAPIEnum::Brave.cache_prefix(), "brave::");
    assert_eq!(WebSearchAPIEnum::Exa.cache_prefix(), "exa::");
    assert_eq!(WebSearchAPIEnum::Exa.cache_key("q"), "exa::q");
    assert_eq!(WebSearchAPIEnum::Brave.cache_key(""), "brave::");
}

#[test]
fn rate_limit_per_second() {
    let mut c = RequestCount::new();
    for _ in 0..RATE_LIMIT_PER_SECOND {
        assert_eq!(check_rate_limit(&mut c, 5000), Ok(()));
    }
    assert_eq!(check_rate_limit(&mut c, 5000), Err(RateLimitError::Exceeded));
    assert_eq!(c.second, RATE_LIMIT_PER_SECOND);
    assert_eq!(c.last_reset, 5000);
    // Exactly one second later the window is still the same one.
    assert_eq!(check_rate_limit(&mut c, 6000), Err(RateLimitError::Exceeded));
    assert_eq!(check_rate_limit(&mut c, 6001), Ok(()));
    assert_eq!(c.second, 1);
    assert_eq!(c.month, RATE_LIMIT_PER_SECOND + 1);
}

#[test]
fn rate_limit_per_month() {
    let mut c = RequestCount { second: 0, month: RATE_LIMIT_PER_MONTH, last_reset: 0 };
    assert_eq!(check_rate_limit(&mut c, 10_000), Err(RateLimitError::Exceeded));
    assert_eq!(c.second, 0);
    assert_eq!(c.last_reset, 10_000);
    assert_eq!(c.month, RATE_LIMIT_PER_MONTH);
}

#[test]
fn clock_going_back_keeps_window() {
    let mut c = RequestCount { second: 2, month: 2, last_reset: 9000 };
    assert_eq!(check_rate_limit(&mut c, 100), Ok(()));
    assert_eq!(c.last_reset, 9000);
    assert_eq!(c.second, 3);
}

#[test]
fn health_is_done() {
    assert!(HealthCheckResponse::healthy().done);
}
