//! The request side of the web-search client: request mapping, response cache
//! keys and the request rate limit. Sending requests is left to the caller.
use vstd::prelude::*;

verus! {

/// A search as the user asks for it.
pub struct WebSearchRequest {
    pub query: String,
    pub limit: i32,
    pub summary_query: Option<String>,
    pub full_text: bool,
    pub search_type: String,
}

/// The summary part of an Exa request.
pub struct Summary {
    pub query: Option<String>,
}

/// What an Exa request asks to get back of each result.
pub struct Contents {
    pub text: bool,
    pub summary: Summary,
}

/// The body of a request to the Exa search API.
pub struct ExaSearchRequest {
    pub query: String,
    pub num_results: i32,
    pub contents: Contents,
    pub search_type: String,
}

impl ExaSearchRequest {
    /// The Exa request for `request`: each field carried over.
    pub fn from_web_search_request(request: WebSearchRequest) -> (r: ExaSearchRequest)
        ensures
            r.query == request.query,
            r.num_results == request.limit,
            r.search_type == request.search_type,
            r.contents.text == request.full_text,
            r.contents.summary.query == request.summary_query,
    {
        ExaSearchRequest {
            query: request.query,
            num_results: request.limit,
            search_type: request.search_type,
            contents: Contents { text: request.full_text, summary: Summary { query: request.summary_query } },
        }
    }
}

/// The search providers.
#[derive(PartialEq, Eq, Structural, Debug, Clone, Copy)]
pub enum WebSearchAPIEnum {
    Brave,
    Exa,
}

/// What every search provider has.
pub trait WebSearchAPI {
    spec fn prefix_spec(&self) -> Seq<char>;

    /// The prefix of the provider's entries in the response cache.
    fn cache_prefix(&self) -> (r: &'static str)
        ensures
            r@ == self.prefix_spec(),
    ;
}

impl WebSearchAPI for WebSearchAPIEnum {
    open spec fn prefix_spec(&self) -> Seq<char> {
        match self {
            WebSearchAPIEnum::Brave => seq!['b', 'r', 'a', 'v', 'e', ':', ':'],
            WebSearchAPIEnum::Exa => seq!['e', 'x', 'a', ':', ':'],
        }
    }

    fn cache_prefix(&self) -> (r: &'static str) {
        proof {
            reveal_strlit("brave::");
            reveal_strlit("exa::");
        }
        match self {
            WebSearchAPIEnum::Brave => "brave::",
            WebSearchAPIEnum::Exa => "exa::",
        }
    }
}

impl WebSearchAPIEnum {
    /// The response-cache key of `query` with this provider: its prefix, then
    /// the query.
    pub fn cache_key(&self, query: &str) -> (r: String)
        ensures
            r@ == self.prefix_spec() + query@,
    {
        let mut key = self.cache_prefix().to_string();
        key.append(query);
        key
    }
}

/// Requests allowed in one second.
pub const RATE_LIMIT_PER_SECOND: u32 = 5;

/// Requests allowed in total.
pub const RATE_LIMIT_PER_MONTH: u32 = 1000;

/// Length of the per-second window, in milliseconds.
pub const RATE_WINDOW_MILLIS: u128 = 1000;

/// Requests counted so far.
pub struct RequestCount {
    pub second: u32,
    pub month: u32,
    /// When the per-second window last began, in milliseconds since the epoch.
    pub last_reset: u128,
}

impl RequestCount {
    pub fn new() -> (r: RequestCount)
        ensures
            r.second == 0,
            r.month == 0,
            r.last_reset == 0,
    {
        RequestCount { second: 0, month: 0, last_reset: 0 }
    }
}

/// Why a request may not go out.
#[derive(PartialEq, Eq, Structural, Debug, Clone, Copy)]
pub enum RateLimitError {
    Exceeded,
}

/// The window a count has at `now_ms`: a fresh one, from `now_ms`, once more
/// than a second has passed since the last began.
pub open spec fn window_expired(count: RequestCount, now_ms: u128) -> bool {
    now_ms >= count.last_reset && now_ms - count.last_reset > RATE_WINDOW_MILLIS
}

/// Counts a request made at `now_ms`, or refuses it once either limit is
/// reached. The per-second count starts over when its window has expired,
/// even where the request is then refused.
pub fn check_rate_limit(count: &mut RequestCount, now_ms: u128) -> (r: Result<(), RateLimitError>)
    ensures
        ({
            let expired = window_expired(*old(count), now_ms);
            let second = if expired {
                0
            } else {
                old(count).second
            };
            let last_reset = if expired {
                now_ms
            } else {
                old(count).last_reset
            };
            &&& final(count).last_reset == last_reset
            &&& if second >= RATE_LIMIT_PER_SECOND || old(count).month >= RATE_LIMIT_PER_MONTH {
                &&& r == Err::<(), RateLimitError>(RateLimitError::Exceeded)
                &&& final(count).second == second
                &&& final(count).month == old(count).month
            } else {
                &&& r == Ok::<(), RateLimitError>(())
                &&& final(count).second == second + 1
                &&& final(count).month == old(count).month + 1
            }
        }),
{
    if now_ms >= count.last_reset && now_ms - count.last_reset > RATE_WINDOW_MILLIS {
        count.second = 0;
        count.last_reset = now_ms;
    }
    if count.second >= RATE_LIMIT_PER_SECOND || count.month >= RATE_LIMIT_PER_MONTH {
        return Err(RateLimitError::Exceeded);
    }
    count.second = count.second + 1;
    count.month = count.month + 1;
    Ok(())
}

/// The answer of the health route.
pub struct HealthCheckResponse {
    pub done: bool,
}

impl HealthCheckResponse {
    /// The answer of a server that is up.
    pub fn healthy() -> (r: HealthCheckResponse)
        ensures
            r.done,
    {
        HealthCheckResponse { done: true }
    }
}

/// The state that the demo server hands to its routes.
#[derive(Clone)]
pub struct Application {}

impl Application {
    pub fn initialize() -> (r: Application) {
        Application {}
    }
}

} // verus!
