use vstd::prelude::*;

use crate::routing::{CompletionRequest, ModelTier, RouterError, RoutingMode, StreamEvent};
use crate::search::{SearchError, search_error_message};
use crate::text::{chars_of, string_from, string_of, trim, trim_range};
use crate::usage::UsageError;

verus! {

/// The service's report on itself.
#[derive(Debug, Clone, Copy)]
pub struct HealthResponse {
    pub service: &'static str,
    pub status: &'static str,
    pub database: &'static str,
}

/// The health report: `ok` with a connected database, `degraded` otherwise.
pub fn health_report(database_connected: bool) -> (r: HealthResponse)
    ensures
        r.service@ == "dungeon-router-api"@,
        r.database@ == (if database_connected { "connected"@ } else { "unavailable"@ }),
        r.status@ == (if database_connected { "ok"@ } else { "degraded"@ }),
{
    if database_connected {
        HealthResponse { service: "dungeon-router-api", status: "ok", database: "connected" }
    } else {
        HealthResponse {
            service: "dungeon-router-api",
            status: "degraded",
            database: "unavailable",
        }
    }
}

/// A completion request as a client sends it.
#[derive(Debug, Clone)]
pub struct ManualCompletionRequest {
    pub prompt: String,
    pub model: ModelTier,
    pub routing_mode: RoutingMode,
    pub max_output_tokens: Option<u32>,
}

/// The longest prompt accepted, in characters.
pub const MAX_PROMPT_CHARS: usize = 12000;

/// The output limit used when a request names none.
pub const DEFAULT_OUTPUT_TOKENS: u32 = 800;

/// The highest output limit a request may name.
pub const MAX_OUTPUT_TOKENS: u32 = 8000;

/// Why the search endpoint refused or failed a request.
#[derive(Debug, Clone)]
pub enum SearchApiError {
    Invalid(String),
    Search(SearchError),
}

impl SearchApiError {
    /// A search error as the endpoint reports it: an empty query is an invalid
    /// request; other errors are kept.
    pub fn from_search(e: SearchError) -> (r: SearchApiError)
        ensures
            e == SearchError::EmptyQuery ==> (r matches SearchApiError::Invalid(m) && m@
                == search_error_message(e)),
            e != SearchError::EmptyQuery ==> (r matches SearchApiError::Search(x) && x == e),
    {
        match e {
            SearchError::EmptyQuery => SearchApiError::Invalid(string_from(&chars_of(e.message()))),
            _ => SearchApiError::Search(e),
        }
    }

    /// The HTTP status: 400 invalid, 404 not found, 503 otherwise.
    pub fn status_code(&self) -> (r: u16)
        ensures
            r == match *self {
                SearchApiError::Invalid(_) => 400u16,
                SearchApiError::Search(SearchError::NotFound) => 404u16,
                SearchApiError::Search(_) => 503u16,
            },
    {
        match self {
            SearchApiError::Invalid(_) => 400,
            SearchApiError::Search(SearchError::NotFound) => 404,
            SearchApiError::Search(_) => 503,
        }
    }

    /// The message shown for the error.
    pub fn message(&self) -> (r: String)
        ensures
            r@ == match *self {
                SearchApiError::Invalid(m) => m@,
                SearchApiError::Search(e) => search_error_message(e),
            },
    {
        match self {
            SearchApiError::Invalid(m) => string_from(&chars_of(m.as_str())),
            SearchApiError::Search(e) => string_from(&chars_of(e.message())),
        }
    }
}

/// Why a completion or chat request failed.
#[derive(Debug, Clone)]
pub enum RouterApiError {
    InvalidPrompt(String),
    Router(RouterError),
    Search(SearchApiError),
    Usage(UsageError),
}

impl RouterApiError {
    /// The HTTP status: 400 for an invalid prompt, else that of the cause.
    pub fn status_code(&self) -> (r: u16)
        ensures
            r == match *self {
                RouterApiError::InvalidPrompt(_) => 400u16,
                RouterApiError::Router(e) => if e == RouterError::Rejected {
                    502u16
                } else {
                    503u16
                },
                RouterApiError::Search(SearchApiError::Invalid(_)) => 400u16,
                RouterApiError::Search(SearchApiError::Search(SearchError::NotFound)) => 404u16,
                RouterApiError::Search(SearchApiError::Search(_)) => 503u16,
                RouterApiError::Usage(UsageError::BudgetExceeded) => 402u16,
                RouterApiError::Usage(UsageError::InvalidConfiguration) => 500u16,
                RouterApiError::Usage(UsageError::Unavailable) => 503u16,
            },
    {
        match self {
            RouterApiError::InvalidPrompt(_) => 400,
            RouterApiError::Router(e) => e.status_code(),
            RouterApiError::Search(e) => e.status_code(),
            RouterApiError::Usage(e) => e.status_code(),
        }
    }
}

/// The outcome of checking a completion request, as [`validate_request`] decides it.
pub open spec fn request_check(prompt: Seq<char>, max_output_tokens: Option<u32>) -> Result<
    (),
    Seq<char>,
> {
    let p = trim(prompt);
    let limit = match max_output_tokens {
        Some(n) => n,
        None => DEFAULT_OUTPUT_TOKENS,
    };
    if p.len() == 0 {
        Err("prompt must not be empty"@)
    } else if p.len() > MAX_PROMPT_CHARS {
        Err("prompt must not exceed 12,000 characters"@)
    } else if !(1 <= limit <= MAX_OUTPUT_TOKENS) {
        Err("max_output_tokens must be between 1 and 8,000"@)
    } else {
        Ok(())
    }
}

/// Checks a completion request: the trimmed prompt must hold one to 12,000
/// characters and the output limit, 800 when not given, must lie in 1..=8,000.
/// The request passed on carries the trimmed prompt and no instructions.
pub fn validate_request(request: ManualCompletionRequest) -> (r: Result<
    CompletionRequest,
    RouterApiError,
>)
    ensures
        match request_check(request.prompt@, request.max_output_tokens) {
            Err(m) => r matches Err(RouterApiError::InvalidPrompt(x)) && x@ == m,
            Ok(_) => r matches Ok(c) && {
                &&& c.instructions is None
                &&& c.prompt@ == trim(request.prompt@)
                &&& c.model == request.model
                &&& c.routing_mode == request.routing_mode
                &&& c.max_output_tokens == match request.max_output_tokens {
                    Some(n) => n,
                    None => DEFAULT_OUTPUT_TOKENS,
                }
            },
        },
{
    let v = chars_of(request.prompt.as_str());
    let (a, b) = trim_range(&v, 0, v.len());
    assert(v@.subrange(0, v.len() as int) =~= v@);
    if a == b {
        return Err(RouterApiError::InvalidPrompt(string_from(&chars_of("prompt must not be empty"))));
    }
    if b - a > MAX_PROMPT_CHARS {
        return Err(
            RouterApiError::InvalidPrompt(
                string_from(&chars_of("prompt must not exceed 12,000 characters")),
            ),
        );
    }
    let max_output_tokens = match request.max_output_tokens {
        Some(n) => n,
        None => DEFAULT_OUTPUT_TOKENS,
    };
    if !(1 <= max_output_tokens && max_output_tokens <= MAX_OUTPUT_TOKENS) {
        return Err(
            RouterApiError::InvalidPrompt(
                string_from(&chars_of("max_output_tokens must be between 1 and 8,000")),
            ),
        );
    }
    Ok(
        CompletionRequest {
            instructions: None,
            prompt: string_of(&v, a, b),
            model: request.model,
            routing_mode: request.routing_mode,
            max_output_tokens,
        },
    )
}

/// The longest search query accepted, in characters.
pub const MAX_QUERY_CHARS: usize = 500;

/// Checks the parameters of a search: the trimmed query must hold at most 500
/// characters, and the number of results, 6 when not given, must lie in 1..=20.
pub fn search_parameters(q: &str, limit: Option<u32>) -> (r: Result<(String, u32), SearchApiError>)
    ensures
        ({
            let query = trim(q@);
            let n = match limit {
                Some(n) => n,
                None => 6u32,
            };
            if query.len() > MAX_QUERY_CHARS {
                r matches Err(SearchApiError::Invalid(m)) && m@
                    == "search query must not exceed 500 characters"@
            } else if !(1 <= n <= 20) {
                r matches Err(SearchApiError::Invalid(m)) && m@ == "limit must be between 1 and 20"@
            } else {
                r matches Ok((t, k)) && t@ == query && k == n
            }
        }),
{
    let v = chars_of(q);
    let (a, b) = trim_range(&v, 0, v.len());
    assert(v@.subrange(0, v.len() as int) =~= v@);
    if b - a > MAX_QUERY_CHARS {
        return Err(
            SearchApiError::Invalid(
                string_from(&chars_of("search query must not exceed 500 characters")),
            ),
        );
    }
    let n = match limit {
        Some(n) => n,
        None => 6,
    };
    if !(1 <= n && n <= 20) {
        return Err(SearchApiError::Invalid(string_from(&chars_of("limit must be between 1 and 20"))));
    }
    Ok((string_of(&v, a, b), n))
}

/// The number of recent runs listed: 20 when not given, held within 1..=100.
pub fn activity_limit(limit: Option<u32>) -> (r: u32)
    ensures
        r == ({
            let n = match limit {
                Some(n) => n,
                None => 20u32,
            };
            if n < 1 {
                1u32
            } else if n > 100 {
                100u32
            } else {
                n
            }
        }),
{
    let n = match limit {
        Some(n) => n,
        None => 20,
    };
    if n < 1 {
        1
    } else if n > 100 {
        100
    } else {
        n
    }
}

/// The name of the server-sent event that carries a stream event.
pub fn event_name(event: &StreamEvent) -> (r: &'static str)
    ensures
        r@ == match *event {
            StreamEvent::Metadata { .. } => "metadata"@,
            StreamEvent::Delta { .. } => "delta"@,
            StreamEvent::Usage { .. } => "usage"@,
            StreamEvent::Done => "done"@,
        },
{
    match event {
        StreamEvent::Metadata { .. } => "metadata",
        StreamEvent::Delta { .. } => "delta",
        StreamEvent::Usage { .. } => "usage",
        StreamEvent::Done => "done",
    }
}

} // verus!
