use vstd::prelude::*;

use crate::text::{chars_of, matches_at, starts_with, string_of, trim, trim_range};

verus! {

/// The signed-in user that the identity service reports for a token.
#[derive(Debug, Clone)]
pub struct AuthenticatedUser {
    pub id: String,
    pub email: Option<String>,
}

/// The token of an `Authorization` header: what follows `Bearer `, trimmed,
/// when that is not blank.
pub open spec fn bearer_token_of(header: Option<Seq<char>>) -> Option<Seq<char>> {
    match header {
        Some(h) => if starts_with(h, "Bearer "@) && trim(h.skip(7)).len() > 0 {
            Some(trim(h.skip(7)))
        } else {
            None
        },
        None => None,
    }
}

/// The bearer token of an `Authorization` header, as [`bearer_token_of`]
/// describes it; `authorization` is the header's text, where it has one.
pub fn bearer_token(authorization: Option<&str>) -> (r: Option<String>)
    ensures
        match bearer_token_of(
            match authorization {
                Some(h) => Some(h@),
                None => None,
            },
        ) {
            Some(t) => r matches Some(x) && x@ == t,
            None => r is None,
        },
{
    let header = match authorization {
        Some(h) => h,
        None => return None,
    };
    let v = chars_of(header);
    let prefix = chars_of("Bearer ");
    proof {
        reveal_strlit("Bearer ");
    }
    if !matches_at(&v, &prefix, 0) {
        return None;
    }
    let (a, b) = trim_range(&v, 7, v.len());
    assert(v@.subrange(7, v.len() as int) =~= v@.skip(7));
    if a < b {
        Some(string_of(&v, a, b))
    } else {
        None
    }
}

/// Why a request was refused at the door.
#[derive(Debug, Clone, Copy, PartialEq, Eq, Structural)]
pub enum AuthError {
    Unauthorized,
    Unavailable,
}

pub open spec fn auth_error_message(e: AuthError) -> Seq<char> {
    match e {
        AuthError::Unauthorized => "authentication required"@,
        AuthError::Unavailable => "authentication service unavailable"@,
    }
}

impl AuthError {
    /// The message shown for the error.
    pub fn message(&self) -> (r: &'static str)
        ensures
            r@ == auth_error_message(*self),
    {
        match self {
            AuthError::Unauthorized => "authentication required",
            AuthError::Unavailable => "authentication service unavailable",
        }
    }

    /// The HTTP status: 401 without a valid token, 503 when the service is down.
    pub fn status_code(&self) -> (r: u16)
        ensures
            r == match *self {
                AuthError::Unauthorized => 401u16,
                AuthError::Unavailable => 503u16,
            },
    {
        match self {
            AuthError::Unauthorized => 401,
            AuthError::Unavailable => 503,
        }
    }
}

/// The token to check for a request, from its `Authorization` header's text: the
/// bearer token as [`bearer_token_of`] describes it, or `Unauthorized` when there
/// is none.
pub fn authorize(authorization: Option<&str>) -> (r: Result<String, AuthError>)
    ensures
        match bearer_token_of(
            match authorization {
                Some(h) => Some(h@),
                None => None,
            },
        ) {
            Some(t) => r matches Ok(x) && x@ == t,
            None => r == Err::<String, AuthError>(AuthError::Unauthorized),
        },
{
    match bearer_token(authorization) {
        Some(token) => Ok(token),
        None => Err(AuthError::Unauthorized),
    }
}

/// The outcome of asking the identity service about a token: refused when the
/// service could not be reached, when it did not answer with success, or when
/// its answer was not a user.
pub fn verification_outcome(
    reached: bool,
    success_status: bool,
    user: Option<AuthenticatedUser>,
) -> (r: Result<AuthenticatedUser, AuthError>)
    ensures
        !reached ==> r == Err::<AuthenticatedUser, AuthError>(AuthError::Unavailable),
        reached && !success_status ==> r == Err::<AuthenticatedUser, AuthError>(
            AuthError::Unauthorized,
        ),
        reached && success_status ==> match user {
            Some(u) => r == Ok::<AuthenticatedUser, AuthError>(u),
            None => r == Err::<AuthenticatedUser, AuthError>(AuthError::Unauthorized),
        },
{
    if !reached {
        return Err(AuthError::Unavailable);
    }
    if !success_status {
        return Err(AuthError::Unauthorized);
    }
    match user {
        Some(u) => Ok(u),
        None => Err(AuthError::Unauthorized),
    }
}

/// `url::ParseError`, the reason a URL was refused.
#[verifier::external_type_specification]
#[verifier::external_body]
pub struct ExUrlParseError(url::ParseError);

/// What `url::Url::parse` gives for a text: the serialization of the absolute
/// URL it reads, or nothing when it refuses the text.
pub uninterp spec fn url_parsed(input: Seq<char>) -> Option<Seq<char>>;

/// What `url::Url::join` gives for the URL that `url::Url::parse` reads from
/// `base`, and a reference: the serialization of the resolved URL, or nothing when
/// either refuses.
pub uninterp spec fn url_joined(base: Seq<char>, input: Seq<char>) -> Option<Seq<char>>;

/// `url::Url::parse`, the result taken by its serialization. Whether it succeeds
/// and what it gives are named, not stated: they follow the WHATWG URL standard.
/// Which `ParseError` comes back on a refusal is left unsaid.
#[verifier::external_body]
fn parse_url(input: &str) -> (r: Result<String, url::ParseError>)
    ensures
        r is Ok <==> url_parsed(input@) is Some,
        r matches Ok(u) ==> url_parsed(input@) == Some(u@),
{
    url::Url::parse(input).map(String::from)
}

/// `url::Url::join` on the URL that `url::Url::parse` reads from `base` (here the
/// serialization of a URL parsed before), the result taken by its serialization.
/// Its outcome is named, not stated; which `ParseError` comes back is left unsaid.
#[verifier::external_body]
fn join_url(base: &str, input: &str) -> (r: Result<String, url::ParseError>)
    ensures
        r is Ok <==> url_joined(base@, input@) is Some,
        r matches Ok(u) ==> url_joined(base@, input@) == Some(u@),
{
    url::Url::parse(base).and_then(|b| b.join(input)).map(String::from)
}

/// Why the identity service could not be configured.
#[derive(Debug, Clone, Copy)]
pub enum AuthConfigurationError {
    InvalidUrl(url::ParseError),
    MissingPublishableKey,
}

impl AuthConfigurationError {
    /// The message shown for the error.
    pub fn message(&self) -> (r: &'static str)
        ensures
            r@ == match *self {
                AuthConfigurationError::InvalidUrl(_) => "SUPABASE_URL must be a valid URL"@,
                AuthConfigurationError::MissingPublishableKey =>
                    "SUPABASE_PUBLISHABLE_KEY must not be empty"@,
            },
    {
        match self {
            AuthConfigurationError::InvalidUrl(_) => "SUPABASE_URL must be a valid URL",
            AuthConfigurationError::MissingPublishableKey =>
                "SUPABASE_PUBLISHABLE_KEY must not be empty",
        }
    }
}

/// Where and how the identity service is asked about tokens.
#[derive(Debug, Clone)]
pub struct SupabaseAuth {
    pub user_endpoint: String,
    pub publishable_key: String,
}

/// The identity service's user endpoint, relative to its base URL.
pub const USER_ENDPOINT_PATH: &'static str = "auth/v1/user";

impl SupabaseAuth {
    /// Configures the identity service: the trimmed base URL must parse, the user
    /// endpoint is resolved against it, and the publishable key must not be blank.
    pub fn new(supabase_url: &str, publishable_key: String) -> (r: Result<
        SupabaseAuth,
        AuthConfigurationError,
    >)
        ensures
            match url_parsed(trim(supabase_url@)) {
                None => r matches Err(AuthConfigurationError::InvalidUrl(_)),
                Some(base) => match url_joined(base, USER_ENDPOINT_PATH@) {
                    None => r matches Err(AuthConfigurationError::InvalidUrl(_)),
                    Some(endpoint) => if trim(publishable_key@).len() == 0 {
                        r matches Err(AuthConfigurationError::MissingPublishableKey)
                    } else {
                        r matches Ok(a) && a.user_endpoint@ == endpoint && a.publishable_key@
                            == publishable_key@
                    },
                },
            },
    {
        let v = chars_of(supabase_url);
        let (a, b) = trim_range(&v, 0, v.len());
        assert(v@.subrange(0, v.len() as int) =~= v@);
        let trimmed = string_of(&v, a, b);
        let base = match parse_url(trimmed.as_str()) {
            Ok(u) => u,
            Err(e) => return Err(AuthConfigurationError::InvalidUrl(e)),
        };
        let user_endpoint = match join_url(base.as_str(), USER_ENDPOINT_PATH) {
            Ok(u) => u,
            Err(e) => return Err(AuthConfigurationError::InvalidUrl(e)),
        };
        let k = chars_of(publishable_key.as_str());
        let (ka, kb) = trim_range(&k, 0, k.len());
        assert(k@.subrange(0, k.len() as int) =~= k@);
        if ka == kb {
            return Err(AuthConfigurationError::MissingPublishableKey);
        }
        Ok(SupabaseAuth { user_endpoint, publishable_key })
    }
}

} // verus!
