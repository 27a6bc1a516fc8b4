use dungeon_router_api::auth::{
    bearer_token, verification_outcome, AuthConfigurationError, AuthError, AuthenticatedUser,
    SupabaseAuth,
};

#[test]
fn extracts_only_non_empty_bearer_tokens() {
    assert_eq!(bearer_token(Some("Bearer signed-token")).as_deref(), Some("signed-token"));
    assert_eq!(bearer_token(Some("Basic credentials")), None);
}

#[test]
fn blank_and_missing_tokens_are_refused() {
    assert_eq!(bearer_token(Some("Bearer    ")), None);
    assert_eq!(bearer_token(Some("Bearer")), None);
    assert_eq!(bearer_token(Some("bearer token")), None);
    assert_eq!(bearer_token(None), None);
    assert_eq!(bearer_token(Some("Bearer  padded \t")).as_deref(), Some("padded"));
}

#[test]
fn auth_errors_map_to_statuses() {
    assert_eq!(AuthError::Unauthorized.status_code(), 401);
    assert_eq!(AuthError::Unavailable.status_code(), 503);
    assert_eq!(AuthError::Unauthorized.message(), "authentication required");
    assert_eq!(AuthError::Unavailable.message(), "authentication service unavailable");
}

#[test]
fn verification_outcomes() {
    let user = AuthenticatedUser { id: "u1".into(), email: Some("dm@example.com".into()) };
    assert_eq!(
        verification_outcome(false, true, Some(user.clone())).unwrap_err(),
        AuthError::Unavailable
    );
    assert_eq!(
        verification_outcome(true, false, Some(user.clone())).unwrap_err(),
        AuthError::Unauthorized
    );
    assert_eq!(verification_outcome(true, true, None).unwrap_err(), AuthError::Unauthorized);
    assert_eq!(verification_outcome(true, true, Some(user)).unwrap().id, "u1");
}

#[test]
fn configuration_resolves_the_user_endpoint() {
    let auth = SupabaseAuth::new("  https://project.supabase.co  ", "anon-key".into()).unwrap();
    assert_eq!(auth.user_endpoint, "https://project.supabase.co/auth/v1/user");
    assert_eq!(auth.publishable_key, "anon-key");
    let auth = SupabaseAuth::new("https://project.supabase.co/base/", "k".into()).unwrap();
    assert_eq!(auth.user_endpoint, "https://project.supabase.co/base/auth/v1/user");
}

#[test]
fn configuration_refuses_bad_urls_and_blank_keys() {
    assert!(matches!(
        SupabaseAuth::new("not a url", "k".into()),
        Err(AuthConfigurationError::InvalidUrl(_))
    ));
    let missing = SupabaseAuth::new("https://project.supabase.co", "  ".into()).unwrap_err();
    assert!(matches!(missing, AuthConfigurationError::MissingPublishableKey));
    assert_eq!(missing.message(), "SUPABASE_PUBLISHABLE_KEY must not be empty");
    assert_eq!(
        AuthConfigurationError::InvalidUrl(url::ParseError::EmptyHost).message(),
        "SUPABASE_URL must be a valid URL"
    );
}
