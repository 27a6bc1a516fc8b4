use dungeon_router_api::api::{
    activity_limit, event_name, health_report, search_parameters, validate_request,
    ManualCompletionRequest, RouterApiError, SearchApiError,
};
use dungeon_router_api::routing::{ModelTier, RouterError, RoutingMode, StreamEvent};
use dungeon_router_api::search::SearchError;
use dungeon_router_api::usage::UsageError;

fn manual(prompt: &str, max: Option<u32>) -> ManualCompletionRequest {
    ManualCompletionRequest {
        prompt: prompt.into(),
        model: ModelTier::Mini,
        routing_mode: RoutingMode::Manual,
        max_output_tokens: max,
    }
}

#[test]
fn health_reports_connected_database() {
    let report = health_report(true);
    assert_eq!(report.database, "connected");
    assert_eq!(report.status, "ok");
    assert_eq!(report.service, "dungeon-router-api");
    let report = health_report(false);
    assert_eq!(report.database, "unavailable");
    assert_eq!(report.status, "degraded");
}

#[test]
fn manual_completion_forwards_selected_tier_to_router() {
    let request = validate_request(manual("  Explain prone ", Some(500))).ok().unwrap();
    assert_eq!(request.model, ModelTier::Mini);
    assert_eq!(request.prompt, "Explain prone");
    assert_eq!(request.max_output_tokens, 500);
    assert!(request.instructions.is_none());
    let request = validate_request(manual("Explain prone", None)).ok().unwrap();
    assert_eq!(request.max_output_tokens, 800);
}

#[test]
fn empty_prompt_is_rejected_without_calling_router() {
    match validate_request(manual("  ", None)) {
        Err(RouterApiError::InvalidPrompt(message)) => {
            assert_eq!(message, "prompt must not be empty")
        }
        _ => panic!("expected an invalid prompt"),
    }
}

#[test]
fn oversized_prompts_and_limits_are_rejected() {
    let long = "x".repeat(12_001);
    match validate_request(manual(&long, None)) {
        Err(RouterApiError::InvalidPrompt(message)) => {
            assert_eq!(message, "prompt must not exceed 12,000 characters")
        }
        _ => panic!("expected an oversized prompt"),
    }
    assert!(validate_request(manual(&"x".repeat(12_000), None)).is_ok());
    for limit in [0, 8_001] {
        match validate_request(manual("ok", Some(limit))) {
            Err(RouterApiError::InvalidPrompt(message)) => {
                assert_eq!(message, "max_output_tokens must be between 1 and 8,000")
            }
            _ => panic!("expected an invalid limit"),
        }
    }
    assert!(validate_request(manual("ok", Some(5_000))).is_ok());
    assert_eq!(validate_request(manual("Explain prone", Some(8_000))).ok().unwrap().max_output_tokens, 8_000);
}

#[test]
fn search_parameters_are_checked() {
    assert_eq!(search_parameters("  prone  ", None).ok(), Some(("prone".to_string(), 6)));
    assert!(matches!(
        search_parameters(&"q".repeat(501), None),
        Err(SearchApiError::Invalid(ref m)) if m == "search query must not exceed 500 characters"
    ));
    assert!(matches!(
        search_parameters("prone", Some(21)),
        Err(SearchApiError::Invalid(ref m)) if m == "limit must be between 1 and 20"
    ));
    assert!(search_parameters("prone", Some(0)).is_err());
    assert!(search_parameters("prone", Some(20)).is_ok());
}

#[test]
fn activity_limits_are_clamped() {
    assert_eq!(activity_limit(None), 20);
    assert_eq!(activity_limit(Some(0)), 1);
    assert_eq!(activity_limit(Some(500)), 100);
    assert_eq!(activity_limit(Some(37)), 37);
}

#[test]
fn stream_events_are_named() {
    assert_eq!(event_name(&StreamEvent::Done), "done");
    assert_eq!(event_name(&StreamEvent::Delta { text: "x".into() }), "delta");
}

#[test]
fn api_errors_map_to_statuses() {
    let empty = SearchApiError::from_search(SearchError::EmptyQuery);
    assert_eq!(empty.status_code(), 400);
    assert_eq!(empty.message(), "search query must contain a meaningful word");
    assert_eq!(SearchApiError::from_search(SearchError::NotFound).status_code(), 404);
    assert_eq!(SearchApiError::from_search(SearchError::Unavailable).status_code(), 503);
    assert_eq!(RouterApiError::InvalidPrompt("x".into()).status_code(), 400);
    assert_eq!(RouterApiError::Router(RouterError::Rejected).status_code(), 502);
    assert_eq!(RouterApiError::Usage(UsageError::BudgetExceeded).status_code(), 402);
    assert_eq!(
        RouterApiError::Search(SearchApiError::from_search(SearchError::EmptyQuery)).status_code(),
        400
    );
}
