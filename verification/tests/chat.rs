use dungeon_router_api::chat::{
    grounded_request, validate_citations, ChatSession, GROUNDING_INSTRUCTIONS,
};
use dungeon_router_api::routing::{ModelTier, RoutingMode, StreamEvent, TokenUsage};
use dungeon_router_api::search::{SearchHit, SourceChunk};

#[test]
fn citation_validation_separates_supported_and_invented_ids() {
    let validation = validate_citations("The creature is prone [S1]. See also [S9] and [S1].", 3);
    assert_eq!(validation.cited, vec!["S1"]);
    assert_eq!(validation.unsupported, vec!["S9"]);
    assert!(!validation.missing_required);
    assert!(!validation.uses_model_knowledge);
}

#[test]
fn citation_validation_recognizes_disclosed_model_knowledge() {
    let validation = validate_citations(
        "Model knowledge (not source-verified): Consider a control spell.",
        2,
    );
    assert!(!validation.missing_required);
    assert!(validation.uses_model_knowledge);
}

#[test]
fn citation_lists_hold_each_id_once_and_never_in_both() {
    let validation = validate_citations("[S2] [S0] [S2] [S12] [S0] [S1] [S12]", 2);
    assert_eq!(validation.cited, vec!["S2", "S1"]);
    assert_eq!(validation.unsupported, vec!["S0", "S12"]);
    for id in &validation.cited {
        assert!(!validation.unsupported.contains(id));
    }
}

#[test]
fn grounded_answer_without_citations_is_flagged() {
    let validation = validate_citations("Prone creatures crawl.", 2);
    assert!(validation.cited.is_empty());
    assert!(validation.missing_required);
    let blank = validate_citations("   ", 2);
    assert!(!blank.missing_required);
    let no_sources = validate_citations("Prone creatures crawl.", 0);
    assert!(!no_sources.missing_required);
}

#[test]
fn malformed_markers_are_ignored() {
    let validation = validate_citations("[S] [S1 [Sx] [s1] [S01]", 3);
    assert_eq!(validation.cited, vec!["S1"]);
    assert!(validation.unsupported.is_empty());
}

#[test]
fn oversized_citation_numbers_are_ignored() {
    let validation = validate_citations("See [S99999999999999999999999].", 1);
    assert!(validation.cited.is_empty());
    assert!(validation.unsupported.is_empty());
}

fn hit(chunk_id: i64, kind: &str) -> SearchHit {
    SearchHit {
        chunk_id,
        kind: kind.into(),
        document_title: "Conditions".into(),
        heading: "Prone".into(),
        section_path: "Conditions > Prone".into(),
        excerpt: "A prone creature".into(),
        source_locator: "08_Gamemastering/Conditions.md#prone".into(),
        source_url: Some("example".into()),
        source_revision: Some("fixture".into()),
        license: Some("CC BY 4.0".into()),
    }
}

fn passage(chunk_id: i64, content: &str) -> SourceChunk {
    SourceChunk {
        chunk_id,
        kind: "srd".into(),
        document_title: "Conditions".into(),
        heading: "Prone".into(),
        section_path: "Conditions > Prone".into(),
        content: content.into(),
        source_locator: "08_Gamemastering/Conditions.md#prone".into(),
        source_url: None,
        source_revision: None,
        license: None,
    }
}

#[test]
fn grounded_request_numbers_passages_and_writes_json_lines() {
    let request = grounded_request(
        "What does prone do?",
        ModelTier::Mini,
        RoutingMode::Auto,
        800,
        vec![
            (hit(7, "srd"), passage(7, "A prone creature's only movement option is to crawl.")),
            (hit(9, "campaign_note"), passage(9, "Say \"hi\"")),
        ],
    );
    assert_eq!(request.sources.len(), 2);
    assert_eq!(request.sources[0].citation_id, "S1");
    assert_eq!(request.sources[1].citation_id, "S2");
    assert_eq!(request.sources[1].chunk_id, 9);
    assert_eq!(request.sources[1].kind, "campaign_note");
    assert_eq!(request.completion.instructions.as_deref(), Some(GROUNDING_INSTRUCTIONS));
    assert!(request.completion.instructions.as_deref().unwrap().contains("[S1]"));
    assert_eq!(request.completion.routing_mode, RoutingMode::Auto);
    assert_eq!(request.completion.model, ModelTier::Mini);
    assert_eq!(request.completion.max_output_tokens, 800);
    let prompt = &request.completion.prompt;
    assert!(prompt.starts_with("Retrieved passages as JSON Lines:\n"));
    assert!(prompt.contains("\"id\":\"S1\""));
    assert!(prompt.contains("only movement option"));
    assert!(prompt.contains("\"content\":\"Say \\\"hi\\\"\""));
    assert!(prompt.ends_with("\nQuestion: What does prone do?"));
    assert_eq!(
        prompt,
        "Retrieved passages as JSON Lines:\n\
         {\"content\":\"A prone creature's only movement option is to crawl.\",\"id\":\"S1\",\"kind\":\"srd\",\"section\":\"Conditions > Prone\"}\n\
         {\"content\":\"Say \\\"hi\\\"\",\"id\":\"S2\",\"kind\":\"srd\",\"section\":\"Conditions > Prone\"}\n\
         \nQuestion: What does prone do?"
    );
}

#[test]
fn question_without_passages_still_reaches_the_model() {
    let request = grounded_request("zyxwvu", ModelTier::Gpt5, RoutingMode::Manual, 800, Vec::new());
    assert!(request.sources.is_empty());
    assert_eq!(request.completion.model, ModelTier::Gpt5);
    assert_eq!(request.completion.instructions.as_deref(), Some(GROUNDING_INSTRUCTIONS));
    assert!(GROUNDING_INSTRUCTIONS.contains("Model knowledge (not source-verified):"));
    assert_eq!(
        request.completion.prompt,
        "Retrieved passages as JSON Lines:\n\nQuestion: zyxwvu"
    );
    let mut session = ChatSession::new(request.sources.len());
    session.on_event(StreamEvent::Delta {
        text: "Model knowledge (not source-verified): roll initiative.".into(),
    });
    let (validation, run) = session.finish(7);
    assert!(validation.cited.is_empty());
    assert!(!validation.missing_required);
    assert!(validation.uses_model_knowledge);
    assert_eq!(run.status, "completed");
}

#[test]
fn question_with_passages_is_sent() {
    let request = grounded_request(
        "prone",
        ModelTier::Nano,
        RoutingMode::Manual,
        100,
        vec![(hit(1, "srd"), passage(1, "crawl"))],
    );
    assert_eq!(request.sources.len(), 1);
    assert_eq!(request.completion.model, ModelTier::Nano);
}

#[test]
fn chat_session_collects_the_answer_and_the_receipt() {
    let mut session = ChatSession::new(1);
    let metadata = session.on_event(StreamEvent::Metadata {
        requested_model: ModelTier::Mini,
        selected_model: "gpt-5-mini".into(),
        routing_mode: RoutingMode::Auto,
        route: "dungeon-router/auto".into(),
        routing_reason: Some("llm_classifier selected mini (confidence 0.8)".into()),
        classifier_confidence: Some("0.8".into()),
    });
    assert!(matches!(metadata, Some(StreamEvent::Metadata { .. })));
    assert!(session.on_event(StreamEvent::Delta { text: "Prone [S1]".into() }).is_some());
    assert!(session.on_event(StreamEvent::Delta { text: " and [S4].".into() }).is_some());
    let usage = TokenUsage { input_tokens: 10, output_tokens: 5, total_tokens: 15 };
    assert!(session.on_event(StreamEvent::Usage { usage }).is_some());
    assert!(session.on_event(StreamEvent::Done).is_none());
    assert_eq!(session.answer, "Prone [S1] and [S4].");
    let (validation, run) = session.finish(42);
    assert_eq!(validation.cited, vec!["S1"]);
    assert_eq!(validation.unsupported, vec!["S4"]);
    assert_eq!(run.status, "completed");
    assert_eq!(run.selected_model, "gpt-5-mini");
    assert_eq!(run.routing_mode, RoutingMode::Auto);
    assert_eq!(run.classifier_confidence.as_deref(), Some("0.8"));
    assert_eq!(run.usage, Some(usage));
    assert_eq!(run.latency_ms, 42);
    let failed = session.failed_run(7);
    assert_eq!(failed.status, "failed");
}

#[test]
fn fresh_session_records_an_unknown_model() {
    let session = ChatSession::new(0);
    let run = session.failed_run(1);
    assert_eq!(run.selected_model, "unknown");
    assert_eq!(run.routing_mode, RoutingMode::Manual);
    assert!(run.usage.is_none());
}

#[test]
fn passages_are_written_as_escaped_json_strings() {
    let request = grounded_request(
        "q",
        ModelTier::Nano,
        RoutingMode::Manual,
        10,
        vec![(hit(1, "srd"), passage(1, "a\\b\n\t\u{1}\u{7f}é"))],
    );
    assert!(request
        .completion
        .prompt
        .contains("{\"content\":\"a\\\\b\\n\\t\\u0001\u{7f}é\",\"id\":\"S1\""));
}
