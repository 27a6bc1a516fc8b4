use dungeon_router_api::routing::{
    check_upstream_status, chunk_event, completion_from_reply, completions_endpoint,
    fallback_routing_reason, find_sse_boundary, frame_data, model_catalog, normalize_base_url,
    parse_confidence, request_messages, routing_receipt, selected_model_from_headers,
    stream_metadata, switchyard_request, CompletionReply, CompletionRequest, ModelTier,
    RouterError, RoutingMode, SseDecoder, StreamChunk, StreamEvent, TokenUsage,
};

fn request(mode: RoutingMode, model: ModelTier, instructions: Option<&str>) -> CompletionRequest {
    CompletionRequest {
        instructions: instructions.map(String::from),
        prompt: "question".into(),
        model,
        routing_mode: mode,
        max_output_tokens: 100,
    }
}

#[test]
fn auto_requests_use_classifier_route_and_parse_receipt_confidence() {
    let request = CompletionRequest {
        instructions: None,
        prompt: "question".into(),
        model: ModelTier::Mini,
        routing_mode: RoutingMode::Auto,
        max_output_tokens: 100,
    };
    assert_eq!(request.route_id(), "dungeon-router/auto");
    assert_eq!(
        parse_confidence("llm_classifier selected nano (confidence 0.91)")
            .map(|text| text.parse::<f64>().unwrap()),
        Some(0.91)
    );
    let (reason, confidence) = routing_receipt(
        RoutingMode::Auto,
        "gpt-5-mini",
        Some("fall-through selected gpt-5-mini (confidence 0.000)".into()),
    );
    assert_eq!(confidence, None);
    assert!(reason.unwrap().contains("safety fallback"));
}

#[test]
fn manual_requests_use_the_tier_route() {
    assert_eq!(request(RoutingMode::Manual, ModelTier::Nano, None).route_id(), "dungeon-router/nano");
    assert_eq!(request(RoutingMode::Manual, ModelTier::Mini, None).route_id(), "dungeon-router/mini");
    assert_eq!(request(RoutingMode::Manual, ModelTier::Gpt5, None).route_id(), "dungeon-router/gpt-5");
    assert_eq!(RoutingMode::default(), RoutingMode::Manual);
}

#[test]
fn model_catalog_exposes_all_manual_tiers() {
    let catalog = model_catalog();
    let ids: Vec<&str> = catalog.iter().map(|d| d.model_id).collect();
    assert_eq!(ids, vec!["gpt-5-nano", "gpt-5-mini", "gpt-5"]);
    assert_eq!(catalog[2].label, "GPT-5");
    assert_eq!(catalog[0].tier, ModelTier::Nano);
    assert_eq!(catalog[1].purpose, "Multi-rule explanation and ordinary adjudication");
}

#[test]
fn confidence_is_read_after_fillers() {
    assert_eq!(parse_confidence("confidence: 0.75 ok").as_deref(), Some("0.75"));
    assert_eq!(parse_confidence("confidence=(1)").as_deref(), Some("1"));
    assert_eq!(parse_confidence("no score here"), None);
    assert_eq!(parse_confidence("confidence 1.2.3"), None);
    assert_eq!(parse_confidence("confidence ."), None);
}

#[test]
fn receipts_fall_back_to_a_description() {
    let (reason, confidence) = routing_receipt(RoutingMode::Manual, "gpt-5", None);
    assert_eq!(reason.as_deref(), Some("The DM manually selected gpt-5"));
    assert_eq!(confidence, None);
    let (reason, _) = routing_receipt(RoutingMode::Auto, "gpt-5-nano", None);
    assert_eq!(
        reason.as_deref(),
        Some("Switchyard selected gpt-5-nano; classifier details were not returned")
    );
    assert_eq!(
        fallback_routing_reason(RoutingMode::Manual, "x"),
        "The DM manually selected x"
    );
    let (reason, confidence) = routing_receipt(
        RoutingMode::Manual,
        "gpt-5-mini",
        Some("fall-through selected gpt-5-mini (confidence 0.000)".into()),
    );
    assert_eq!(
        reason.as_deref(),
        Some("fall-through selected gpt-5-mini (confidence 0.000)")
    );
    assert_eq!(confidence.as_deref(), Some("0.000"));
}

#[test]
fn messages_put_instructions_first() {
    let messages = request_messages(&request(RoutingMode::Manual, ModelTier::Nano, Some("be brief")));
    assert_eq!(messages.len(), 2);
    assert_eq!(messages[0].role, "developer");
    assert_eq!(messages[0].content, "be brief");
    assert_eq!(messages[1].role, "user");
    assert_eq!(messages[1].content, "question");
    assert_eq!(request_messages(&request(RoutingMode::Manual, ModelTier::Nano, None)).len(), 1);
}

#[test]
fn upstream_bodies_follow_the_route_and_mode() {
    let body = switchyard_request(&request(RoutingMode::Manual, ModelTier::Gpt5, None), false);
    assert_eq!(body.model, "dungeon-router/gpt-5");
    assert!(!body.stream);
    assert!(body.stream_options.is_none());
    assert_eq!(body.max_completion_tokens, 100);
    let body = switchyard_request(&request(RoutingMode::Auto, ModelTier::Mini, None), true);
    assert_eq!(body.model, "dungeon-router/auto");
    assert!(body.stream_options.unwrap().include_usage);
}

#[test]
fn base_urls_lose_trailing_slashes() {
    assert_eq!(normalize_base_url("http://127.0.0.1:4100//"), "http://127.0.0.1:4100");
    assert_eq!(
        completions_endpoint("http://127.0.0.1:4100"),
        "http://127.0.0.1:4100/v1/chat/completions"
    );
}

#[test]
fn switchyard_adapter_does_not_leak_upstream_error_bodies() {
    assert!(check_upstream_status(200).is_ok());
    assert_eq!(check_upstream_status(401), Err(RouterError::Rejected));
    assert_eq!(RouterError::Rejected.status_code(), 502);
    assert_eq!(RouterError::Unavailable.status_code(), 503);
    assert_eq!(RouterError::InvalidResponse.status_code(), 503);
    assert_eq!(RouterError::Rejected.message(), "the model provider rejected the request");
}

#[test]
fn router_header_wins_over_switchyard_header() {
    assert_eq!(
        selected_model_from_headers(Some("a".into()), Some("b".into())).as_deref(),
        Some("a")
    );
    assert_eq!(selected_model_from_headers(None, Some("b".into())).as_deref(), Some("b"));
    assert_eq!(selected_model_from_headers(None, None), None);
}

#[test]
fn sse_boundaries_take_the_earliest_delimiter() {
    assert_eq!(find_sse_boundary(b"data: a\n\ndata: b\r\n\r\n"), Some((7, 2)));
    assert_eq!(find_sse_boundary(b"data: a\r\n\r\ndata: b\n\n"), Some((7, 4)));
    assert_eq!(find_sse_boundary(b"data: partial"), None);
}

#[test]
fn decoder_splits_frames_across_chunks() {
    let mut decoder = SseDecoder::new();
    decoder.push(b"data: {\"a\"");
    assert!(decoder.next_frame().is_none());
    decoder.push(b":1}\n\ndata: [DONE]\n\n");
    assert_eq!(decoder.next_frame(), Some(Ok("data: {\"a\":1}".to_string())));
    assert_eq!(decoder.next_frame(), Some(Ok("data: [DONE]".to_string())));
    assert!(decoder.next_frame().is_none());
    assert_eq!(decoder.trailing_frame(), Ok(None));
    assert_eq!(decoder.check_produced(), Err(RouterError::InvalidResponse));
    decoder.observe(&StreamEvent::Delta { text: "Prone ".into() });
    assert_eq!(decoder.check_produced(), Ok(()));
}

#[test]
fn decoder_rejects_invalid_utf8() {
    let mut decoder = SseDecoder::new();
    decoder.push(&[0xff, 0xfe, b'\n', b'\n']);
    assert_eq!(decoder.next_frame(), Some(Err(RouterError::InvalidResponse)));
    let mut decoder = SseDecoder::new();
    decoder.push("données".as_bytes());
    assert_eq!(decoder.trailing_frame(), Ok(Some("données".to_string())));
    let mut decoder = SseDecoder::new();
    decoder.push(&[0xc3]);
    assert_eq!(decoder.trailing_frame(), Err(RouterError::InvalidResponse));
}

#[test]
fn whitespace_deltas_do_not_count_as_text() {
    let mut decoder = SseDecoder::new();
    decoder.observe(&StreamEvent::Delta { text: "  \n".into() });
    assert_eq!(decoder.check_produced(), Err(RouterError::InvalidResponse));
}

#[test]
fn frames_join_their_data_lines() {
    assert_eq!(frame_data("event: x\ndata: {\"a\":\ndata:1}").as_deref(), Some("{\"a\":\n1}"));
    assert_eq!(frame_data("data: [DONE]"), None);
    assert_eq!(frame_data(": comment"), None);
}

#[test]
fn chunks_become_usage_or_text_events() {
    let usage = TokenUsage { input_tokens: 1, output_tokens: 2, total_tokens: 3 };
    let event = chunk_event(StreamChunk {
        model: Some("gpt-5-mini".into()),
        contents: vec![Some("ignored".into())],
        usage: Some(usage),
    });
    assert!(matches!(event, Some(StreamEvent::Usage { usage: u }) if u == usage));
    let event = chunk_event(StreamChunk {
        model: None,
        contents: vec![None, Some("Prone ".into()), Some("later".into())],
        usage: None,
    });
    assert!(matches!(event, Some(StreamEvent::Delta { ref text }) if text == "Prone "));
    let event = chunk_event(StreamChunk { model: None, contents: vec![Some(String::new())], usage: None });
    assert!(event.is_none());
}

#[test]
fn switchyard_adapter_uses_the_manual_route_and_maps_usage() {
    let req = CompletionRequest {
        instructions: None,
        prompt: "Resolve this interaction".into(),
        model: ModelTier::Gpt5,
        routing_mode: RoutingMode::Manual,
        max_output_tokens: 700,
    };
    let body = switchyard_request(&req, false);
    assert_eq!(body.model, "dungeon-router/gpt-5");
    assert_eq!(body.messages.len(), 1);
    assert_eq!(body.messages[0].role, "user");
    assert_eq!(body.messages[0].content, "Resolve this interaction");
    assert!(!body.stream);
    assert_eq!(body.max_completion_tokens, 700);
    let usage = TokenUsage { input_tokens: 42, output_tokens: 18, total_tokens: 60 };
    let response = completion_from_reply(
        &req,
        None,
        None,
        CompletionReply {
            model: "gpt-5-2025-08-07".into(),
            contents: vec!["A defensible ruling".into()],
            usage: Some(usage),
        },
    )
    .unwrap();
    assert_eq!(response.content, "A defensible ruling");
    assert_eq!(response.selected_model, "gpt-5-2025-08-07");
    assert_eq!(response.requested_model, ModelTier::Gpt5);
    assert_eq!(response.usage, Some(usage));
    assert_eq!(
        response.routing_reason.as_deref(),
        Some("The DM manually selected gpt-5-2025-08-07")
    );
    let blank = completion_from_reply(
        &req,
        Some("gpt-5".into()),
        None,
        CompletionReply { model: "m".into(), contents: vec!["  ".into()], usage: None },
    );
    assert!(matches!(blank, Err(RouterError::InvalidResponse)));
}

#[test]
fn stream_metadata_names_the_selected_model() {
    let req = request(RoutingMode::Manual, ModelTier::Mini, None);
    match stream_metadata(&req, Some("gpt-5-mini".into()), None) {
        StreamEvent::Metadata { selected_model, route, routing_mode, .. } => {
            assert_eq!(selected_model, "gpt-5-mini");
            assert_eq!(route, "dungeon-router/mini");
            assert_eq!(routing_mode, RoutingMode::Manual);
        }
        _ => panic!("expected metadata"),
    }
    match stream_metadata(&req, None, None) {
        StreamEvent::Metadata { selected_model, .. } => assert_eq!(selected_model, "gpt-5-mini"),
        _ => panic!("expected metadata"),
    }
}

fn chunk_from_json(data: &str) -> StreamChunk {
    let value: serde_json::Value = serde_json::from_str(data).unwrap();
    let contents = value["choices"]
        .as_array()
        .map(|choices| {
            choices
                .iter()
                .map(|choice| choice["delta"]["content"].as_str().map(String::from))
                .collect()
        })
        .unwrap_or_default();
    let usage = match value.get("usage") {
        Some(usage) if !usage.is_null() => Some(TokenUsage {
            input_tokens: usage["prompt_tokens"].as_u64().unwrap(),
            output_tokens: usage["completion_tokens"].as_u64().unwrap(),
            total_tokens: usage["total_tokens"].as_u64().unwrap(),
        }),
        _ => None,
    };
    StreamChunk { model: value["model"].as_str().map(String::from), contents, usage }
}

#[test]
fn switchyard_adapter_maps_streaming_frames_and_router_header() {
    let req = CompletionRequest {
        instructions: None,
        prompt: "What does prone do?".into(),
        model: ModelTier::Mini,
        routing_mode: RoutingMode::Manual,
        max_output_tokens: 300,
    };
    let body = switchyard_request(&req, true);
    assert_eq!(body.model, "dungeon-router/mini");
    assert!(body.stream);
    assert!(body.stream_options.unwrap().include_usage);
    let metadata = stream_metadata(&req, Some("gpt-5-mini".into()), None);
    assert!(matches!(
        metadata,
        StreamEvent::Metadata { ref selected_model, .. } if selected_model == "gpt-5-mini"
    ));

    let mut decoder = SseDecoder::new();
    decoder.push(b"data: {\"choices\":[{\"delta\":{\"content\":\"Prone \"}}]}\n\ndata: {\"choi");
    decoder.push(b"ces\":[{\"delta\":{\"content\":\"limits movement.\"}}]}\r\n\r\n");
    decoder.push(b"data: {\"choices\":[],\"usage\":{\"prompt_tokens\":10,\"completion_tokens\":6,\"total_tokens\":16}}\n\ndata: [DONE]\n\n");
    let mut events = Vec::new();
    while let Some(frame) = decoder.next_frame() {
        let frame = frame.unwrap();
        if let Some(data) = frame_data(&frame) {
            if let Some(event) = chunk_event(chunk_from_json(&data)) {
                decoder.observe(&event);
                events.push(event);
            }
        }
    }
    assert_eq!(decoder.trailing_frame(), Ok(None));
    assert_eq!(decoder.check_produced(), Ok(()));
    let texts: Vec<String> = events
        .iter()
        .filter_map(|event| match event {
            StreamEvent::Delta { text } => Some(text.clone()),
            _ => None,
        })
        .collect();
    assert_eq!(texts, vec!["Prone ", "limits movement."]);
    assert!(matches!(events.last(), Some(StreamEvent::Usage { usage }) if usage.total_tokens == 16));
}

#[test]
fn stream_end_passes_the_trailing_event_then_done() {
    let mut decoder = SseDecoder::new();
    let (events, outcome) = decoder.end_of_stream(Some(StreamEvent::Delta { text: "tail".into() }));
    assert_eq!(outcome, Ok(()));
    assert_eq!(events.len(), 2);
    assert!(matches!(events[0], StreamEvent::Delta { ref text } if text == "tail"));
    assert!(matches!(events[1], StreamEvent::Done));
    let mut silent = SseDecoder::new();
    let (events, outcome) = silent.end_of_stream(None);
    assert!(events.is_empty());
    assert_eq!(outcome, Err(RouterError::InvalidResponse));
    let mut earlier = SseDecoder::new();
    earlier.observe(&StreamEvent::Delta { text: "text".into() });
    let (events, outcome) = earlier.end_of_stream(None);
    assert_eq!(outcome, Ok(()));
    assert_eq!(events.len(), 1);
    assert!(matches!(events[0], StreamEvent::Done));
}

#[test]
fn stream_end_hands_back_the_trailing_event_before_failing() {
    let usage = TokenUsage { input_tokens: 12, output_tokens: 4, total_tokens: 16 };
    let mut decoder = SseDecoder::new();
    let (events, outcome) = decoder.end_of_stream(Some(StreamEvent::Usage { usage }));
    assert_eq!(events.len(), 1);
    assert!(matches!(events[0], StreamEvent::Usage { usage: u } if u == usage));
    assert_eq!(outcome, Err(RouterError::InvalidResponse));
}

#[test]
fn event_data_is_the_same_for_crlf_and_lf_lines() {
    let crlf = frame_data("event: chunk\r\ndata: {\"a\":\r\ndata: 1}");
    let lf = frame_data("event: chunk\ndata: {\"a\":\ndata: 1}");
    assert_eq!(crlf, lf);
    assert_eq!(lf.as_deref(), Some("{\"a\":\n1}"));
}

fn frame_data_of_body(body: &[u8]) -> (Vec<Option<String>>, Vec<u8>) {
    let mut decoder = SseDecoder::new();
    decoder.push(body);
    let mut data = Vec::new();
    while let Some(frame) = decoder.next_frame() {
        data.push(frame_data(&frame.unwrap()));
    }
    (data, decoder.buffer.clone())
}

#[test]
fn lf_and_crlf_bodies_carry_the_same_events() {
    let lf = "event: chunk\ndata: {\"a\":\ndata: \"é\"}\n\ndata: [DONE]\n\n";
    let crlf = "event: chunk\r\ndata: {\"a\":\r\ndata: \"é\"}\r\n\r\ndata: [DONE]\r\n\r\n";
    let (lf_data, lf_rest) = frame_data_of_body(lf.as_bytes());
    let (crlf_data, crlf_rest) = frame_data_of_body(crlf.as_bytes());
    assert_eq!(lf_data, crlf_data);
    assert_eq!(lf_data, vec![Some("{\"a\":\n\"é\"}".to_string()), None]);
    assert!(lf_rest.is_empty() && crlf_rest.is_empty());
}
