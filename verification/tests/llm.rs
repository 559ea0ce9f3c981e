use webscout::json::Json;
use webscout::llm::{
    apply_thinking_to_body, backoff_ms, effective_control, fallback_ask, is_openrouter,
    is_response_format_unsupported, is_starved, readings, reply_text, schema_in_prompt,
    status_error, stream_body, Ask, Attempts, Choice, Counters, Message, Next, Stream,
    StreamChunk, ThinkingControl, Usage,
};
use webscout::repair::{
    extract_first_json_object, salvage_truncated_json, sse_data, stall_progressed,
    strip_code_fence, whitespace_run, STALL_WHITESPACE,
};

fn body_for_control(control: ThinkingControl, thinking: bool) -> serde_json::Value {
    let mut body = vec![
        ("messages".to_string(), Json::List(Vec::new())),
        ("model".to_string(), Json::Text("x".to_string())),
    ];
    apply_thinking_to_body(control, thinking, &mut body);
    serde_json::from_str(&Json::Object(body).to_text()).unwrap()
}

fn parsed(text: &str) -> serde_json::Value {
    serde_json::from_str(text).unwrap()
}

/// Only `data:` lines carry payload; OpenRouter's `: OPENROUTER
/// PROCESSING` keep-alives and blank separators must be skipped.
#[test]
fn sse_data_reads_payload_lines_only() {
    assert_eq!(sse_data("data: {\"a\":1}\n").as_deref(), Some("{\"a\":1}"));
    assert_eq!(sse_data("data: [DONE]\r\n").as_deref(), Some("[DONE]"));
    assert_eq!(sse_data(": OPENROUTER PROCESSING\n").as_deref(), None);
    assert_eq!(sse_data("\n").as_deref(), None);
    assert_eq!(sse_data("event: ping\n").as_deref(), None);
}

/// The run counts only trailing whitespace, carries across stream
/// chunks, and any real character resets it — pretty-printed JSON never
/// comes near the stall threshold.
#[test]
fn whitespace_run_tracks_trailing_whitespace_across_chunks() {
    let mut run = 0;
    for piece in ["{\"records\": [", "\n", "  ", "\n\n"] {
        run = whitespace_run(run, piece);
    }
    assert_eq!(run, 5, "a loop's whitespace accumulates across chunks");
    run = whitespace_run(run, "  {\"name\": \"A\"}\n    ");
    assert_eq!(run, 5, "a real token resets the run to what follows it");
    // A pretty-printed record never approaches the stall threshold.
    let pretty = "{\n  \"records\": [\n    {\n      \"name\": \"A\"\n    }\n  ]\n}";
    let mut run = 0;
    let mut worst = 0;
    for c in pretty.chars() {
        run = whitespace_run(run, &c.to_string());
        worst = worst.max(run);
    }
    assert!(worst < STALL_WHITESPACE / 10, "worst run {worst}");
    // A whitespace loop gets there.
    let mut run = 0;
    for _ in 0..300 {
        run = whitespace_run(run, "\n");
    }
    assert!(run >= STALL_WHITESPACE);
}

/// A stall right after the opening structure has nothing to salvage; one
/// after complete records does, and must go to the salvage path.
#[test]
fn a_stall_counts_as_progress_only_past_the_opening() {
    assert!(!stall_progressed("{"));
    assert!(!stall_progressed("{\"records\": ["));
    assert!(!stall_progressed("{ \"records\" : [ "));
    assert!(stall_progressed(
        "{\"records\": [{\"name\": \"CREC Gracia\", \"contact_email\": \"\"}"
    ));
}

#[test]
fn a_fresh_client_reports_no_cost_at_all() {
    let u = Counters::default();
    assert_eq!((u.requests, u.prompt_tokens, u.completion_tokens, u.reasoning_tokens), (0, 0, 0, 0));
    assert_eq!(u.cost(), None, "an endpoint that has said nothing has reported no cost");
}

#[test]
fn is_openrouter_detects_host() {
    assert!(is_openrouter(
        "https://openrouter.ai/api/v1/chat/completions"
    ));
    assert!(!is_openrouter("https://api.openai.com/v1/chat/completions"));
    assert!(!is_openrouter("http://localhost:8080/v1/chat/completions"));
}

#[test]
fn is_response_format_unsupported_matches_400_bodies() {
    // Bodies observed in the wild from various OpenAI-compatible providers.
    let e = format!("generative endpoint returned HTTP 400: response_format not supported");
    assert!(is_response_format_unsupported(&e));
    let e = format!(
        "generative endpoint returned HTTP 400: this model does not support json_schema"
    );
    assert!(is_response_format_unsupported(&e));
    let e = format!("generative endpoint returned HTTP 400: some other bad request");
    assert!(!is_response_format_unsupported(&e));
    let e = format!("generative endpoint returned HTTP 500: server error");
    assert!(!is_response_format_unsupported(&e));
}

#[test]
fn salvage_recovers_records_before_the_cut() {
    // Cut mid-object, as a max-tokens ceiling leaves it.
    let broken = r#"{"records": [{"name": "A"}, {"name": "B"}, {"na"#;
    let fixed = salvage_truncated_json(broken).expect("should salvage");
    assert_eq!(fixed, r#"{"records": [{"name": "A"}, {"name": "B"}]}"#);
    let v: serde_json::Value = serde_json::from_str(&fixed).unwrap();
    assert_eq!(v["records"].as_array().unwrap().len(), 2);
}

#[test]
fn salvage_skips_the_partial_object_after_a_comma() {
    let broken = r#"{"records": [{"name": "A"}, {"name": "tru"#;
    let fixed = salvage_truncated_json(broken).expect("should salvage");
    assert_eq!(fixed, r#"{"records": [{"name": "A"}]}"#);
}

#[test]
fn salvage_honours_braces_inside_strings() {
    let broken = r#"{"records": [{"note": "a } brace and \" quote"}, {"x"#;
    let fixed = salvage_truncated_json(broken).expect("should salvage");
    let v: serde_json::Value = serde_json::from_str(&fixed).unwrap();
    assert_eq!(v["records"][0]["note"], r#"a } brace and " quote"#);
}

#[test]
fn salvage_returns_none_when_there_is_nothing_to_cut() {
    assert!(salvage_truncated_json(r#"{"records": []}"#).is_none());
    // No closed inner object at all: nothing to cut at.
    assert!(salvage_truncated_json(r#"{"records": [{"na"#).is_none());
    // The last inner object ends at the last byte: the break is
    // elsewhere (here, an unclosed outer), and truncation repair
    // cannot help — the caller reports the parse error.
    assert!(salvage_truncated_json(r#"{"a": {"b": 1}"#).is_none());
}

#[test]
fn a_whole_document_needs_no_salvage() {
    assert!(salvage_truncated_json(r#"{"records": [{"name": "A"}]}"#).is_none());
    assert!(salvage_truncated_json(r#"{"records": [{"name": "A"}]} and more"#).is_none());
    assert_eq!(
        salvage_truncated_json(r#"{"records": [{"name": "A"}], "note": "x"#).as_deref(),
        Some(r#"{"records": [{"name": "A"}]}"#)
    );
}

#[test]
fn salvage_recovers_before_degenerate_filler() {
    // q101's shape: a value degenerates into DEL padding, then truncates.
    let filler: String = "\u{7f}".repeat(200);
    let broken =
        format!(r#"{{"records": [{{"name": "Consul"}}, {{"name": "X", "note": "{filler}"#);
    let fixed = salvage_truncated_json(&broken).expect("should salvage");
    let v: serde_json::Value = serde_json::from_str(&fixed).unwrap();
    assert_eq!(v["records"].as_array().unwrap().len(), 1);
    assert_eq!(v["records"][0]["name"], "Consul");
}

#[test]
fn extract_first_json_object_pulls_out_wrapped_json() {
    let s = "Sure, here is the JSON: {\"a\":1,\"b\":\"c\"} — hope this helps";
    assert_eq!(extract_first_json_object(s).as_deref(), Some("{\"a\":1,\"b\":\"c\"}"));

    // Nested braces stay balanced.
    let s = "prefix {\"outer\": {\"inner\": 2}} suffix";
    assert_eq!(
        extract_first_json_object(s).as_deref(),
        Some("{\"outer\": {\"inner\": 2}}")
    );

    // Unbalanced closing brace inside a string does not confuse it.
    let s = r#"{"k": "a } b", "n": 1}"#;
    assert_eq!(
        extract_first_json_object(s).as_deref(),
        Some(r#"{"k": "a } b", "n": 1}"#)
    );

    // Missing close → None.
    assert_eq!(extract_first_json_object("prefix {\"a\": 1").as_deref(), None);
    // No object at all → None.
    assert_eq!(extract_first_json_object("no braces here").as_deref(), None);
}

#[test]
fn strip_code_fence_handles_json_marker() {
    assert_eq!(strip_code_fence("```json\n{\"a\":1}\n```"), "{\"a\":1}");
    assert_eq!(strip_code_fence("plain text"), "plain text");
}

#[test]
fn message_reasoning_bytes_prefers_reasoning_field() {
    let m = Message {
        content: Some("hi".into()),
        reasoning: Some("abc".into()),
        reasoning_content: Some("longer".into()),
    };
    // When both are present, `reasoning` wins — it is the primary field.
    assert_eq!(m.reasoning_bytes(), 3);
}

#[test]
fn message_reasoning_bytes_falls_back_to_reasoning_content() {
    let m = Message {
        content: None,
        reasoning: None,
        reasoning_content: Some("chain of thought".into()),
    };
    assert_eq!(m.reasoning_bytes(), "chain of thought".len() as u128);
}

#[test]
fn message_reasoning_bytes_zero_when_neither() {
    let m = Message {
        content: Some("x".into()),
        reasoning: None,
        reasoning_content: None,
    };
    assert_eq!(m.reasoning_bytes(), 0);
}

#[test]
fn openrouter_thinking_on() {
    let b = body_for_control(ThinkingControl::OpenRouter, true);
    assert_eq!(b["reasoning"], parsed(r#"{"effort": "medium"}"#));
    assert!(b.get("chat_template_kwargs").is_none());
    assert!(b.get("reasoning_effort").is_none());
}

#[test]
fn openrouter_thinking_off() {
    let b = body_for_control(ThinkingControl::OpenRouter, false);
    assert_eq!(b["reasoning"], parsed(r#"{"enabled": false}"#));
}

#[test]
fn vllm_thinking_on() {
    let b = body_for_control(ThinkingControl::Vllm, true);
    assert_eq!(b["chat_template_kwargs"], parsed(r#"{"enable_thinking": true}"#));
    assert!(b.get("reasoning").is_none());
    assert!(b.get("reasoning_effort").is_none());
}

#[test]
fn vllm_thinking_off() {
    let b = body_for_control(ThinkingControl::Vllm, false);
    assert_eq!(b["chat_template_kwargs"], parsed(r#"{"enable_thinking": false}"#));
}

#[test]
fn effort_thinking_on() {
    let b = body_for_control(ThinkingControl::Effort, true);
    assert_eq!(b["reasoning_effort"], "medium");
    assert!(b.get("reasoning").is_none());
    assert!(b.get("chat_template_kwargs").is_none());
}

#[test]
fn effort_thinking_off() {
    let b = body_for_control(ThinkingControl::Effort, false);
    assert_eq!(b["reasoning_effort"], "none");
}

#[test]
fn off_adds_nothing() {
    let b = body_for_control(ThinkingControl::Off, true);
    assert!(b.get("reasoning").is_none());
    assert!(b.get("chat_template_kwargs").is_none());
    assert!(b.get("reasoning_effort").is_none());
    let b = body_for_control(ThinkingControl::Off, false);
    assert!(b.get("reasoning").is_none());
}

#[test]
fn auto_adds_nothing_on_non_openrouter() {
    let b = body_for_control(ThinkingControl::Auto, true);
    assert!(b.get("reasoning").is_none());
    assert!(b.get("chat_template_kwargs").is_none());
}

#[test]
fn effective_control_auto_resolves_for_openrouter() {
    let ctrl = effective_control(
        ThinkingControl::Auto,
        "https://openrouter.ai/api/v1/chat/completions",
    );
    assert_eq!(ctrl, ThinkingControl::OpenRouter);
}

#[test]
fn effective_control_auto_resolves_for_other_host() {
    let ctrl = effective_control(
        ThinkingControl::Auto,
        "https://vllm.example.org/v1/chat/completions",
    );
    assert_eq!(ctrl, ThinkingControl::Off);
    let ctrl = effective_control(
        ThinkingControl::Auto,
        "http://localhost:11434/v1/chat/completions",
    );
    assert_eq!(ctrl, ThinkingControl::Off);
}

#[test]
fn effective_control_non_auto_passes_through() {
    assert_eq!(
        effective_control(ThinkingControl::Vllm, "https://anything.example.com"),
        ThinkingControl::Vllm
    );
    assert_eq!(
        effective_control(
            ThinkingControl::Effort,
            "https://openrouter.ai/api/v1/chat/completions"
        ),
        ThinkingControl::Effort
    );
}

#[test]
fn is_starved_triggers_on_reasoning_content_server_error() {
    // The error message is the same regardless of which reasoning field the
    // server used — only the byte count differs in the text.
    let e = format!(
        "generative model returned no content (finish_reason=Some(\"length\"), \
         14246 bytes of reasoning). Raise max_tokens or disable thinking for this call."
    );
    assert!(is_starved(&e));
}


fn choice(content: Option<&str>, finish: Option<&str>, reasoning: Option<&str>) -> Choice {
    Choice {
        message: Message {
            content: content.map(str::to_string),
            reasoning: reasoning.map(str::to_string),
            reasoning_content: None,
        },
        finish_reason: finish.map(str::to_string),
    }
}

fn usage(prompt: usize, completion: usize, nano: Option<u64>) -> Usage {
    Usage {
        prompt_tokens: prompt,
        completion_tokens: completion,
        reasoning_tokens: Some(2),
        cost_nano_usd: nano,
    }
}

fn piece(text: &str) -> StreamChunk {
    StreamChunk { pieces: vec![text.to_string()], usage: None, error: None }
}

fn datum(next: Next) -> Option<String> {
    match next {
        Next::Data(d) => Some(d),
        _ => None,
    }
}

#[test]
fn a_reply_is_the_text_of_its_first_choice() {
    let choices = vec![choice(Some("first"), Some("stop"), None), choice(Some("second"), None, None)];
    assert_eq!(reply_text(&choices), Ok("first".to_string()));
    assert_eq!(reply_text(&Vec::new()), Err("generative response had no choices".to_string()));
}

#[test]
fn an_empty_reply_says_why_it_is_empty() {
    let starved = vec![choice(Some("  "), Some("length"), Some("hm\u{e9}"))];
    let e = reply_text(&starved).unwrap_err();
    assert_eq!(
        e,
        "generative model returned no content (finish_reason=Some(\"length\"), 4 bytes of \
         reasoning). Raise max_tokens or disable thinking for this call."
    );
    assert!(is_starved(&e));
    let silent = vec![choice(None, None, None)];
    let e = reply_text(&silent).unwrap_err();
    assert!(e.contains("finish_reason=None, 0 bytes"), "{e}");
}

#[test]
fn a_failed_status_shows_the_start_of_the_body() {
    assert_eq!(
        status_error("400 Bad Request", "no such model"),
        "generative endpoint returned HTTP 400 Bad Request: no such model"
    );
    let long = "x".repeat(1000);
    assert_eq!(status_error("500", &long).len(), "generative endpoint returned HTTP 500: ".len() + 400);
}

#[test]
fn the_backoff_doubles_up_to_eight_seconds() {
    let waits: Vec<u64> = (0..8).map(backoff_ms).collect();
    assert_eq!(waits, vec![0, 500, 1000, 2000, 4000, 8000, 8000, 8000]);
}

#[test]
fn a_starved_call_gets_room_and_then_loses_its_thinking() {
    let ask = Ask::prose("p".to_string());
    let mut tries = Attempts::begin("m", ThinkingControl::Vllm, &ask, 5);
    let starved = "generative model returned no content (finish_reason=Some(\"length\"))";
    let budget = |t: &Attempts| {
        t.body.iter().find(|m| m.0 == "max_tokens").and_then(|m| m.1.as_u64()).unwrap()
    };
    assert_eq!(budget(&tries), 4096);
    assert!(tries.fail(starved));
    assert_eq!(budget(&tries), 12_288);
    assert!(tries.fail("connection reset"));
    assert_eq!(budget(&tries), 12_288, "only starvation raises the budget");
    assert!(tries.fail(starved));
    assert_eq!(budget(&tries), 32_000);
    assert!(tries.thinking);
    assert!(tries.fail(starved));
    assert!(!tries.thinking, "at the ceiling the thinking goes");
    assert!(tries.fail(starved));
    assert!(!tries.fail(starved), "five retries and no more");
    assert_eq!(tries.failed, 5);
}

#[test]
fn a_streamed_body_asks_for_its_usage() {
    let mut body = vec![("model".to_string(), Json::Text("x".to_string()))];
    stream_body(&mut body);
    let v = parsed(&Json::Object(body).to_text());
    assert_eq!(v["stream"], true);
    assert_eq!(v["stream_options"]["include_usage"], true);
    assert_eq!(v["model"], "x");
}

#[test]
fn a_stream_is_read_line_by_line_whatever_its_chunks() {
    let text = ": OPENROUTER PROCESSING\n\ndata: {\"a\":\"\u{e9}\"}\n\ndata: [DONE]\n";
    let bytes = text.as_bytes();
    for cut in 0..bytes.len() {
        let mut s = Stream::new();
        s.feed(&bytes[..cut]);
        let mut got = Vec::new();
        while let Some(d) = datum(s.next()) {
            got.push(d);
        }
        s.feed(&bytes[cut..]);
        while let Some(d) = datum(s.next()) {
            got.push(d);
        }
        assert_eq!(got, vec!["{\"a\":\"\u{e9}\"}".to_string()], "cut at {cut}");
    }
    let mut s = Stream::new();
    s.feed(b"data: [DONE]\n");
    assert!(matches!(s.next(), Next::Done));
    assert!(matches!(s.next(), Next::More));
}

#[test]
fn a_stream_collects_its_pieces_and_its_usage() {
    let mut s = Stream::new();
    assert!(s.absorb(&piece("{\"a\": ")).is_ok());
    assert!(s.absorb(&piece("1}")).is_ok());
    let last = StreamChunk { pieces: vec![], usage: Some(usage(10, 5, Some(7))), error: None };
    assert!(s.absorb(&last).is_ok());
    assert_eq!(s.result(), Ok("{\"a\": 1}".to_string()));
    let mut c = Counters::default();
    c.record_stream(&s);
    assert_eq!((c.requests, c.prompt_tokens, c.completion_tokens, c.reasoning_tokens), (1, 10, 5, 2));
    assert_eq!(c.cost(), Some(7));
}

#[test]
fn an_error_inside_a_stream_ends_it() {
    let mut s = Stream::new();
    let bad = StreamChunk { pieces: vec![], usage: None, error: Some("{\"code\":1}".to_string()) };
    assert_eq!(
        s.absorb(&bad),
        Err("generative endpoint streamed an error: {\"code\":1}".to_string())
    );
    assert_eq!(
        Stream::new().result(),
        Err("generative endpoint returned no content (streamed)".to_string())
    );
}

#[test]
fn a_stalled_stream_keeps_what_came_before_the_loop() {
    let mut s = Stream::new();
    let _ = s.absorb(&piece("{\"records\": ["));
    let _ = s.absorb(&piece(&"\n".repeat(STALL_WHITESPACE)));
    assert!(s.stalled);
    assert_eq!(
        s.result(),
        Err("[stalled] the model stalled in a whitespace loop before writing any output".to_string())
    );
    let head = "{\"records\": [{\"name\": \"CREC Gracia\", \"contact_email\": \"\"}";
    let mut s = Stream::new();
    let _ = s.absorb(&piece(head));
    let _ = s.absorb(&piece(&" ".repeat(STALL_WHITESPACE)));
    assert_eq!(s.result(), Ok(head.to_string()));
    // No usage came, so the request and an estimate are counted, without a price.
    let mut c = Counters::default();
    c.record_stream(&s);
    assert_eq!(c.requests, 1);
    assert_eq!(c.completion_tokens, (head.len() + STALL_WHITESPACE) / 4);
    assert_eq!(s.estimated_tokens(), c.completion_tokens);
    assert_eq!(c.cost(), None);
}

#[test]
fn a_price_of_zero_counts_as_reported() {
    let mut c = Counters::default();
    c.record_usage(&usage(1, 1, None));
    assert_eq!(c.cost(), None);
    c.record_usage(&usage(1, 1, Some(0)));
    assert_eq!(c.cost(), Some(0));
    c.record_usage(&usage(1, 1, None));
    assert_eq!(c.cost(), Some(0));
    assert_eq!(c.requests, 3);
}

#[test]
fn a_schema_can_travel_in_the_prompt() {
    let schema = Json::Object(vec![("type".to_string(), Json::Text("object".to_string()))]);
    let ask = schema_in_prompt(&schema, "Extract.", true);
    assert_eq!(
        ask.prompt,
        "Return ONLY a JSON object matching this schema, no prose, no code fence:\n\
         {\"type\":\"object\"}\n\nExtract."
    );
    assert!(!ask.thinking);
    assert!(ask.stall_guard);
    assert!(ask.schema.is_none());
}

#[test]
fn a_reply_has_three_readings() {
    let r = readings("```json\nSure: {\"a\": [{\"b\": 1}]} there\n```");
    assert_eq!(r.cleaned, "Sure: {\"a\": [{\"b\": 1}]} there");
    assert_eq!(r.candidate, "{\"a\": [{\"b\": 1}]}");
    let r = readings("{\"a\": [{\"b\": 1}, {\"b\"");
    assert_eq!(r.candidate, "{\"a\": [{\"b\": 1}, {\"b\"");
    assert_eq!(r.salvaged.as_deref(), Some("{\"a\": [{\"b\": 1}]}"));
}

#[test]
fn only_a_rejected_constraint_is_asked_again_with_the_schema_in_the_prompt() {
    let schema = Json::Object(Vec::new());
    let rejected = "generative endpoint returned HTTP 400: response_format not supported";
    let again = fallback_ask(rejected, &schema, "P", false).unwrap();
    assert!(again.prompt.ends_with("{}\n\nP"));
    assert!(!again.stall_guard);
    assert!(fallback_ask("generative endpoint returned HTTP 500: down", &schema, "P", false).is_none());
}

#[test]
fn an_undecodable_reply_is_quoted_in_part() {
    assert_eq!(readings("no json").complaint(), "decoding structured output: no json");
    let long = "y".repeat(900);
    assert_eq!(readings(&long).complaint().len(), "decoding structured output: ".len() + 400);
}
