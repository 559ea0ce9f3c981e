use serde_json::Value;
use webscout::clock::{now_rfc3339, rfc3339};
use webscout::config::SearchEngines;
use webscout::fetch::DEFAULT_LANE_DEADLINE;
use webscout::json::Json;
use webscout::llm::ThinkingControl;
use webscout::options::{format_names, OptionValue, RunOptions};
use webscout::output::{parse_format, Format};
use webscout::runs::{
    accepted_line, check_query, closing_lines, content_type_for, download, error_json,
    extension_for, format_name, format_run_id, ndjson_line, plan_scout, progress_line, result_line,
    select_backend, select_lanes, usage_line, BackendKind, CompletedRun, CostTexts, Download,
    Ending, LaneId, ProgressCounts, ProgressEvent, RunIds, RunStore, Server, MAX_STORED_RUNS,
    USAGE_INTERVAL_MS,
};
use webscout::types::{Figure, Outcome, Real, Stats};
use webscout::usage::{LlmUsage, UsageSnapshot};

#[test]
fn run_id_is_hex_of_clock_and_counter() {
    assert_eq!(format_run_id(255, 16), "ff-10");
    assert_eq!(format_run_id(0, 0), "0-0");
}

#[test]
fn run_ids_differ_within_one_tick() {
    assert_ne!(format_run_id(42, 0), format_run_id(42, 1));
}

#[test]
fn generated_run_ids_are_unique() {
    let mut ids = RunIds::default();
    let a = ids.new_run_id();
    let b = ids.new_run_id();
    assert_ne!(a, b);
    assert!(a.contains('-'));
}

#[test]
fn rfc3339_formats_the_epoch() {
    assert_eq!(rfc3339(0), "1970-01-01T00:00:00Z");
}

#[test]
fn rfc3339_formats_a_known_instant() {
    assert_eq!(rfc3339(1_789_216_496), "2026-09-12T12:34:56Z");
    // A day boundary, where an off-by-one in the division would show.
    assert_eq!(rfc3339(86_399), "1970-01-01T23:59:59Z");
    assert_eq!(rfc3339(86_400), "1970-01-02T00:00:00Z");
}

#[test]
fn now_rfc3339_has_the_right_shape() {
    let s = now_rfc3339();
    assert_eq!(s.len(), 20, "{s}");
    assert!(s.ends_with('Z'), "{s}");
    assert_eq!(&s[4..5], "-");
    assert_eq!(&s[10..11], "T");
}

#[test]
fn pinning_an_unavailable_engine_names_what_is_missing() {
    let err = select_lanes(SearchEngines::Ddg, false, false).unwrap_err().to_string();
    assert!(err.contains("ddg") && err.contains("obscura"), "{err}");
    let err = select_lanes(SearchEngines::Jina, false, false).unwrap_err().to_string();
    assert!(err.contains("jina") && err.contains("key"), "{err}");
    assert!(select_lanes(SearchEngines::Auto, false, false).is_err());
    assert!(select_backend(false, false).is_err());
}

#[test]
fn lanes_and_backends_follow_what_is_there() {
    assert_eq!(
        select_lanes(SearchEngines::Auto, true, true).unwrap(),
        vec![LaneId::Ddg, LaneId::Jina]
    );
    assert_eq!(select_lanes(SearchEngines::Ddg, true, true).unwrap(), vec![LaneId::Ddg]);
    assert_eq!(select_backend(true, true), Ok(BackendKind::Jina));
    assert_eq!(select_backend(true, false), Ok(BackendKind::Obscura));
    assert_eq!(BackendKind::Jina.name(), "jina");
    assert_eq!(BackendKind::Obscura.name(), "obscura");
    assert_eq!(BackendKind::Obscura.default_lane(), LaneId::Ddg);
    assert_eq!(BackendKind::Jina.default_lane(), LaneId::Jina);
}

#[test]
fn lane_ids_are_stable() {
    assert_eq!(LaneId::Jina.id(), "jina");
    assert_eq!(LaneId::Ddg.id(), "ddg");
    assert_eq!(DEFAULT_LANE_DEADLINE, 20);
}

fn run(id: &str) -> CompletedRun {
    CompletedRun {
        id: id.to_string(),
        formats: vec![("markdown".to_string(), format!("# {id}"))],
    }
}

#[test]
fn store_returns_what_it_kept() {
    let mut s = RunStore::default();
    s.insert(run("a"));
    assert_eq!(
        s.get("a").unwrap().formats,
        vec![("markdown".to_string(), "# a".to_string())]
    );
    assert!(s.get("b").is_none());
}

#[test]
fn store_evicts_the_oldest_past_the_cap() {
    let mut s = RunStore::default();
    for i in 0..MAX_STORED_RUNS + 5 {
        s.insert(run(&i.to_string()));
    }
    assert_eq!(s.runs.len(), MAX_STORED_RUNS);
    assert!(s.get("0").is_none(), "oldest should have been evicted");
    assert!(s.get("4").is_none());
    assert!(s.get("5").is_some(), "newest {MAX_STORED_RUNS} are kept");
    assert!(s.get(&(MAX_STORED_RUNS + 4).to_string()).is_some());
}

#[test]
fn extensions_and_types_cover_every_offered_format() {
    for f in format_names() {
        assert!(!extension_for(f).is_empty());
        assert!(content_type_for(f).contains('/'));
    }
    assert_eq!(extension_for("markdown"), "md");
    assert_eq!(extension_for("jsonl"), "jsonl");
    assert_eq!(content_type_for("csv"), "text/csv; charset=utf-8");
}

#[test]
fn every_offered_format_parses_to_a_renderer() {
    for f in format_names() {
        let parsed = parse_format(f).unwrap_or_else(|| panic!("{f} has no renderer"));
        assert_eq!(format_name(parsed), f);
    }
}

#[test]
fn ndjson_lines_end_in_exactly_one_newline() {
    let line = ndjson_line(&Json::Object(vec![(
        "type".to_string(),
        Json::Text("accepted".to_string()),
    )]));
    assert!(line.ends_with('\n'));
    assert_eq!(line.matches('\n').count(), 1);
    assert_eq!(line, "{\"type\":\"accepted\"}\n");
}

#[test]
fn progress_line_carries_the_contract_fields() {
    let ev = ProgressEvent {
        stage: "search".into(),
        round: Some(1),
        message: "searching round 1".into(),
        counts: ProgressCounts { pages: 0, records: 0 },
    };
    let v: Value = serde_json::from_str(progress_line(&ev).trim()).unwrap();
    assert_eq!(v["type"], "progress");
    assert_eq!(v["stage"], "search");
    assert_eq!(v["round"], 1);
    assert_eq!(v["message"], "searching round 1");
    assert_eq!(v["counts"]["pages"], 0);
    assert_eq!(v["counts"]["records"], 0);
}

fn double(x: f64) -> Real {
    Real { bits: x.to_bits() }
}

fn cost(x: f64) -> Figure {
    Figure { bits: x.to_bits(), text: format!("{x:.4}") }
}

fn price(x: Option<Real>) -> String {
    serde_json::to_string(&f64::from_bits(x.unwrap_or(double(0.0)).bits)).unwrap()
}

fn costs(u: &UsageSnapshot) -> CostTexts {
    CostTexts {
        jev: price(Some(u.jev_cost_usd)),
        llm: price(u.llm.cost_usd),
        planner: price(u.planner.cost_usd),
    }
}

fn usage(u: &UsageSnapshot, ms: u64) -> Value {
    serde_json::from_str(usage_line(u, &costs(u), ms).trim()).unwrap()
}

fn sample_usage() -> UsageSnapshot {
    UsageSnapshot {
        jev_requests: 12,
        jev_input_tokens: 88_213,
        jev_cost_usd: double(0.0037),
        llm: LlmUsage {
            requests: 3,
            prompt_tokens: 14_788,
            completion_tokens: 1_190,
            reasoning_tokens: 0,
            cost_usd: Some(double(0.0021)),
        },
        planner: LlmUsage {
            requests: 1,
            prompt_tokens: 2_288,
            completion_tokens: 4_177,
            reasoning_tokens: 3_900,
            cost_usd: Some(double(0.0104)),
        },
    }
}

#[test]
fn usage_line_carries_the_contract_fields() {
    let v = usage(&sample_usage(), 41_000);
    assert_eq!(v["type"], "usage");
    assert_eq!(v["elapsed_ms"], 41_000);
    assert_eq!(v["jev"]["requests"], 12);
    assert_eq!(v["jev"]["input_tokens"], 88_213);
    assert_eq!(v["jev"]["cost_usd"], 0.0037);
    assert_eq!(v["llm"]["requests"], 3);
    assert_eq!(v["llm"]["prompt_tokens"], 14_788);
    assert_eq!(v["llm"]["completion_tokens"], 1_190);
    assert_eq!(v["planner"]["requests"], 1);
    assert_eq!(v["planner"]["prompt_tokens"], 2_288);
    assert_eq!(v["planner"]["completion_tokens"], 4_177);
}

#[test]
fn usage_line_is_one_ndjson_line() {
    let u = UsageSnapshot::default();
    let line = usage_line(&u, &costs(&u), 0);
    assert!(line.ends_with('\n'));
    assert_eq!(line.matches('\n').count(), 1);
}

#[test]
fn a_cost_the_endpoint_never_reported_is_absent_not_zero() {
    let mut u = sample_usage();
    u.llm.cost_usd = None;
    let v = usage(&u, 1);
    assert!(
        v["llm"].get("cost_usd").is_none(),
        "an unknown cost must not be published as 0"
    );
    // A reported zero, on the other hand, is a fact worth sending.
    u.llm.cost_usd = Some(double(0.0));
    let v = usage(&u, 1);
    assert_eq!(v["llm"]["cost_usd"], 0.0);
}

#[test]
fn reasoning_tokens_appear_only_when_some_were_spent() {
    let u = sample_usage();
    let v = usage(&u, 1);
    assert!(v["llm"].get("reasoning_tokens").is_none());
    assert_eq!(v["planner"]["reasoning_tokens"], 3_900);
}

#[test]
fn the_final_usage_event_and_the_result_stats_agree() {
    let stats = Stats {
        jev_requests: 9,
        jev_input_tokens: 1_234,
        jev_cost_usd: cost(0.0012),
        llm_requests: 4,
        llm_prompt_tokens: 500,
        llm_completion_tokens: 60,
        llm_reasoning_tokens: 12,
        llm_cost_usd: Some(cost(0.0009)),
        planner_requests: 2,
        planner_prompt_tokens: 70,
        planner_completion_tokens: 8,
        planner_cost_usd: None,
        ..Default::default()
    };
    let line = usage(&UsageSnapshot::from_stats(&stats), 1_000);

    assert_eq!(line["jev"]["requests"], stats.jev_requests);
    assert_eq!(line["jev"]["input_tokens"], stats.jev_input_tokens);
    assert_eq!(line["jev"]["cost_usd"], 0.0012);
    assert_eq!(line["llm"]["requests"], stats.llm_requests);
    assert_eq!(line["llm"]["prompt_tokens"], stats.llm_prompt_tokens);
    assert_eq!(line["llm"]["completion_tokens"], stats.llm_completion_tokens);
    assert_eq!(line["llm"]["cost_usd"], 0.0009);
    assert_eq!(line["llm"]["reasoning_tokens"], stats.llm_reasoning_tokens);
    assert_eq!(line["planner"]["requests"], stats.planner_requests);
    assert!(line["planner"].get("cost_usd").is_none());
}

#[test]
fn a_planner_that_never_ran_reports_zeroes_the_ui_can_hide() {
    let v = usage(&UsageSnapshot::default(), 0);
    assert_eq!(v["planner"]["requests"], 0);
    assert!(v["planner"].get("cost_usd").is_none());
}

#[test]
fn the_usage_interval_is_about_a_second() {
    assert_eq!(USAGE_INTERVAL_MS, 1_000);
}

#[test]
fn an_empty_query_is_rejected() {
    let body = check_query("  ").unwrap_err();
    assert!(body.contains("query must not be empty"), "{body}");
    assert_eq!(check_query("  who ").unwrap(), "who");
}

#[test]
fn download_of_an_unknown_run_is_a_404() {
    let store = RunStore::default();
    match download(&store, "nope", Some("json")) {
        Download::Refused(status, body) => {
            assert_eq!(status, 404);
            assert!(body.contains("nope"), "{body}");
        }
        other => panic!("{other:?}"),
    }
}

#[test]
fn download_of_an_unknown_format_is_a_400() {
    let store = RunStore::default();
    match download(&store, "nope", Some("pdf")) {
        Download::Refused(status, body) => {
            assert_eq!(status, 400);
            assert!(body.contains("pdf"), "{body}");
        }
        other => panic!("{other:?}"),
    }
}

#[test]
fn download_serves_a_stored_run_as_an_attachment() {
    let mut store = RunStore::default();
    store.insert(CompletedRun {
        id: "abc-1".into(),
        formats: vec![
            ("csv".to_string(), "a,b\n".to_string()),
            ("markdown".to_string(), "# hello".to_string()),
        ],
    });
    match download(&store, "abc-1", Some("csv")) {
        Download::Served(kind, disposition, body) => {
            assert_eq!(disposition, "attachment; filename=\"webscout-abc-1.csv\"");
            assert!(kind.starts_with("text/csv"));
            assert_eq!(body, "a,b\n");
        }
        other => panic!("{other:?}"),
    }
}

#[test]
fn download_defaults_to_markdown() {
    let mut store = RunStore::default();
    store.insert(CompletedRun {
        id: "abc-2".into(),
        formats: vec![("markdown".to_string(), "# hello".to_string())],
    });
    match download(&store, "abc-2", None) {
        Download::Served(_, _, body) => assert_eq!(body, "# hello"),
        other => panic!("{other:?}"),
    }
}

#[test]
fn a_run_that_could_not_be_rendered_in_a_format_says_so() {
    let mut store = RunStore::default();
    store.insert(run("abc-3"));
    match download(&store, "abc-3", Some("csv")) {
        Download::Refused(status, body) => {
            assert_eq!(status, 500);
            assert_eq!(body, "this run could not be rendered as csv");
        }
        other => panic!("{other:?}"),
    }
}

#[test]
fn a_multiline_message_stays_one_ndjson_line() {
    let ev = ProgressEvent {
        stage: "extract".into(),
        round: None,
        message: "line one\nline two".into(),
        counts: ProgressCounts::default(),
    };
    let line = progress_line(&ev);
    assert_eq!(line.matches('\n').count(), 1, "{line}");
}

#[test]
fn a_stream_begins_with_what_was_accepted() {
    let v: Value =
        serde_json::from_str(accepted_line("ff-1", "who", "1970-01-01T00:00:00Z").trim()).unwrap();
    assert_eq!(v["type"], "accepted");
    assert_eq!(v["run_id"], "ff-1");
    assert_eq!(v["query"], "who");
    assert_eq!(v["started_at"], "1970-01-01T00:00:00Z");
}

#[test]
fn a_failed_run_reports_what_it_spent_before_it_says_why() {
    let lines = closing_lines(
        &vec![ProgressEvent {
            stage: "search".into(),
            round: Some(2),
            message: "last words".into(),
            counts: ProgressCounts::default(),
        }],
        Ending::Failure {
            usage: sample_usage(),
            costs: costs(&sample_usage()),
            elapsed_ms: 42,
            message: "no luck".into(),
        },
    );
    assert_eq!(lines.len(), 3);
    assert!(lines[0].contains("last words"));
    assert_eq!(lines[1], usage_line(&sample_usage(), &costs(&sample_usage()), 42));
    let v: Value = serde_json::from_str(lines[2].trim()).unwrap();
    assert_eq!(v["type"], "error");
    assert_eq!(v["message"], "no luck");
    assert_eq!(error_json("x").to_text(), "{\"message\":\"x\",\"type\":\"error\"}");
}

#[test]
fn a_result_carries_the_document_and_the_numbers() {
    let line = result_line(
        Outcome::Partial,
        Format::Terminal,
        "# doc",
        Json::Object(vec![("rounds".to_string(), Json::Whole(3))]),
        Json::Object(Vec::new()),
    );
    let v: Value = serde_json::from_str(line.trim()).unwrap();
    assert_eq!(v["type"], "result");
    assert_eq!(v["outcome"], "partial");
    assert_eq!(v["format"], "markdown");
    assert_eq!(v["content"], "# doc");
    assert_eq!(v["stats"]["rounds"], 3);
    assert!(v["mission"].is_object());
}

fn server() -> Server {
    Server {
        engines: SearchEngines::Auto,
        thinking_control: ThinkingControl::Off,
        planner_thinking_control: ThinkingControl::Vllm,
        fetch_concurrency: 4,
        has_obscura: true,
        has_jina: true,
        has_jina_key: false,
        llm_model: "writer".into(),
        planner_model: "planner".into(),
    }
}

#[test]
fn a_request_that_says_nothing_runs_as_the_server_does() {
    let opts = RunOptions::from_map(&Vec::new()).unwrap();
    let plan = plan_scout(&opts, &server()).unwrap();
    assert_eq!(plan.fetch_concurrency, 4);
    assert_eq!(plan.lanes, vec![LaneId::Ddg]);
    assert_eq!(plan.backend, BackendKind::Obscura);
    assert_eq!(plan.search_cache_ttl, Some(21_600));
    assert_eq!(plan.thinking_control, ThinkingControl::Off);
    assert_eq!(plan.planner_thinking_control, ThinkingControl::Vllm);
    assert_eq!(plan.llm_model, "writer");
    assert_eq!(plan.planner_model, "planner");
}

#[test]
fn a_request_wins_over_the_server() {
    let text = |s: &str| OptionValue {
        json: format!("\"{s}\""),
        whole: None,
        number: None,
        flag: None,
        text: Some(s.to_string()),
    };
    let opts = RunOptions::from_map(&vec![
        ("llm_model".to_string(), text("mine")),
        ("search_engines".to_string(), text("jina")),
    ])
    .unwrap();
    assert!(plan_scout(&opts, &server()).is_err(), "there is no key for the pinned engine");
    let plan = plan_scout(&opts, &Server { has_jina_key: true, ..server() }).unwrap();
    assert_eq!(plan.llm_model, "mine");
    assert_eq!(plan.lanes, vec![LaneId::Jina]);
    assert_eq!(plan.backend, BackendKind::Jina);
}
