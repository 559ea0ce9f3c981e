use serde_json::Value;
use webscout::json::Json;
use webscout::mcp::{
    bearer, connection_info, constant_time_eq, handle_message, initialize, open_envelope,
    protocol_versions, rpc_error, Denial, Envelope, Incoming, Job, McpState, Settlement, Status,
    Tool, DEFAULT_ROW_LIMIT, MAX_JOBS, RECENT_PROGRESS,
};
use webscout::options::OptionType;
use webscout::output::markdown_body;
use webscout::replies::{
    at_capacity, cancel, cost_json, full_json, list_searches, lookup, options_refused, parse_wait, part_args,
    read_launch, read_reading, read_result, row_limit, shape, simple_text, started, status_json,
    tool_error, tool_json, tool_text, total_cost, FullParts, Reading,
};
use webscout::runs::{CostTexts, ProgressCounts, ProgressEvent};
use webscout::tools::{
    list_search_options, tool_definitions, ToolGroup, ToolOption, DEFAULT_WAIT_SECS, MAX_WAIT_SECS,
};
use webscout::types::{
    ConstraintVerdict, EntityBinding, Figure, Mission, MissionKind, Outcome, Passage, Real, Record,
    ScoutReport, Stats,
};
use webscout::usage::UsageSnapshot;

/// A value as the library holds it.
fn json(v: &Value) -> Json {
    match v {
        Value::Null => Json::Null,
        Value::Bool(b) => Json::Bool(*b),
        Value::Number(n) => match (n.as_u64(), n.as_i64()) {
            (Some(u), _) => Json::Whole(u),
            (None, Some(i)) => Json::Below(i),
            _ => Json::Real(Figure { bits: n.as_f64().unwrap().to_bits(), text: n.to_string() }),
        },
        Value::String(s) => Json::Text(s.clone()),
        Value::Array(a) => Json::List(a.iter().map(json).collect()),
        Value::Object(m) => Json::Object(m.iter().map(|(k, v)| (k.clone(), json(v))).collect()),
    }
}

fn read(text: &str) -> Json {
    json(&serde_json::from_str(text).unwrap())
}

fn value(j: &Json) -> Value {
    serde_json::from_str(&j.to_text()).unwrap()
}

fn option(name: &str, kind: OptionType, auto: bool, values: Option<Vec<&str>>) -> ToolOption {
    ToolOption {
        name: name.into(),
        label: format!("Label of {name}"),
        help: "Help.".into(),
        kind,
        min: None,
        max: None,
        values: values.map(|v| v.into_iter().map(str::to_string).collect()),
        value_labels: None,
        default: Json::Null,
        auto,
    }
}

fn groups() -> Vec<ToolGroup> {
    vec![
        ToolGroup {
            id: "basic".into(),
            options: vec![
                option(
                    "preset",
                    OptionType::Enum,
                    false,
                    Some(vec!["quick", "standard", "thorough"]),
                ),
                option("max_rounds", OptionType::Integer, true, None),
                option("format", OptionType::Enum, false, Some(vec!["markdown"])),
            ],
        },
        ToolGroup {
            id: "advanced".into(),
            options: vec![
                option("no_enrich", OptionType::Boolean, false, None),
                option("no_follow", OptionType::Boolean, false, None),
                option("no_search_cache", OptionType::Boolean, false, None),
            ],
        },
        ToolGroup {
            id: "expert".into(),
            options: vec![option("grounding_floor", OptionType::Number, false, None)],
        },
    ]
}

#[test]
fn constant_time_eq_compares_whole_values() {
    assert!(constant_time_eq(b"secret-token", b"secret-token"));
    assert!(!constant_time_eq(b"secret-token", b"secret-tokeN"));
    assert!(!constant_time_eq(b"secret", b"secret-token"));
}

#[test]
fn bearer_is_read_case_insensitively_and_trimmed() {
    assert_eq!(bearer(Some("Bearer abc")).as_deref(), Some("abc"));
    assert_eq!(bearer(Some("bearer  abc ")).as_deref(), Some("abc"));
    assert_eq!(bearer(Some("Basic abc")), None);
    assert_eq!(bearer(Some("Bearer ")), None);
    assert_eq!(bearer(None), None);
}

/// No token configured is a closed door, not an open one.
#[test]
fn an_unset_token_disables_the_endpoint() {
    let m = McpState::new(None, 4);
    assert!(!m.enabled());
    let err = m.check_auth(Some("Bearer anything")).unwrap();
    assert_eq!(err.status(), 503);
    let m = McpState::new(Some("   ".into()), 4);
    assert!(!m.enabled(), "a blank token is no token");
}

#[test]
fn a_wrong_or_missing_token_is_401_with_a_challenge() {
    let m = McpState::new(Some("right".into()), 4);
    for h in [None, Some("Bearer wrong")] {
        let err = m.check_auth(h).unwrap();
        assert_eq!(err.status(), 401);
        assert!(err.challenge().is_some());
    }
    assert!(m.check_auth(Some("Bearer right")).is_none());
}

#[test]
fn a_refusal_says_which_of_the_three_it_is() {
    assert_eq!(value(&Denial::Disabled.body())["error"], "mcp_disabled");
    assert!(Denial::Disabled.challenge().is_none());
    assert_eq!(value(&Denial::Missing.body())["error"], "invalid_request");
    assert_eq!(
        Denial::Invalid.challenge().unwrap(),
        "Bearer realm=\"webscout\", error=\"invalid_token\""
    );
}

#[test]
fn initialize_echoes_a_known_version_and_offers_the_newest_otherwise() {
    let r = value(&initialize(&read(r#"{"protocolVersion": "2025-03-26"}"#), "0.1.0"));
    assert_eq!(r["protocolVersion"], "2025-03-26");
    let r = value(&initialize(&read(r#"{"protocolVersion": "1999-01-01"}"#), "0.1.0"));
    assert_eq!(r["protocolVersion"], protocol_versions()[0]);
    assert_eq!(r["serverInfo"]["name"], "webscout");
    assert!(r["capabilities"]["tools"].is_object());
}

#[test]
fn every_tool_has_a_schema_description_and_annotations() {
    let tools: Vec<Value> = tool_definitions(&groups()).iter().map(value).collect();
    let names: Vec<&str> = tools.iter().map(|t| t["name"].as_str().unwrap()).collect();
    assert_eq!(
        names,
        [
            "search",
            "start_search",
            "get_search_result",
            "get_search_status",
            "cancel_search",
            "list_searches",
            "list_search_options"
        ]
    );
    for t in &tools {
        assert_eq!(t["inputSchema"]["type"], "object", "{}", t["name"]);
        assert!(t["description"].as_str().unwrap().len() > 40);
        assert!(t["annotations"].is_object());
    }
}

/// The common options are start_search arguments; `format` is not (it is chosen when
/// reading), and expert knobs go through `options`.
#[test]
fn start_search_lifts_the_ui_options_to_arguments() {
    let tools: Vec<Value> = tool_definitions(&groups()).iter().map(value).collect();
    let props = &tools[1]["inputSchema"]["properties"];
    assert_eq!(tools[1]["name"], "start_search");
    // `search` takes the same arguments plus how much detail to return.
    let search = &tools[0]["inputSchema"]["properties"];
    assert!(search.get("detail").is_some());
    assert!(search.get("preset").is_some());
    for name in [
        "query",
        "preset",
        "max_rounds",
        "no_enrich",
        "no_follow",
        "no_search_cache",
        "options",
    ] {
        assert!(props.get(name).is_some(), "missing {name}");
    }
    assert!(props.get("format").is_none());
    assert!(props.get("grounding_floor").is_none());
    let presets: Vec<&str> =
        props["preset"]["enum"].as_array().unwrap().iter().map(|v| v.as_str().unwrap()).collect();
    assert_eq!(presets, ["quick", "standard", "thorough"]);
    assert!(props["max_rounds"]["anyOf"].is_array());
}

fn double(x: f64) -> Real {
    Real { bits: x.to_bits() }
}

#[test]
fn total_cost_is_unknown_when_a_component_that_ran_did_not_report() {
    let mut u = UsageSnapshot { jev_cost_usd: double(0.002), ..Default::default() };
    u.llm.requests = 1;
    u.llm.cost_usd = Some(double(0.0005));
    let (a, b, c) = total_cost(&u).unwrap();
    let sum = f64::from_bits(a.bits) + f64::from_bits(b.bits) + f64::from_bits(c.bits);
    assert_eq!((sum * 1e6).round() / 1e6, 0.0025);
    u.planner.requests = 1;
    assert_eq!(total_cost(&u), None);
}

/// A list returns what was asked for, 50 when nothing was, all on 0.
#[test]
fn row_limit_follows_the_request() {
    let none = read("{}");
    assert_eq!(row_limit(&none, Some(8)), Some(8));
    assert_eq!(row_limit(&none, None), Some(DEFAULT_ROW_LIMIT as u64));
    assert_eq!(row_limit(&read(r#"{"limit": 0}"#), Some(8)), None);
    assert_eq!(row_limit(&read(r#"{"limit": 3}"#), Some(8)), Some(3));
    assert_eq!(row_limit(&read(r#"{"limit": "20"}"#), None), Some(20));
    assert_eq!(row_limit(&none, Some(0)), Some(1));
    assert_eq!(row_limit(&read(r#"{"limit": -2}"#), Some(8)), Some(8));
}

#[test]
fn wait_is_clamped_and_defaults() {
    let wait = |text: &str| {
        let written = read(text)
            .get("wait_seconds")
            .and_then(|v| v.as_str().map(|s| s.trim().parse::<f64>().ok()))
            .flatten()
            .map(double);
        parse_wait(&read(text), written)
    };
    assert_eq!(wait("{}"), DEFAULT_WAIT_SECS);
    assert_eq!(wait(r#"{"wait_seconds": 500}"#), MAX_WAIT_SECS);
    assert_eq!(wait(r#"{"wait_seconds": -3}"#), 0);
    assert_eq!(wait(r#"{"wait_seconds": "7"}"#), 7);
    assert_eq!(wait(r#"{"wait_seconds": 7.9}"#), 7);
    assert_eq!(wait(r#"{"wait_seconds": 15.5}"#), 15);
    assert_eq!(wait(r#"{"wait_seconds": -0.5}"#), 0);
    assert_eq!(wait(r#"{"wait_seconds": "nan"}"#), 0);
    assert_eq!(wait(r#"{"wait_seconds": "soon"}"#), DEFAULT_WAIT_SECS);
    for k in 0..16u64 {
        assert_eq!(wait(&format!("{{\"wait_seconds\": {k}.0}}")), k);
    }
}

fn job(id: &str) -> Job {
    Job::new(id.into(), format!("query of {id}"), Vec::new(), "1970-01-01T00:00:00Z".into())
}

fn ended(id: &str) -> Job {
    let mut j = job(id);
    j.settle(Settlement::Cancelled(UsageSnapshot::default()), 1);
    j
}

fn event(n: usize) -> ProgressEvent {
    ProgressEvent {
        stage: "search".into(),
        round: Some(n),
        message: format!("step {n}"),
        counts: ProgressCounts { pages: n, records: 2 * n },
    }
}

fn seconds() -> Figure {
    Figure { bits: 1.5f64.to_bits(), text: "1.5".into() }
}

#[test]
fn the_oldest_search_that_ended_is_forgotten_first() {
    let mut m = McpState::new(Some("t".into()), 0);
    assert_eq!(m.max_running, 1);
    m.insert(job("running"));
    for i in 0..MAX_JOBS + 3 {
        m.insert(ended(&format!("e{i}")));
    }
    assert_eq!(m.jobs.len(), MAX_JOBS);
    assert!(m.find("running").is_some());
    assert!(m.find("e0").is_none());
    assert!(m.find(&format!("e{}", MAX_JOBS + 2)).is_some());
    assert_eq!(m.running(), 1);
}

#[test]
fn a_server_full_of_running_searches_forgets_none() {
    let mut m = McpState::new(Some("t".into()), 4);
    for i in 0..MAX_JOBS + 2 {
        m.insert(job(&format!("r{i}")));
    }
    assert_eq!(m.jobs.len(), MAX_JOBS + 2);
}

#[test]
fn only_the_first_settlement_counts() {
    let mut j = job("a");
    assert!(j.settle(Settlement::Failed("boom".into(), UsageSnapshot::default()), 10));
    assert!(!j.settle(Settlement::Cancelled(UsageSnapshot::default()), 20));
    assert_eq!(j.status, Status::Failed);
    assert_eq!(j.elapsed(99), 10);
    assert_eq!(job("b").elapsed(99), 99);
}

#[test]
fn the_latest_progress_is_kept() {
    let mut j = job("a");
    for n in 0..RECENT_PROGRESS + 4 {
        j.record(n as u64, event(n));
    }
    assert_eq!(j.recent.len(), RECENT_PROGRESS);
    assert_eq!(j.recent[0], (4, "[search] round 4: step 4".to_string()));
    j.record(99, ProgressEvent { round: None, ..event(1) });
    assert_eq!(j.recent.last().unwrap().1, "[search] step 1");
}

#[test]
fn messages_are_answered_called_or_passed_over() {
    let reply = |text: &str| match handle_message(&read(text), "0.1.0", &groups()) {
        Incoming::Reply(j) => value(&j),
        other => panic!("{other:?}"),
    };
    let v = reply(r#"{"jsonrpc":"2.0","id":1,"method":"ping"}"#);
    assert_eq!(v.to_string(), r#"{"id":1,"jsonrpc":"2.0","result":{}}"#);
    assert_eq!(reply(r#"{"id":"x","method":"nope"}"#)["error"]["code"], -32601);
    assert_eq!(reply("[]")["error"]["code"], -32600);
    assert_eq!(reply(r#"{"id":1,"method":"tools/call"}"#)["error"]["code"], -32602);
    assert_eq!(
        reply(r#"{"id":1,"method":"tools/call","params":{"name":"fly"}}"#)["error"]["message"],
        "unknown tool: fly"
    );
    assert_eq!(
        reply(r#"{"id":1,"method":"tools/call","params":{"name":"search","arguments":3}}"#)
            ["error"]["message"],
        "arguments must be an object"
    );
    assert_eq!(
        reply(r#"{"id":1,"method":"tools/list"}"#)["result"]["tools"].as_array().unwrap().len(),
        7
    );
    assert_eq!(reply(r#"{"id":1,"method":"prompts/list"}"#)["result"]["prompts"], Value::Array(vec![]));
    assert!(matches!(
        handle_message(&read(r#"{"method":"notifications/initialized"}"#), "0.1.0", &groups()),
        Incoming::Silent
    ));
    assert!(matches!(
        handle_message(&read(r#"{"id":1,"result":{}}"#), "0.1.0", &groups()),
        Incoming::Silent
    ));
    match handle_message(
        &read(r#"{"id":7,"method":"tools/call","params":{"name":"cancel_search","arguments":null}}"#),
        "0.1.0",
        &groups(),
    ) {
        Incoming::Call(id, tool, args) => {
            assert_eq!(id.to_text(), "7");
            assert_eq!(tool, Tool::CancelSearch);
            assert_eq!(args.to_text(), "{}");
        }
        other => panic!("{other:?}"),
    }
}

#[test]
fn a_body_holds_one_message_or_several() {
    assert!(matches!(open_envelope(read("{}")), Envelope::Single(_)));
    assert!(matches!(open_envelope(read("[{},{}]")), Envelope::Batch(v) if v.len() == 2));
    match open_envelope(read("[]")) {
        Envelope::Empty(e) => assert_eq!(value(&e)["error"]["message"], "empty batch"),
        other => panic!("{other:?}"),
    }
    assert_eq!(
        rpc_error(Json::Null, -32700, "parse error").to_text(),
        r#"{"error":{"code":-32700,"message":"parse error"},"id":null,"jsonrpc":"2.0"}"#
    );
}

#[test]
fn results_carry_a_text_for_every_client() {
    assert_eq!(
        tool_error("no").to_text(),
        r#"{"content":[{"text":"no","type":"text"}],"isError":true}"#
    );
    assert_eq!(tool_text("yes").to_text(), r#"{"content":[{"text":"yes","type":"text"}]}"#);
    let v = value(&tool_json(read(r#"{"a":[1,{}],"b":[]}"#)));
    assert_eq!(
        v["content"][0]["text"],
        "{\n  \"a\": [\n    1,\n    {}\n  ],\n  \"b\": []\n}"
    );
    assert_eq!(v["structuredContent"]["a"][0], 1);
}

#[test]
fn options_come_from_the_arguments_and_from_the_bag() {
    let l = read_launch(&read(
        r#"{"max_rounds":" 12 ","no_plan":null,"options":{"concurrency":3,"preset":"quick"},"preset":"thorough","query":"  who  "}"#,
    ))
    .unwrap();
    assert_eq!(l.query, "who");
    assert_eq!(
        Json::Object(l.options).to_text(),
        r#"{"concurrency":3,"max_rounds":12,"preset":"thorough"}"#
    );
    assert_eq!(
        read_launch(&read(r#"{"query":"  "}"#)).unwrap_err(),
        "query is required and must not be empty."
    );
    assert_eq!(
        read_launch(&read(r#"{"query":"x","options":3}"#)).unwrap_err(),
        "options must be an object of option names to values."
    );
    assert_eq!(
        options_refused("unknown option \"x\"."),
        "unknown option \"x\". Call list_search_options for the full list."
    );
}

#[test]
fn no_more_searches_start_than_may_run() {
    let mut m = McpState::new(Some("t".into()), 1);
    assert!(at_capacity(&m).is_none());
    m.insert(job("a"));
    assert!(at_capacity(&m).unwrap().starts_with("1 searches are already running"));
}

#[test]
fn arguments_of_a_search_are_parted() {
    let args = match read(r#"{"detail":"full","limit":3,"preset":"quick","query":"x"}"#) {
        Json::Object(v) => v,
        _ => unreachable!(),
    };
    let (run, read_args) = part_args(&args);
    assert_eq!(run.to_text(), r#"{"preset":"quick","query":"x"}"#);
    assert_eq!(read_args.to_text(), r#"{"detail":"full","limit":3}"#);
}

#[test]
fn a_search_is_looked_up_by_its_id() {
    let mut m = McpState::new(Some("t".into()), 1);
    m.insert(job("a"));
    assert_eq!(lookup(&m, &read(r#"{"request_id":" a "}"#)).unwrap(), 0);
    let e = lookup(&m, &read(r#"{"request_id":"b"}"#)).unwrap_err();
    assert!(e.to_text().contains("No search with request_id \\\"b\\\""), "{}", e.to_text());
    let e = lookup(&m, &read("{}")).unwrap_err();
    assert!(e.to_text().contains("request_id is required."));
}

#[test]
fn cancelling_twice_cancels_once() {
    let mut j = job("a");
    let r = value(&cancel(&mut j, UsageSnapshot::default(), 5));
    assert_eq!(r["structuredContent"]["status"], "cancelled");
    let r = value(&cancel(&mut j, UsageSnapshot::default(), 9));
    assert_eq!(
        r["structuredContent"]["message"],
        "The search had already ended; nothing was cancelled."
    );
    assert_eq!(j.elapsed_ms, Some(5));
}

#[test]
fn searches_are_listed_newest_first() {
    let mut m = McpState::new(Some("t".into()), 1);
    m.insert(job("a"));
    m.insert(ended("b"));
    let v = value(&list_searches(&m, &vec![seconds(), seconds()]));
    let s = v["structuredContent"]["searches"].as_array().unwrap();
    assert_eq!(s[0]["request_id"], "b");
    assert_eq!(s[0]["status"], "cancelled");
    assert_eq!(s[1]["request_id"], "a");
    assert!(s[1]["outcome"].is_null());
    assert_eq!(s[1]["elapsed_seconds"], 1.5);
}

#[test]
fn the_options_are_listed_with_how_to_pass_them() {
    let v = value(&list_search_options(&groups()));
    let text = v["content"][0]["text"].as_str().unwrap();
    let v = &v["structuredContent"];
    assert_eq!(*v, serde_json::from_str::<Value>(text).unwrap());
    let g = v["groups"].as_array().unwrap();
    assert_eq!(g[2]["how_to_pass"], "inside start_search's `options` object");
    assert_eq!(g[0]["options"].as_array().unwrap().len(), 2, "the format is not listed");
    assert_eq!(g[0]["options"][1]["type"], "integer or \"auto\"");
    assert_eq!(g[1]["options"][0]["description"], "Label of no_enrich. Help.");
}

#[test]
fn connecting_is_explained_without_a_secret() {
    let m = McpState::new(Some("sesame".into()), 1);
    let text = connection_info(&m, &groups()).to_text();
    assert!(!text.contains("sesame"));
    let v: Value = serde_json::from_str(&text).unwrap();
    assert_eq!(v["enabled"], true);
    assert_eq!(v["path"], "/mcp");
    assert_eq!(v["tools"][0]["name"], "search");
    assert_eq!(v["tools"][0]["title"], "Search the web (verified)");
}

fn record(name: &str) -> Record {
    Record {
        fields: vec![("name".to_string(), name.to_string())],
        source_url: "https://a.example/".into(),
        source_title: None,
        grounding: Figure { bits: 0, text: "0.00".into() },
        provenance: Vec::new(),
        constraint_support: Figure { bits: 0, text: "0.00".into() },
        constraint_status: Vec::new(),
        entity_binding: EntityBinding::Unresolved,
    }
}

fn report(names: &[&str]) -> ScoutReport {
    ScoutReport {
        query: "q".into(),
        mission: Mission { kind: MissionKind::Harvest, ..Default::default() },
        outcome: Outcome::Empty,
        records: names.iter().map(|n| record(n)).collect(),
        answer: None,
        evidence: vec![Passage {
            url: "https://a.example/".into(),
            title: "A".into(),
            text: "t".into(),
            supports: Figure { bits: 0, text: "0.00".into() },
            injection: Figure { bits: 0, text: "0.00".into() },
            currency: Figure { bits: 0, text: "0.00".into() },
        }],
        sources: Vec::new(),
        quarantined_sources: Vec::new(),
        notes: vec!["note".into()],
        stats: Stats::default(),
    }
}

#[test]
fn complete_records_are_shown_first() {
    let mut found = report(&["a", "b", "c", "d"]);
    found.records[0].constraint_status = vec![ConstraintVerdict::NotAddressed];
    found.records[2].constraint_status = vec![ConstraintVerdict::Ambiguous];
    let s = shape(found, Some(3));
    let names: Vec<&str> = s.report.records.iter().map(|r| r.get("name")).collect();
    assert_eq!(names, ["b", "d", "a"]);
    assert_eq!((s.total, s.complete), (4, 2));
    let text = simple_text(&s);
    assert!(text.starts_with("| # | name |"), "{text}");
    assert!(text.contains("Showing 3 of 4 items found (2 complete"), "{text}");
    let s = shape(report(&["a", "b"]), None);
    assert_eq!(simple_text(&s), markdown_body(&s.report));
}

#[test]
fn an_empty_result_says_what_it_means() {
    let s = shape(report(&[]), None);
    assert_eq!(simple_text(&s), "Nothing verifiable was found.");
}

#[test]
fn a_full_result_has_everything() {
    let s = shape(report(&["a"]), None);
    let parts = FullParts {
        cost: read("{}"),
        mission: read("{}"),
        stats: read("{}"),
        records: read("[{}]"),
        elapsed: seconds(),
        supports: vec![Figure { bits: 0.5f64.to_bits(), text: "0.5".into() }],
    };
    let v = value(&full_json("id-1", &s, &parts));
    assert_eq!(v["request_id"], "id-1");
    assert_eq!(v["kind"], "harvest");
    assert_eq!(v["text"], markdown_body(&s.report));
    assert_eq!(v["records_total"], 1);
    assert_eq!(v["sources"][0]["n"], 1);
    assert_eq!(v["sources"][0]["supports"], 0.5);
    assert_eq!(v["downloads"]["csv"], "/api/runs/id-1/download?format=csv");
    assert!(v.get("answer").is_none());
}

#[test]
fn a_reading_call_reports_where_the_search_stands() {
    let simple = Reading { full: false, format: None };
    let mut j = job("a");
    let v = value(&read_result(&j, &simple, &seconds()).unwrap());
    assert_eq!(v["structuredContent"]["progress"], "starting");
    assert!(v["structuredContent"]["pages_read"].is_null());
    j.record(1, event(3));
    let v = value(&read_result(&j, &simple, &seconds()).unwrap());
    assert_eq!(v["structuredContent"]["progress"], "step 3");
    assert_eq!(v["structuredContent"]["items_found"], 6);
    j.settle(Settlement::Failed("boom".into(), UsageSnapshot::default()), 5);
    let text = read_result(&j, &simple, &seconds()).unwrap().to_text();
    assert!(text.contains("The search failed: boom"), "{text}");
    let text = read_result(&ended("b"), &simple, &seconds()).unwrap().to_text();
    assert!(text.contains("The search was cancelled; it has no result."));
    let mut j = job("c");
    j.settle(
        Settlement::Finished(report(&[]), vec![("csv".to_string(), "a,b\n".to_string())]),
        5,
    );
    assert!(read_result(&j, &simple, &seconds()).is_none());
    let csv = Reading { full: false, format: Some("csv".into()) };
    assert_eq!(value(&read_result(&j, &csv, &seconds()).unwrap())["content"][0]["text"], "a,b\n");
    let other = Reading { full: false, format: Some("json".into()) };
    let text = read_result(&j, &other, &seconds()).unwrap().to_text();
    assert!(text.contains("could not be rendered as json"));
}

#[test]
fn a_reading_that_makes_no_sense_is_refused() {
    let r = read_reading(&read("{}")).unwrap();
    assert!(!r.full && r.format.is_none());
    assert!(read_reading(&read(r#"{"detail":"full"}"#)).unwrap().full);
    assert_eq!(
        read_reading(&read(r#"{"detail":"all"}"#)).unwrap_err(),
        "detail must be \"simple\" or \"full\"."
    );
    assert_eq!(
        read_reading(&read(r#"{"format":"pdf"}"#)).unwrap_err(),
        "format must be one of markdown, json, csv, jsonl."
    );
}

#[test]
fn a_status_says_what_is_known() {
    let mut j = job("a");
    j.options = vec![("preset".to_string(), Json::Text("quick".into()))];
    j.record(2, event(1));
    let v = value(&status_json(&j, &seconds(), &None));
    assert_eq!(v["status"], "running");
    assert_eq!(v["stage"], "search");
    assert_eq!(v["round"], 1);
    assert_eq!(v["pages_read"], 1);
    assert_eq!(v["recent_progress"][0], "2s [search] round 1: step 1");
    assert_eq!(v["options"]["preset"], "quick");
    assert!(v["cost_so_far_usd"].is_null());
    j.settle(Settlement::Finished(report(&[]), Vec::new()), 5);
    let v = value(&status_json(&j, &seconds(), &Some(seconds())));
    assert_eq!(v["outcome"], "empty");
    assert_eq!(v["summary"], "nothing verifiable was found");
    assert_eq!(v["cost_so_far_usd"], 1.5);
    let v = value(&started(&job("z")));
    assert_eq!(v["structuredContent"]["request_id"], "z");
}

#[test]
fn spending_is_shown_by_component() {
    let mut u = UsageSnapshot { jev_requests: 2, jev_cost_usd: double(0.25), ..Default::default() };
    u.llm.requests = 3;
    let texts = CostTexts { jev: "0.25".into(), llm: "0.0".into(), planner: "0.0".into() };
    let total = Figure { bits: 0.25f64.to_bits(), text: "0.25".into() };
    let v: Value = serde_json::from_str(&cost_json(&u, &texts, &Some(total)).to_text()).unwrap();
    assert_eq!(v["jev"]["requests"], 2);
    assert_eq!(v["jev"]["cost_usd"], 0.25);
    assert_eq!(v["writer"]["requests"], 3);
    assert_eq!(v["planner"]["requests"], 0);
    assert_eq!(v["total_usd"], 0.25);
    let v: Value = serde_json::from_str(&cost_json(&u, &texts, &None).to_text()).unwrap();
    assert!(v["total_usd"].is_null());
}
