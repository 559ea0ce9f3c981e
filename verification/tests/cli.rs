use webscout::cli::{
    browser_need, check_query_args, commas, component_ms, component_of, default_log_level,
    exit_code, llm_extras, log_filter, parse_round_limit, per_call_ms, planner_thinking,
    profile_table, rank_stages, run_summary, summed_ms, total_cost_usd, wants_summary, BrowserNeed,
    Overrides, RoundLimit, RowTexts, SummaryTexts,
};
use webscout::config::{SearchEngines, Tunables};
use webscout::llm::ThinkingControl;
use webscout::types::{Figure, Mission, Outcome, Real, ScoutReport, StageTime, Stats};

fn figure(x: f64) -> Figure {
    Figure { bits: x.to_bits(), text: format!("{x:.4}") }
}

fn value(r: Real) -> f64 {
    f64::from_bits(r.bits)
}

fn total(st: &Stats) -> Option<f64> {
    total_cost_usd(st).map(|(a, b, c)| value(a) + value(b) + value(c))
}

fn texts(st: &Stats) -> SummaryTexts {
    let part = |name: &str| format!("{:.1}", component_ms(&st.stage_ms, name) as f64 / 1000.0);
    SummaryTexts {
        total: total(st).map(|t| format!("{t:.4}")).unwrap_or_default(),
        browser: part("browser"),
        jev: part("jev"),
        llm: part("llm"),
        other: part("other"),
    }
}

fn report(stats: Stats) -> ScoutReport {
    ScoutReport {
        query: "q".into(),
        mission: Mission::default(),
        outcome: Outcome::Empty,
        records: Vec::new(),
        answer: None,
        evidence: Vec::new(),
        sources: Vec::new(),
        quarantined_sources: Vec::new(),
        notes: Vec::new(),
        stats,
    }
}

#[test]
fn max_rounds_takes_a_number_or_auto() {
    assert_eq!(parse_round_limit("auto"), Ok(RoundLimit::Auto));
    assert_eq!(parse_round_limit(" AUTO "), Ok(RoundLimit::Auto));
    assert_eq!(parse_round_limit("40"), Ok(RoundLimit::Fixed(40)));
    assert!(parse_round_limit("0").is_err(), "zero is not a way to say auto");
    assert!(parse_round_limit("lots").is_err());
    assert!(parse_round_limit("-3").is_err());
}

#[test]
fn a_round_limit_that_is_none_says_what_was_given() {
    assert_eq!(
        parse_round_limit(" lots "),
        Err("`lots` is not a number of rounds or `auto`".to_string())
    );
    assert_eq!(parse_round_limit("0"), Err("must be at least 1, or `auto`".to_string()));
    assert_eq!(parse_round_limit("+5"), Ok(RoundLimit::Fixed(5)));
    assert!(parse_round_limit("99999999999999999999").is_err());
}

#[test]
fn api_mode_is_not_silent_by_default() {
    assert_eq!(default_log_level(false, 0), "warn");
    assert_eq!(default_log_level(true, 0), "info");
    // -v and beyond mean the same thing in both modes.
    assert_eq!(default_log_level(true, 2), "debug");
    assert_eq!(default_log_level(false, 2), "debug");
    assert_eq!(default_log_level(false, 9), "trace");
}

#[test]
fn a_query_without_api_is_fine() {
    assert!(check_query_args(false, &["who".into(), "is".into()]).is_ok());
}

#[test]
fn api_without_a_query_is_fine() {
    assert!(check_query_args(true, &[]).is_ok());
}

#[test]
fn api_plus_a_query_names_the_conflict() {
    let err = check_query_args(true, &["who".into()]).unwrap_err().to_string();
    assert!(err.contains("--api"), "{err}");
    assert!(err.contains("conflicts"), "{err}");
    assert!(err.contains("query"), "{err}");
}

#[test]
fn neither_a_query_nor_api_is_an_error_that_suggests_both() {
    let err = check_query_args(false, &[]).unwrap_err().to_string();
    assert!(err.contains("no query"), "{err}");
    assert!(err.contains("--api"), "{err}");
}

#[test]
fn commas_group_thousands() {
    assert_eq!(commas(0), "0");
    assert_eq!(commas(999), "999");
    assert_eq!(commas(1_000), "1,000");
    assert_eq!(commas(1_234_567), "1,234,567");
}

#[test]
fn llm_extras_says_nothing_when_there_is_nothing_to_say() {
    // A plain vLLM endpoint that did no thinking: no dollars, no reasoning.
    assert_eq!(llm_extras(&None, 0), "");
}

#[test]
fn llm_extras_prints_a_reported_cost_to_four_decimals() {
    assert_eq!(llm_extras(&Some(figure(0.00218)), 0), "   $0.0022");
    // A free model that reported its freeness is not the same as silence.
    assert_eq!(llm_extras(&Some(figure(0.0)), 0), "   $0.0000");
}

#[test]
fn llm_extras_surfaces_reasoning_tokens_with_separators() {
    assert_eq!(llm_extras(&None, 7_713), "   (7,713 reasoning)");
    assert_eq!(llm_extras(&Some(figure(0.01)), 7_713), "   $0.0100   (7,713 reasoning)");
}

#[test]
fn total_cost_adds_every_component_that_reported_one() {
    let st = Stats {
        jev_cost_usd: figure(0.0037),
        llm_requests: 3,
        llm_cost_usd: Some(figure(0.0021)),
        planner_requests: 1,
        planner_cost_usd: Some(figure(0.0104)),
        ..Default::default()
    };
    let total = total(&st).expect("all three reported");
    assert!((total - 0.0162).abs() < 1e-9, "{total}");
}

#[test]
fn total_cost_is_unknown_when_an_endpoint_that_ran_stayed_quiet() {
    let st = Stats {
        jev_cost_usd: figure(0.0037),
        llm_requests: 3,
        llm_cost_usd: None,
        ..Default::default()
    };
    assert_eq!(total_cost_usd(&st), None, "a partial total would be read as a total");
}

#[test]
fn a_component_that_never_ran_does_not_make_the_total_unknown() {
    let st = Stats {
        jev_cost_usd: figure(0.0037),
        llm_requests: 3,
        llm_cost_usd: Some(figure(0.0021)),
        planner_requests: 0,
        planner_cost_usd: None,
        ..Default::default()
    };
    let total = total(&st).expect("the planner spent nothing");
    assert!((total - 0.0058).abs() < 1e-9, "{total}");
}

#[test]
fn the_run_summary_shows_cost_and_reasoning() {
    let st = Stats {
        jev_cost_usd: figure(0.0037),
        llm_requests: 3,
        llm_cost_usd: Some(figure(0.0021)),
        llm_reasoning_tokens: 7_713,
        ..Default::default()
    };
    let t = texts(&st);
    let s = run_summary(&report(st), &t);
    assert!(s.contains("$0.0021"), "{s}");
    assert!(s.contains("(7,713 reasoning)"), "{s}");
    assert!(s.contains("$0.0058 total"), "{s}");
}

#[test]
fn the_run_summary_omits_a_cost_no_endpoint_reported() {
    let st = Stats { llm_requests: 3, ..Default::default() };
    let t = texts(&st);
    let s = run_summary(&report(st), &t);
    assert!(!s.contains("total"), "{s}");
    assert!(!s.contains("reasoning"), "{s}");
}

#[test]
fn stages_land_in_the_right_column() {
    assert_eq!(component_of("3 search"), "browser");
    assert_eq!(component_of("6 ground"), "jev");
    assert_eq!(component_of("10 synthesize"), "llm");
    assert_eq!(component_of("something new"), "other");
}

#[test]
fn a_whole_summary_is_laid_out_in_columns() {
    let st = Stats {
        rounds: 1,
        queries_issued: 5,
        pages_fetched: 12,
        chunks_examined: 30,
        jev_requests: 7,
        jev_input_tokens: 12_345,
        jev_cost_usd: figure(0.5),
        llm_requests: 12,
        llm_prompt_tokens: 1_000,
        llm_completion_tokens: 2_000_000,
        llm_cost_usd: Some(figure(0.25)),
        planner_requests: 2,
        planner_prompt_tokens: 10,
        planner_completion_tokens: 20,
        planner_cost_usd: Some(figure(0.25)),
        quarantined: 1,
        unsupported_claims: 2,
        claims_checked: 9,
        elapsed_secs: Figure { bits: 12.5f64.to_bits(), text: "12.5".into() },
        stage_ms: vec![
            ("1 search".into(), StageTime { ms: 2_000, calls: 2 }),
            ("2 odd".into(), StageTime { ms: 51, calls: 1 }),
        ],
        ..Default::default()
    };
    let t = texts(&st);
    let s = run_summary(&report(st), &t);
    let expected = [
        "",
        "  ── run summary ──────────────────────────────────────────────",
        "  Jev       7 requests      12,345 input tokens   $0.5000",
        "  LLM      12 requests       1,000 prompt + 2,000,000 completion   $0.2500",
        "  Planner   2 requests          10 prompt + 20 completion   $0.2500",
        "  Cost    $1.0000 total",
        "  Time    12.5s wall   (browser 2.0s · jev 0.0s · llm 0.0s)",
        "                                         unattributed 0.1s",
        "  Work    1 round · 5 queries · 12 pages · 30 chunks",
        "  Guards  1 passage(s) quarantined · 0 ungrounded record(s) rejected · 2 of 9 answer claim(s) unsupported",
        "  ─────────────────────────────────────────────────────────────",
        "",
    ];
    assert_eq!(s, expected.join("\n"));
}

#[test]
fn fifty_milliseconds_are_not_worth_a_line() {
    let st = Stats {
        stage_ms: vec![("2 odd".into(), StageTime { ms: 50, calls: 1 })],
        ..Default::default()
    };
    let t = texts(&st);
    let s = run_summary(&report(st), &t);
    assert!(!s.contains("unattributed"), "{s}");
}

#[test]
fn the_profile_ranks_stages_by_time() {
    let stages = vec![
        ("a".to_string(), StageTime { ms: 10, calls: 3 }),
        ("b".to_string(), StageTime { ms: 2_000, calls: 4 }),
        ("c".to_string(), StageTime { ms: 10, calls: 0 }),
    ];
    assert_eq!(rank_stages(&stages), vec![1, 0, 2]);
    assert_eq!(summed_ms(&stages), 2_020);
    assert_eq!(per_call_ms(&stages[0].1), 3);
    assert_eq!(per_call_ms(&stages[2].1), 0);
    let rows = stages
        .iter()
        .map(|(_, t)| RowTexts {
            seconds: format!("{:.1}", t.ms as f64 / 1000.0),
            percent: format!("{:.0}", 100.0 * t.ms as f64 / 4_000.0),
            per_call: format!("{:.1}", per_call_ms(t) as f64 / 1000.0),
        })
        .collect();
    let st = Stats { stage_ms: stages, ..Default::default() };
    let s = profile_table(&report(st), &rows, "2.0", "4.0");
    let line = "────────────────────────────────────────────────────────────";
    let mut expected =
        format!("\n  stage                    time      share   calls   per call\n  {line}\n");
    for (name, secs, pct, calls, per) in
        [("b", 2.0, 50.0, 4, 0.5), ("a", 0.0, 0.0, 3, 0.0), ("c", 0.0, 0.0, 0, 0.0)]
    {
        expected.push_str(&format!(
            "  {:<22} {:>7.1}s  {:>5.0}%  {:>6}  {:>7.1}s\n",
            name, secs, pct, calls, per
        ));
    }
    expected.push_str(&format!(
        "  {line}\n  {:<22} {:>7.1}s          (sum of stages)\n  {:<22} {:>7.1}s\n  \
         note: concurrent stages sum above wall clock; a stage total\n  \
         above wall clock is overlap, not dominance.\n\n",
        "overlapped work", 2.0, "wall clock", 4.0
    ));
    assert_eq!(s, expected);
}

fn nothing() -> Overrides {
    Overrides {
        thorough: false,
        quick: false,
        max_rounds: None,
        max_barren_rounds: None,
        queries_per_round: None,
        results_per_query: None,
        read_per_query: None,
        concurrency: None,
        max_questions_per_request: None,
        grounding_floor: None,
        enrich_batch: None,
        no_plan: false,
        no_search_cache: false,
        search_cache_ttl: None,
    }
}

#[test]
fn flags_change_what_they_name_and_nothing_else() {
    assert_eq!(nothing().tunables(), Tunables::default());
    let t = Overrides { thorough: true, ..nothing() }.tunables();
    assert_eq!(t, Tunables::thorough());
    let t = Overrides {
        quick: true,
        max_rounds: Some(RoundLimit::Fixed(7)),
        grounding_floor: Some(Real { bits: 0.9f64.to_bits() }),
        no_plan: true,
        no_search_cache: true,
        search_cache_ttl: Some(60),
        enrich_batch: Some(3),
        ..nothing()
    }
    .tunables();
    assert_eq!(t.max_rounds, 7);
    assert!(!t.auto_rounds);
    assert_eq!(t.grounding_floor, Real { bits: 0.9f64.to_bits() });
    assert!(!t.research_plan && !t.search_cache);
    assert_eq!(t.search_cache_ttl, 60);
    assert_eq!(t.enrich_batch, 3);
    assert_eq!(t.queries_per_round, Tunables::quick().queries_per_round);
}

#[test]
fn auto_keeps_the_ceiling_of_the_preset() {
    let t = Overrides { thorough: true, max_rounds: Some(RoundLimit::Auto), ..nothing() }.tunables();
    assert!(t.auto_rounds);
    assert_eq!(t.max_rounds, Tunables::thorough().max_rounds);
}

#[test]
fn the_browser_is_needed_only_where_something_uses_it() {
    assert_eq!(browser_need(false, SearchEngines::Jina), BrowserNeed::Required);
    assert_eq!(browser_need(true, SearchEngines::Auto), BrowserNeed::Optional);
    assert_eq!(browser_need(true, SearchEngines::Jina), BrowserNeed::Unused);
}

#[test]
fn the_planner_thinks_as_the_writer_does_unless_told_otherwise() {
    assert_eq!(planner_thinking(None, ThinkingControl::Vllm), ThinkingControl::Vllm);
    assert_eq!(
        planner_thinking(Some(ThinkingControl::Off), ThinkingControl::Vllm),
        ThinkingControl::Off
    );
}

#[test]
fn finding_nothing_is_not_a_failure() {
    for o in [Outcome::Complete, Outcome::Partial, Outcome::Truncated, Outcome::Empty] {
        assert_eq!(exit_code(o), 0);
    }
}

#[test]
fn the_browser_logs_only_when_everything_is_traced() {
    assert_eq!(log_filter(None, true, 0), "webscout=info");
    assert_eq!(log_filter(None, false, 3), "webscout=trace,obscura=debug");
    assert_eq!(log_filter(Some("off"), true, 3), "webscout=off");
}

#[test]
fn a_run_says_what_it_cost_when_it_was_asked_to_talk() {
    assert!(wants_summary(1, None));
    assert!(wants_summary(0, Some("info")));
    assert!(!wants_summary(0, Some("warn")));
    assert!(!wants_summary(0, None));
}
