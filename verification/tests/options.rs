use serde_json::Value;
use webscout::config::{default_fetch_concurrency, SearchEngines, Tunables};
use webscout::llm::ThinkingControl;
use webscout::options::{
    catalogue, format_names, parse_engines, preset_names, spec_index, Bound, OptionSpec,
    OptionType, OptionValue, Preset, RunOptions, Setting,
};
use webscout::output::Format;
use webscout::types::{Figure, Real};

/// A value as a request carries it.
fn value(v: Value) -> OptionValue {
    OptionValue {
        json: v.to_string(),
        whole: v.as_u64(),
        number: v.as_f64().map(|n| Figure { bits: n.to_bits(), text: format!("{n}") }),
        flag: v.as_bool(),
        text: v.as_str().map(str::to_string),
    }
}

fn whole(n: u64) -> OptionValue {
    value(Value::from(n))
}

fn number(n: f64) -> OptionValue {
    value(Value::from(n))
}

fn flag(b: bool) -> OptionValue {
    value(Value::from(b))
}

fn text(s: &str) -> OptionValue {
    value(Value::from(s))
}

fn opts(pairs: Vec<(&str, OptionValue)>) -> Vec<(String, OptionValue)> {
    pairs.into_iter().map(|(k, v)| (k.to_string(), v)).collect()
}

fn fetch() -> usize {
    default_fetch_concurrency(Some(8))
}

fn default_of(s: &Setting) -> OptionValue {
    match s {
        Setting::Whole(n) => whole(*n),
        Setting::Number(x) => number(f64::from_bits(x.bits)),
        Setting::Flag(b) => flag(*b),
        Setting::Text(t) => text(t),
    }
}

fn find<'a>(index: &'a [OptionSpec], name: &str) -> &'a OptionSpec {
    index.iter().find(|o| o.name == name).unwrap()
}

#[test]
fn presets_round_trip() {
    for name in preset_names() {
        let p = Preset::parse(name).expect(name);
        assert_eq!(p.as_str(), name);
    }
    assert!(Preset::parse("blazing").is_none());
}

#[test]
fn preset_tunables_match_the_config_functions() {
    assert_eq!(Preset::Quick.tunables().max_rounds, Tunables::quick().max_rounds);
    assert_eq!(Preset::Thorough.tunables().max_rounds, Tunables::thorough().max_rounds);
    assert_eq!(Preset::Standard.tunables().max_rounds, Tunables::default().max_rounds);
}

const SPEC_BASIC: [&str; 4] = ["preset", "max_rounds", "format", "search_engines"];
const SPEC_ADVANCED: [&str; 27] = [
    "queries_per_round",
    "results_per_query",
    "read_per_query",
    "max_barren_rounds",
    "fetch_concurrency",
    "concurrency",
    "max_questions_per_request",
    "grounding_floor",
    "constraint_floor",
    "claim_floor",
    "currency_floor",
    "query_gate_floor",
    "follow_floor",
    "select_confidence",
    "enrich_batch",
    "enrich_read",
    "max_follow_per_page",
    "no_plan",
    "no_enrich",
    "no_follow",
    "no_auto",
    "no_search_cache",
    "search_cache_ttl",
    "llm_model",
    "planner_model",
    "thinking_control",
    "planner_thinking_control",
];

#[test]
fn catalogue_has_the_two_contract_groups() {
    let groups = catalogue(fetch());
    let ids: Vec<&str> = groups.iter().map(|g| g.id).collect();
    assert_eq!(ids, vec!["basic", "advanced"]);
}

#[test]
fn every_contract_option_is_present_in_its_group() {
    let groups = catalogue(fetch());
    let basic: Vec<&str> = groups[0].options.iter().map(|o| o.name).collect();
    let advanced: Vec<&str> = groups[1].options.iter().map(|o| o.name).collect();
    for name in SPEC_BASIC {
        assert!(basic.contains(&name), "basic group is missing {name}");
    }
    for name in SPEC_ADVANCED {
        assert!(advanced.contains(&name), "advanced group is missing {name}");
    }
}

#[test]
fn every_option_carries_a_non_empty_help() {
    for group in catalogue(fetch()) {
        for opt in group.options {
            assert!(!opt.help.trim().is_empty(), "option {} has no help", opt.name);
            assert!(!opt.label.trim().is_empty(), "option {} has no label", opt.name);
        }
    }
}

#[test]
fn enum_options_declare_their_values_and_default_to_one() {
    for group in catalogue(fetch()) {
        for opt in group.options {
            if opt.kind != OptionType::Enum {
                assert!(opt.values.is_none(), "{} should not list values", opt.name);
                continue;
            }
            let values = opt.values.clone().unwrap_or_default();
            assert!(!values.is_empty(), "{} lists no values", opt.name);
            let default = match opt.default {
                Setting::Text(t) => t,
                _ => "",
            };
            assert!(
                values.contains(&default),
                "{} defaults to {default}, which is not one of its values",
                opt.name
            );
        }
    }
}

fn bound_number(b: &Option<Bound>) -> f64 {
    match b {
        Some(Bound::Whole(n)) => *n as f64,
        Some(Bound::Number(x, _)) => f64::from_bits(x.bits),
        None => panic!("no bound"),
    }
}

#[test]
fn numeric_options_declare_a_sane_range_containing_their_default() {
    for group in catalogue(fetch()) {
        for opt in group.options {
            match opt.kind {
                OptionType::Integer | OptionType::Number => {}
                _ => {
                    assert!(opt.min.is_none() && opt.max.is_none(), "{}", opt.name);
                    continue;
                }
            }
            let min = bound_number(&opt.min);
            let max = bound_number(&opt.max);
            let default = match opt.default {
                Setting::Whole(n) => n as f64,
                Setting::Number(x) => f64::from_bits(x.bits),
                _ => panic!("{} has no number as its default", opt.name),
            };
            assert!(min <= max, "{} has min above max", opt.name);
            assert!(
                (min..=max).contains(&default),
                "{} defaults to {default}, outside {min}..={max}",
                opt.name
            );
        }
    }
}

#[test]
fn defaults_are_read_from_tunables_not_copied() {
    let index = spec_index(fetch());
    let d = Tunables::default();
    assert!(
        matches!(find(&index, "max_rounds").default, Setting::Whole(n) if n == d.max_rounds as u64)
    );
    assert!(
        matches!(find(&index, "grounding_floor").default, Setting::Number(x) if x == d.grounding_floor)
    );
    assert!(
        matches!(find(&index, "enrich_batch").default, Setting::Whole(n) if n == d.enrich_batch as u64)
    );
    assert!(
        matches!(find(&index, "search_cache_ttl").default, Setting::Whole(n) if n == d.search_cache_ttl)
    );
}

#[test]
fn no_option_names_a_credential_or_an_endpoint() {
    for group in catalogue(fetch()) {
        for opt in group.options {
            let n = opt.name;
            assert!(!n.contains("key"), "{n} looks like a credential");
            assert!(!n.contains("endpoint"), "{n} looks like an endpoint");
            assert!(!n.contains("bin"), "{n} looks like a binary path");
        }
    }
}

#[test]
fn empty_options_yield_the_standard_preset() {
    let o = RunOptions::from_map(&Vec::new()).unwrap();
    assert_eq!(o.preset, Preset::Standard);
    assert_eq!(o.tune.max_rounds, Tunables::default().max_rounds);
    assert_eq!(o.format, Format::Markdown);
    assert!(o.auto && o.follow && o.enrich);
}

#[test]
fn every_catalogue_option_is_applied() {
    for group in catalogue(fetch()) {
        for opt in group.options {
            let m = opts(vec![(opt.name, default_of(&opt.default))]);
            RunOptions::from_map(&m)
                .unwrap_or_else(|e| panic!("option {} was rejected: {e}", opt.name));
        }
    }
}

#[test]
fn preset_is_applied_before_overrides_whatever_the_key_order() {
    let o = RunOptions::from_map(&opts(vec![
        ("max_rounds", whole(7)),
        ("preset", text("thorough")),
    ]))
    .unwrap();
    assert_eq!(o.preset, Preset::Thorough);
    assert_eq!(o.tune.max_rounds, 7);
    // Everything the override did not name still comes from the preset.
    assert_eq!(o.tune.queries_per_round, Tunables::thorough().queries_per_round);
}

#[test]
fn unknown_option_is_named_in_the_error() {
    let err = RunOptions::from_map(&opts(vec![("max_roundz", whole(3))])).unwrap_err();
    assert!(err.contains("max_roundz"), "{err}");
    assert!(err.contains("unknown option"), "{err}");
}

#[test]
fn credentials_endpoints_and_binaries_are_rejected_as_unknown() {
    let err = RunOptions::from_map(&opts(vec![
        ("llm_key", text("sk-secret")),
        ("typesafe_endpoint", text("https://evil.example/v1")),
        ("obscura_bin", text("/tmp/pwn")),
    ]))
    .unwrap_err();
    assert!(err.contains("llm_key"), "{err}");
    assert!(err.contains("typesafe_endpoint"), "{err}");
    assert!(err.contains("obscura_bin"), "{err}");
    // And nothing leaked a value back.
    assert!(!err.contains("sk-secret"), "{err}");
}

#[test]
fn credentials_in_the_request_body_are_a_400() {
    let body = r#"{"query":"who is the CEO of Vodafone","options":{
                     "llm_key":"sk-secret",
                     "typesafe_endpoint":"https://evil.example/v1",
                     "obscura_bin":"/tmp/pwn"}}"#;
    let req: Value = serde_json::from_str(body).unwrap();
    let given: Vec<(String, OptionValue)> = req["options"]
        .as_object()
        .unwrap()
        .iter()
        .map(|(k, v)| (k.clone(), value(v.clone())))
        .collect();
    let err = RunOptions::from_map(&given).unwrap_err();
    assert!(err.contains("llm_key"), "{err}");
    assert!(err.contains("typesafe_endpoint"), "{err}");
    assert!(err.contains("obscura_bin"), "{err}");
    assert!(!err.contains("sk-secret"), "{err}");
}

#[test]
fn several_unknown_options_are_all_named() {
    let err = RunOptions::from_map(&opts(vec![("zzz", whole(1)), ("aaa", whole(1))])).unwrap_err();
    assert!(err.contains("aaa") && err.contains("zzz"), "{err}");
}

#[test]
fn wrong_type_is_rejected_by_name() {
    let err = RunOptions::from_map(&opts(vec![("max_rounds", text("lots"))])).unwrap_err();
    assert!(err.contains("max_rounds"), "{err}");
    assert!(err.contains("whole number"), "{err}");
}

#[test]
fn a_float_is_not_a_whole_number() {
    assert!(RunOptions::from_map(&opts(vec![("max_rounds", number(3.5))])).is_err());
}

#[test]
fn a_boolean_is_not_a_number() {
    assert!(RunOptions::from_map(&opts(vec![("grounding_floor", flag(true))])).is_err());
}

#[test]
fn a_number_is_not_a_boolean() {
    assert!(RunOptions::from_map(&opts(vec![("no_plan", whole(1))])).is_err());
}

#[test]
fn out_of_range_names_the_bound_and_is_not_clamped() {
    let err = RunOptions::from_map(&opts(vec![("max_rounds", whole(9999))])).unwrap_err();
    assert!(err.contains("max_rounds"), "{err}");
    assert!(err.contains("200"), "{err}");
    let err = RunOptions::from_map(&opts(vec![("grounding_floor", number(1.5))])).unwrap_err();
    assert!(err.contains("between 0 and 1"), "{err}");
}

#[test]
fn an_out_of_range_option_is_a_400_naming_the_bound() {
    let req: Value =
        serde_json::from_str(r#"{"query":"x","options":{"max_rounds":9999}}"#).unwrap();
    let given = opts(vec![("max_rounds", value(req["options"]["max_rounds"].clone()))]);
    let body = RunOptions::from_map(&given).unwrap_err();
    assert!(body.contains("max_rounds") && body.contains("200"), "{body}");
}

#[test]
fn zero_is_below_the_floor_for_a_count() {
    assert!(RunOptions::from_map(&opts(vec![("max_rounds", whole(0))])).is_err());
    // But a link cap of zero is a legitimate "follow nothing".
    assert!(RunOptions::from_map(&opts(vec![("max_follow_per_page", whole(0))])).is_ok());
}

#[test]
fn negative_values_are_rejected() {
    assert!(RunOptions::from_map(&opts(vec![("max_rounds", value(Value::from(-1)))])).is_err());
    assert!(RunOptions::from_map(&opts(vec![("grounding_floor", number(-0.1))])).is_err());
}

#[test]
fn unknown_enum_value_lists_the_allowed_ones() {
    let err = RunOptions::from_map(&opts(vec![("search_engines", text("bing"))])).unwrap_err();
    assert!(err.contains("bing"), "{err}");
    assert!(err.contains("ddg") && err.contains("jina"), "{err}");
}

#[test]
fn terminal_is_not_an_offered_format() {
    assert!(RunOptions::from_map(&opts(vec![("format", text("terminal"))])).is_err());
}

#[test]
fn negation_options_invert_the_flag() {
    let o = RunOptions::from_map(&opts(vec![
        ("no_auto", flag(true)),
        ("no_follow", flag(true)),
        ("no_enrich", flag(true)),
        ("no_plan", flag(true)),
        ("no_search_cache", flag(true)),
    ]))
    .unwrap();
    assert!(!o.auto && !o.follow && !o.enrich);
    assert!(!o.tune.research_plan);
    assert!(!o.tune.search_cache);
}

#[test]
fn model_names_are_accepted_and_blank_means_server_default() {
    let o = RunOptions::from_map(&opts(vec![
        ("llm_model", text("google/gemma-4-31b-it")),
        ("planner_model", text("   ")),
    ]))
    .unwrap();
    assert_eq!(o.llm_model.as_deref(), Some("google/gemma-4-31b-it"));
    assert_eq!(o.planner_model, None);
}

#[test]
fn thinking_controls_parse_through_the_same_value_enum_as_the_flag() {
    let o = RunOptions::from_map(&opts(vec![
        ("thinking_control", text("vllm")),
        ("planner_thinking_control", text("off")),
    ]))
    .unwrap();
    assert_eq!(o.thinking_control, Some(ThinkingControl::Vllm));
    assert_eq!(o.planner_thinking_control, Some(ThinkingControl::Off));
}

#[test]
fn engines_and_format_parse_to_their_enums() {
    let o = RunOptions::from_map(&opts(vec![
        ("search_engines", text("ddg")),
        ("format", text("csv")),
    ]))
    .unwrap();
    assert_eq!(o.engines, SearchEngines::Ddg);
    assert_eq!(o.format, Format::Csv);
}

#[test]
fn fetch_concurrency_falls_back_to_the_servers_choice() {
    let o = RunOptions::from_map(&Vec::new()).unwrap();
    assert_eq!(o.fetch_concurrency, None);
    let o = RunOptions::from_map(&opts(vec![("fetch_concurrency", whole(3))])).unwrap();
    assert_eq!(o.fetch_concurrency, Some(3));
    // The advertised default is still the number this process would use.
    let index = spec_index(fetch());
    assert!(
        matches!(find(&index, "fetch_concurrency").default, Setting::Whole(n) if n == fetch() as u64)
    );
}

#[test]
fn search_cache_ttl_becomes_a_duration() {
    let o = RunOptions::from_map(&opts(vec![("search_cache_ttl", whole(60))])).unwrap();
    assert_eq!(o.tune.search_cache_ttl, 60);
}

#[test]
fn engine_names_read_as_engines() {
    assert_eq!(parse_engines("auto"), Some(SearchEngines::Auto));
    assert_eq!(parse_engines("ddg"), Some(SearchEngines::Ddg));
    assert_eq!(parse_engines("jina"), Some(SearchEngines::Jina));
    assert_eq!(parse_engines("bing"), None);
}

#[test]
fn the_formats_on_offer_are_the_documents() {
    assert_eq!(format_names(), vec!["markdown", "json", "csv", "jsonl"]);
}

#[test]
fn a_share_at_either_end_of_its_range_is_accepted() {
    for n in [0.0, 1.0] {
        let o = RunOptions::from_map(&opts(vec![("grounding_floor", number(n))])).unwrap();
        assert_eq!(o.tune.grounding_floor, Real { bits: n.to_bits() });
    }
}

#[test]
fn the_complaint_about_a_range_gives_both_ends_and_the_value() {
    let err = RunOptions::from_map(&opts(vec![("grounding_floor", number(1.5))])).unwrap_err();
    assert!(err.contains("grounding_floor") && err.contains("1.5"), "{err}");
}
