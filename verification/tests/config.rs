use webscout::config::{
    pick, suggest_chat_endpoint, unquote, validate_chat_endpoint, validate_endpoint, Credentials,
    Environment, Sources, Tunables, DEFAULT_LLM_ENDPOINT, DEFAULT_LLM_MODEL,
    DEFAULT_TYPESAFE_ENDPOINT, NO_LLM_KEY, NO_TYPESAFE_KEY,
};

#[test]
fn unquote_strips_one_matching_pair_and_whitespace() {
    assert_eq!(
        unquote("'https://x/v1/chat/completions'"),
        "https://x/v1/chat/completions"
    );
    assert_eq!(unquote(" \"abc\" "), "abc");
    assert_eq!(unquote("'abc\""), "'abc\"");
    assert_eq!(unquote("plain"), "plain");
    assert_eq!(unquote("''"), "");
}

// --- validate_chat_endpoint: acceptance cases ---

#[test]
fn accepts_openrouter_full_url() {
    assert!(
        validate_chat_endpoint(
            "--llm-endpoint",
            "https://openrouter.ai/api/v1/chat/completions"
        )
        .is_ok()
    );
}

#[test]
fn accepts_trailing_slash_on_completions() {
    assert!(
        validate_chat_endpoint(
            "--llm-endpoint",
            "https://openrouter.ai/api/v1/chat/completions/"
        )
        .is_ok()
    );
}

#[test]
fn accepts_localhost_http() {
    assert!(
        validate_chat_endpoint(
            "--llm-endpoint",
            "http://localhost:8000/v1/chat/completions"
        )
        .is_ok()
    );
}

#[test]
fn accepts_query_string() {
    assert!(
        validate_chat_endpoint(
            "--llm-endpoint",
            "https://example.com/v1/chat/completions?key=x"
        )
        .is_ok()
    );
}

// --- validate_chat_endpoint: rejection cases ---

#[test]
fn rejects_chat_slash() {
    let err = validate_chat_endpoint("--llm-endpoint", "https://vllm.example.org/v1/chat/")
        .unwrap_err();
    let msg = err;
    assert!(msg.contains("vllm.example.org"), "{msg}");
    assert!(
        msg.contains("vllm.example.org/v1/chat/completions"),
        "{msg}"
    );
}

#[test]
fn rejects_v1_only() {
    assert!(validate_chat_endpoint("--llm-endpoint", "https://example.com/v1").is_err());
}

#[test]
fn rejects_bare_host() {
    assert!(validate_chat_endpoint("--llm-endpoint", "https://example.com").is_err());
}

#[test]
fn rejects_http_on_non_local() {
    assert!(
        validate_chat_endpoint("--llm-endpoint", "http://example.com/v1/chat/completions")
            .is_err()
    );
}

// --- suggest_chat_endpoint ---

#[test]
fn suggest_from_chat_slash() {
    assert_eq!(
        suggest_chat_endpoint("https://vllm.example.org/v1/chat/"),
        "https://vllm.example.org/v1/chat/completions"
    );
}

#[test]
fn suggest_from_v1() {
    assert_eq!(
        suggest_chat_endpoint("https://host/v1"),
        "https://host/v1/chat/completions"
    );
}

#[test]
fn suggest_from_bare_host() {
    assert_eq!(
        suggest_chat_endpoint("https://host"),
        "https://host/v1/chat/completions"
    );
}

#[test]
fn harvests_and_answers_have_their_own_chunk_caps() {
    let t = Tunables::default();
    assert_eq!(t.chunk_cap(true), t.harvest_max_chunks_per_page);
    assert_eq!(t.chunk_cap(false), t.max_chunks_per_page);
    assert!(t.chunk_cap(true) > t.chunk_cap(false));
}

fn no_flags() -> Sources<'static> {
    Sources {
        typesafe_key: None,
        typesafe_endpoint: None,
        llm_key: None,
        llm_endpoint: None,
        llm_model: None,
        planner_model: None,
        planner_endpoint: None,
        planner_key: None,
        jina_key: None,
    }
}

fn both_keys() -> Environment {
    Environment {
        typesafe_key: Some("ts".to_string()),
        llm_key: Some(" 'llm' ".to_string()),
        ..Environment::default()
    }
}

#[test]
fn a_flag_beats_a_variable_and_a_blank_one_does_not() {
    assert_eq!(pick(Some("flag"), Some("env")), Some("flag".to_string()));
    assert_eq!(pick(Some("  "), Some("\"env\"")), Some("env".to_string()));
    assert_eq!(pick(None, Some("''")), None);
    assert_eq!(pick(None, None), None);
}

#[test]
fn credentials_travel_over_https_or_stay_at_home() {
    assert!(validate_endpoint("--x", "https://host/v1").is_ok());
    assert!(validate_endpoint("--x", "http://127.0.0.1:8000/v1").is_ok());
    assert!(validate_endpoint("--x", "http://localhost/v1").is_ok());
    assert!(validate_endpoint("--x", "http://localhost").is_ok());
    assert!(validate_endpoint("--x", "http://localhost:11434?x").is_ok());
    assert!(validate_endpoint("--x", "http://localhost.evil.example/v1").is_err());
    assert!(validate_endpoint("--x", "http://127.0.0.1.evil.example/v1").is_err());
    assert!(validate_endpoint("--x", "http://localhost:1@evil.example/v1").is_err());
    assert!(validate_endpoint("--x", "http://localhost@evil.example/v1").is_err());
    assert_eq!(
        validate_endpoint("--x", "http://host/v1"),
        Err("--x must be https:// (or a localhost address); got http://host/v1".to_string())
    );
}

#[test]
fn missing_keys_are_named_before_any_work_starts() {
    let nothing = Environment::default();
    assert_eq!(
        Credentials::resolve(&no_flags(), &nothing).unwrap_err(),
        NO_TYPESAFE_KEY
    );
    let only = Environment {
        typesafe_key: Some("ts".to_string()),
        ..Environment::default()
    };
    assert_eq!(
        Credentials::resolve(&no_flags(), &only).unwrap_err(),
        NO_LLM_KEY
    );
}

#[test]
fn two_keys_are_all_it_takes() {
    let c = Credentials::resolve(&no_flags(), &both_keys()).unwrap();
    assert_eq!(c.typesafe_key, "ts");
    assert_eq!(c.llm_key, "llm");
    assert_eq!(c.llm_model, DEFAULT_LLM_MODEL);
    assert_eq!(c.llm_endpoint, DEFAULT_LLM_ENDPOINT);
    assert_eq!(c.typesafe_endpoint, DEFAULT_TYPESAFE_ENDPOINT);
    assert_eq!(c.jina_key, None);
}

#[test]
fn the_planner_follows_the_writer_until_it_is_told_otherwise() {
    let flags = Sources {
        llm_model: Some("big"),
        llm_endpoint: Some("http://localhost:1/v1/chat/completions"),
        ..no_flags()
    };
    let c = Credentials::resolve(&flags, &both_keys()).unwrap();
    assert_eq!(c.planner_model, "big");
    assert_eq!(c.planner_endpoint, "http://localhost:1/v1/chat/completions");
    assert_eq!(c.planner_key, "llm");

    let mut env = both_keys();
    env.planner_model = Some("small".to_string());
    env.planner_key = Some("other".to_string());
    let c = Credentials::resolve(&flags, &env).unwrap();
    assert_eq!(c.llm_model, "big");
    assert_eq!(c.planner_model, "small");
    assert_eq!(c.planner_key, "other");
}

#[test]
fn unsafe_endpoints_are_refused_by_name() {
    let llm = Sources {
        llm_endpoint: Some("http://host/v1/chat/completions"),
        ..no_flags()
    };
    let e = Credentials::resolve(&llm, &both_keys()).unwrap_err();
    assert!(e.starts_with("--llm-endpoint must be https://"), "{e}");
    let planner = Sources {
        planner_endpoint: Some("https://host/v1"),
        ..no_flags()
    };
    let e = Credentials::resolve(&planner, &both_keys()).unwrap_err();
    assert!(e.starts_with("--planner-endpoint"), "{e}");
    assert!(e.contains("https://host/v1/chat/completions"), "{e}");
    let typesafe = Sources {
        typesafe_endpoint: Some("ftp://host"),
        ..no_flags()
    };
    let e = Credentials::resolve(&typesafe, &both_keys()).unwrap_err();
    assert_eq!(
        e,
        "--typesafe-endpoint must be https:// (or a localhost address); got ftp://host"
    );
}
