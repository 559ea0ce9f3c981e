use webscout::json::Json;
use webscout::types::Real;
use webscout::typesafe::{
    budget_chars, choice, entity_binding, is_client_error, is_oversized, noul, prepare, question_cost,
    questions, refused, score, state_cost, Answer, Answers, Breaker, JevCounters, Step,
    BREAKER_THRESHOLD, MAX_INPUT_TOKENS, MAX_STATE_TOKENS,
};

fn text(j: Option<&Json>) -> &str {
    j.unwrap().as_str().unwrap()
}

fn members(j: &Json) -> usize {
    match j {
        Json::Object(v) => v.len(),
        _ => panic!("no object"),
    }
}

/// The binding question's exact wording and options are load-bearing.
#[test]
fn entity_binding_question_wording() {
    let q = entity_binding("Jumilla", "Spanish municipality", "text");
    assert_eq!(text(q.get("type")), "choice");
    assert_eq!(
        text(q.get("instructions")),
        "What relationship does the organisation described in `text` have to `Jumilla`, \
         a Spanish municipality?"
    );
    let c = q.get("criteria").unwrap();
    assert_eq!(members(c), 4);
    assert_eq!(
        text(c.get("same")),
        "It is that organisation itself, including an official department or office of it."
    );
    assert_eq!(
        text(c.get("related")),
        "It is a parent, member, subsidiary, federation, association, supplier, contractor \
         or other related but different organisation."
    );
    assert_eq!(
        text(c.get("different")),
        "It is an unrelated organisation, or a different place or body that merely has a \
         similar name."
    );
    assert_eq!(
        text(c.get("unresolved")),
        "The passage does not establish which organisation it is about."
    );
}

/// The same builder serves both call sites; only the state key changes.
#[test]
fn entity_binding_question_names_the_subject_key() {
    let q = entity_binding("Pokecode", "company", "passage");
    assert!(text(q.get("instructions")).contains("described in `passage`"));
}

#[test]
fn budget_chars_free_fn_is_conservative_seed() {
    assert_eq!(budget_chars(), MAX_INPUT_TOKENS * 2);
    assert_eq!(budget_chars(), MAX_STATE_TOKENS * 2);
}

#[test]
fn questions_are_written_with_their_members_in_order() {
    assert_eq!(
        noul("Is it?", "It is.", "It is not.").to_text(),
        r#"{"criteria":{"false":"It is not.","true":"It is."},"instructions":"Is it?","type":"noul"}"#
    );
    assert_eq!(
        choice("Which?", &[("b", "second"), ("a", "first"), ("b", "last")]).to_text(),
        r#"{"criteria":{"a":"first","b":"last"},"instructions":"Which?","type":"choice"}"#
    );
    assert_eq!(
        score("How?", &["poor", "good"]).to_text(),
        r#"{"criteria":["poor","good"],"instructions":"How?","type":"score"}"#
    );
}

#[test]
fn a_question_costs_its_bytes() {
    let q = Json::Text("é".to_string());
    assert_eq!(state_cost(&q), 4);
    assert_eq!(question_cost("id", &q), 2 + 4 + 8);
}

fn state(n: usize) -> Json {
    Json::Text("x".repeat(n))
}

fn one_question() -> Vec<(String, Json)> {
    questions(&vec![("q".to_string(), noul("?", "y", "n"))])
}

#[test]
fn a_request_without_questions_is_not_sent() {
    let e = prepare(state(1), "m", Vec::new(), 100, 1_000, 0).unwrap_err();
    assert_eq!(e, "at least one question is required");
}

#[test]
fn an_oversized_state_or_request_is_refused_as_such() {
    let e = prepare(state(99), "m", one_question(), 100, 1_000, 0).unwrap_err();
    assert!(is_oversized(&e), "{e}");
    assert!(e.starts_with("[oversized] state is 101 characters, over the ~100 the 32768-token"), "{e}");
    let e = prepare(state(98), "m", one_question(), 100, 150, 0).unwrap_err();
    assert!(e.contains("request is") && e.contains("over the ~150 the 65536-token"), "{e}");
    assert!(!is_client_error(&e));
}

#[test]
fn a_service_that_keeps_failing_is_not_asked() {
    let e = prepare(state(1), "m", one_question(), 100, 1_000, BREAKER_THRESHOLD).unwrap_err();
    assert!(e.starts_with("TypeSafe has failed 10 calls in a row"), "{e}");
    let ok = prepare(state(1), "m", one_question(), 100, 1_000, BREAKER_THRESHOLD - 1).unwrap();
    assert_eq!(
        ok.to_text(),
        r#"{"model":"m","questions":{"q":{"criteria":{"false":"n","true":"y"},"instructions":"?","type":"noul"}},"state":"x"}"#
    );
}

#[test]
fn a_verdict_on_the_request_is_told_from_a_passing_condition() {
    assert!(refused(200, "200 OK", "{}").is_none());
    let r = refused(400, "400 Bad Request", "no such model").unwrap();
    assert_eq!(r.message, "[client-error] TypeSafe returned HTTP 400 Bad Request: no such model");
    assert!(!r.reset_ratio);
    let r = refused(429, "429 Too Many Requests", "slow down").unwrap();
    assert!(!is_client_error(&r.message));
    let r = refused(400, "400 Bad Request", "model overloaded").unwrap();
    assert!(!is_client_error(&r.message));
    let r = refused(400, "400 Bad Request", "max_tokens_exceeded").unwrap();
    assert!(is_client_error(&r.message) && is_oversized(&r.message) && r.reset_ratio);
    let r = refused(503, "503 Service Unavailable", "down").unwrap();
    assert_eq!(r.message, "TypeSafe returned HTTP 503 Service Unavailable: down");
}

#[test]
fn failures_are_retried_until_they_count_against_the_service() {
    let mut b = Breaker::new();
    assert_eq!(b.heard("down", 0, 2, 0), Step::Wait(500));
    assert_eq!(b.heard("down", 1, 2, 7), Step::Wait(1_007));
    assert_eq!(b.heard("down", 2, 2, 7), Step::Stop);
    assert_eq!(b.failures, 1);
    assert_eq!(b.heard("[client-error] no", 0, 2, 7), Step::Stop);
    assert_eq!(b.failures, 0);
    b.failures = BREAKER_THRESHOLD;
    assert!(b.is_open());
    b.succeeded();
    assert!(!b.is_open());
}

#[test]
fn a_wait_is_at_most_eight_seconds_and_its_jitter() {
    let mut b = Breaker::new();
    assert_eq!(b.heard("down", 9, 20, 999), Step::Wait(8_999));
    assert_eq!(b.heard("down", 0, 20, 999), Step::Wait(999));
}

fn double(x: f64) -> Real {
    Real { bits: x.to_bits() }
}

fn answers() -> Answers {
    Answers {
        answers: vec![(
            "a".to_string(),
            Answer {
                noul: double(0.25),
                choice: "same".to_string(),
                score: double(3.0),
                confidence: double(1.0),
                probabilities: vec![("same".to_string(), double(0.5))],
            },
        )],
    }
}

#[test]
fn an_answer_is_found_by_the_id_of_its_question() {
    let a = answers();
    assert_eq!(a.noul("a"), double(0.25));
    assert_eq!(a.noul_or("a", double(1.0)), double(0.25));
    assert_eq!(a.score("a"), double(3.0));
    assert_eq!(a.choice("a"), "same");
    assert_eq!(a.confidence("a"), double(1.0));
    assert_eq!(a.probability("a", "same"), double(0.5));
    assert_eq!(a.probability("a", "other"), double(0.0));
}

#[test]
fn a_missing_answer_is_what_the_caller_says() {
    let a = answers();
    assert_eq!(a.noul("b"), double(0.0));
    assert_eq!(a.noul_or("b", double(1.0)), double(1.0));
    assert_eq!(a.choice("b"), "");
    assert!(!a.is_sane("b"));
}

#[test]
fn numbers_that_are_no_chances_are_not_used() {
    let mut a = answers();
    assert!(a.is_sane("a"));
    for bad in [f64::NAN, f64::INFINITY, -0.1, 1.5, f64::NEG_INFINITY] {
        a.answers[0].1.probabilities[0].1 = double(bad);
        assert!(!a.is_sane("a"), "{bad}");
    }
    a.answers[0].1.probabilities[0].1 = double(-0.0);
    assert!(a.is_sane("a"));
}

#[test]
fn calls_are_counted_with_their_tokens() {
    let mut c = JevCounters::new();
    assert!(!c.note(0));
    assert!(c.note(7));
    assert_eq!((c.requests, c.input_tokens), (2, 7));
}
