use webscout::auth::{
    clear_cookie, over_https, secret_eq, session_cookie, session_cookies, token_text, Auth, Login,
    FAILURE_WINDOW, MAX_FAILURES, SESSION_TTL_MS, TOKEN_BYTES,
};

fn cookies(values: &[&str]) -> Vec<String> {
    values.iter().map(|v| v.to_string()).collect()
}

#[test]
fn secret_eq_compares_whole_values_of_any_length() {
    assert!(secret_eq(b"hunter2", b"hunter2"));
    assert!(!secret_eq(b"hunter3", b"hunter2"));
    assert!(!secret_eq(b"hunter", b"hunter2"));
    assert!(!secret_eq(b"hunter22", b"hunter2"));
    assert!(!secret_eq(b"", b"hunter2"));
}

#[test]
fn tokens_are_64_hex_characters_and_distinct() {
    let a = token_text(&[7u8; TOKEN_BYTES]);
    let b = token_text(&[8u8; TOKEN_BYTES]);
    assert_eq!(a.len(), 64);
    assert!(a.chars().all(|c| c.is_ascii_hexdigit()));
    assert_ne!(a, b);
    assert_eq!(token_text(&[0x00, 0x1f, 0xff]), "001fff");
}

#[test]
fn the_session_cookie_is_found_among_others_and_across_headers() {
    let h = cookies(&["theme=dark; webscout_session=abc; lang=en"]);
    assert_eq!(session_cookies(&h), ["abc"]);
    let h = cookies(&["theme=dark", "webscout_session=def"]);
    assert_eq!(session_cookies(&h), ["def"]);
    let h = cookies(&["webscout_session=; x=1", "webscout_sessionx=zzz"]);
    assert_eq!(session_cookies(&h).len(), 0);
    let h = cookies(&["webscout_session=old; webscout_session=new"]);
    assert_eq!(session_cookies(&h), ["old", "new"]);
}

#[test]
fn secure_follows_the_forwarded_protocol() {
    assert!(!over_https(None));
    assert!(over_https(Some("HTTPS, http")));
    assert!(!over_https(Some("http")));
    assert!(session_cookie("t", true).ends_with("; Secure"));
    assert_eq!(
        session_cookie("t", false),
        "webscout_session=t; HttpOnly; SameSite=Lax; Path=/; Max-Age=2592000"
    );
}

#[test]
fn a_blank_or_quoted_password_is_read_like_other_config() {
    assert!(!Auth::new(None).required());
    assert!(!Auth::new(Some("  ".into())).required());
    assert!(!Auth::new(Some("''".into())).required());
    let mut a = Auth::new(Some("'pw'".into()));
    assert!(matches!(a.login("pw", 0, "t"), Login::Granted(_)));
    assert_eq!(Auth::new(None).login("x", 0, "t"), Login::Open);
}

#[test]
fn sessions_open_validate_and_close() {
    let mut a = Auth::new(Some("pw".into()));
    let token = match a.login("pw", 1_000, "the-token") {
        Login::Granted(t) => t,
        other => panic!("login failed: {other:?}"),
    };
    assert!(a.valid(&token, 1_001));
    assert!(!a.valid("nope", 1_001));
    let h = cookies(&[&format!("webscout_session={token}")]);
    assert!(a.authenticated(&h, 1_002));
    a.logout(&h);
    assert!(!a.valid(&token, 1_003));
}

#[test]
fn the_eleventh_attempt_in_a_minute_is_refused_even_if_right() {
    let mut a = Auth::new(Some("pw".into()));
    for _ in 0..MAX_FAILURES {
        assert_eq!(a.login("wrong", 5_000, "t"), Login::Wrong);
    }
    assert_eq!(a.login("pw", 5_000, "t"), Login::Throttled);
}

#[test]
fn a_minute_later_the_right_password_is_right_again() {
    let mut a = Auth::new(Some("pw".into()));
    for _ in 0..MAX_FAILURES {
        a.login("wrong", 5_000, "t");
    }
    assert_eq!(a.login("pw", 5_000 + FAILURE_WINDOW - 1, "t"), Login::Throttled);
    assert_eq!(a.login("pw", 5_001 + FAILURE_WINDOW, "t"), Login::Granted("t".into()));
}

#[test]
fn a_session_lasts_its_time_and_no_longer() {
    let mut a = Auth::new(Some("pw".into()));
    a.login("pw", 0, "t");
    assert!(a.valid("t", SESSION_TTL_MS - 1));
    assert!(!a.valid("t", SESSION_TTL_MS));
}

#[test]
fn without_a_password_everyone_is_let_in() {
    let mut a = Auth::new(None);
    assert!(a.authenticated(&Vec::new(), 0));
    let mut a = Auth::new(Some("pw".into()));
    assert!(!a.authenticated(&Vec::new(), 0));
}

#[test]
fn clearing_the_cookie_ends_it_at_once() {
    assert!(clear_cookie().starts_with("webscout_session=;"));
    assert!(clear_cookie().contains("Max-Age=0"));
}

#[test]
fn a_session_cookie_reads_back_as_its_token() {
    let token = token_text(&[0, 0x0f, 0xa5, 0xff]);
    assert_eq!(token, "000fa5ff");
    for secure in [false, true] {
        let sent = session_cookie(&token, secure);
        let pair = sent.split(';').next().unwrap();
        assert_eq!(session_cookies(&cookies(&[pair])), vec![token.clone()]);
    }
}

#[test]
fn a_session_outlives_every_other_call() {
    let mut a = Auth::new(Some("pw".into()));
    assert_eq!(a.login("pw", 1_000, "first"), Login::Granted("first".into()));
    assert_eq!(a.login("wrong", 2_000, "second"), Login::Wrong);
    assert_eq!(a.login("pw", 3_000, "third"), Login::Granted("third".into()));
    a.logout(&cookies(&["webscout_session=third"]));
    assert!(!a.valid("second", 4_000));
    assert!(!a.valid("third", 4_000));
    assert!(a.valid("first", 4_000));
    assert!(a.valid("first", 1_000 + SESSION_TTL_MS - 1));
    assert!(!a.valid("first", 1_000 + SESSION_TTL_MS));
}
