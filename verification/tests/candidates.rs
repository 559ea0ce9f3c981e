use webscout::candidates::{appears_in, find, kind_for_field, Kind};

// -- kind_for_field -------------------------------------------------------

#[test]
fn recognises_email_field_names() {
    assert_eq!(kind_for_field("email"), Some(Kind::Email));
    assert_eq!(kind_for_field("EMAIL"), Some(Kind::Email));
    assert_eq!(kind_for_field("e-mail"), Some(Kind::Email));
    assert_eq!(kind_for_field("contact_email"), Some(Kind::Email));
    assert_eq!(kind_for_field("email_address"), Some(Kind::Email));
    assert_eq!(kind_for_field("correo"), Some(Kind::Email));
    assert_eq!(kind_for_field("correo_electronico"), Some(Kind::Email));
}

#[test]
fn recognises_url_field_names() {
    assert_eq!(kind_for_field("website"), Some(Kind::Url));
    assert_eq!(kind_for_field("url"), Some(Kind::Url));
    assert_eq!(kind_for_field("web"), Some(Kind::Url));
    assert_eq!(kind_for_field("sitio_web"), Some(Kind::Url));
    assert_eq!(kind_for_field("site"), Some(Kind::Url));
}

#[test]
fn recognises_phone_field_names() {
    assert_eq!(kind_for_field("phone"), Some(Kind::Phone));
    assert_eq!(kind_for_field("telephone"), Some(Kind::Phone));
    assert_eq!(kind_for_field("tel"), Some(Kind::Phone));
    assert_eq!(kind_for_field("telefono"), Some(Kind::Phone));
    assert_eq!(kind_for_field("teléfono"), Some(Kind::Phone));
    assert_eq!(kind_for_field("telefon"), Some(Kind::Phone));
}

#[test]
fn returns_none_for_unknown_field() {
    assert_eq!(kind_for_field("name"), None);
    assert_eq!(kind_for_field("address"), None);
    assert_eq!(kind_for_field("population"), None);
}

// -- find(Kind::Email) ---------------------------------------------------

#[test]
fn finds_standard_email() {
    let emails = find(Kind::Email, "Contact us at info@ayto.es for details.");
    assert_eq!(emails, vec!["info@ayto.es"]);
}

#[test]
fn normalises_at_bracket_obfuscation() {
    let emails = find(Kind::Email, "Write to info[at]ayto[dot]es today.");
    assert_eq!(emails, vec!["info@ayto.es"]);
}

#[test]
fn normalises_at_paren_obfuscation() {
    let emails = find(Kind::Email, "Send to info(at)example.es for help.");
    assert_eq!(emails, vec!["info@example.es"]);
}

#[test]
fn normalises_spaced_at_obfuscation() {
    let emails = find(Kind::Email, "Reach us: hello at domain.org");
    assert_eq!(emails, vec!["hello@domain.org"]);
}

#[test]
fn normalises_arroba_obfuscation() {
    let emails = find(Kind::Email, "Escríbenos: info arroba ayuntamiento.es");
    assert_eq!(emails, vec!["info@ayuntamiento.es"]);
}

#[test]
fn deduplicates_emails() {
    let emails = find(Kind::Email, "Email info@ayto.es or info@ayto.es again.");
    assert_eq!(emails.len(), 1);
}

#[test]
fn finds_multiple_emails() {
    let emails = find(
        Kind::Email,
        "Contact a@x.com and b@y.org for more information.",
    );
    assert_eq!(emails, vec!["a@x.com", "b@y.org"]);
}

// -- find(Kind::Url) -----------------------------------------------------

#[test]
fn finds_https_url() {
    let urls = find(Kind::Url, "Visit https://www.example.com/path for details.");
    assert_eq!(urls, vec!["https://www.example.com/path"]);
}

#[test]
fn finds_bare_www_url_and_prepends_scheme() {
    let urls = find(Kind::Url, "See www.example.com for more.");
    assert_eq!(urls, vec!["https://www.example.com"]);
}

#[test]
fn deduplicates_urls() {
    let urls = find(
        Kind::Url,
        "Visit https://x.com and then https://x.com again.",
    );
    assert_eq!(urls.len(), 1);
}

/// JSON-embedded pages escape every separator; the stored value must be
/// a usable URL and must fold with the plain spelling (measured
/// 2026-09-21, q82: `official_website` values full of `\/`).
#[test]
fn unescapes_json_separated_urls_and_folds_the_plain_spelling() {
    let urls = find(Kind::Url, r#"{"site": "https:\/\/www.aeropolis.es\/"}"#);
    assert_eq!(urls, vec!["https://www.aeropolis.es/"]);
    // The escaped and plain spellings of one address are one candidate.
    let urls = find(Kind::Url, r#"see https:\/\/x.org/a or https://x.org/a"#);
    assert_eq!(urls, vec!["https://x.org/a"]);
}

/// The code-level gate must keep matching once `find_urls` unescapes the
/// value but the passage still carries the JSON escape.
#[test]
fn appears_in_matches_json_escaped_text() {
    assert!(appears_in(
        "https://www.aeropolis.es/",
        r#"{"site": "https:\/\/www.aeropolis.es\/"}"#
    ));
}

// -- find(Kind::Phone) ---------------------------------------------------

#[test]
fn finds_phone_with_spaces() {
    let phones = find(Kind::Phone, "Call us on 91 234 56 78 for enquiries.");
    assert_eq!(phones.len(), 1);
    let digit_count = phones[0].chars().filter(|c| c.is_ascii_digit()).count();
    assert!(digit_count >= 7, "expected ≥7 digits, got {}", phones[0]);
}

#[test]
fn finds_international_phone() {
    let phones = find(Kind::Phone, "Tel: +34 912 345 678");
    assert_eq!(phones.len(), 1);
    assert!(phones[0].starts_with('+'));
}

#[test]
fn ignores_short_digit_sequences() {
    // Year or small number — fewer than 7 digits should not match.
    let phones = find(Kind::Phone, "In 2024 there were 123 cases.");
    assert!(phones.is_empty(), "got unexpected phones: {:?}", phones);
}

// -- appears_in ----------------------------------------------------------

#[test]
fn appears_in_case_insensitive() {
    assert!(appears_in("Barcelona", "Located in barcelona, Spain."));
}

#[test]
fn appears_in_whitespace_normalised() {
    assert!(appears_in("info@x.es", "  info@x.es  "));
    assert!(appears_in("hello world", "some hello   world text"));
}

#[test]
fn appears_in_obfuscated_email_in_text() {
    // Canonical value, obfuscated text.
    assert!(appears_in(
        "info@ayto.es",
        "Write to info(at)ayto.es for help."
    ));
    assert!(appears_in(
        "info@ayto.es",
        "Write to info[at]ayto[dot]es for help."
    ));
}

#[test]
fn at_obfuscation_does_not_invent_emails_from_prose() {
    assert!(find(Kind::Email, "The form is available at www.getafe.es today.").is_empty());
    assert!(find(Kind::Email, "We meet at the office.").is_empty());
    assert_eq!(
        find(Kind::Email, "Escriba a info at ayto-getafe . org"),
        vec!["info@ayto-getafe.org"]
    );
}

#[test]
fn mailing_address_is_not_an_email_field() {
    assert_eq!(kind_for_field("mailing_address"), None);
    assert_eq!(kind_for_field("contact_email"), Some(Kind::Email));
}

#[test]
fn appears_in_returns_false_when_absent() {
    assert!(!appears_in("missing@example.com", "No email here at all."));
}

// -- H3 email plausibility filter -----------------------------------

#[test]
fn rejects_cloudflare_email_protected_artefact() {
    // Cloudflare's "[email protected]" hover text lands as the literal
    // string "email@…" after our normaliser mangles it.
    let text = "Contact us at [email protected] for details.";
    // The regex matches "email@example.com"; the filter drops it.
    assert!(find(Kind::Email, text).is_empty());
}

#[test]
fn rejects_local_part_email_exactly() {
    assert!(find(Kind::Email, "Write to email@ayuntamiento.es today.").is_empty());
}

#[test]
fn keeps_email_prefix_that_is_not_the_full_local_part() {
    assert_eq!(
        find(Kind::Email, "Write emailing@ayuntamiento.es today."),
        vec!["emailing@ayuntamiento.es"]
    );
}

#[test]
fn rejects_placeholder_domains() {
    for junk in [
        "someone@example.com",
        "someone@example.org",
        "someone@domain.com",
        "hello@email.com",
        "user@test.com",
    ] {
        let sample = format!("Reach us at {junk} today.");
        assert!(
            find(Kind::Email, &sample).is_empty(),
            "should reject {junk}"
        );
    }
}

#[test]
fn keeps_ordinary_email_addresses() {
    assert_eq!(
        find(Kind::Email, "Reach us at info@ayto-orrius.cat."),
        vec!["info@ayto-orrius.cat"]
    );
}

#[test]
fn rejects_local_part_containing_protected_word() {
    assert!(find(Kind::Email, "Write to protected@somewhere.com").is_empty());
    assert!(find(Kind::Email, "Write to my.protected.address@somewhere.com").is_empty());
}

#[test]
fn an_address_with_every_separator_escaped_is_found() {
    assert_eq!(
        find(Kind::Url, r"https:\/\/example.com\/"),
        vec!["https://example.com/"]
    );
}

#[test]
fn an_address_is_seen_however_its_signs_are_spelled() {
    for text in [
        "Info(AT)Ayto.es",
        "(info(at)ayto(dot)es)",
        "Write to info[at]ayto[dot]es.",
        "mail: info (at) ayto (dot) es, or call",
        "info [at]\n ayto [dot] es",
        "[info[at]ayto(dot)es]",
        "see us at info(at)ayto.es at noon",
    ] {
        assert!(appears_in("info@ayto.es", text), "{text}");
    }
    assert!(!appears_in("info@ayto.es", "info(at)ayuntamiento.es"));
    assert!(!appears_in("info@ayto.es", "info (at ayto (dot) es"));
    assert_eq!(find(Kind::Email, "Ask info (at) ayto (dot) es now"), vec!["info@ayto.es"]);
}

#[test]
fn an_address_inside_a_spelled_out_at_stays_whole() {
    assert!(appears_in("a.bc@d.es", "foo at a.bc(at)d.es"));
    assert!(appears_in("u@d.es", "u(at)d.es at foo.com"));
}

#[test]
fn neither_case_nor_spacing_hides_a_value() {
    assert!(appears_in("Plaza  Mayor\t1", "en la PLAZA mayor\n1, Madrid"));
    assert!(!appears_in("Plaza Mayor 1", "en la plazamayor 1"));
}

#[test]
fn an_escaped_slash_is_undone_once() {
    assert_eq!(find(Kind::Url, r"https://x.com/a\\/b"), vec![r"https://x.com/a\/b"]);
    assert_eq!(find(Kind::Url, r"www.\/a"), vec!["https://www./a"]);
    assert_eq!(find(Kind::Url, r"http:\/\/x.org\/a http://x.org/a"), vec!["http://x.org/a"]);
}
