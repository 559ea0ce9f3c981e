use webscout::chunk::{chunk, truncate};
use webscout::hits::{dedupe_hits, lane_budget, merge_hits};
use webscout::html::{extract_title, html_to_text};
use webscout::links::{extract_links, extract_markdown_links};
use webscout::types::Hit;
use webscout::urls::{
    canonical_url, display_url, is_pdf_url, is_tracking_param, pdf_title, try_display_url,
    percent_encoding_recover, title_key, unwrap_redirect, urlencode,
};

fn hit(title: &str, url: &str, snippet: &str, engine: &str) -> Hit {
    Hit {
        title: title.into(),
        url: url.into(),
        snippet: snippet.into(),
        engines: vec![engine.to_string()],
    }
}

#[test]
fn is_pdf_url_judges_by_the_path_extension() {
    assert!(is_pdf_url(
        "https://www.cdti.es/sites/default/files/2024-12/resolucion.pdf"
    ));
    // Case-insensitive: registers are inconsistent about their own naming.
    assert!(is_pdf_url("https://example.org/Report.PDF"));
    assert!(!is_pdf_url("https://example.org/resolucion.html"));
    assert!(!is_pdf_url("https://example.org/"));
    // A query string does not make the path a PDF.
    assert!(!is_pdf_url("https://example.org/view?doc=resolucion.pdf"));
    assert!(!is_pdf_url("not a url"));
}

#[test]
fn pdf_title_takes_the_decoded_filename() {
    assert_eq!(
        pdf_title("https://boe.es/boe/dias/2024/04/05/pdfs/BOE-B-2024-12121.pdf"),
        "BOE-B-2024-12121.pdf"
    );
    assert_eq!(
        pdf_title("https://example.org/files/convocatoria%20neotec.pdf"),
        "convocatoria neotec.pdf"
    );
}

#[test]
fn percent_decoding_leaves_a_trailing_partial_escape_alone() {
    assert_eq!(percent_encoding_recover("a%20b"), "a b");
    assert_eq!(percent_encoding_recover("100%"), "100%");
    assert_eq!(percent_encoding_recover("trailing%2"), "trailing%2");
    assert_eq!(percent_encoding_recover("%zz"), "%zz");
}

#[test]
fn extract_links_resolves_relative_hrefs() {
    let html = r#"<a href="/page">Abs-path</a> <a href="sub/page.html">Relative</a>"#;
    let links = extract_links(html, "https://example.com/base/");
    assert_eq!(links.len(), 2);
    assert_eq!(links[0].href, "https://example.com/page");
    assert_eq!(links[1].href, "https://example.com/base/sub/page.html");
}

#[test]
fn extract_links_deduplicates_by_href() {
    let html = r#"<a href="/page">First</a> <a href="/page">Duplicate</a>"#;
    let links = extract_links(html, "https://example.com/");
    assert_eq!(links.len(), 1);
    assert_eq!(links[0].text, "First");
}

#[test]
fn extract_links_skips_unwanted_schemes_and_fragments() {
    // Use r##"..."## so the href="#section" inside does not close the delimiter.
    let html = r##"
        <a href="javascript:void(0)">JS</a>
        <a href="mailto:info@example.com">Email</a>
        <a href="tel:+34912345678">Phone</a>
        <a href="#section">Anchor-only</a>
        <a href="/valid">Valid</a>
    "##;
    let links = extract_links(html, "https://example.com/");
    assert_eq!(links.len(), 1, "only the /valid href should survive");
    assert_eq!(links[0].href, "https://example.com/valid");
}

#[test]
fn extract_links_caps_at_300() {
    let mut html = String::new();
    for i in 0..400 {
        html.push_str(&format!(r#"<a href="/page{i}">Link {i}</a>"#));
    }
    let links = extract_links(&html, "https://example.com/");
    assert_eq!(links.len(), 300);
}

#[test]
fn extract_links_strips_tags_and_collapses_whitespace_in_text() {
    let html = r#"<a href="/p"><span>Hello</span>  <b>  World  </b></a>"#;
    let links = extract_links(html, "https://example.com/");
    assert_eq!(links.len(), 1);
    assert_eq!(links[0].text, "Hello World");
}

#[test]
fn extract_links_recovers_logo_wall_names_from_alt_and_title_and_aria() {
    // Anchor around a bare logo image: no inner text, alt carries the name.
    let html =
        r#"<a href="https://foo.example/"><img src="/logo.png" alt="Foo Cooperative"></a>"#;
    let links = extract_links(html, "https://directory.example/");
    assert_eq!(links.len(), 1);
    assert_eq!(links[0].text, "Foo Cooperative");

    // Title on the anchor wins over an inner img alt when text is empty.
    let html = r#"<a href="https://bar.example/" title="Bar SL"><img alt="ignored"></a>"#;
    let links = extract_links(html, "https://directory.example/");
    assert_eq!(links[0].text, "Bar SL");

    // Aria-label fallback when everything else is missing.
    let html = r#"<a href="https://baz.example/" aria-label="Baz Ltd"><img></a>"#;
    let links = extract_links(html, "https://directory.example/");
    assert_eq!(links[0].text, "Baz Ltd");

    // Existing inner text still wins — no regression on normal links.
    let html = r#"<a href="/p" title="ignored">Actual Text</a>"#;
    let links = extract_links(html, "https://example.com/");
    assert_eq!(links[0].text, "Actual Text");
}

#[test]
fn html_to_text_emits_img_alt_inline() {
    // P8: a logo wall's partner names live in `<img alt>`. Emitting them
    // inline means the text-only path still contains the names for Jev
    // triage and downstream extraction.
    let html =
        r#"<div><img alt="Foo Coop" src="/f.png"> <img alt="Bar SL" src="/b.png"></div>"#;
    let text = html_to_text(html);
    assert!(text.contains("Foo Coop"), "text was {text:?}");
    assert!(text.contains("Bar SL"), "text was {text:?}");

    // An img with no alt (or empty alt) contributes nothing but does not
    // break surrounding text.
    let html = r#"<p>Before <img src="/x.png" alt=""> after</p>"#;
    let text = html_to_text(html);
    assert!(text.contains("Before"));
    assert!(text.contains("after"));
}

#[test]
fn extract_links_truncates_text_at_160_chars() {
    let long_text = "x".repeat(300);
    let html = format!(r#"<a href="/p">{long_text}</a>"#);
    let links = extract_links(&html, "https://example.com/");
    assert_eq!(links.len(), 1);
    assert_eq!(links[0].text.chars().count(), 160);
}

#[test]
fn extract_markdown_links_parses_inline_links_and_resolves_relative() {
    let md = "See [About](/about) or [Home](https://example.com/).";
    let links = extract_markdown_links(md, "https://example.com/base/");
    assert_eq!(links.len(), 2);
    assert_eq!(links[0].href, "https://example.com/about");
    assert_eq!(links[0].text, "About");
    assert_eq!(links[1].href, "https://example.com/");
    assert_eq!(links[1].text, "Home");
}

#[test]
fn extract_markdown_links_captures_bare_urls() {
    let md = "raw: https://a.example/x and also http://b.example/y.";
    let links = extract_markdown_links(md, "https://base.example/");
    let hrefs: Vec<&str> = links.iter().map(|l| l.href.as_str()).collect();
    assert!(hrefs.contains(&"https://a.example/x"));
    assert!(hrefs.contains(&"http://b.example/y"));
}

#[test]
fn extract_markdown_links_deduplicates_across_forms() {
    let md = "[X](https://a.example/x) and again: https://a.example/x";
    let links = extract_markdown_links(md, "https://base.example/");
    assert_eq!(links.len(), 1);
    assert_eq!(links[0].href, "https://a.example/x");
}

#[test]
fn extract_markdown_links_skips_unwanted_schemes_and_fragments() {
    let md = "[m](mailto:a@b.com) [t](tel:+1) [j](javascript:alert(1)) [a](#top) [ok](/ok)";
    let links = extract_markdown_links(md, "https://example.com/");
    assert_eq!(links.len(), 1);
    assert_eq!(links[0].href, "https://example.com/ok");
}

#[test]
fn extract_markdown_links_strips_trailing_punctuation_on_bare_urls() {
    let md = "See https://a.example/x, and https://b.example/y.";
    let links = extract_markdown_links(md, "https://base.example/");
    let hrefs: Vec<&str> = links.iter().map(|l| l.href.as_str()).collect();
    assert!(hrefs.contains(&"https://a.example/x"));
    assert!(hrefs.contains(&"https://b.example/y"));
}

#[test]
fn extract_markdown_links_handles_title_after_url() {
    let md = r#"[Docs](https://example.com/docs "The docs")"#;
    let links = extract_markdown_links(md, "https://example.com/");
    assert_eq!(links.len(), 1);
    assert_eq!(links[0].href, "https://example.com/docs");
}

#[test]
fn extract_markdown_links_caps_at_300() {
    let mut md = String::new();
    for i in 0..400 {
        md.push_str(&format!("[L{i}](/p{i}) "));
    }
    let links = extract_markdown_links(&md, "https://example.com/");
    assert_eq!(links.len(), 300);
}

#[test]
fn extract_markdown_links_parses_links_summary_section() {
    // What r.jina.ai actually appends when X-With-Links-Summary is set:
    // a markdown "Links/Buttons" section. The same extractor handles it.
    let md = "\n\nLinks/Buttons:\n\n- [Contact](/contact)\n- [Register](https://reg.example/)";
    let links = extract_markdown_links(md, "https://ayto.example/");
    let hrefs: Vec<&str> = links.iter().map(|l| l.href.as_str()).collect();
    assert!(hrefs.contains(&"https://ayto.example/contact"));
    assert!(hrefs.contains(&"https://reg.example/"));
}

#[test]
fn extract_markdown_links_truncates_text_at_160_chars() {
    let long = "a".repeat(300);
    let md = format!("[{long}](/p)");
    let links = extract_markdown_links(&md, "https://example.com/");
    assert_eq!(links.len(), 1);
    assert_eq!(links[0].text.chars().count(), 160);
}

#[test]
fn unwraps_duckduckgo_redirects() {
    assert_eq!(
        unwrap_redirect("https://duckduckgo.com/l/?uddg=https%3A%2F%2Fgo.dev%2Fdl%2F&rut=abc"),
        "https://go.dev/dl/"
    );
    assert_eq!(
        unwrap_redirect("//duckduckgo.com/l/?uddg=https%3A%2F%2Fa.example%2Fx%3Fy%3Dz"),
        "https://a.example/x?y=z"
    );
}

#[test]
fn passes_direct_links_through() {
    assert_eq!(unwrap_redirect("https://go.dev/dl/"), "https://go.dev/dl/");
}

#[test]
fn rejects_internal_duckduckgo_navigation() {
    assert_eq!(unwrap_redirect("https://duckduckgo.com/settings"), "");
    assert_eq!(unwrap_redirect(""), "");
}

#[test]
fn encodes_query_components() {
    assert_eq!(urlencode("a b&c"), "a+b%26c");
    assert_eq!(urlencode("caf\u{e9}"), "caf%C3%A9");
}

#[test]
fn dedupes_and_unwraps_hits() {
    let hits = vec![
        Hit {
            title: "a".into(),
            url: "https://duckduckgo.com/l/?uddg=https%3A%2F%2Fx.org%2F".into(),
            snippet: String::new(),
            engines: Vec::new()
        },
        Hit {
            title: "b".into(),
            url: "https://x.org/".into(),
            snippet: String::new(),
            engines: Vec::new()
        },
        Hit {
            title: "c".into(),
            url: "https://y.org/".into(),
            snippet: String::new(),
            engines: Vec::new()
        },
    ];
    let out = dedupe_hits(&hits, 0);
    assert_eq!(
        out.len(),
        2,
        "the wrapped and direct form are the same page"
    );
    assert_eq!(out[0].url, "https://x.org/");
}

/// A batch gets one deadline per wave it needs, never less than one.
#[test]
fn lane_budget_scales_with_the_waves_a_batch_needs() {
    let d: u64 = 20_000;
    assert_eq!(lane_budget(d, 5, 12), d, "a normal round: one wave");
    assert_eq!(lane_budget(d, 25, 12), d * 3, "q81's enrichment batch");
    assert_eq!(lane_budget(d, 50, 12), d * 5);
    assert_eq!(lane_budget(d, 0, 12), d, "never zero");
    assert_eq!(
        lane_budget(d, 3, 0),
        d * 3,
        "a zero concurrency reads as one"
    );
}

#[test]
fn canonical_url_folds_scheme_www_and_trailing_slash() {
    let want = "example.com/a/b";
    for u in [
        "https://example.com/a/b",
        "http://example.com/a/b",
        "https://www.example.com/a/b/",
        "https://WWW.Example.COM/a/b///",
        "https://example.com/a/b#section",
    ] {
        assert_eq!(canonical_url(u), want, "{u}");
    }
}

#[test]
fn canonical_url_drops_tracking_and_sorts_the_rest() {
    assert_eq!(
        canonical_url(
            "https://example.com/p?utm_source=x&utm_medium=y&id=7&fbclid=z&page=2&ref_src=q"
        ),
        "example.com/p?id=7&page=2"
    );
    // Every named tracking parameter goes, and an empty query leaves no `?`.
    assert_eq!(
        canonical_url(
            "https://example.com/p?ref=a&gclid=b&igshid=c&si=d&s=e&t=f&feature=g&lang=es"
        ),
        "example.com/p"
    );
    // Parameter order does not change the key.
    assert_eq!(
        canonical_url("https://example.com/p?b=2&a=1"),
        canonical_url("https://example.com/p?a=1&b=2")
    );
}

#[test]
fn canonical_url_keeps_content_selecting_parameters() {
    // A query parameter that selects *what* the page shows must survive,
    // or two different pages collapse into one.
    assert_ne!(
        canonical_url("https://example.com/search?q=alpha"),
        canonical_url("https://example.com/search?q=beta")
    );
    assert_eq!(
        canonical_url("https://example.com/wiki?title=Decidim"),
        "example.com/wiki?title=Decidim"
    );
}

#[test]
fn display_url_strips_the_cookie_wall_litter_but_keeps_the_document() {
    // The measured case: Springer's cookie-wall redirect, pasted into an
    // answer as "the link to the paper".
    assert_eq!(
        display_url(
            "https://link.springer.com/chapter/10.1007/3-540-39568-7_2\
             ?error=cookies_not_supported&code=b980f9c2-b2af-4653-9fc6-128d080de6aa"
        ),
        "https://link.springer.com/chapter/10.1007/3-540-39568-7_2"
    );
    // Campaign litter goes; the scheme, host case-folding by `Url`, path
    // and fragment all stay, so the link still opens what was read.
    assert_eq!(
        display_url("https://example.org/a/b?utm_source=x&id=7&fbclid=y#sec3"),
        "https://example.org/a/b?id=7#sec3"
    );
}

#[test]
fn display_url_keeps_what_selects_the_content() {
    // A short `code` selects content — a country, a language, a plan.
    assert_eq!(
        display_url("https://example.org/p?code=ES"),
        "https://example.org/p?code=ES"
    );
    // `lang` is dropped by canonical_url for dedup and must survive here:
    // stripping it sends the reader to a different translation.
    assert_eq!(
        display_url("https://example.org/p?lang=ca"),
        "https://example.org/p?lang=ca"
    );
    // Ordinary query pages are untouched.
    assert_eq!(
        display_url("https://example.org/search?q=elgamal&page=2"),
        "https://example.org/search?q=elgamal&page=2"
    );
    // A long random `code` is a session token even without an `error`.
    assert_eq!(
        display_url("https://example.org/p?code=b980f9c2b2af46539fc6128d080de6aa"),
        "https://example.org/p"
    );
}

#[test]
fn display_url_returns_something_citable_for_garbage() {
    // Provenance we cannot parse is still the provenance we have.
    assert_eq!(display_url("  not a url  "), "not a url");
    assert_eq!(display_url(""), "");
}

#[test]
fn any_address_can_be_tried() {
    let litter = "https://example.org/a/b?utm_source=x&id=7&fbclid=y#sec3";
    assert_eq!(try_display_url(litter), Some(display_url(litter)));
    assert_eq!(try_display_url("  not a url  ").as_deref(), Some("not a url"));
}

#[test]
fn canonical_url_survives_garbage() {
    assert_eq!(canonical_url("  NOT a url "), "not a url");
    assert_eq!(canonical_url(""), "");
}

#[test]
fn title_key_strips_site_names_and_caps_at_eight_words() {
    assert_eq!(
        title_key("Decidim launches new release — Reuters"),
        "decidim launches new release"
    );
    assert_eq!(
        title_key("Decidim launches new release | El País"),
        "decidim launches new release"
    );
    assert_eq!(
        title_key("Decidim launches new release: BBC"),
        "decidim launches new release"
    );
    // Eight alphanumeric words, punctuation ignored, lowercased.
    assert_eq!(
        title_key("One, two; three four five six seven eight nine ten"),
        "one two three four five six seven eight"
    );
    // A long trailing segment is part of the headline, not a masthead.
    let k = title_key("Barcelona: how the city built its participation platform");
    assert!(k.starts_with("barcelona how the city"), "got {k}");
}

#[test]
fn title_key_matches_syndicated_copies() {
    assert_eq!(
        title_key("EU adopts the AI Act - Reuters"),
        title_key("EU adopts the AI Act | Politico")
    );
    assert_ne!(
        title_key("EU adopts the AI Act"),
        title_key("EU delays the AI Act")
    );
    assert_eq!(title_key("   "), "");
}

#[test]
fn merge_hits_unions_engines_on_agreement() {
    let ddg = vec![
        hit("A", "https://www.a.example/x/", "short", "ddg"),
        hit("B", "https://b.example/", "b snippet", "ddg"),
    ];
    let jina = vec![hit(
        "A",
        "http://a.example/x?utm_source=news",
        "a much longer snippet",
        "jina",
    )];

    let merged = merge_hits(&vec![ddg, jina], 0);
    assert_eq!(merged.len(), 2, "the two forms of A are one page");
    let a = &merged[0];
    assert_eq!(a.engines, vec!["ddg".to_string(), "jina".to_string()]);
    assert_eq!(a.snippet, "a much longer snippet", "longer snippet wins");
    assert_eq!(a.url, "https://www.a.example/x/", "first form is kept");
}

#[test]
fn merge_hits_keeps_the_best_position_and_fills_empty_titles() {
    // A is third on ddg and first on jina, so it should outrank B.
    let ddg = vec![
        hit("B", "https://b.example/", "", "ddg"),
        hit("C", "https://c.example/", "", "ddg"),
        hit("", "https://a.example/", "", "ddg"),
    ];
    let jina = vec![hit("A title", "https://a.example/", "", "jina")];

    let merged = merge_hits(&vec![ddg, jina], 0);
    // A was third on ddg and first on jina, and two engines returned it:
    // best position plus agreement puts it ahead of B, which only ddg
    // ranked first.
    assert_eq!(merged[0].url, "https://a.example/");
    assert_eq!(merged[0].title, "A title", "an empty title is filled in");
    assert_eq!(merged[0].engines.len(), 2);
    assert_eq!(merged[1].url, "https://b.example/");
    assert_eq!(merged.len(), 3);
}

#[test]
fn merge_hits_drops_syndicated_duplicate_titles() {
    let ddg = vec![
        hit(
            "EU adopts the AI Act — Reuters",
            "https://r.example/1",
            "",
            "ddg",
        ),
        hit(
            "EU adopts the AI Act | Politico",
            "https://p.example/2",
            "",
            "ddg",
        ),
        hit("Something else entirely", "https://x.example/3", "", "ddg"),
    ];
    let merged = merge_hits(&vec![ddg], 0);
    assert_eq!(merged.len(), 2, "one story must not take two slots");
    assert_eq!(merged[0].url, "https://r.example/1");
    assert_eq!(merged[1].url, "https://x.example/3");
}

/// A two-word title is a programme name, not a story identity: the
/// funder's own page, a grants tracker and a ministry announcement are
/// distinct pages that legitimately share it (measured 2026-09-21, q81:
/// 232 "syndicated copy" drops, including the authoritative resolution
/// list the run was looking for).
#[test]
fn merge_hits_keeps_distinct_pages_sharing_a_short_title() {
    let ddg = vec![
        hit(
            "NEOTEC 2024",
            "https://www.cdti.es/ayudas/ayudas-neotec-2024",
            "",
            "ddg",
        ),
        hit(
            "NEOTEC 2024",
            "https://subvencionespublicas.com/neotec-2024/",
            "",
            "ddg",
        ),
        hit(
            "NEOTEC 2024",
            "https://www.ciencia.gob.es/Noticias/enero/neotec-2024-convocatoria",
            "",
            "ddg",
        ),
    ];
    let merged = merge_hits(&vec![ddg], 0);
    assert_eq!(
        merged.len(),
        3,
        "a programme name shared by distinct pages is not syndication"
    );
}

#[test]
fn merge_hits_honours_the_limit_and_ignores_empty_urls() {
    let lane = vec![
        hit("A", "https://a.example/", "", "ddg"),
        hit("B", "", "", "ddg"),
        hit("C", "https://c.example/", "", "ddg"),
        hit("D", "https://d.example/", "", "ddg"),
    ];
    let merged = merge_hits(&vec![lane], 2);
    assert_eq!(merged.len(), 2);
    assert_eq!(merged[0].url, "https://a.example/");
    assert_eq!(merged[1].url, "https://c.example/");
}

#[test]
fn merge_hits_of_nothing_is_nothing() {
    assert!(merge_hits(&Vec::new(), 5).is_empty());
    assert!(merge_hits(&vec![Vec::new(), Vec::new()], 5).is_empty());
}

#[test]
fn tracking_params_are_recognised_by_prefix_and_name() {
    for k in [
        "utm_source",
        "UTM_Medium",
        "ref",
        "ref_src",
        "fbclid",
        "si",
        "s",
        "t",
        "lang",
    ] {
        assert!(is_tracking_param(k), "{k} should be tracking noise");
    }
    for k in ["q", "id", "page", "title", "search"] {
        assert!(!is_tracking_param(k), "{k} selects content");
    }
}

#[test]
fn dedupe_hits_uses_the_canonical_key() {
    // Same page, three disguises: a redirect wrapper, a www. form, and a
    // campaign parameter. The raw-string comparison kept all three.
    let hits = vec![
        hit(
            "a",
            "https://duckduckgo.com/l/?uddg=https%3A%2F%2Fx.org%2Fa%2F",
            "",
            "ddg",
        ),
        hit("b", "https://www.x.org/a", "", "ddg"),
        hit("c", "https://x.org/a?utm_source=nl", "", "ddg"),
        hit("d", "https://y.org/", "", "ddg"),
    ];
    let out = dedupe_hits(&hits, 0);
    assert_eq!(
        out.len(),
        2,
        "got {:?}",
        out.iter().map(|h| &h.url).collect::<Vec<_>>()
    );
    assert_eq!(out[0].url, "https://x.org/a/");
    assert_eq!(out[1].url, "https://y.org/");
}

#[test]
fn chunks_on_paragraph_boundaries() {
    let para = "x".repeat(300);
    let text = format!("{para}\n\n{para}\n\n{para}");
    let chunks = chunk(&text, 400, 0);
    assert!(chunks.len() >= 2, "expected a split, got {}", chunks.len());
    for c in &chunks {
        assert!(c.len() >= 80);
    }
}

#[test]
fn drops_fragments_too_short_to_judge() {
    // Nav items and headings make up most of a page and can answer nothing.
    assert!(chunk("# Title\n\nHome\n\nAbout", 1000, 0).is_empty());
}

/// Regression: `innerText` separates blocks with a single newline, so a page with
/// no blank lines was treated as one paragraph and the size cap never applied. A
/// 500,000-character page became a single chunk, which the verification API then
/// rejected for exceeding its per-request token limit.
#[test]
fn hard_splits_text_that_has_no_blank_lines() {
    let text = "word ".repeat(100_000);
    let chunks = chunk(&text, 4000, 0);
    assert!(
        chunks.len() > 100,
        "expected many chunks, got {}",
        chunks.len()
    );
    for c in &chunks {
        assert!(
            c.len() <= 4200,
            "chunk of {} chars exceeds the cap",
            c.len()
        );
    }
}

#[test]
fn hard_split_never_panics_on_multibyte_text() {
    // Page text is full of accented and CJK characters; slicing on a byte index
    // that is not a character boundary would panic.
    let text = "café… 日本語テキスト ".repeat(20_000);
    let chunks = chunk(&text, 1000, 0);
    assert!(!chunks.is_empty());
    for c in &chunks {
        assert!(c.len() <= 1200);
    }
}

/// Regression: an earlier hand-rolled byte walk landed mid-character on a real
/// Wikipedia page and panicked at its `»`. Anything touching scraped HTML has to
/// survive multi-byte text.
#[test]
fn html_helpers_survive_multibyte_markup() {
    let html = "<html><head><title>Café » Paris</title></head><body><p>Le café coûte 3€ — vraiment.</p><script>var x = 1;</script><div>日本語のテキスト</div></body></html>";
    let text = html_to_text(html);
    assert!(text.contains("Le café coûte 3€"), "got: {text}");
    assert!(text.contains("日本語のテキスト"));
    assert!(!text.contains("var x"), "script contents must be dropped");
    assert!(!text.contains('<'), "markup must be gone");
    assert_eq!(extract_title(html), "Café » Paris");
}

/// The measured leak: a `<style>` or `<script>` block preceded by any text
/// — a newline is enough — came through as page text. Real markup nearly
/// always has that newline; the old fixture above only passed because it
/// wrote `</p><script>` with nothing between.
#[test]
fn code_blocks_are_dropped_even_after_text() {
    let html = "<html>\n<head>\n<title>About Sid</title>\n\
                <style>:root{--wp--preset--color:#000}</style>\n</head>\n<body>\n\
                <p>Sid Sijbrandij co-founded GitLab.</p>\n\
                <script>window.__DATA__ = {\"x\": 1};</script>\n\
                <noscript>enable js</noscript>\n\
                <svg><path d=\"M0 0L10 10\"/></svg>\n\
                <p>He served as CEO from 2012 to 2024.</p>\n</body></html>";
    let text = html_to_text(html);
    assert!(
        text.contains("Sid Sijbrandij co-founded GitLab."),
        "{text:?}"
    );
    assert!(text.contains("CEO from 2012 to 2024"), "{text:?}");
    for junk in [
        "--wp--preset",
        "__DATA__",
        "enable js",
        "M0 0L10",
        "<title>",
    ] {
        assert!(!text.contains(junk), "{junk} leaked into {text:?}");
    }
}

/// Structured data is content: a schema.org block is often the only place
/// a homepage states its own official URL, and it was the sole support for
/// "the official website of Mondragon Corporation". Code around it goes.
#[test]
fn json_ld_structured_data_is_kept_as_text() {
    let html = "<html>\n<head>\n<script>var tracker = 1;</script>\n\
                <script type=\"application/ld+json\">\n{\"@type\": \"Organization\",\n\
                \"name\": \"MONDRAGON CORPORATION\",\n\
                \"url\": \"https:\\/\\/www.mondragon-corporation.com\\/en\\/\"}\n</script>\n\
                </head>\n<body>\n<p>Humanity at work.</p>\n</body></html>";
    let text = html_to_text(html);
    assert!(text.contains("MONDRAGON CORPORATION"), "{text:?}");
    assert!(
        text.contains("https://www.mondragon-corporation.com/en/"),
        "escaped slashes restored: {text:?}"
    );
    assert!(text.contains("Humanity at work."), "{text:?}");
    assert!(
        !text.contains("tracker"),
        "an ordinary script still goes: {text:?}"
    );

    // Bounded: an article's structured data can repeat its whole body.
    let long = format!(
        "<script type=\"application/ld+json\">{{\"articleBody\": \"{}\"}}</script>",
        "word ".repeat(5_000)
    );
    let text = html_to_text(&long);
    assert!(
        text.len() < 2_100,
        "json-ld not bounded: {} chars",
        text.len()
    );
}

/// With the skip working, a prefix test would read `<header>` as `<head`,
/// look for a `</head>` that closed earlier, and drop the page body.
#[test]
fn a_header_element_is_not_the_head() {
    let html = "<html><head><title>t</title></head>\n<body>\n\
                <header>Site navigation</header>\n<p>The article itself.</p></body></html>";
    let text = html_to_text(html);
    assert!(text.contains("Site navigation"), "{text:?}");
    assert!(text.contains("The article itself."), "{text:?}");
}

/// A code block with no closing tag costs that element, not the rest of
/// the page.
#[test]
fn an_unclosed_code_block_does_not_truncate_the_page() {
    let html = "<p>Before.</p>\n<script src=\"a.js\">\n<p>After the broken script.</p>";
    let text = html_to_text(html);
    assert!(text.contains("Before."), "{text:?}");
    assert!(text.contains("After the broken script."), "{text:?}");
}

#[test]
fn decodes_latin_named_entities() {
    // Measured 2026-09-21 on a Spanish colegios harvest: the HTTP path
    // emitted `T&eacute;c` while the browser path emitted `Téc`, and the
    // same colegio survived as two records under two keys.
    let text = html_to_text(
        "<p>Ingenieros T&eacute;cnicos, Agr&ograve;noms, &Ntilde;u&ntilde;ez, &Ccedil;AT</p>",
    );
    assert!(text.contains("Técnicos"), "got {text}");
    assert!(text.contains("Agrònoms"), "got {text}");
    assert!(text.contains("Ñuñez"), "got {text}");
    assert!(text.contains("ÇAT"), "got {text}");
}

#[test]
fn double_escaped_entities_decode_once() {
    // `&amp;eacute;` is the literal text "&eacute;", not "é". Decoding
    // `&amp;` before the letter entities unescapes twice; it runs last.
    let text = html_to_text("<p>&amp;eacute; and &amp;amp;</p>");
    assert!(text.contains("&eacute;"), "got {text}");
    assert!(text.contains("&amp;"), "got {text}");
}

#[test]
fn decodes_entities_including_numeric() {
    let text = html_to_text("<p>a&nbsp;&amp;&nbsp;b &#8212; &#x27;q&#x27; &hellip;</p>");
    assert!(text.contains("a & b"), "got: {text}");
    assert!(
        text.contains('—') && text.contains('\u{2026}'),
        "got: {text}"
    );
}

#[test]
fn honors_the_chunk_cap() {
    let para = "y".repeat(200);
    let text = vec![para.as_str(); 40].join("\n\n");
    assert!(chunk(&text, 250, 3).len() <= 3);
}


#[test]
fn a_cut_falls_between_characters() {
    assert_eq!(truncate("caf\u{e9}s", 4), "caf");
    assert_eq!(truncate("caf\u{e9}s", 5), "caf\u{e9}");
    assert_eq!(truncate("caf\u{e9}s", 6), "caf\u{e9}s");
    assert_eq!(truncate("caf\u{e9}s", 100), "caf\u{e9}s");
    assert_eq!(truncate("caf\u{e9}s", 0), "");
}

#[test]
fn what_was_encoded_is_recovered() {
    for s in ["", "a/b?c=d&e", "100%", "caf\u{e9}", "\u{4e16}\u{754c}%41", "~_.-*"] {
        assert_eq!(percent_encoding_recover(&urlencode(s)), s);
    }
    // A query writes a space as a plus sign, which stays one.
    assert_eq!(percent_encoding_recover(&urlencode("a b")), "a+b");
}

#[test]
fn a_page_that_every_engine_puts_first_stays_first() {
    let ddg = vec![
        hit("A", "https://a.example/x", "one", "ddg"),
        hit("B", "https://b.example/", "two", "ddg"),
    ];
    let jina = vec![
        hit("A", "http://www.a.example/x/", "one", "jina"),
        hit("C", "https://c.example/", "three", "jina"),
        hit("B", "https://b.example/", "two", "jina"),
    ];
    let merged = merge_hits(&vec![ddg, jina], 0);
    assert_eq!(merged[0].url, "https://a.example/x");
    assert_eq!(merged.len(), 3);
}

#[test]
fn only_the_engine_itself_wraps_results() {
    assert_eq!(
        unwrap_redirect("https://notduckduckgo.com/page"),
        "https://notduckduckgo.com/page"
    );
    assert_eq!(
        unwrap_redirect("https://duckduckgo.com.example/l/?uddg=x"),
        "https://duckduckgo.com.example/l/?uddg=x"
    );
    assert_eq!(
        unwrap_redirect("https://html.duckduckgo.com/l/?uddg=https%3A%2F%2Fgo.dev%2F"),
        "https://go.dev/"
    );
}

#[test]
fn an_escaped_reference_is_decoded_once() {
    assert_eq!(html_to_text("&amp;#233;"), "&#233;\n");
    assert_eq!(html_to_text("&#38;amp;"), "&amp;\n");
    assert_eq!(html_to_text("&#38;#233;"), "&#233;\n");
    assert_eq!(html_to_text("&#233;&#;&#0;x"), "\u{e9}\u{0}x\n");
    assert_eq!(html_to_text("a &#12 b"), "a &#12 b\n");
}

#[test]
fn small_chunks_keep_to_their_size_too() {
    let chunks = chunk(&"x".repeat(150), 100, 0);
    assert_eq!(chunks, vec!["x".repeat(100)]);
}

#[test]
fn an_empty_parameter_leaves_no_separator() {
    assert_eq!(
        display_url("https://example.org/p?=&id=7"),
        "https://example.org/p?id=7"
    );
    assert_eq!(
        display_url("https://example.org/p?q=a+b%26c*&x"),
        "https://example.org/p?q=a+b%26c*&x"
    );
}

#[test]
fn a_site_name_does_not_change_a_title_key() {
    let title = " One two three FOUR five six seven eight nine ";
    let key = title_key(title);
    assert_eq!(key, "one two three four five six seven eight");
    for sep in [" - ", " | ", " : ", ": ", "|"] {
        for site in ["The Daily News", "- a b c d", "x"] {
            assert_eq!(title_key(&format!("{title}{sep}{site}")), key, "{sep}{site}");
        }
    }
    assert_eq!(title_key("A: b c d e f g"), "a b c d e f g");
    for sep in [" – ", " — ", " · "] {
        assert_eq!(title_key(&format!("El Niño vuelve{sep}El País")), "el niño vuelve", "{sep}");
    }
}

#[test]
fn a_merge_gathers_every_page_once() {
    let lanes = vec![
        vec![
            hit("A", "https://a.example/", "one", "ddg"),
            hit("B", "https://b.example/", "two", "ddg"),
            hit("", "", "none", "ddg"),
        ],
        vec![
            hit("C", "https://c.example/", "three", "jina"),
            hit("A", "http://www.a.example", "one and more", "jina"),
        ],
        vec![hit("B", "https://b.example/?utm_source=x", "2", "tavily")],
    ];
    let all = merge_hits(&lanes, 0);
    let urls: Vec<&str> = all.iter().map(|h| h.url.as_str()).collect();
    assert_eq!(urls, ["https://a.example/", "https://b.example/", "https://c.example/"]);
    assert_eq!(all[0].engines, ["ddg", "jina"]);
    assert_eq!(all[0].snippet, "one and more");
    assert_eq!(all[1].engines, ["ddg", "tavily"]);
    assert_eq!(all[1].snippet, "two");
    let two = merge_hits(&lanes, 2);
    assert_eq!(two.len(), 2);
    assert_eq!(two[1].url, all[1].url);
}

#[test]
fn an_attribute_is_known_by_its_whole_name() {
    let links = extract_links(
        r#"<a data-href="/no" href="/yes" title="t">x</a><a data-href="/none">y</a>"#,
        "https://example.com/",
    );
    assert_eq!(links.len(), 1);
    assert_eq!(links[0].href, "https://example.com/yes");
    let links = extract_links(r#"<a class="c"HREF='/glued'>z</a>"#, "https://example.com/");
    assert_eq!(links[0].href, "https://example.com/glued");
    assert_eq!(html_to_text(r#"<img data-alt="no" alt="yes">"#).trim(), "yes");
}

#[test]
fn an_unfinished_reference_keeps_what_follows() {
    assert_eq!(html_to_text("&#&amp;").trim(), "&#&");
    assert_eq!(html_to_text("a &# b &amp; c").trim(), "a &# b & c");
    assert_eq!(html_to_text("a &# b &amp; c; d &#65;").trim(), "a  d A");
    assert_eq!(html_to_text("&amp;#233; &#x41;&#bad;B").trim(), "&#233; AB");
    assert_eq!(html_to_text("&&#bad;#65; &#66").trim(), "A &#66");
    assert_eq!(html_to_text("a && b &&#67;&").trim(), "a && b &C&");
}
