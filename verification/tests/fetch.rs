use webscout::fetch::{
    batch_pages, body_allowed, ddg_url, dump_again, has_pdf_magic, html_page, jina_hits, jina_page,
    jina_refused, lane_results, length_allowed, merge_lanes, missing_queries, needs_render,
    pair_hits, part_documents, payload_downcast, pdf_page, pdf_text, route, tag_hits, Extracted,
    JinaItem, JinaRead, Obscura, PageContent, Payload, PdfParse, Rendered, Route,
    MAX_HTTP_PDF_BYTES,
};
use webscout::links::Link;
use webscout::search_cache::{Entry, SearchCache};
use webscout::types::Hit;

fn hit(title: &str, url: &str, snippet: &str, engine: &str) -> Hit {
    Hit {
        title: title.into(),
        url: url.into(),
        snippet: snippet.into(),
        engines: vec![engine.to_string()],
    }
}

fn strings(v: &[&str]) -> Vec<String> {
    v.iter().map(|s| s.to_string()).collect()
}

/// A minimal, entirely-ASCII single-page PDF built with correct xref offsets.
fn minimal_pdf(text: &str) -> Vec<u8> {
    let content = format!("BT /F1 24 Tf 72 720 Td ({text}) Tj ET");
    let objects: Vec<Vec<u8>> = vec![
        b"<< /Type /Catalog /Pages 2 0 R >>".to_vec(),
        b"<< /Type /Pages /Kids [3 0 R] /Count 1 >>".to_vec(),
        b"<< /Type /Page /Parent 2 0 R /MediaBox [0 0 612 792] /Contents 4 0 R /Resources << /Font << /F1 5 0 R >> >> >>".to_vec(),
        format!("<< /Length {} >>\nstream\n{content}\nendstream", content.len()).into_bytes(),
        b"<< /Type /Font /Subtype /Type1 /BaseFont /Helvetica >>".to_vec(),
    ];
    let mut out: Vec<u8> = b"%PDF-1.4\n".to_vec();
    let mut offsets: Vec<usize> = Vec::new();
    for (i, obj) in objects.iter().enumerate() {
        offsets.push(out.len());
        out.extend_from_slice(format!("{} 0 obj\n", i + 1).as_bytes());
        out.extend_from_slice(obj);
        out.extend_from_slice(b"\nendobj\n");
    }
    let xref_pos = out.len();
    out.extend_from_slice(format!("xref\n0 {}\n", objects.len() + 1).as_bytes());
    out.extend_from_slice(b"0000000000 65535 f \n");
    for off in offsets {
        out.extend_from_slice(format!("{off:010} 00000 n \n").as_bytes());
    }
    out.extend_from_slice(
        format!(
            "trailer\n<< /Size {} /Root 1 0 R >>\nstartxref\n{xref_pos}\n%%EOF",
            objects.len() + 1
        )
        .as_bytes(),
    );
    out
}

#[test]
fn pdf_text_extracts_from_a_real_pdf() {
    let bytes = minimal_pdf("NEOTEC 2024 GROWTHROADAI");
    assert!(has_pdf_magic(&bytes));
    let parse = match pdf_extract::extract_text_from_mem(&bytes) {
        Ok(t) => PdfParse::Text(t),
        Err(e) => PdfParse::Failed(e.to_string()),
    };
    let text = pdf_text(parse).expect("minimal pdf parses");
    assert!(text.contains("GROWTHROADAI"), "{text:?}");
}

#[test]
fn payload_downcast_reads_both_payload_shapes() {
    assert_eq!(payload_downcast(&Payload::Literal("literal".into())), "literal");
    assert_eq!(payload_downcast(&Payload::Owned("owned".into())), "owned");
    assert_eq!(payload_downcast(&Payload::Opaque), "non-string panic payload");
}

#[test]
fn a_panicking_pdf_parser_is_a_dropped_fetch_not_a_crash() {
    let reason = pdf_text(PdfParse::Panicked(Payload::Literal("first arg must be a name".into())))
        .expect_err("must not parse cleanly");
    assert!(reason.contains("panicked"), "{reason}");
}

#[test]
fn a_textless_pdf_is_reported_as_no_text() {
    assert_eq!(pdf_text(PdfParse::Text(" \n".into())).unwrap_err(), "no text");
    assert_eq!(pdf_text(PdfParse::Failed("eof".into())).unwrap_err(), "could not be parsed: eof");
    assert_eq!(pdf_text(PdfParse::Text("NEOTEC".into())).unwrap(), "NEOTEC");
}

#[test]
fn a_static_pdf_is_read_over_plain_http() {
    let url = "http://127.0.0.1:80/papers/elgamal.pdf";
    assert_eq!(route(200, "application/pdf", url), Route::Pdf);
    let mut body = b"%PDF-1.4\n".to_vec();
    body.extend_from_slice(b"...");
    assert!(body_allowed(&body));
    let page = pdf_page(url, url, PdfParse::Text("A Public Key Cryptosystem ElGamal".into()))
        .expect("a static PDF must not need the browser");
    assert!(page.text.contains("ElGamal"), "{:?}", page.text);
    assert_eq!(page.title, "elgamal.pdf");
    assert!(!page.rendered);
}

#[test]
fn a_challenge_page_posing_as_a_pdf_goes_to_the_browser() {
    assert_eq!(route(200, "application/pdf", "http://127.0.0.1:80/papers/elgamal.pdf"), Route::Pdf);
    assert!(!body_allowed(b"<html><body>Checking your browser...</body></html>"));
}

#[test]
fn the_mark_of_a_pdf_may_stand_behind_a_wrapper_but_not_far() {
    let mut b = vec![b' '; 1_020];
    b.extend_from_slice(b"%PDF");
    assert!(has_pdf_magic(&b));
    b.insert(0, b' ');
    assert!(!has_pdf_magic(&b));
    assert!(!has_pdf_magic(b"%PD"));
    assert!(!has_pdf_magic(b""));
}

#[test]
fn responses_are_routed_by_status_type_and_address() {
    assert_eq!(route(404, "text/html", "https://a.example/"), Route::Decline);
    assert_eq!(route(200, "text/html; charset=utf-8", "https://a.example/"), Route::Html);
    assert_eq!(route(200, "application/octet-stream", "https://a.example/x.PDF"), Route::Pdf);
    assert_eq!(route(200, "image/png", "https://a.example/x.png"), Route::Decline);
    assert!(length_allowed(None) && length_allowed(Some(MAX_HTTP_PDF_BYTES)));
    assert!(!length_allowed(Some(MAX_HTTP_PDF_BYTES + 1)));
}

#[test]
fn a_page_that_scripts_fill_is_left_to_the_browser() {
    let shell = format!("<html><head><style>{}</style></head><body>x</body></html>", "a".repeat(3_000));
    assert!(html_page("https://a.example/", "https://a.example/", &shell).is_none());
    let small = "<title>T</title><p>Hello <a href=\"/b\">b</a></p>";
    let p = html_page("https://a.example/x", "https://a.example/y", small).unwrap();
    assert_eq!(p.title, "T");
    assert_eq!(p.url, "https://a.example/y");
    assert_eq!(p.requested_url, "https://a.example/x");
    assert_eq!(p.links[0].href, "https://a.example/b");
    assert!(p.text.contains("Hello"));
}

#[test]
fn the_browser_is_driven_with_its_flags_in_front() {
    let mut o = Obscura::found("obscura", 0, 30);
    assert_eq!(o.concurrency, 1);
    assert!(o.global_flags().is_empty());
    o.stealth = true;
    o.obey_robots = true;
    o.concurrency = 4;
    assert_eq!(
        o.dump_args("https://a.example/x.pdf"),
        strings(&["--stealth", "--obey-robots", "fetch", "--dump", "original", "https://a.example/x.pdf"])
    );
    assert_eq!(o.dump_budget(), 45);
    assert_eq!(
        o.scrape_args(&strings(&["u1", "u2"]), "js"),
        strings(&[
            "--stealth", "--obey-robots", "scrape", "u1", "u2", "--quiet", "--format", "json",
            "--concurrency", "4", "--timeout", "30", "--eval", "js"
        ])
    );
    assert_eq!(o.scrape_budget(0), 60);
    assert_eq!(o.scrape_budget(4), 60);
    assert_eq!(o.scrape_budget(5), 90);
    assert_eq!(o.scrape_budget(32), 270);
}

#[test]
fn queries_are_searched_by_address() {
    assert_eq!(ddg_url("a b&c"), "https://html.duckduckgo.com/html/?q=a+b%26c");
}

#[test]
fn answers_are_paired_with_queries_by_position() {
    let out = pair_hits(
        &strings(&["a", "b", "c"]),
        &vec![None, Some(vec![hit("B", "https://b.example/", "s", "ddg")])],
        8,
    );
    assert_eq!(out.len(), 3);
    assert!(out[0].1.is_empty() && out[2].1.is_empty());
    assert_eq!(out[1].0, "b");
    assert_eq!(out[1].1[0].url, "https://b.example/");
}

/// A fully cached lane answers without a search.
#[test]
fn search_many_serves_a_cached_lane_without_calling_out() {
    let mut cache = SearchCache::new("/cache", 600);
    let kept = Entry::of_response(
        "jina",
        "decidim partners",
        5,
        &vec![hit("A", "https://a.example/", "s", "jina")],
        1_000,
    )
    .unwrap();
    let queries = strings(&["Decidim   Partners"]);
    let served = cache.serve(Some((&kept, 77)), "jina", &queries[0], 5, 1_100).unwrap();
    assert!(missing_queries(&queries, &vec![true]).is_empty(), "nothing is left to search");
    let lane = lane_results(&queries, &vec![(queries[0].clone(), served)], &Vec::new());
    let out = merge_lanes(&queries, &vec![lane], 5);
    assert_eq!(out.len(), 1);
    assert_eq!(out[0].0, "Decidim   Partners", "keyed by the query as asked");
    assert_eq!(out[0].1.len(), 1);
    assert_eq!(out[0].1[0].url, "https://a.example/");
    assert_eq!(out[0].1[0].engines, vec!["jina".to_string()]);
    let (hits, misses, bytes) = cache.summary();
    assert_eq!((hits, misses), (1, 0));
    assert!(bytes > 0);
}

#[test]
fn search_many_with_no_lanes_returns_empty_results_per_query() {
    let out = merge_lanes(&strings(&["q"]), &Vec::new(), 3);
    assert_eq!(out.len(), 1);
    assert!(out[0].1.is_empty());
}

#[test]
fn a_query_that_is_asked_twice_is_searched_once() {
    let queries = strings(&["a", "b", "a", "c"]);
    assert_eq!(missing_queries(&queries, &vec![false, true, false, false]), strings(&["a", "c"]));
    let fresh = vec![("a".to_string(), vec![hit("A", "https://a.example/", "s", "ddg")])];
    let out = lane_results(&queries, &Vec::new(), &fresh);
    assert_eq!(out[0].1.len(), 1);
    assert_eq!(out[2].1.len(), 1);
    assert!(out[1].1.is_empty());
}

#[test]
fn a_lane_that_failed_costs_only_its_own_results() {
    let queries = strings(&["a"]);
    let good = vec![("a".to_string(), vec![hit("A", "https://a.example/", "s", "ddg")])];
    let out = merge_lanes(&queries, &vec![Vec::new(), good], 5);
    assert_eq!(out[0].1.len(), 1);
}

#[test]
fn hits_say_which_lane_returned_them() {
    let mut hits = vec![
        hit("A", "https://a.example/", "s", "ddg"),
        hit("B", "https://b.example/", "s", "jina"),
    ];
    tag_hits(&mut hits, "jina");
    assert_eq!(hits[0].engines, strings(&["ddg", "jina"]));
    assert_eq!(hits[1].engines, strings(&["jina"]));
}

fn item(title: &str, url: &str, description: &str, content: &str) -> JinaItem {
    JinaItem {
        title: title.into(),
        url: url.into(),
        description: description.into(),
        content: content.into(),
    }
}

#[test]
fn hosted_hits_need_a_title_and_an_address() {
    let hits = jina_hits(
        &vec![
            item("", "https://x.example/", "d", "c"),
            item("A", "", "d", "c"),
            item("A", "https://a.example/", "", "content"),
            item("B", "https://b.example/", "said", "content"),
        ],
        8,
    );
    assert_eq!(hits.len(), 2);
    assert_eq!(hits[0].snippet, "content");
    assert_eq!(hits[1].snippet, "said");
    assert_eq!(hits[0].engines, strings(&["jina"]));
}

fn rendered(url: &str, content: Option<(&str, &str)>) -> Rendered {
    Rendered {
        url: url.into(),
        title: "from the tab".into(),
        content: content.map(|(title, text)| Extracted {
            title: title.into(),
            text: text.into(),
            links: vec![Link { href: "https://l.example/".into(), text: "l".into() }],
        }),
    }
}

#[test]
fn a_batch_returns_whatever_succeeded() {
    let document = PageContent {
        url: "https://a.example/x.pdf".into(),
        requested_url: "https://a.example/x.pdf".into(),
        title: "x.pdf".into(),
        text: "t".into(),
        links: Vec::new(),
        rendered: false,
    };
    let urls = strings(&["https://1.example/", "https://2.example/", "https://3.example/"]);
    let pages = batch_pages(
        vec![document],
        &urls,
        &vec![
            rendered("https://1.example/final", Some(("", "text"))),
            rendered("https://2.example/", Some(("T", "  "))),
            rendered("https://3.example/", None),
        ],
    );
    assert_eq!(pages.len(), 2, "the document and the one page with text");
    assert_eq!(pages[0].title, "x.pdf");
    assert_eq!(pages[1].title, "from the tab");
    assert_eq!(pages[1].requested_url, "https://1.example/");
    assert_eq!(pages[1].url, "https://1.example/final");
    assert!(pages[1].rendered);
    let pages = batch_pages(Vec::new(), &urls, &vec![rendered("https://9.example/", Some(("T", "x")))]);
    assert_eq!(pages[0].requested_url, "https://9.example/");
}

#[test]
fn documents_are_told_from_pages() {
    let (pdfs, pages) =
        part_documents(&strings(&["https://a.example/x.pdf", "https://a.example/y", "nonsense"]));
    assert_eq!(pdfs, strings(&["https://a.example/x.pdf"]));
    assert_eq!(pages, strings(&["https://a.example/y", "nonsense"]));
}

#[test]
fn what_plain_http_did_not_read_is_rendered() {
    let left = needs_render(&vec![("a".to_string(), None), ("b".to_string(), None)]);
    assert_eq!(left, strings(&["a", "b"]));
}

fn read(content: &str, status: Option<u16>) -> Option<JinaRead> {
    Some(JinaRead {
        title: "T".into(),
        url: "".into(),
        content: content.into(),
        http_status: status,
    })
}

#[test]
fn a_site_that_refused_the_reader_is_no_page() {
    let url = "https://a.example/p";
    assert_eq!(jina_page(url, None).unwrap_err(), "jina returned no data for https://a.example/p");
    assert_eq!(
        jina_page(url, read("Why have I been blocked?", Some(403))).unwrap_err(),
        "https://a.example/p returned HTTP 403 to the reader (likely blocked or missing)"
    );
    assert_eq!(
        jina_page(url, read(" ", None)).unwrap_err(),
        "https://a.example/p returned no readable text"
    );
    let p = jina_page(url, read("See [b](/b)", Some(200))).unwrap();
    assert_eq!(p.url, url);
    assert_eq!(p.links[0].href, "https://a.example/b");
    assert!(p.rendered);
}

#[test]
fn a_hosted_call_that_failed_says_how() {
    assert!(jina_refused("read", 200, "200 OK", "x").is_none());
    assert_eq!(
        jina_refused("search", 402, "402 Payment Required", "no credit").unwrap(),
        "jina search returned HTTP 402 Payment Required: no credit"
    );
}

#[test]
fn a_document_is_dumped_twice_at_most() {
    assert!(dump_again(0) && dump_again(1) && !dump_again(2));
}
