use webscout::output::{
    columns, escape_pipes, gloss, parse_format, render, render_csv, spreadsheet, stats_line, Format,
    Serialized,
};
use webscout::json::Json;
use webscout::runs::{
    closing_lines, render_all, result_line, stats_event, usage_line, CostTexts, Ending,
};
use webscout::types::{
    EntityBinding, FieldSource, Figure, Mission, MissionKind, Outcome, Passage, Record, ScoutReport,
    Stats,
};
use webscout::usage::UsageSnapshot;

fn share(x: f64) -> Figure {
    Figure { bits: x.to_bits(), text: format!("{x:.2}") }
}

fn sample() -> ScoutReport {
    ScoutReport {
        query: "cooperatives with emails".into(),
        mission: Mission {
            query: "cooperatives with emails".into(),
            kind: MissionKind::Harvest,
            target_count: Some(2),
            fields: vec!["name".into(), "email".into()],
            topic: "cooperatives".into(),
            entity_field: "name".into(),
            ..Default::default()
        },
        outcome: Outcome::Partial,
        records: vec![Record {
            fields: vec![
                ("email".to_string(), "info@alpha.coop".to_string()),
                ("name".to_string(), "Coop Alpha".to_string()),
            ],
            source_url: "https://example.org/list".into(),
            source_title: Some("List".into()),
            grounding: share(0.93),
            provenance: Vec::new(),
            constraint_support: share(1.0),
            constraint_status: Vec::new(),
            entity_binding: EntityBinding::Unresolved,
        }],
        answer: None,
        evidence: vec![],
        sources: vec!["https://example.org/list".into()],
        quarantined_sources: vec![],
        notes: vec![],
        stats: Stats::default(),
    }
}

/// A report where the email field was sourced from a different page.
fn sample_with_provenance() -> ScoutReport {
    let mut r = sample();
    r.records[0].provenance.push((
        "email".to_string(),
        FieldSource { source_url: "https://example.org/contact".into(), grounding: share(0.88) },
    ));
    r
}

fn parts() -> Serialized {
    Serialized {
        document: "{}".into(),
        records: vec!["{\"fields\":{}}".into()],
        answer: None,
        evidence: vec![],
        summary: "{\"outcome\":\"partial\",\"type\":\"summary\"}".into(),
    }
}

fn shown(r: &ScoutReport, format: Format) -> String {
    render(r, format, &parts()).unwrap()
}

#[test]
fn csv_has_header_and_row() {
    let out = shown(&sample(), Format::Csv);
    let mut lines = out.lines();
    assert_eq!(lines.next().unwrap(), "name,email,source_url,grounding,constraint_support");
    assert!(lines.next().unwrap().starts_with("Coop Alpha,info@alpha.coop,"));
}

#[test]
fn csv_adds_provenance_source_url_column() {
    let out = shown(&sample_with_provenance(), Format::Csv);
    let mut lines = out.lines();
    let header = lines.next().unwrap();
    assert!(
        header.contains("email_source_url"),
        "header should contain email_source_url: {header}"
    );
    let row = lines.next().unwrap();
    assert!(
        row.contains("https://example.org/contact"),
        "row should contain the provenance URL: {row}"
    );
}

#[test]
fn csv_no_extra_col_when_provenance_matches_source_url() {
    let mut r = sample();
    // Provenance URL == source_url → no extra column.
    r.records[0].provenance.push((
        "email".to_string(),
        FieldSource { source_url: "https://example.org/list".into(), grounding: share(0.93) },
    ));
    let out = shown(&r, Format::Csv);
    assert!(
        !out.contains("email_source_url"),
        "should not add column when provenance matches source_url: {out}"
    );
}

#[test]
fn csv_quotes_what_would_break_a_cell() {
    let mut r = sample();
    r.records[0].fields[1].1 = "Coop \"Alpha\", Ltd".into();
    let out = render_csv(&r).unwrap();
    assert!(out.contains("\"Coop \"\"Alpha\"\", Ltd\",info@alpha.coop"), "{out}");
}

#[test]
fn every_row_of_a_sheet_is_as_wide_as_its_header() {
    let sheet = spreadsheet(&sample_with_provenance());
    assert_eq!(sheet.len(), 2);
    assert_eq!(sheet[0].len(), sheet[1].len());
    assert_eq!(columns(&sample()), vec!["name", "email"]);
}

#[test]
fn jsonl_emits_one_record_then_a_summary() {
    let out = shown(&sample(), Format::Jsonl);
    let lines: Vec<&str> = out.lines().collect();
    assert_eq!(lines.len(), 2, "one record plus one summary");
    let summary: serde_json::Value = serde_json::from_str(lines[1]).unwrap();
    assert_eq!(summary["type"], "summary");
    assert_eq!(summary["outcome"], "partial");
}

#[test]
fn markdown_columns_follow_the_mission_field_order() {
    let out = shown(&sample(), Format::Markdown);
    assert!(out.contains("| # | name | email | source | grounding |"), "got:\n{out}");
}

#[test]
fn markdown_table_rows_all_have_the_same_cell_count() {
    let out = shown(&sample(), Format::Markdown);
    let rows: Vec<&str> = out.lines().filter(|l| l.trim_start().starts_with('|')).collect();
    assert!(rows.len() >= 3, "expected a table, got:\n{out}");
    let cells = |row: &str| row.trim().trim_matches('|').split('|').count();
    let header = cells(rows[0]);
    for (i, row) in rows.iter().enumerate() {
        assert_eq!(
            cells(row),
            header,
            "row {i} has {} cells against a {header}-cell header:\n{row}",
            cells(row)
        );
    }
    assert!(!out.contains("||"), "a doubled pipe breaks the table:\n{out}");
}

#[test]
fn markdown_escapes_pipes_in_values() {
    let mut r = sample();
    r.records[0].fields[1].1 = "A | B".into();
    let out = shown(&r, Format::Markdown);
    assert!(out.contains(r"A \| B"));
    assert_eq!(escape_pipes("a|b\nc"), r"a\|b c");
}

#[test]
fn terminal_shows_per_field_provenance_when_different() {
    let out = shown(&sample_with_provenance(), Format::Terminal);
    assert!(
        out.contains("← https://example.org/contact"),
        "terminal should show per-field provenance: {out}"
    );
}

#[test]
fn stats_line_shows_enrichment_when_nonzero() {
    let mut r = sample();
    r.stats.entities_discovered = 10;
    r.stats.entities_enriched = 5;
    r.stats.links_followed = 3;
    let out = shown(&r, Format::Terminal);
    assert!(out.contains("10 discovered"), "got: {out}");
    assert!(out.contains("5 enriched"), "got: {out}");
    assert!(out.contains("Links followed: 3"), "got: {out}");
}

/// An answer report whose second sentence was marked by the per-claim check.
fn sample_marked_answer() -> ScoutReport {
    let mut r = sample();
    r.mission.kind = MissionKind::Answer;
    r.mission.fields.clear();
    r.records.clear();
    r.outcome = Outcome::Partial;
    r.answer = Some(
        "Three seasons have been released [2]. The fourth season will premiere in \
         March 2027 on HBO Max. [unsupported]"
            .into(),
    );
    r.stats.claims_checked = 2;
    r.stats.unsupported_claims = 1;
    r
}

#[test]
fn terminal_shows_the_unsupported_marker_in_the_answer_text() {
    let out = shown(&sample_marked_answer(), Format::Terminal);
    assert!(
        out.contains("March 2027 on HBO Max. [unsupported]"),
        "the marker is part of the answer and must render: {out}"
    );
}

#[test]
fn markdown_shows_the_unsupported_marker_in_the_answer_text() {
    let out = shown(&sample_marked_answer(), Format::Markdown);
    assert!(out.contains("[unsupported]"), "got: {out}");
}

#[test]
fn stats_line_reports_unsupported_claims_when_nonzero() {
    let out = shown(&sample_marked_answer(), Format::Terminal);
    assert!(out.contains("1 of 2 answer claim(s) unsupported"), "got: {out}");
}

#[test]
fn stats_line_silent_about_claims_when_none_were_unsupported() {
    let mut r = sample_marked_answer();
    r.stats.unsupported_claims = 0;
    let out = shown(&r, Format::Terminal);
    assert!(!out.contains("unsupported by the evidence"), "got: {out}");
}

#[test]
fn stats_line_silent_when_enrichment_zero() {
    let out = shown(&sample(), Format::Terminal);
    assert!(!out.contains("discovered"), "got: {out}");
    assert!(!out.contains("enriched"), "got: {out}");
}

#[test]
fn statistics_are_one_line() {
    let mut r = sample();
    r.stats.rounds = 2;
    r.stats.jev_requests = 7;
    assert_eq!(
        stats_line(&r),
        "2 round(s), 0 queries, 0 pages, 0 chunks in 0.0s. Jev: 7 requests, 0 tokens, $0.0000. LLM: 0 requests, 0 prompt + 0 completion tokens."
    );
}

#[test]
fn outcomes_are_put_in_words() {
    assert_eq!(
        gloss(&sample()),
        "found 1 of the 2 requested; the reachable web ran out first"
    );
    let mut r = sample_marked_answer();
    r.outcome = Outcome::Complete;
    assert_eq!(gloss(&r), "the evidence answers the question");
}

#[test]
fn an_answer_lists_its_sources_by_number() {
    let mut r = sample_marked_answer();
    r.evidence = vec![Passage {
        url: "https://a.example/".into(),
        title: "A".into(),
        text: "t".into(),
        supports: share(0.7),
        injection: share(0.0),
        currency: share(0.0),
    }];
    let out = shown(&r, Format::Terminal);
    assert!(out.contains("  [1] https://a.example/"), "{out}");
}

#[test]
fn names_of_formats_read_as_formats() {
    assert_eq!(parse_format("csv"), Some(Format::Csv));
    assert_eq!(parse_format("pdf"), None);
}

#[test]
fn every_offered_format_is_rendered_once() {
    let all = render_all(&sample(), &parts());
    let names: Vec<&str> = all.iter().map(|p| p.0.as_str()).collect();
    assert_eq!(names, webscout::options::format_names());
    for (name, text) in &all {
        assert_eq!(*text, shown(&sample(), parse_format(name).unwrap()), "{name}");
    }
}

#[test]
fn the_stats_event_sums_up_a_run() {
    let mut r = sample();
    r.stats.elapsed_ms = 1500;
    r.stats.jev_requests = 4;
    r.stats.llm_requests = 2;
    r.stats.planner_requests = 1;
    r.stats.pages_fetched = 9;
    assert_eq!(
        stats_event(&r),
        "{\"elapsed_ms\":1500,\"jev_requests\":4,\"llm_requests\":3,\"pages_fetched\":9,\
         \"records\":1,\"type\":\"stats\"}\n"
    );
}

fn no_costs() -> CostTexts {
    CostTexts { jev: "0.0".into(), llm: "0.0".into(), planner: "0.0".into() }
}

#[test]
fn a_finished_run_ends_with_its_own_numbers_and_its_result() {
    let mut r = sample();
    r.stats.elapsed_ms = 1500;
    let formats = render_all(&r, &parts());
    let stats = || Json::Object(vec![("rounds".to_string(), Json::Whole(3))]);
    let lines = closing_lines(
        &Vec::new(),
        Ending::Report {
            report: &r,
            costs: no_costs(),
            format: Format::Csv,
            formats: &formats,
            stats: stats(),
            mission: Json::Null,
        },
    );
    assert_eq!(lines.len(), 3);
    assert_eq!(lines[0], stats_event(&r));
    assert_eq!(lines[1], usage_line(&UsageSnapshot::from_stats(&r.stats), &no_costs(), 1500));
    let csv = shown(&r, Format::Csv);
    assert_eq!(lines[2], result_line(Outcome::Partial, Format::Csv, &csv, stats(), Json::Null));
}
