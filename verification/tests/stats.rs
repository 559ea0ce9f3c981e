use webscout::clock::rfc3339;
use webscout::dashboard::{dashboard, fits, Figures, KindFigures, PointFigures, RunFigures};
use webscout::json::Json;
use webscout::stats::{
    aggregate, can_aggregate, clamp_days, default_data_dir, log_lines, percentile, BaseDir, Bucket,
    RunRecord,
};
use webscout::types::{Figure, Mission, Outcome, Real, ScoutReport, Stats};
use webscout::usage::UsageSnapshot;

/// 2026-09-24T10:30:00Z, a Thursday.
const NOW: u64 = 1_790_245_800;
const H: u64 = 3_600;
const D: u64 = 86_400;

fn double(x: f64) -> Real {
    Real { bits: x.to_bits() }
}

fn run(started_at: u64, outcome: &str, kind: &str, elapsed_ms: u64, jev: f64) -> RunRecord {
    RunRecord {
        id: format!("r{started_at}"),
        started_at,
        elapsed_ms,
        query: "q".into(),
        kind: kind.into(),
        source: "ui".into(),
        preset: "standard".into(),
        outcome: outcome.into(),
        jev_cost_usd: double(jev),
        ..Default::default()
    }
}

fn cost(r: &RunRecord) -> f64 {
    let (a, b, c) = r.cost_usd();
    f64::from_bits(a.bits) + f64::from_bits(b.bits) + f64::from_bits(c.bits)
}

fn dollars(all: &[RunRecord], idx: &[usize]) -> f64 {
    let sum: f64 = idx.iter().map(|i| cost(&all[*i])).sum();
    (sum * 1e6).round() / 1e6
}

fn figure(x: f64) -> Figure {
    Figure { bits: x.to_bits(), text: format!("{x:?}") }
}

fn mean(sum: f64, n: usize) -> f64 {
    if n == 0 { 0.0 } else { sum / n as f64 }
}

fn kind(all: &[RunRecord], idx: &[usize], complete: usize) -> KindFigures {
    let ms: u64 = idx.iter().map(|i| all[*i].elapsed_ms).sum();
    KindFigures {
        avg_cost_usd: figure(mean(dollars(all, idx), idx.len())),
        avg_elapsed_s: figure(mean(ms as f64 / 1000.0, idx.len())),
        success_rate: figure(mean(complete as f64, idx.len())),
    }
}

/// The reply for a range, with its figures worked out plainly.
fn page(all: &Vec<RunRecord>, bucket: Bucket, days: u32) -> Json {
    assert!(can_aggregate(NOW, bucket, days));
    let s = aggregate(all, NOW, bucket, days);
    assert!(fits(&s));
    let every: Vec<usize> = (0..all.len()).collect();
    let part = |f: fn(&RunRecord) -> f64| figure(s.runs.iter().map(|i| f(&all[*i])).sum());
    let whole = kind(all, &s.runs, s.outcomes.complete);
    let figures = Figures {
        cost_usd: figure(dollars(all, &s.runs)),
        avg_cost_usd: whole.avg_cost_usd,
        avg_elapsed_s: whole.avg_elapsed_s,
        p50_elapsed_s: figure(s.p50_ms as f64 / 1000.0),
        p90_elapsed_s: figure(s.p90_ms as f64 / 1000.0),
        success_rate: whole.success_rate,
        jev_usd: part(|r| f64::from_bits(r.jev_cost_usd.bits)),
        writer_usd: part(|r| r.llm_cost_usd.map_or(0.0, |c| f64::from_bits(c.bits))),
        planner_usd: part(|r| r.planner_cost_usd.map_or(0.0, |c| f64::from_bits(c.bits))),
        total_usd: figure(dollars(all, &s.runs)),
        all_time_usd: figure(dollars(all, &every)),
        answer: kind(all, &s.answers, s.complete_answers),
        harvest: kind(all, &s.harvests, s.complete_harvests),
        series: s
            .series
            .iter()
            .map(|p| PointFigures {
                cost_usd: figure(dollars(all, &p.runs)),
                avg_elapsed_s: kind(all, &p.runs, 0).avg_elapsed_s,
            })
            .collect(),
        recent: s
            .recent
            .iter()
            .map(|i| RunFigures {
                cost_usd: figure(cost(&all[*i])),
                elapsed_s: figure(all[*i].elapsed_ms as f64 / 1000.0),
            })
            .collect(),
    };
    dashboard(all, &s, &figures, NOW, bucket, days)
}

fn at<'a>(j: &'a Json, path: &[&str]) -> &'a Json {
    path.iter().fold(j, |j, name| j.get(name).expect(name))
}

fn count(j: &Json, path: &[&str]) -> u64 {
    at(j, path).as_u64().expect("a whole number")
}

fn words<'a>(j: &'a Json, path: &[&str]) -> &'a str {
    at(j, path).as_str().expect("a text")
}

fn amount(j: &Json, path: &[&str]) -> f64 {
    match at(j, path) {
        Json::Real(f) => f64::from_bits(f.bits),
        other => panic!("{other:?} is no figure"),
    }
}

#[test]
fn the_test_clock_is_what_it_says() {
    assert_eq!(rfc3339(NOW), "2026-09-24T10:30:00Z");
}

#[test]
fn buckets_align_to_utc_hours_days_and_iso_weeks() {
    assert_eq!(rfc3339(Bucket::Hour.align(NOW)), "2026-09-24T10:00:00Z");
    assert_eq!(rfc3339(Bucket::Day.align(NOW)), "2026-09-24T00:00:00Z");
    // Thursday 24 September → Monday 21 September.
    assert_eq!(rfc3339(Bucket::Week.align(NOW)), "2026-09-21T00:00:00Z");
    // A Monday is its own week start; a Sunday belongs to the Monday before.
    let monday = Bucket::Week.align(NOW);
    assert_eq!(Bucket::Week.align(monday), monday);
    assert_eq!(Bucket::Week.align(monday - 1), monday - 7 * D);
    assert_eq!(rfc3339(Bucket::Week.align(5 * D)), "1970-01-05T00:00:00Z");
}

#[test]
fn days_are_clamped_and_hourly_ranges_capped_at_a_week() {
    assert_eq!(clamp_days(Bucket::Day, 0), 1);
    assert_eq!(clamp_days(Bucket::Day, -4), 1);
    assert_eq!(clamp_days(Bucket::Day, 9_999), 365);
    assert_eq!(clamp_days(Bucket::Hour, 30), 7);
    assert_eq!(clamp_days(Bucket::Week, 30), 30);
}

#[test]
fn the_series_is_contiguous_zero_filled_and_oldest_first() {
    let v = aggregate(&vec![], NOW, Bucket::Day, 30);
    let s = &v.series;
    assert_eq!(s.len(), 30);
    assert_eq!(rfc3339(s[0].start), "2026-08-26T00:00:00Z");
    assert_eq!(rfc3339(s[29].start), "2026-09-24T00:00:00Z");
    assert!(s.iter().all(|p| p.runs.is_empty()));
    assert_eq!(rfc3339(v.from), "2026-08-26T00:00:00Z");
    let v = page(&vec![], Bucket::Day, 30);
    let s = at(&v, &["series"]).as_list().unwrap();
    assert_eq!(s.len(), 30);
    assert_eq!(words(&s[0], &["t"]), "2026-08-26T00:00:00Z");
    assert_eq!(words(&s[29], &["t"]), "2026-09-24T00:00:00Z");
    assert!(s.iter().all(|p| count(p, &["runs"]) == 0 && amount(p, &["cost_usd"]) == 0.0));
    assert_eq!(words(&v, &["range", "from"]), "2026-08-26T00:00:00Z");
    assert_eq!(words(&v, &["range", "to"]), "2026-09-24T10:30:00Z");
    assert_eq!(count(&v, &["range", "days"]), 30);

    let v = aggregate(&vec![], NOW, Bucket::Hour, 1);
    let s = &v.series;
    assert_eq!(s.len(), 24);
    assert_eq!(rfc3339(s[23].start), "2026-09-24T10:00:00Z");

    // Seven days back from Thursday 24 September starts on Friday the
    // 18th, in the week of Monday the 14th: two weeks.
    let v = aggregate(&vec![], NOW, Bucket::Week, 7);
    let s = &v.series;
    assert_eq!(s.len(), 2);
    assert_eq!(rfc3339(s[0].start), "2026-09-14T00:00:00Z");
    let v = aggregate(&vec![], NOW, Bucket::Week, 30);
    let s = &v.series;
    // 26 August (a Wednesday) → Monday 24 August; five Mondays to 21 September.
    assert_eq!(rfc3339(s[0].start), "2026-08-24T00:00:00Z");
    assert_eq!(s.len(), 5);
    assert!(s.windows(2).all(|w| w[0].start < w[1].start));
}

#[test]
fn runs_land_in_their_bucket_and_the_range_filters() {
    let runs = vec![
        run(NOW - 10, "complete", "answer", 10_000, 0.01),
        run(NOW - 2 * H, "failed", "unknown", 3_000, 0.002),
        run(NOW - D, "partial", "harvest", 60_000, 0.1),
        run(NOW - 40 * D, "complete", "answer", 1_000, 1.0), // outside 30 days
        run(NOW + 60, "complete", "answer", 1_000, 1.0),     // in the future
    ];
    let v = aggregate(&runs, NOW, Bucket::Day, 30);
    assert_eq!(v.runs.len(), 3);
    assert_eq!(v.outcomes.complete, 1);
    assert_eq!(v.outcomes.failed, 1);
    assert_eq!(v.outcomes.partial, 1);
    assert_eq!(v.answers.len(), 1);
    assert_eq!(v.harvests.len(), 1);
    assert_eq!(v.ui, 3);
    assert_eq!(dollars(&runs, &v.runs), 0.112);
    assert_eq!((v.outcomes.complete as f64 / v.runs.len() as f64 * 1e4).round() / 1e4, 0.3333);
    let s = &v.series;
    assert_eq!(s[29].runs.len(), 2, "today: the complete and the failed run");
    assert_eq!(s[28].runs.len(), 1, "yesterday: the partial run");
    assert_eq!(s[28].outcomes.partial, 1);
    assert_eq!(runs[s[28].runs[0]].elapsed_ms, 60_000);

    // Hourly over one day keeps yesterday's run out.
    let v = aggregate(&runs, NOW, Bucket::Hour, 1);
    assert_eq!(v.runs.len(), 2);
    let s = &v.series;
    assert_eq!(s[23].outcomes.complete, 1);
    assert_eq!(s[21].outcomes.failed, 1);

    // The first run of the whole log ignores the range.
    assert_eq!(dollars(&runs, &[0, 1, 2, 3, 4]), 2.112);
    assert_eq!(v.first_run_at, Some(NOW - 40 * D));

    // recent: newest first, range only.
    assert_eq!(v.recent.len(), 2);
    assert_eq!(runs[v.recent[0]].outcome, "complete");
    assert_eq!(runs[v.recent[0]].elapsed_ms, 10_000);
    assert_eq!(runs[v.recent[1]].outcome, "failed");

    let v = page(&runs, Bucket::Day, 30);
    for (name, n) in [("runs", 3), ("complete", 1), ("failed", 1), ("partial", 1)] {
        assert_eq!(count(&v, &["totals", name]), n, "{name}");
    }
    for (name, n) in [("answer", 1), ("harvest", 1), ("ui", 3), ("mcp", 0), ("cancelled", 0)] {
        assert_eq!(count(&v, &["totals", name]), n, "{name}");
    }
    assert_eq!(amount(&v, &["totals", "cost_usd"]), 0.112);
    let s = at(&v, &["series"]).as_list().unwrap();
    assert_eq!(count(&s[29], &["runs"]), 2, "today: the complete and the failed run");
    assert_eq!(count(&s[28], &["runs"]), 1, "yesterday: the partial run");
    assert_eq!(count(&s[28], &["partial"]), 1);
    assert_eq!(amount(&s[28], &["avg_elapsed_s"]), 60.0);
    let v = page(&runs, Bucket::Hour, 1);
    assert_eq!(count(&v, &["totals", "runs"]), 2);
    assert_eq!(count(&v, &["all_time", "runs"]), 5);
    assert_eq!(amount(&v, &["all_time", "cost_usd"]), 2.112);
    assert_eq!(words(&v, &["all_time", "first_run_at"]), rfc3339(NOW - 40 * D));
    let recent = at(&v, &["recent"]).as_list().unwrap();
    assert_eq!(recent.len(), 2);
    assert_eq!(words(&recent[0], &["outcome"]), "complete");
    assert_eq!(amount(&recent[0], &["elapsed_s"]), 10.0);
    assert_eq!(words(&recent[1], &["outcome"]), "failed");
}

#[test]
fn by_kind_and_by_preset_split_the_range() {
    let mut quick = run(NOW - 5, "empty", "answer", 4_000, 0.0);
    quick.preset = "quick".into();
    let runs = vec![
        run(NOW - 1, "complete", "answer", 2_000, 0.02),
        quick,
        run(NOW - 9, "complete", "harvest", 100_000, 0.5),
    ];
    let v = aggregate(&runs, NOW, Bucket::Day, 1);
    assert_eq!(v.answers.len(), 2);
    assert_eq!(v.complete_answers as f64 / v.answers.len() as f64, 0.5);
    let total: u64 = v.answers.iter().map(|i| runs[*i].elapsed_ms).sum();
    assert_eq!(total as f64 / 1000.0 / v.answers.len() as f64, 3.0);
    assert_eq!(dollars(&runs, &v.answers) / v.answers.len() as f64, 0.01);
    assert_eq!(v.complete_harvests as f64 / v.harvests.len() as f64, 1.0);
    assert_eq!(v.quick, 1);
    assert_eq!(v.standard, 2);
    assert_eq!(v.thorough, 0);
    let v = page(&runs, Bucket::Day, 1);
    assert_eq!(count(&v, &["by_kind", "answer", "runs"]), 2);
    assert_eq!(amount(&v, &["by_kind", "answer", "success_rate"]), 0.5);
    assert_eq!(amount(&v, &["by_kind", "answer", "avg_elapsed_s"]), 3.0);
    assert_eq!(amount(&v, &["by_kind", "answer", "avg_cost_usd"]), 0.01);
    assert_eq!(amount(&v, &["by_kind", "harvest", "success_rate"]), 1.0);
    assert_eq!(count(&v, &["by_preset", "quick"]), 1);
    assert_eq!(count(&v, &["by_preset", "standard"]), 2);
    assert_eq!(count(&v, &["by_preset", "thorough"]), 0);
}

#[test]
fn empty_ranges_report_zeros_not_nans() {
    let v = aggregate(&vec![], NOW, Bucket::Day, 7);
    assert_eq!((v.p50_ms, v.p90_ms), (0, 0));
    assert!(v.runs.is_empty());
    assert_eq!(v.first_run_at, None);
    assert_eq!((v.harvests.len(), v.complete_harvests), (0, 0));
    let v = page(&vec![], Bucket::Day, 7);
    for k in ["avg_cost_usd", "avg_elapsed_s", "p50_elapsed_s", "p90_elapsed_s", "success_rate"] {
        assert_eq!(amount(&v, &["totals", k]), 0.0, "{k}");
    }
    assert!(matches!(at(&v, &["all_time", "first_run_at"]), Json::Null));
    assert_eq!(amount(&v, &["by_kind", "harvest", "success_rate"]), 0.0);
}

#[test]
fn percentiles_are_nearest_rank() {
    let xs: Vec<u64> = (1..=10).collect();
    assert_eq!(percentile(&xs, 50), 5);
    assert_eq!(percentile(&xs, 90), 9);
    assert_eq!(percentile(&[7], 90), 7);
    assert_eq!(percentile(&[1, 2, 3], 50), 2);
    assert_eq!(percentile(&[1, 2, 3], 90), 3);
    assert_eq!(percentile(&[], 50), 0);

    let runs: Vec<RunRecord> = (1..=10)
        .map(|i| run(NOW - i, "complete", "answer", i * 1_000, 0.0))
        .collect();
    let v = aggregate(&runs, NOW, Bucket::Day, 1);
    assert_eq!(v.p50_ms, 5_000);
    assert_eq!(v.p90_ms, 9_000);
    let total: u64 = v.runs.iter().map(|i| runs[*i].elapsed_ms).sum();
    assert_eq!(total as f64 / 1000.0 / v.runs.len() as f64, 5.5);
    let v = page(&runs, Bucket::Day, 1);
    assert_eq!(amount(&v, &["totals", "p50_elapsed_s"]), 5.0);
    assert_eq!(amount(&v, &["totals", "p90_elapsed_s"]), 9.0);
    assert_eq!(amount(&v, &["totals", "avg_elapsed_s"]), 5.5);
}

#[test]
fn cost_counts_unreported_prices_as_nothing() {
    let mut r = run(NOW, "complete", "answer", 0, 0.01);
    r.llm_cost_usd = Some(double(0.02));
    assert!((cost(&r) - 0.03).abs() < 1e-12);
    r.planner_cost_usd = Some(double(0.5));
    assert!((cost(&r) - 0.53).abs() < 1e-12);
    let v = page(&vec![r], Bucket::Day, 1);
    assert_eq!(amount(&v, &["cost", "writer_usd"]), 0.02);
    assert_eq!(amount(&v, &["cost", "planner_usd"]), 0.5);
    assert_eq!(amount(&v, &["cost", "total_usd"]), 0.53);
}

#[test]
fn the_log_skips_blank_lines_and_numbers_the_others() {
    let lines = log_lines("{\"id\":\"a\"}\r\n\n   \n{\"id\":\"torn\n");
    assert_eq!(
        lines.iter().map(|(n, l)| (*n, l.as_str())).collect::<Vec<_>>(),
        vec![(1, "{\"id\":\"a\"}"), (4, "{\"id\":\"torn")]
    );
}

#[test]
fn names_of_buckets_read_back() {
    for b in [Bucket::Hour, Bucket::Day, Bucket::Week] {
        assert_eq!(Bucket::parse(b.as_str()), Some(b));
    }
    assert_eq!(Bucket::parse("month"), None);
}

#[test]
fn a_record_follows_its_run() {
    let begun = RunRecord::begin_at("id", "q", "mcp", "quick", 77);
    assert_eq!(begun.started_at, 77);
    assert_eq!(begun.kind, "unknown");
    let failed = begun.failed("boom", 12, &UsageSnapshot::default());
    assert_eq!(failed.outcome, "failed");
    assert_eq!(failed.error.as_deref(), Some("boom"));
    let cancelled =
        RunRecord::begin_at("id", "q", "mcp", "quick", 77).cancelled(5, &UsageSnapshot::default());
    assert_eq!(cancelled.outcome, "cancelled");
    assert_eq!(cancelled.elapsed_ms, 5);
    let report = ScoutReport {
        query: "q".into(),
        mission: Mission::default(),
        outcome: Outcome::Complete,
        records: Vec::new(),
        answer: None,
        evidence: Vec::new(),
        sources: Vec::new(),
        quarantined_sources: Vec::new(),
        notes: Vec::new(),
        stats: Stats {
            rounds: 2,
            pages_fetched: 9,
            elapsed_ms: 4_321,
            llm_requests: 1,
            llm_cost_usd: Some(Figure { bits: 0.25f64.to_bits(), text: "0.2500".into() }),
            ..Default::default()
        },
    };
    let done = RunRecord::begin("id", "q", "ui", "standard").finished(&report);
    assert_eq!(done.outcome, "complete");
    assert_eq!(done.kind, "answer");
    assert_eq!((done.rounds, done.pages, done.elapsed_ms), (2, 9, 4_321));
    assert_eq!(done.llm_cost_usd, Some(double(0.25)));
}

#[test]
fn the_log_lives_below_the_data_directory() {
    assert!(matches!(default_data_dir(true, true), Some((BaseDir::Xdg, _))));
    assert!(matches!(default_data_dir(false, true), Some((BaseDir::Home, _))));
    assert!(default_data_dir(false, false).is_none());
}

#[test]
fn the_points_add_up_to_the_totals() {
    let runs = vec![
        run(NOW - 2 * H, "failed", "answer", 1_000, 0.01),
        run(NOW, "complete", "answer", 2_000, 0.01),
        run(NOW - 3 * D, "partial", "harvest", 3_000, 0.01),
        run(NOW - 3 * D - H, "complete", "harvest", 4_000, 0.01),
        run(NOW - 400 * D, "complete", "answer", 5_000, 0.01),
    ];
    for bucket in [Bucket::Hour, Bucket::Day, Bucket::Week] {
        let v = aggregate(&runs, NOW, bucket, 7);
        assert_eq!(v.runs.len(), 4);
        assert_eq!(v.series.iter().map(|p| p.runs.len()).sum::<usize>(), 4);
        assert_eq!(v.series.iter().map(|p| p.outcomes.complete).sum::<usize>(), v.outcomes.complete);
        assert_eq!(v.series.iter().map(|p| p.outcomes.partial).sum::<usize>(), 1);
        assert_eq!(v.series.iter().map(|p| p.outcomes.failed).sum::<usize>(), 1);
    }
}

#[test]
fn a_range_has_to_start_after_the_epoch() {
    assert!(can_aggregate(0, Bucket::Hour, 7));
    assert!(can_aggregate(5, Bucket::Day, 365));
    assert!(!can_aggregate(3 * D, Bucket::Week, 1));
    assert!(can_aggregate(4 * D, Bucket::Week, 1));
    assert!(!can_aggregate(5 * D, Bucket::Week, 7));
    assert!(!can_aggregate(u64::MAX, Bucket::Hour, 1));
    assert_eq!(aggregate(&vec![], 5, Bucket::Day, 365).series.len(), 1);
}
