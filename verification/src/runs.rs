//! Serving runs: their ids, the lines of their progress, what is kept of them and
//! how it is handed out.
use vstd::prelude::*;
use vstd::string::*;
use crate::clock::since_epoch;
use crate::config::SearchEngines;
use crate::json::{add_member, member_shapes, no_members, number, object, string, Json, Shape};
use crate::llm::ThinkingControl;
use crate::numeral::{hex, hex_chars};
use crate::options::{format_names, formats, RunOptions};
use crate::output::{format_named, parse_format, render, rendered, Format, Serialized};
use crate::scan::{join, join_strings, trim, trim_str};
use crate::text::{from_chars, push_range, str_eq, str_views, views};
use crate::types::{Figure, Outcome, ScoutReport};
use crate::usage::{LlmUsage, UsageSnapshot};

verus! {

/// Port the server binds when nothing says otherwise.
pub const DEFAULT_API_PORT: u16 = 8080;

/// Completed runs kept for download.
pub const MAX_STORED_RUNS: usize = 20;

/// Progress events buffered before the run starts dropping them.
pub const PROGRESS_BUFFER: usize = 256;

/// How often a stream samples the clients' counters, in milliseconds.
pub const USAGE_INTERVAL_MS: u64 = 1_000;

// --------------------------------------------------------------------- ids --

/// A run id: the clock's nanoseconds and a sequence number.
pub open spec fn run_id(nanos: nat, seq: nat) -> Seq<char> {
    hex(nanos) + seq!['-'] + hex(seq)
}

/// Format a run id from a timestamp and a sequence number.
pub fn format_run_id(nanos: u128, seq: u64) -> (r: String)
    ensures
        r@ == run_id(nanos as nat, seq as nat),
{
    let mut out = hex_chars(nanos);
    out.push('-');
    let tail = hex_chars(seq as u128);
    push_range(&mut out, &tail, 0, tail.len());
    assert(tail@.subrange(0, tail@.len() as int) =~= tail@);
    from_chars(&out)
}

/// Where the sequence numbers stand, so that two runs inside one tick of the clock
/// still get distinct ids.
#[derive(Debug)]
pub struct RunIds {
    pub next: u64,
}

/// The nanoseconds of a reading of the clock; 0 for a clock set before the epoch.
pub open spec fn nanos_of(reading: Option<(u64, u32)>) -> nat {
    match reading {
        Some(t) => (t.0 * 1_000_000_000 + t.1) as nat,
        None => 0,
    }
}

impl RunIds {
    /// The id of a run that starts at this reading of the clock.
    pub fn take(&mut self, reading: Option<(u64, u32)>) -> (r: String)
        ensures
            r@ == run_id(nanos_of(reading), old(self).next as nat),
            final(self).next == old(self).next.wrapping_add(1),
    {
        let nanos: u128 = match reading {
            Some(t) => t.0 as u128 * 1_000_000_000 + t.1 as u128,
            None => 0,
        };
        let id = format_run_id(nanos, self.next);
        self.next = self.next.wrapping_add(1);
        id
    }

    /// The id of a run that starts now.
    pub fn new_run_id(&mut self) -> (r: String)
        ensures
            exists|reading: Option<(u64, u32)>|
                r@ == #[trigger] run_id(nanos_of(reading), old(self).next as nat),
            final(self).next == old(self).next.wrapping_add(1),
    {
        let reading = since_epoch();
        self.take(reading)
    }
}

impl Default for RunIds {
    fn default() -> (r: Self)
        ensures
            r.next == 0,
    {
        RunIds { next: 0 }
    }
}

/// The value of hexadecimal digits.
pub open spec fn hex_number(s: Seq<char>) -> int
    decreases s.len(),
{
    if s.len() == 0 {
        0
    } else {
        hex_number(s.drop_last()) * 16 + (if s.last() <= '9' {
            s.last() as int - 0x30
        } else {
            s.last() as int - 0x57
        })
    }
}

proof fn lemma_hex(n: nat)
    ensures
        hex_number(hex(n)) == n,
        hex(n).len() > 0,
        !hex(n).contains('-'),
    decreases n,
{
    reveal_with_fuel(hex_number, 2);
    let d = crate::numeral::digit(n % 16);
    assert(d != '-');
    if n < 16 {
        assert(hex(n) =~= seq![d]);
        assert(seq![d].drop_last() =~= Seq::<char>::empty());
        assert(n % 16 == n);
    } else {
        lemma_hex(n / 16);
        assert(hex(n) =~= hex(n / 16).push(d));
        assert(hex(n).drop_last() =~= hex(n / 16));
    }
}

/// Runs with different sequence numbers have different ids, whatever the clock
/// says.
pub proof fn law_run_ids_differ(a: nat, b: nat, i: nat, j: nat)
    requires
        i != j,
    ensures
        run_id(a, i) != run_id(b, j),
{
    lemma_hex(a);
    lemma_hex(b);
    lemma_hex(i);
    lemma_hex(j);
    if run_id(a, i) == run_id(b, j) {
        let x = run_id(a, i);
        let m = hex(a).len() as int;
        let n = hex(b).len() as int;
        assert(x[m] == '-');
        assert(x[n] == '-');
        if m < n {
            assert(x[m] == hex(b)[m]);
        } else if n < m {
            assert(x[n] == hex(a)[n]);
        }
        assert(m == n);
        assert(x.skip(m + 1) =~= hex(i));
        assert(x.skip(m + 1) =~= hex(j));
    }
}

// ---------------------------------------------------------------- progress --

/// Running totals carried on every progress event.
#[derive(Debug, Clone, Copy)]
pub struct ProgressCounts {
    pub pages: usize,
    pub records: usize,
}

impl Default for ProgressCounts {
    fn default() -> (r: Self)
        ensures
            r.pages == 0,
            r.records == 0,
    {
        ProgressCounts { pages: 0, records: 0 }
    }
}

/// One coarse step in a run, for a person to read.
#[derive(Debug, Clone)]
pub struct ProgressEvent {
    pub stage: String,
    pub round: Option<usize>,
    pub message: String,
    pub counts: ProgressCounts,
}

/// A value as one line.
pub open spec fn line_of(s: Shape) -> Seq<char> {
    s.text() + seq!['\n']
}

/// One line of a stream of JSON values, its end included.
pub fn ndjson_line(v: &Json) -> (r: String)
    ensures
        r@ == line_of(v.shape()),
{
    let mut out: Vec<char> = Vec::new();
    v.push_text(&mut out);
    out.push('\n');
    assert(out@ =~= line_of(v.shape()));
    from_chars(&out)
}

/// A line ends in its only line break, whatever texts it carries.
pub proof fn law_a_line_is_one_line(s: Shape)
    requires
        crate::json::plain_numbers(s),
    ensures
        line_of(s).last() == '\n',
        !line_of(s).drop_last().contains('\n'),
{
    crate::json::law_json_is_one_line(s);
    assert(line_of(s).drop_last() =~= s.text());
}

pub open spec fn progress_shape(ev: ProgressEvent) -> Shape {
    Shape::Object(
        seq![
            (
                "counts"@,
                Shape::Object(
                    seq![
                        ("pages"@, Shape::Int(ev.counts.pages as int)),
                        ("records"@, Shape::Int(ev.counts.records as int)),
                    ],
                ),
            ),
            ("message"@, Shape::Text(ev.message@)),
            (
                "round"@,
                match ev.round {
                    Some(n) => Shape::Int(n as int),
                    None => Shape::Null,
                },
            ),
            ("stage"@, Shape::Text(ev.stage@)),
            ("type"@, Shape::Text("progress"@)),
        ],
    )
}

/// A progress event as a line.
pub fn progress_line(ev: &ProgressEvent) -> (r: String)
    ensures
        r@ == line_of(progress_shape(*ev)),
{
    let mut counts = no_members();
    add_member(&mut counts, "pages", number(ev.counts.pages as u64));
    add_member(&mut counts, "records", number(ev.counts.records as u64));
    assert(member_shapes(counts@) =~= seq![
        ("pages"@, Shape::Int(ev.counts.pages as int)),
        ("records"@, Shape::Int(ev.counts.records as int)),
    ]);
    let mut v = no_members();
    add_member(&mut v, "counts", object(counts));
    add_member(&mut v, "message", string(ev.message.as_str()));
    let round = match ev.round {
        Some(n) => number(n as u64),
        None => Json::Null,
    };
    add_member(&mut v, "round", round);
    add_member(&mut v, "stage", string(ev.stage.as_str()));
    add_member(&mut v, "type", string("progress"));
    assert(member_shapes(v@) =~= progress_shape(*ev)->Object_0);
    ndjson_line(&object(v))
}

/// How the prices of a snapshot are written as JSON.
#[derive(Debug)]
pub struct CostTexts {
    pub jev: String,
    pub llm: String,
    pub planner: String,
}

/// One client's part of a usage event. A price that was never reported and
/// reasoning that was never spent are absent rather than zero.
pub open spec fn llm_usage_members(u: LlmUsage, cost: Seq<char>) -> Seq<(Seq<char>, Shape)> {
    seq![("completion_tokens"@, Shape::Int(u.completion_tokens as int))] + (match u.cost_usd {
        Some(x) => seq![("cost_usd"@, Shape::Real(x.bits, cost))],
        None => Seq::empty(),
    }) + seq![("prompt_tokens"@, Shape::Int(u.prompt_tokens as int))] + (if u.reasoning_tokens
        > 0 {
        seq![("reasoning_tokens"@, Shape::Int(u.reasoning_tokens as int))]
    } else {
        Seq::empty()
    }) + seq![("requests"@, Shape::Int(u.requests as int))]
}

pub fn llm_usage_json(u: &LlmUsage, cost: &str) -> (r: Json)
    ensures
        r.shape() == Shape::Object(llm_usage_members(*u, cost@)),
{
    let mut v = no_members();
    add_member(&mut v, "completion_tokens", number(u.completion_tokens as u64));
    match u.cost_usd {
        Some(x) => {
            add_member(
                &mut v,
                "cost_usd",
                Json::Real(Figure { bits: x.bits, text: cost.to_owned() }),
            );
        },
        None => {},
    }
    add_member(&mut v, "prompt_tokens", number(u.prompt_tokens as u64));
    if u.reasoning_tokens > 0 {
        add_member(&mut v, "reasoning_tokens", number(u.reasoning_tokens as u64));
    }
    add_member(&mut v, "requests", number(u.requests as u64));
    assert(member_shapes(v@) =~= llm_usage_members(*u, cost@));
    object(v)
}

pub open spec fn usage_shape(u: UsageSnapshot, costs: CostTexts, elapsed_ms: u64) -> Shape {
    Shape::Object(
        seq![
            ("elapsed_ms"@, Shape::Int(elapsed_ms as int)),
            (
                "jev"@,
                Shape::Object(
                    seq![
                        ("cost_usd"@, Shape::Real(u.jev_cost_usd.bits, costs.jev@)),
                        ("input_tokens"@, Shape::Int(u.jev_input_tokens as int)),
                        ("requests"@, Shape::Int(u.jev_requests as int)),
                    ],
                ),
            ),
            ("llm"@, Shape::Object(llm_usage_members(u.llm, costs.llm@))),
            ("planner"@, Shape::Object(llm_usage_members(u.planner, costs.planner@))),
            ("type"@, Shape::Text("usage"@)),
        ],
    )
}

/// The live token-and-cost line, by the client that spent it.
pub fn usage_line(u: &UsageSnapshot, costs: &CostTexts, elapsed_ms: u64) -> (r: String)
    ensures
        r@ == line_of(usage_shape(*u, *costs, elapsed_ms)),
{
    let mut jev = no_members();
    add_member(
        &mut jev,
        "cost_usd",
        Json::Real(Figure { bits: u.jev_cost_usd.bits, text: costs.jev.clone() }),
    );
    add_member(&mut jev, "input_tokens", number(u.jev_input_tokens as u64));
    add_member(&mut jev, "requests", number(u.jev_requests as u64));
    assert(member_shapes(jev@) =~= seq![
        ("cost_usd"@, Shape::Real(u.jev_cost_usd.bits, costs.jev@)),
        ("input_tokens"@, Shape::Int(u.jev_input_tokens as int)),
        ("requests"@, Shape::Int(u.jev_requests as int)),
    ]);
    let mut v = no_members();
    add_member(&mut v, "elapsed_ms", number(elapsed_ms));
    add_member(&mut v, "jev", object(jev));
    add_member(&mut v, "llm", llm_usage_json(&u.llm, costs.llm.as_str()));
    add_member(&mut v, "planner", llm_usage_json(&u.planner, costs.planner.as_str()));
    add_member(&mut v, "type", string("usage"));
    assert(member_shapes(v@) =~= usage_shape(*u, *costs, elapsed_ms)->Object_0);
    ndjson_line(&object(v))
}

pub open spec fn stats_shape(report: ScoutReport) -> Shape {
    Shape::Object(
        seq![
            ("elapsed_ms"@, Shape::Int(report.stats.elapsed_ms as int)),
            ("jev_requests"@, Shape::Int(report.stats.jev_requests as int)),
            (
                "llm_requests"@,
                Shape::Int(report.stats.llm_requests + report.stats.planner_requests),
            ),
            ("pages_fetched"@, Shape::Int(report.stats.pages_fetched as int)),
            ("records"@, Shape::Int(report.records@.len() as int)),
            ("type"@, Shape::Text("stats"@)),
        ],
    )
}

/// The line that sums up a finished run.
pub fn stats_event(report: &ScoutReport) -> (r: String)
    requires
        report.stats.llm_requests + report.stats.planner_requests <= usize::MAX,
    ensures
        r@ == line_of(stats_shape(*report)),
{
    let st = &report.stats;
    let mut v = no_members();
    add_member(&mut v, "elapsed_ms", number(st.elapsed_ms));
    add_member(&mut v, "jev_requests", number(st.jev_requests as u64));
    add_member(&mut v, "llm_requests", number((st.llm_requests + st.planner_requests) as u64));
    add_member(&mut v, "pages_fetched", number(st.pages_fetched as u64));
    add_member(&mut v, "records", number(report.records.len() as u64));
    add_member(&mut v, "type", string("stats"));
    assert(member_shapes(v@) =~= stats_shape(*report)->Object_0);
    ndjson_line(&object(v))
}

pub open spec fn error_shape(message: Seq<char>) -> Shape {
    Shape::Object(seq![("message"@, Shape::Text(message)), ("type"@, Shape::Text("error"@))])
}

/// What is said of an error, as a value.
pub fn error_json(message: &str) -> (r: Json)
    ensures
        r.shape() == error_shape(message@),
{
    let mut v = no_members();
    add_member(&mut v, "message", string(message));
    add_member(&mut v, "type", string("error"));
    assert(member_shapes(v@) =~= error_shape(message@)->Object_0);
    object(v)
}

pub open spec fn accepted_shape(id: Seq<char>, query: Seq<char>, started_at: Seq<char>) -> Shape {
    Shape::Object(
        seq![
            ("query"@, Shape::Text(query)),
            ("run_id"@, Shape::Text(id)),
            ("started_at"@, Shape::Text(started_at)),
            ("type"@, Shape::Text("accepted"@)),
        ],
    )
}

/// The first line of a run's stream.
pub fn accepted_line(id: &str, query: &str, started_at: &str) -> (r: String)
    ensures
        r@ == line_of(accepted_shape(id@, query@, started_at@)),
{
    let mut v = no_members();
    add_member(&mut v, "query", string(query));
    add_member(&mut v, "run_id", string(id));
    add_member(&mut v, "started_at", string(started_at));
    add_member(&mut v, "type", string("accepted"));
    assert(member_shapes(v@) =~= accepted_shape(id@, query@, started_at@)->Object_0);
    ndjson_line(&object(v))
}

/// The lines of progress events.
pub open spec fn progress_lines(events: Seq<ProgressEvent>) -> Seq<Seq<char>> {
    events.map_values(|e: ProgressEvent| line_of(progress_shape(e)))
}

/// The result of a run: how it ended, the document in the format that was asked for,
/// and what it was and what it took, as values.
pub open spec fn result_shape(
    outcome: Outcome,
    format: Seq<char>,
    content: Seq<char>,
    stats: Shape,
    mission: Shape,
) -> Shape {
    Shape::Object(
        seq![
            ("content"@, Shape::Text(content)),
            ("format"@, Shape::Text(format)),
            ("mission"@, mission),
            ("outcome"@, Shape::Text(outcome.label())),
            ("stats"@, stats),
            ("type"@, Shape::Text("result"@)),
        ],
    )
}

/// The line that carries the result of a run.
pub fn result_line(outcome: Outcome, format: Format, content: &str, stats: Json, mission: Json) -> (r:
    String)
    ensures
        r@ == line_of(
            result_shape(outcome, offered_name(format), content@, stats.shape(), mission.shape()),
        ),
{
    let ghost expected = result_shape(
        outcome,
        offered_name(format),
        content@,
        stats.shape(),
        mission.shape(),
    );
    let mut v = no_members();
    add_member(&mut v, "content", string(content));
    add_member(&mut v, "format", string(format_name(format)));
    add_member(&mut v, "mission", mission);
    add_member(&mut v, "outcome", string(outcome.as_str()));
    add_member(&mut v, "stats", stats);
    add_member(&mut v, "type", string("result"));
    assert(member_shapes(v@) =~= expected->Object_0);
    ndjson_line(&object(v))
}

/// How a run ended.
#[derive(Debug)]
pub enum Ending<'a> {
    /// Its report, how its costs are written, the format that was asked for, the
    /// renderings there are, and its statistics and mission as values.
    Report {
        report: &'a ScoutReport,
        costs: CostTexts,
        format: Format,
        formats: &'a Vec<(String, String)>,
        stats: Json,
        mission: Json,
    },
    /// What it spent, and what went wrong.
    Failure { usage: UsageSnapshot, costs: CostTexts, elapsed_ms: u64, message: String },
}

/// The document of a result: the rendering of that name, empty where there is none.
pub open spec fn document(formats: Seq<(String, String)>, name: Seq<char>) -> Seq<char> {
    match rendering_of(formats, name, 0) {
        Some(t) => t,
        None => Seq::empty(),
    }
}

/// The lines a run ends with. The usage of a finished run is that of its report.
pub open spec fn ending_lines(e: Ending) -> Seq<Seq<char>> {
    match e {
        Ending::Report { report, costs, format, formats, stats, mission } => seq![
            line_of(stats_shape(*report)),
            line_of(
                usage_shape(
                    UsageSnapshot::of_stats(report.stats),
                    costs,
                    report.stats.elapsed_ms,
                ),
            ),
            line_of(
                result_shape(
                    report.outcome,
                    offered_name(format),
                    document(formats@, offered_name(format)),
                    stats.shape(),
                    mission.shape(),
                ),
            ),
        ],
        Ending::Failure { usage, costs, elapsed_ms, message } => seq![
            line_of(usage_shape(usage, costs, elapsed_ms)),
            line_of(error_shape(message@)),
        ],
    }
}

/// The requests of both models fit a counter.
pub open spec fn countable(e: Ending) -> bool {
    e matches Ending::Report { report, .. } ==> report.stats.llm_requests
        + report.stats.planner_requests <= usize::MAX
}

/// The last lines of a stream: first what the run still had to tell, then how it
/// ended. A failed run reports what it spent before it says why.
pub fn closing_lines(events: &Vec<ProgressEvent>, ending: Ending) -> (r: Vec<String>)
    requires
        countable(ending),
    ensures
        views(r@) == progress_lines(events@) + ending_lines(ending),
{
    let ghost all = progress_lines(events@);
    let ghost end = ending_lines(ending);
    let mut out: Vec<String> = Vec::new();
    let mut i: usize = 0;
    assert(views(out@) =~= all.take(0));
    while i < events.len()
        invariant
            i <= events@.len(),
            all == progress_lines(events@),
            views(out@) == all.take(i as int),
        decreases events@.len() - i,
    {
        let line = progress_line(&events[i]);
        assert(line@ == all[i as int]);
        let ghost before = out@;
        out.push(line);
        assert(views(out@) =~= views(before).push(line@));
        assert(all.take(i + 1) =~= all.take(i as int).push(line@));
        i += 1;
    }
    assert(all.take(i as int) =~= all);
    match ending {
        Ending::Report { report, costs, format, formats, stats, mission } => {
            out.push(stats_event(report));
            let spent = UsageSnapshot::from_stats(&report.stats);
            out.push(usage_line(&spent, &costs, report.stats.elapsed_ms));
            proof {
                reveal_strlit("");
                assert(""@ =~= Seq::<char>::empty());
            }
            let content = match find_rendering(formats, format_name(format)) {
                Some(t) => t,
                None => "",
            };
            out.push(result_line(report.outcome, format, content, stats, mission));
        },
        Ending::Failure { usage, costs, elapsed_ms, message } => {
            out.push(usage_line(&usage, &costs, elapsed_ms));
            let e = error_json(message.as_str());
            out.push(ndjson_line(&e));
        },
    }
    assert(views(out@) =~= all + end);
    out
}

// ---------------------------------------------------------------- requests --

pub const EMPTY_QUERY: &'static str = "query must not be empty";

/// The query of a request without white space around it, or why there is none.
pub fn check_query(query: &str) -> (r: Result<&str, &'static str>)
    ensures
        match r {
            Ok(q) => q@ == trim(query@) && q@.len() > 0,
            Err(e) => trim(query@).len() == 0 && e@ == EMPTY_QUERY@,
        },
{
    let q = trim_str(query);
    if q.unicode_len() == 0 {
        Err(EMPTY_QUERY)
    } else {
        Ok(q)
    }
}

// ----------------------------------------------------------------- formats --

/// The catalogue's name for a format. A terminal rendering is never offered, so it
/// goes by the name of the document.
pub open spec fn offered_name(f: Format) -> Seq<char> {
    match f {
        Format::Json => "json"@,
        Format::Jsonl => "jsonl"@,
        Format::Csv => "csv"@,
        Format::Markdown => "markdown"@,
        Format::Terminal => "markdown"@,
    }
}

pub fn format_name(format: Format) -> (r: &'static str)
    ensures
        r@ == offered_name(format),
{
    match format {
        Format::Json => "json",
        Format::Jsonl => "jsonl",
        Format::Csv => "csv",
        Format::Markdown => "markdown",
        Format::Terminal => "markdown",
    }
}

/// Every format on offer has a renderer that goes by its name.
pub proof fn law_offered_formats_have_renderers(i: int)
    requires
        0 <= i < formats().len(),
    ensures
        format_named(formats()[i]) matches Some(f) && offered_name(f) == formats()[i],
{
    reveal_strlit("json");
    reveal_strlit("jsonl");
    reveal_strlit("markdown");
    reveal_strlit("csv");
    reveal_strlit("terminal");
    assert("terminal"@.len() == 8);
    assert("json"@.len() == 4 && "jsonl"@.len() == 5 && "markdown"@.len() == 8 && "csv"@.len()
        == 3);
}

/// File extension for a download.
pub open spec fn extension(format: Seq<char>) -> Seq<char> {
    if format == "markdown"@ {
        "md"@
    } else if format == "csv"@ {
        "csv"@
    } else if format == "jsonl"@ {
        "jsonl"@
    } else {
        "json"@
    }
}

pub fn extension_for(format: &str) -> (r: &'static str)
    ensures
        r@ == extension(format@),
{
    if str_eq(format, "markdown") {
        "md"
    } else if str_eq(format, "csv") {
        "csv"
    } else if str_eq(format, "jsonl") {
        "jsonl"
    } else {
        "json"
    }
}

/// MIME type for a download.
pub open spec fn content_type(format: Seq<char>) -> Seq<char> {
    if format == "markdown"@ {
        "text/markdown; charset=utf-8"@
    } else if format == "csv"@ {
        "text/csv; charset=utf-8"@
    } else if format == "jsonl"@ {
        "application/x-ndjson"@
    } else {
        "application/json"@
    }
}

pub fn content_type_for(format: &str) -> (r: &'static str)
    ensures
        r@ == content_type(format@),
{
    if str_eq(format, "markdown") {
        "text/markdown; charset=utf-8"
    } else if str_eq(format, "csv") {
        "text/csv; charset=utf-8"
    } else if str_eq(format, "jsonl") {
        "application/x-ndjson"
    } else {
        "application/json"
    }
}

// ------------------------------------------------------------------- store --

/// A finished run, rendered once in every format that is offered.
#[derive(Debug, Clone)]
pub struct CompletedRun {
    pub id: String,
    /// Format names and renderings. A format that could not be rendered is absent.
    pub formats: Vec<(String, String)>,
}

/// The last completed runs, oldest first.
#[derive(Debug)]
pub struct RunStore {
    pub runs: Vec<CompletedRun>,
}

impl Default for RunStore {
    fn default() -> (r: Self)
        ensures
            r.runs@ == Seq::<CompletedRun>::empty(),
    {
        RunStore { runs: Vec::new() }
    }
}

/// The last `n` of a list.
pub open spec fn last_of<T>(s: Seq<T>, n: int) -> Seq<T> {
    if s.len() > n {
        s.skip(s.len() - n)
    } else {
        s
    }
}

/// The index of the first run of that id from `i` on.
pub open spec fn run_at(runs: Seq<CompletedRun>, id: Seq<char>, i: int) -> Option<int>
    decreases runs.len() - i,
{
    if i < 0 || i >= runs.len() {
        None
    } else if runs[i].id@ == id {
        Some(i)
    } else {
        run_at(runs, id, i + 1)
    }
}

impl RunStore {
    /// Keep a run, and let go of the oldest where there are too many.
    pub fn insert(&mut self, run: CompletedRun)
        ensures
            final(self).runs@ == last_of(old(self).runs@, MAX_STORED_RUNS - 1).push(run),
            final(self).runs@.len() <= old(self).runs@.len() + 1,
            final(self).runs@.len() <= MAX_STORED_RUNS,
    {
        let ghost all = self.runs@;
        assert(all.skip(0) =~= all);
        while self.runs.len() >= MAX_STORED_RUNS
            invariant
                self.runs@.len() <= all.len(),
                self.runs@ == all.skip(all.len() - self.runs@.len()),
                all.len() < MAX_STORED_RUNS ==> self.runs@.len() == all.len(),
                all.len() >= MAX_STORED_RUNS ==> self.runs@.len() >= MAX_STORED_RUNS - 1,
            decreases self.runs@.len(),
        {
            let ghost n = self.runs@.len();
            let _ = self.runs.remove(0);
            assert(self.runs@ =~= all.skip(all.len() - self.runs@.len()));
        }
        assert(self.runs@ =~= last_of(all, MAX_STORED_RUNS - 1));
        self.runs.push(run);
    }

    /// The run of that id, if it is still kept.
    pub fn get(&self, id: &str) -> (r: Option<&CompletedRun>)
        ensures
            match r {
                Some(run) => run_at(self.runs@, id@, 0) matches Some(i) && *run == self.runs@[i],
                None => run_at(self.runs@, id@, 0) is None,
            },
    {
        let mut i: usize = 0;
        while i < self.runs.len()
            invariant
                i <= self.runs@.len(),
                run_at(self.runs@, id@, 0) == run_at(self.runs@, id@, i as int),
            decreases self.runs@.len() - i,
        {
            if str_eq(self.runs[i].id.as_str(), id) {
                return Some(&self.runs[i]);
            }
            i += 1;
        }
        None
    }
}

proof fn lemma_run_at(runs: Seq<CompletedRun>, id: Seq<char>, i: int, k: int)
    requires
        0 <= i <= k < runs.len(),
        runs[k].id@ == id,
        forall|j: int| i <= j < k ==> (#[trigger] runs[j]).id@ != id,
    ensures
        run_at(runs, id, i) == Some(k),
    decreases k - i,
{
    if i < k {
        lemma_run_at(runs, id, i + 1, k);
    }
}

/// A run that was just kept under a new id is found, however many were kept before.
pub proof fn law_stored_runs_are_found(runs: Seq<CompletedRun>, run: CompletedRun)
    requires
        forall|j: int| 0 <= j < runs.len() ==> (#[trigger] runs[j]).id@ != run.id@,
    ensures
        ({
            let now = last_of(runs, MAX_STORED_RUNS - 1).push(run);
            run_at(now, run.id@, 0) == Some(now.len() - 1)
        }),
{
    let kept = last_of(runs, MAX_STORED_RUNS - 1);
    let now = kept.push(run);
    assert forall|j: int| 0 <= j < now.len() - 1 implies (#[trigger] now[j]).id@ != run.id@ by {
        assert(now[j] == kept[j]);
        if runs.len() > MAX_STORED_RUNS - 1 {
            assert(kept[j] == runs[j + (runs.len() - (MAX_STORED_RUNS - 1))]);
        }
    }
    lemma_run_at(now, run.id@, 0, now.len() - 1);
}

/// The renderings of the first `n` offered formats, without those that fail.
pub open spec fn renderings(
    report: ScoutReport,
    parts: Serialized,
    names: Seq<Seq<char>>,
    n: int,
) -> Seq<(Seq<char>, Seq<char>)>
    decreases n,
{
    if n <= 0 {
        Seq::empty()
    } else {
        let before = renderings(report, parts, names, n - 1);
        match format_named(names[n - 1]) {
            None => before,
            Some(f) => match rendered(report, f, parts) {
                None => before,
                Some(t) => before.push((names[n - 1], t)),
            },
        }
    }
}

pub open spec fn pair_views(v: Seq<(String, String)>) -> Seq<(Seq<char>, Seq<char>)> {
    v.map_values(|p: (String, String)| (p.0@, p.1@))
}

/// Render every offered format of a finished report.
pub fn render_all(report: &ScoutReport, parts: &Serialized) -> (r: Vec<(String, String)>)
    ensures
        pair_views(r@) == renderings(*report, *parts, formats(), formats().len() as int),
{
    let names = format_names();
    let mut out: Vec<(String, String)> = Vec::new();
    let mut i: usize = 0;
    assert(pair_views(out@) =~= Seq::<(Seq<char>, Seq<char>)>::empty());
    assert(str_views(names@).len() == names@.len());
    while i < names.len()
        invariant
            i <= names@.len(),
            str_views(names@) == formats(),
            pair_views(out@) == renderings(*report, *parts, formats(), i as int),
        decreases names@.len() - i,
    {
        assert(str_views(names@)[i as int] == names@[i as int]@);
        match parse_format(names[i]) {
            Some(f) => {
                match render(report, f, parts) {
                    Some(t) => {
                        let ghost before = out@;
                        let name = names[i].to_owned();
                        out.push((name, t));
                        assert(pair_views(out@) =~= pair_views(before).push(
                            (names@[i as int]@, t@),
                        ));
                    },
                    None => {},
                }
            },
            None => {},
        }
        i += 1;
    }
    out
}

// ---------------------------------------------------------------- download --

/// The answer to a request for a download.
#[derive(Debug)]
pub enum Download<'a> {
    /// A status and what is wrong.
    Refused(u16, String),
    /// The type, the disposition and the body.
    Served(&'static str, String, &'a str),
}

/// The rendering under the first entry of that name.
pub open spec fn rendering_of(v: Seq<(String, String)>, name: Seq<char>, i: int) -> Option<
    Seq<char>,
>
    decreases v.len() - i,
{
    if i < 0 || i >= v.len() {
        None
    } else if v[i].0@ == name {
        Some(v[i].1@)
    } else {
        rendering_of(v, name, i + 1)
    }
}

/// The format that a request asks for; a document where it does not say.
pub open spec fn asked_format(format: Option<&str>) -> Seq<char> {
    match format {
        Some(f) => f@,
        None => "markdown"@,
    }
}

pub open spec fn attachment(id: Seq<char>, format: Seq<char>) -> Seq<char> {
    "attachment; filename=\"webscout-"@ + id + "."@ + extension(format) + "\""@
}

/// What a request for a download is answered: a format that is not offered is a bad
/// request, a run that is not kept is not found.
pub open spec fn answers(store: RunStore, id: Seq<char>, format: Seq<char>, d: Download) -> bool {
    if !formats().contains(format) {
        d matches Download::Refused(status, e) && status == 400 && e@ == "unknown format \""@
            + format + "\"; expected one of "@ + join(formats(), ", "@)
    } else {
        match run_at(store.runs@, id, 0) {
            None => d matches Download::Refused(status, e) && status == 404 && e@
                == "no completed run with id \""@ + id + "\""@,
            Some(i) => match rendering_of(store.runs@[i].formats@, format, 0) {
                None => d matches Download::Refused(status, e) && status == 500 && e@
                    == "this run could not be rendered as "@ + format,
                Some(t) => d matches Download::Served(kind, disposition, body) && kind@
                    == content_type(format) && disposition@ == attachment(id, format) && body@ == t,
            },
        }
    }
}

fn find_rendering<'a>(v: &'a Vec<(String, String)>, name: &str) -> (r: Option<&'a str>)
    ensures
        match r {
            Some(t) => rendering_of(v@, name@, 0) == Some(t@),
            None => rendering_of(v@, name@, 0) is None,
        },
{
    let mut i: usize = 0;
    while i < v.len()
        invariant
            i <= v@.len(),
            rendering_of(v@, name@, 0) == rendering_of(v@, name@, i as int),
        decreases v@.len() - i,
    {
        if str_eq(v[i].0.as_str(), name) {
            return Some(v[i].1.as_str());
        }
        i += 1;
    }
    None
}

/// Names as strings, and whether one of them is `wanted`.
fn names_and(names: &Vec<&'static str>, wanted: &str) -> (r: (Vec<String>, bool))
    ensures
        views(r.0@) == str_views(names@),
        r.1 == str_views(names@).contains(wanted@),
{
    let ghost all = str_views(names@);
    let mut out: Vec<String> = Vec::new();
    let mut found: bool = false;
    let mut i: usize = 0;
    assert(views(out@) =~= all.take(0));
    while i < names.len()
        invariant
            i <= names@.len(),
            all == str_views(names@),
            views(out@) == all.take(i as int),
            found == exists|k: int| 0 <= k < i && all[k] == wanted@,
        decreases names@.len() - i,
    {
        let ghost before = out@;
        let t = names[i].to_owned();
        assert(t@ == all[i as int]);
        if str_eq(names[i], wanted) {
            found = true;
        }
        out.push(t);
        assert(views(out@) =~= views(before).push(t@));
        assert(all.take(i + 1) =~= all.take(i as int).push(t@));
        i += 1;
    }
    assert(all.take(i as int) =~= all);
    (out, found)
}

/// Answer a request for a finished run's rendering.
pub fn download<'a>(store: &'a RunStore, id: &str, format: Option<&str>) -> (r: Download<'a>)
    ensures
        answers(*store, id@, asked_format(format), r),
{
    let format = match format {
        Some(f) => f,
        None => "markdown",
    };
    let names = format_names();
    let (listed, found) = names_and(&names, format);
    if !found {
        let list = join_strings(&listed, ", ");
        let mut e = "unknown format \"".to_owned();
        e.append(format);
        e.append("\"; expected one of ");
        e.append(list.as_str());
        return Download::Refused(400, e);
    }
    let run = match store.get(id) {
        Some(run) => run,
        None => {
            let mut e = "no completed run with id \"".to_owned();
            e.append(id);
            e.append("\"");
            return Download::Refused(404, e);
        },
    };
    match find_rendering(&run.formats, format) {
        Some(body) => {
            let mut d = "attachment; filename=\"webscout-".to_owned();
            d.append(id);
            d.append(".");
            d.append(extension_for(format));
            d.append("\"");
            Download::Served(content_type_for(format), d, body)
        },
        None => {
            let mut e = "this run could not be rendered as ".to_owned();
            e.append(format);
            Download::Refused(500, e)
        },
    }
}

// ------------------------------------------------------------------- lanes --

/// A search engine that can be asked.
#[derive(Debug, Clone, Copy, PartialEq, Eq, Structural)]
pub enum LaneId {
    Ddg,
    Jina,
}

/// What fetches pages.
#[derive(Debug, Clone, Copy, PartialEq, Eq, Structural)]
pub enum BackendKind {
    Jina,
    Obscura,
}

impl LaneId {
    pub open spec fn label(self) -> Seq<char> {
        match self {
            LaneId::Ddg => "ddg"@,
            LaneId::Jina => "jina"@,
        }
    }

    /// The lane's short name: part of the keys of cached responses and of what a hit
    /// says of its engines.
    pub fn id(self) -> (r: &'static str)
        ensures
            r@ == self.label(),
    {
        match self {
            LaneId::Ddg => "ddg",
            LaneId::Jina => "jina",
        }
    }
}

impl BackendKind {
    pub fn name(self) -> (r: &'static str)
        ensures
            r@ == (match self {
                BackendKind::Jina => "jina"@,
                BackendKind::Obscura => "obscura"@,
            }),
    {
        match self {
            BackendKind::Jina => "jina",
            BackendKind::Obscura => "obscura",
        }
    }

    /// The lane that this backend can search with on its own.
    pub fn default_lane(self) -> (r: LaneId)
        ensures
            r == (match self {
                BackendKind::Jina => LaneId::Jina,
                BackendKind::Obscura => LaneId::Ddg,
            }),
    {
        match self {
            BackendKind::Jina => LaneId::Jina,
            BackendKind::Obscura => LaneId::Ddg,
        }
    }
}

pub const NEEDS_OBSCURA: &'static str = "search engine \"ddg\" needs obscura; it is not available here";

pub const NEEDS_JINA: &'static str = "search engine \"jina\" needs a Jina key; none is configured here";

pub const NO_ENGINE: &'static str = "no search engine is available; install obscura or supply a Jina key";

pub const NO_BACKEND: &'static str = "no fetch backend is available";

/// The lanes that a configuration can serve, or what is missing.
pub open spec fn lanes_for(engines: SearchEngines, obscura: bool, jina: bool) -> Result<
    Seq<LaneId>,
    Seq<char>,
> {
    match engines {
        SearchEngines::Auto => if obscura && jina {
            Ok(seq![LaneId::Ddg, LaneId::Jina])
        } else if obscura {
            Ok(seq![LaneId::Ddg])
        } else if jina {
            Ok(seq![LaneId::Jina])
        } else {
            Err(NO_ENGINE@)
        },
        SearchEngines::Ddg => if obscura {
            Ok(seq![LaneId::Ddg])
        } else {
            Err(NEEDS_OBSCURA@)
        },
        SearchEngines::Jina => if jina {
            Ok(seq![LaneId::Jina])
        } else {
            Err(NEEDS_JINA@)
        },
    }
}

/// The search lanes a configuration can serve. A pinned engine that is not
/// available is an error.
pub fn select_lanes(engines: SearchEngines, obscura: bool, jina: bool) -> (r: Result<
    Vec<LaneId>,
    &'static str,
>)
    ensures
        match r {
            Ok(v) => lanes_for(engines, obscura, jina) == Ok::<Seq<LaneId>, Seq<char>>(v@),
            Err(e) => lanes_for(engines, obscura, jina) == Err::<Seq<LaneId>, Seq<char>>(e@),
        },
{
    let mut lanes: Vec<LaneId> = Vec::new();
    match engines {
        SearchEngines::Auto => {
            if obscura {
                lanes.push(LaneId::Ddg);
            }
            if jina {
                lanes.push(LaneId::Jina);
            }
            if lanes.len() == 0 {
                return Err(NO_ENGINE);
            }
        },
        SearchEngines::Ddg => {
            if !obscura {
                return Err(NEEDS_OBSCURA);
            }
            lanes.push(LaneId::Ddg);
        },
        SearchEngines::Jina => {
            if !jina {
                return Err(NEEDS_JINA);
            }
            lanes.push(LaneId::Jina);
        },
    }
    proof {
        match lanes_for(engines, obscura, jina) {
            Ok(v) => {
                assert(v =~= lanes@);
            },
            Err(_) => {},
        }
    }
    Ok(lanes)
}

/// Lanes are always ones that the server can serve, there is at least one, and a
/// pinned engine is the only one; without a pin every lane that can be served is.
pub proof fn law_lanes_are_available(engines: SearchEngines, obscura: bool, jina: bool)
    ensures
        lanes_for(engines, obscura, jina) matches Ok(v) ==> {
            &&& v.len() > 0
            &&& v.contains(LaneId::Ddg) ==> obscura
            &&& v.contains(LaneId::Jina) ==> jina
            &&& engines == SearchEngines::Ddg ==> v == seq![LaneId::Ddg]
            &&& engines == SearchEngines::Jina ==> v == seq![LaneId::Jina]
            &&& engines == SearchEngines::Auto && obscura ==> v.contains(LaneId::Ddg)
            &&& engines == SearchEngines::Auto && jina ==> v.contains(LaneId::Jina)
        },
{
    match lanes_for(engines, obscura, jina) {
        Ok(v) => {
            assert(v[0] == LaneId::Ddg || v[0] == LaneId::Jina);
            if v.len() == 2 {
                assert(v[1] == LaneId::Jina);
            }
        },
        Err(_) => {},
    }
}

/// Which backend fetches pages: Jina wins where there is one.
pub fn select_backend(obscura: bool, jina: bool) -> (r: Result<BackendKind, &'static str>)
    ensures
        match r {
            Ok(b) => (jina && b == BackendKind::Jina) || (!jina && obscura && b
                == BackendKind::Obscura),
            Err(e) => !jina && !obscura && e@ == NO_BACKEND@,
        },
{
    if jina {
        Ok(BackendKind::Jina)
    } else if obscura {
        Ok(BackendKind::Obscura)
    } else {
        Err(NO_BACKEND)
    }
}

// -------------------------------------------------------------------- plan --

/// What the server was started with.
#[derive(Debug)]
pub struct Server {
    pub engines: SearchEngines,
    pub thinking_control: ThinkingControl,
    pub planner_thinking_control: ThinkingControl,
    pub fetch_concurrency: usize,
    pub has_obscura: bool,
    /// A Jina client was set up.
    pub has_jina: bool,
    /// A Jina key was supplied.
    pub has_jina_key: bool,
    pub llm_model: String,
    pub planner_model: String,
}

/// How one run is set up.
#[derive(Debug)]
pub struct ScoutPlan {
    pub fetch_concurrency: usize,
    pub lanes: Vec<LaneId>,
    pub backend: BackendKind,
    /// Seconds that a cached search response stays usable, where there is a cache.
    pub search_cache_ttl: Option<u64>,
    pub thinking_control: ThinkingControl,
    pub planner_thinking_control: ThinkingControl,
    pub llm_model: String,
    pub planner_model: String,
}

/// The engines of a run: what it pins, else what the server was started with.
pub open spec fn run_engines(opts: RunOptions, server: Server) -> SearchEngines {
    if opts.engines == SearchEngines::Auto {
        server.engines
    } else {
        opts.engines
    }
}

pub open spec fn first_of<T>(a: Option<T>, b: T) -> T {
    match a {
        Some(x) => x,
        None => b,
    }
}

pub open spec fn at_least_one(n: usize) -> usize {
    if n < 1 {
        1
    } else {
        n
    }
}

pub open spec fn jina_ready(server: Server) -> bool {
    server.has_jina && server.has_jina_key
}

/// The plan is what a request and the server come to.
pub open spec fn is_plan(p: ScoutPlan, opts: RunOptions, server: Server) -> bool {
    &&& p.fetch_concurrency == at_least_one(
        first_of(opts.fetch_concurrency, server.fetch_concurrency),
    )
    &&& lanes_for(run_engines(opts, server), server.has_obscura, jina_ready(server)) == Ok::<
        Seq<LaneId>,
        Seq<char>,
    >(p.lanes@)
    &&& p.backend == if jina_ready(server) {
        BackendKind::Jina
    } else {
        BackendKind::Obscura
    }
    &&& p.search_cache_ttl == if opts.tune.search_cache {
        Some(opts.tune.search_cache_ttl)
    } else {
        None
    }
    &&& p.thinking_control == first_of(opts.thinking_control, server.thinking_control)
    &&& p.planner_thinking_control == first_of(
        opts.planner_thinking_control,
        server.planner_thinking_control,
    )
    &&& p.llm_model@ == first_of(opts@.llm_model, server.llm_model@)
    &&& p.planner_model@ == first_of(opts@.planner_model, server.planner_model@)
}

/// Set up a run: what the request says, else what the server was started with.
pub fn plan_scout(opts: &RunOptions, server: &Server) -> (r: Result<ScoutPlan, &'static str>)
    ensures
        match r {
            Ok(p) => is_plan(p, *opts, *server),
            Err(e) => lanes_for(
                run_engines(*opts, *server),
                server.has_obscura,
                jina_ready(*server),
            ) == Err::<Seq<LaneId>, Seq<char>>(e@),
        },
{
    let fetch: usize = match opts.fetch_concurrency {
        Some(n) => n,
        None => server.fetch_concurrency,
    };
    let jina: bool = server.has_jina && server.has_jina_key;
    let engines = if opts.engines == SearchEngines::Auto {
        server.engines
    } else {
        opts.engines
    };
    let lanes = match select_lanes(engines, server.has_obscura, jina) {
        Ok(v) => v,
        Err(e) => {
            return Err(e);
        },
    };
    let backend = match select_backend(server.has_obscura, jina) {
        Ok(b) => b,
        Err(e) => {
            return Err(e);
        },
    };
    Ok(
        ScoutPlan {
            fetch_concurrency: if fetch < 1 {
                1
            } else {
                fetch
            },
            lanes,
            backend,
            search_cache_ttl: if opts.tune.search_cache {
                Some(opts.tune.search_cache_ttl)
            } else {
                None
            },
            thinking_control: match opts.thinking_control {
                Some(c) => c,
                None => server.thinking_control,
            },
            planner_thinking_control: match opts.planner_thinking_control {
                Some(c) => c,
                None => server.planner_thinking_control,
            },
            llm_model: match &opts.llm_model {
                Some(m) => m.clone(),
                None => server.llm_model.clone(),
            },
            planner_model: match &opts.planner_model {
                Some(m) => m.clone(),
                None => server.planner_model.clone(),
            },
        },
    )
}

/// The line that sums up a run names each of its counts; the requests to the models are
/// those of the writer and the planner together.
pub proof fn law_the_stats_event_is_named(report: ScoutReport)
    ensures
        stats_shape(report).says("elapsed_ms"@, Shape::Int(report.stats.elapsed_ms as int)),
        stats_shape(report).says("jev_requests"@, Shape::Int(report.stats.jev_requests as int)),
        stats_shape(report).says("llm_requests"@, Shape::Int(report.stats.llm_requests + report.stats.planner_requests)),
        stats_shape(report).says("pages_fetched"@, Shape::Int(report.stats.pages_fetched as int)),
        stats_shape(report).says("records"@, Shape::Int(report.records@.len() as int)),
        stats_shape(report).says("type"@, Shape::Text("stats"@)),
{
    let v = stats_shape(report)->Object_0;
    assert(v[0] == ("elapsed_ms"@, Shape::Int(report.stats.elapsed_ms as int)));
    assert(v[1] == ("jev_requests"@, Shape::Int(report.stats.jev_requests as int)));
    assert(v[2] == ("llm_requests"@, Shape::Int(report.stats.llm_requests + report.stats.planner_requests)));
    assert(v[3] == ("pages_fetched"@, Shape::Int(report.stats.pages_fetched as int)));
    assert(v[4] == ("records"@, Shape::Int(report.records@.len() as int)));
    assert(v[5] == ("type"@, Shape::Text("stats"@)));
}

/// The usage event tells what each client spent under the name of that client, and a price
/// that was never reported is absent.
pub proof fn law_the_usage_event_is_named(u: UsageSnapshot, costs: CostTexts, elapsed_ms: u64)
    ensures
        ({
            let e = usage_shape(u, costs, elapsed_ms);
            &&& e.says("elapsed_ms"@, Shape::Int(elapsed_ms as int))
            &&& e.says("llm"@, Shape::Object(llm_usage_members(u.llm, costs.llm@)))
            &&& e.says("planner"@, Shape::Object(llm_usage_members(u.planner, costs.planner@)))
            &&& e.says("type"@, Shape::Text("usage"@))
            &&& exists|j: Shape|
                #[trigger] e.says("jev"@, j) && j.says(
                    "cost_usd"@,
                    Shape::Real(u.jev_cost_usd.bits, costs.jev@),
                ) && j.says("input_tokens"@, Shape::Int(u.jev_input_tokens as int)) && j.says(
                    "requests"@,
                    Shape::Int(u.jev_requests as int),
                )
        }),
        ({
            let m = Shape::Object(llm_usage_members(u.llm, costs.llm@));
            &&& m.says("completion_tokens"@, Shape::Int(u.llm.completion_tokens as int))
            &&& m.says("prompt_tokens"@, Shape::Int(u.llm.prompt_tokens as int))
            &&& m.says("requests"@, Shape::Int(u.llm.requests as int))
            &&& u.llm.reasoning_tokens > 0 ==> m.says(
                "reasoning_tokens"@,
                Shape::Int(u.llm.reasoning_tokens as int),
            )
            &&& u.llm.cost_usd matches Some(x) ==> m.says(
                "cost_usd"@,
                Shape::Real(x.bits, costs.llm@),
            )
            &&& u.llm.cost_usd is None && u.llm.reasoning_tokens == 0 ==> llm_usage_members(
                u.llm,
                costs.llm@,
            ).len() == 3
        }),
{
    let v = usage_shape(u, costs, elapsed_ms)->Object_0;
    let j = v[1].1;
    assert(v[0] == ("elapsed_ms"@, Shape::Int(elapsed_ms as int)));
    assert(v[1] == ("jev"@, j));
    assert(v[2] == ("llm"@, Shape::Object(llm_usage_members(u.llm, costs.llm@))));
    assert(v[3] == ("planner"@, Shape::Object(llm_usage_members(u.planner, costs.planner@))));
    assert(v[4] == ("type"@, Shape::Text("usage"@)));
    let w = j->Object_0;
    assert(w[0] == ("cost_usd"@, Shape::Real(u.jev_cost_usd.bits, costs.jev@)));
    assert(w[1] == ("input_tokens"@, Shape::Int(u.jev_input_tokens as int)));
    assert(w[2] == ("requests"@, Shape::Int(u.jev_requests as int)));
    assert(usage_shape(u, costs, elapsed_ms).says("jev"@, j));
    let m = llm_usage_members(u.llm, costs.llm@);
    let priced: int = if u.llm.cost_usd is Some {
        1
    } else {
        0
    };
    let thought: int = if u.llm.reasoning_tokens > 0 {
        1
    } else {
        0
    };
    assert(m[0] == ("completion_tokens"@, Shape::Int(u.llm.completion_tokens as int)));
    if u.llm.cost_usd is Some {
        assert(m[1] == ("cost_usd"@, Shape::Real(u.llm.cost_usd->0.bits, costs.llm@)));
    }
    assert(m[1 + priced] == ("prompt_tokens"@, Shape::Int(u.llm.prompt_tokens as int)));
    if u.llm.reasoning_tokens > 0 {
        assert(m[2 + priced] == ("reasoning_tokens"@, Shape::Int(u.llm.reasoning_tokens as int)));
    }
    assert(m[2 + priced + thought] == ("requests"@, Shape::Int(u.llm.requests as int)));
}

/// The lines that open and close a run say what they are: the run that was accepted and its
/// query, how it ended with the document in the format asked for, or what went wrong.
pub proof fn law_lines_say_what_they_are(
    id: Seq<char>,
    query: Seq<char>,
    at: Seq<char>,
    outcome: Outcome,
    format: Seq<char>,
    content: Seq<char>,
    stats: Shape,
    mission: Shape,
)
    ensures
        accepted_shape(id, query, at).says("type"@, Shape::Text("accepted"@)),
        accepted_shape(id, query, at).says("run_id"@, Shape::Text(id)),
        accepted_shape(id, query, at).says("query"@, Shape::Text(query)),
        accepted_shape(id, query, at).says("started_at"@, Shape::Text(at)),
        ({
            let r = result_shape(outcome, format, content, stats, mission);
            &&& r.says("type"@, Shape::Text("result"@))
            &&& r.says("content"@, Shape::Text(content))
            &&& r.says("format"@, Shape::Text(format))
            &&& r.says("outcome"@, Shape::Text(outcome.label()))
            &&& r.says("stats"@, stats)
            &&& r.says("mission"@, mission)
        }),
        error_shape(content).says("type"@, Shape::Text("error"@)),
        error_shape(content).says("message"@, Shape::Text(content)),
{
    let a = accepted_shape(id, query, at)->Object_0;
    assert(a[0] == ("query"@, Shape::Text(query)));
    assert(a[1] == ("run_id"@, Shape::Text(id)));
    assert(a[2] == ("started_at"@, Shape::Text(at)));
    assert(a[3] == ("type"@, Shape::Text("accepted"@)));
    let r = result_shape(outcome, format, content, stats, mission)->Object_0;
    assert(r[0] == ("content"@, Shape::Text(content)));
    assert(r[1] == ("format"@, Shape::Text(format)));
    assert(r[2] == ("mission"@, mission));
    assert(r[3] == ("outcome"@, Shape::Text(outcome.label())));
    assert(r[4] == ("stats"@, stats));
    assert(r[5] == ("type"@, Shape::Text("result"@)));
    let e = error_shape(content)->Object_0;
    assert(e[0] == ("message"@, Shape::Text(content)));
    assert(e[1] == ("type"@, Shape::Text("error"@)));
}

/// What a request says wins over what the server was started with, setting by setting, and
/// what it leaves open the server decides.
pub proof fn law_a_request_wins_over_the_server(p: ScoutPlan, opts: RunOptions, server: Server)
    requires
        is_plan(p, opts, server),
    ensures
        opts.fetch_concurrency matches Some(n) ==> n >= 1 ==> p.fetch_concurrency == n,
        opts.fetch_concurrency is None && server.fetch_concurrency >= 1 ==> p.fetch_concurrency
            == server.fetch_concurrency,
        p.fetch_concurrency >= 1,
        opts.thinking_control matches Some(c) ==> p.thinking_control == c,
        opts.thinking_control is None ==> p.thinking_control == server.thinking_control,
        opts.planner_thinking_control matches Some(c) ==> p.planner_thinking_control == c,
        opts.planner_thinking_control is None ==> p.planner_thinking_control
            == server.planner_thinking_control,
        opts.llm_model matches Some(m) ==> p.llm_model@ == m@,
        opts.llm_model is None ==> p.llm_model@ == server.llm_model@,
        opts.planner_model matches Some(m) ==> p.planner_model@ == m@,
        opts.planner_model is None ==> p.planner_model@ == server.planner_model@,
        opts.tune.search_cache ==> p.search_cache_ttl == Some(opts.tune.search_cache_ttl),
        !opts.tune.search_cache ==> p.search_cache_ttl is None,
        opts.engines == SearchEngines::Ddg ==> p.lanes@ == seq![LaneId::Ddg] && server.has_obscura,
        opts.engines == SearchEngines::Jina ==> p.lanes@ == seq![LaneId::Jina]
            && server.has_jina && server.has_jina_key,
        opts.engines == SearchEngines::Auto && server.engines == SearchEngines::Ddg ==> p.lanes@
            == seq![LaneId::Ddg],
        p.backend == BackendKind::Jina <==> server.has_jina && server.has_jina_key,
{
}

} // verus!
