//! What the statistics page is told: the counts of a range of runs, and the figures that
//! were worked out from them.
use vstd::prelude::*;
use vstd::string::*;
use crate::clock::{instant_text, rfc3339};
use crate::json::{
    add_item, add_member, item_shapes, list, member_shapes, no_items, no_members, number, object,
    string, Json, Shape,
};
use crate::stats::{all_within, Bucket, Point, RunRecord, Summary};
use crate::types::Figure;

verus! {

/// The figures of one kind of run.
#[derive(Debug)]
pub struct KindFigures {
    pub avg_cost_usd: Figure,
    pub avg_elapsed_s: Figure,
    pub success_rate: Figure,
}

/// The figures of one point of the series.
#[derive(Debug)]
pub struct PointFigures {
    pub cost_usd: Figure,
    pub avg_elapsed_s: Figure,
}

/// The figures of one recent run.
#[derive(Debug)]
pub struct RunFigures {
    pub cost_usd: Figure,
    pub elapsed_s: Figure,
}

/// What takes fractions: prices, averages and rates.
#[derive(Debug)]
pub struct Figures {
    pub cost_usd: Figure,
    pub avg_cost_usd: Figure,
    pub avg_elapsed_s: Figure,
    pub p50_elapsed_s: Figure,
    pub p90_elapsed_s: Figure,
    pub success_rate: Figure,
    pub jev_usd: Figure,
    pub writer_usd: Figure,
    pub planner_usd: Figure,
    pub total_usd: Figure,
    /// What every run of the log cost.
    pub all_time_usd: Figure,
    pub answer: KindFigures,
    pub harvest: KindFigures,
    /// One for each point of the series.
    pub series: Vec<PointFigures>,
    /// One for each recent run.
    pub recent: Vec<RunFigures>,
}

/// A figure as a value.
pub open spec fn figure(f: Figure) -> Shape {
    Shape::Real(f.bits, f.text@)
}

fn shown(f: &Figure) -> (r: Json)
    ensures
        r.shape() == figure(*f),
{
    Json::Real(f.clone())
}

fn instant(secs: u64) -> (r: Json)
    ensures
        r.shape() == Shape::Text(instant_text(secs)),
{
    let t = rfc3339(secs);
    string(t.as_str())
}

/// The range that was asked for, its ends as instants.
pub open spec fn range_shape(from: u64, now: u64, bucket: Bucket, days: u32) -> Shape {
    Shape::Object(
        seq![
            ("bucket"@, Shape::Text(bucket.label())),
            ("days"@, Shape::Int(days as int)),
            ("from"@, Shape::Text(instant_text(from))),
            ("to"@, Shape::Text(instant_text(now))),
        ],
    )
}

fn range_json(from: u64, now: u64, bucket: Bucket, days: u32) -> (r: Json)
    ensures
        r.shape() == range_shape(from, now, bucket, days),
{
    let mut m = no_members();
    add_member(&mut m, "bucket", string(bucket.as_str()));
    add_member(&mut m, "days", number(days as u64));
    add_member(&mut m, "from", instant(from));
    add_member(&mut m, "to", instant(now));
    assert(member_shapes(m@) =~= range_shape(from, now, bucket, days)->Object_0);
    object(m)
}

/// The sums are numbers that a reply can hold.
pub open spec fn sums_fit(s: Summary) -> bool {
    &&& s.records <= u64::MAX && s.pages <= u64::MAX
    &&& s.jev_input <= u64::MAX
    &&& s.writer_prompt <= u64::MAX && s.writer_completion <= u64::MAX
    &&& s.planner_prompt <= u64::MAX && s.planner_completion <= u64::MAX
}

/// Do the sums fit into a reply?
pub fn fits(s: &Summary) -> (r: bool)
    ensures
        r == sums_fit(*s),
{
    let max: u128 = u64::MAX as u128;
    s.records <= max && s.pages <= max && s.jev_input <= max && s.writer_prompt <= max
        && s.writer_completion <= max && s.planner_prompt <= max && s.planner_completion <= max
}

/// The counts and the figures of the whole range.
pub open spec fn totals_shape(s: Summary, f: Figures) -> Shape {
    Shape::Object(
        seq![
            ("answer"@, Shape::Int(s.answers@.len() as int)),
            ("avg_cost_usd"@, figure(f.avg_cost_usd)),
            ("avg_elapsed_s"@, figure(f.avg_elapsed_s)),
            ("cancelled"@, Shape::Int(s.outcomes.cancelled as int)),
            ("complete"@, Shape::Int(s.outcomes.complete as int)),
            ("cost_usd"@, figure(f.cost_usd)),
            ("empty"@, Shape::Int(s.outcomes.empty as int)),
            ("failed"@, Shape::Int(s.outcomes.failed as int)),
            ("harvest"@, Shape::Int(s.harvests@.len() as int)),
            ("mcp"@, Shape::Int(s.mcp as int)),
            ("p50_elapsed_s"@, figure(f.p50_elapsed_s)),
            ("p90_elapsed_s"@, figure(f.p90_elapsed_s)),
            ("pages"@, Shape::Int(s.pages as int)),
            ("partial"@, Shape::Int(s.outcomes.partial as int)),
            ("records"@, Shape::Int(s.records as int)),
            ("runs"@, Shape::Int(s.runs@.len() as int)),
            ("success_rate"@, figure(f.success_rate)),
            ("truncated"@, Shape::Int(s.outcomes.truncated as int)),
            ("ui"@, Shape::Int(s.ui as int)),
        ],
    )
}

fn totals_json(s: &Summary, f: &Figures) -> (r: Json)
    requires
        sums_fit(*s),
    ensures
        r.shape() == totals_shape(*s, *f),
{
    let mut m = no_members();
    add_member(&mut m, "answer", number(s.answers.len() as u64));
    add_member(&mut m, "avg_cost_usd", shown(&f.avg_cost_usd));
    add_member(&mut m, "avg_elapsed_s", shown(&f.avg_elapsed_s));
    add_member(&mut m, "cancelled", number(s.outcomes.cancelled as u64));
    add_member(&mut m, "complete", number(s.outcomes.complete as u64));
    add_member(&mut m, "cost_usd", shown(&f.cost_usd));
    add_member(&mut m, "empty", number(s.outcomes.empty as u64));
    add_member(&mut m, "failed", number(s.outcomes.failed as u64));
    add_member(&mut m, "harvest", number(s.harvests.len() as u64));
    add_member(&mut m, "mcp", number(s.mcp as u64));
    add_member(&mut m, "p50_elapsed_s", shown(&f.p50_elapsed_s));
    add_member(&mut m, "p90_elapsed_s", shown(&f.p90_elapsed_s));
    add_member(&mut m, "pages", number(s.pages as u64));
    add_member(&mut m, "partial", number(s.outcomes.partial as u64));
    add_member(&mut m, "records", number(s.records as u64));
    add_member(&mut m, "runs", number(s.runs.len() as u64));
    add_member(&mut m, "success_rate", shown(&f.success_rate));
    add_member(&mut m, "truncated", number(s.outcomes.truncated as u64));
    add_member(&mut m, "ui", number(s.ui as u64));
    assert(member_shapes(m@) =~= totals_shape(*s, *f)->Object_0);
    object(m)
}

/// What the range cost, by who spent it.
pub open spec fn cost_shape(f: Figures) -> Shape {
    Shape::Object(
        seq![
            ("jev_usd"@, figure(f.jev_usd)),
            ("planner_usd"@, figure(f.planner_usd)),
            ("total_usd"@, figure(f.total_usd)),
            ("writer_usd"@, figure(f.writer_usd)),
        ],
    )
}

fn cost_json(f: &Figures) -> (r: Json)
    ensures
        r.shape() == cost_shape(*f),
{
    let mut m = no_members();
    add_member(&mut m, "jev_usd", shown(&f.jev_usd));
    add_member(&mut m, "planner_usd", shown(&f.planner_usd));
    add_member(&mut m, "total_usd", shown(&f.total_usd));
    add_member(&mut m, "writer_usd", shown(&f.writer_usd));
    assert(member_shapes(m@) =~= cost_shape(*f)->Object_0);
    object(m)
}

/// The tokens of the range, by who spent them.
pub open spec fn tokens_shape(s: Summary) -> Shape {
    Shape::Object(
        seq![
            ("jev_input"@, Shape::Int(s.jev_input as int)),
            ("planner_completion"@, Shape::Int(s.planner_completion as int)),
            ("planner_prompt"@, Shape::Int(s.planner_prompt as int)),
            ("writer_completion"@, Shape::Int(s.writer_completion as int)),
            ("writer_prompt"@, Shape::Int(s.writer_prompt as int)),
        ],
    )
}

fn tokens_json(s: &Summary) -> (r: Json)
    requires
        sums_fit(*s),
    ensures
        r.shape() == tokens_shape(*s),
{
    let mut m = no_members();
    add_member(&mut m, "jev_input", number(s.jev_input as u64));
    add_member(&mut m, "planner_completion", number(s.planner_completion as u64));
    add_member(&mut m, "planner_prompt", number(s.planner_prompt as u64));
    add_member(&mut m, "writer_completion", number(s.writer_completion as u64));
    add_member(&mut m, "writer_prompt", number(s.writer_prompt as u64));
    assert(member_shapes(m@) =~= tokens_shape(*s)->Object_0);
    object(m)
}

/// One kind of run.
pub open spec fn kind_shape(runs: nat, f: KindFigures) -> Shape {
    Shape::Object(
        seq![
            ("avg_cost_usd"@, figure(f.avg_cost_usd)),
            ("avg_elapsed_s"@, figure(f.avg_elapsed_s)),
            ("runs"@, Shape::Int(runs as int)),
            ("success_rate"@, figure(f.success_rate)),
        ],
    )
}

fn kind_json(runs: usize, f: &KindFigures) -> (r: Json)
    ensures
        r.shape() == kind_shape(runs as nat, *f),
{
    let mut m = no_members();
    add_member(&mut m, "avg_cost_usd", shown(&f.avg_cost_usd));
    add_member(&mut m, "avg_elapsed_s", shown(&f.avg_elapsed_s));
    add_member(&mut m, "runs", number(runs as u64));
    add_member(&mut m, "success_rate", shown(&f.success_rate));
    assert(member_shapes(m@) =~= kind_shape(runs as nat, *f)->Object_0);
    object(m)
}

/// The runs by kind.
pub open spec fn kinds_shape(s: Summary, f: Figures) -> Shape {
    Shape::Object(
        seq![
            ("answer"@, kind_shape(s.answers@.len(), f.answer)),
            ("harvest"@, kind_shape(s.harvests@.len(), f.harvest)),
        ],
    )
}

fn kinds_json(s: &Summary, f: &Figures) -> (r: Json)
    ensures
        r.shape() == kinds_shape(*s, *f),
{
    let mut m = no_members();
    add_member(&mut m, "answer", kind_json(s.answers.len(), &f.answer));
    add_member(&mut m, "harvest", kind_json(s.harvests.len(), &f.harvest));
    assert(member_shapes(m@) =~= kinds_shape(*s, *f)->Object_0);
    object(m)
}

/// The runs by preset.
pub open spec fn presets_shape(s: Summary) -> Shape {
    Shape::Object(
        seq![
            ("quick"@, Shape::Int(s.quick as int)),
            ("standard"@, Shape::Int(s.standard as int)),
            ("thorough"@, Shape::Int(s.thorough as int)),
        ],
    )
}

fn presets_json(s: &Summary) -> (r: Json)
    ensures
        r.shape() == presets_shape(*s),
{
    let mut m = no_members();
    add_member(&mut m, "quick", number(s.quick as u64));
    add_member(&mut m, "standard", number(s.standard as u64));
    add_member(&mut m, "thorough", number(s.thorough as u64));
    assert(member_shapes(m@) =~= presets_shape(*s)->Object_0);
    object(m)
}

/// One point of the series.
pub open spec fn point_shape(p: Point, f: PointFigures) -> Shape {
    Shape::Object(
        seq![
            ("avg_elapsed_s"@, figure(f.avg_elapsed_s)),
            ("cancelled"@, Shape::Int(p.outcomes.cancelled as int)),
            ("complete"@, Shape::Int(p.outcomes.complete as int)),
            ("cost_usd"@, figure(f.cost_usd)),
            ("empty"@, Shape::Int(p.outcomes.empty as int)),
            ("failed"@, Shape::Int(p.outcomes.failed as int)),
            ("partial"@, Shape::Int(p.outcomes.partial as int)),
            ("runs"@, Shape::Int(p.runs@.len() as int)),
            ("t"@, Shape::Text(instant_text(p.start))),
            ("truncated"@, Shape::Int(p.outcomes.truncated as int)),
        ],
    )
}

fn point_json(p: &Point, f: &PointFigures) -> (r: Json)
    ensures
        r.shape() == point_shape(*p, *f),
{
    let mut m = no_members();
    add_member(&mut m, "avg_elapsed_s", shown(&f.avg_elapsed_s));
    add_member(&mut m, "cancelled", number(p.outcomes.cancelled as u64));
    add_member(&mut m, "complete", number(p.outcomes.complete as u64));
    add_member(&mut m, "cost_usd", shown(&f.cost_usd));
    add_member(&mut m, "empty", number(p.outcomes.empty as u64));
    add_member(&mut m, "failed", number(p.outcomes.failed as u64));
    add_member(&mut m, "partial", number(p.outcomes.partial as u64));
    add_member(&mut m, "runs", number(p.runs.len() as u64));
    add_member(&mut m, "t", instant(p.start));
    add_member(&mut m, "truncated", number(p.outcomes.truncated as u64));
    assert(member_shapes(m@) =~= point_shape(*p, *f)->Object_0);
    object(m)
}

/// One recent run.
pub open spec fn run_shape(run: RunRecord, f: RunFigures) -> Shape {
    Shape::Object(
        seq![
            ("cost_usd"@, figure(f.cost_usd)),
            ("elapsed_s"@, figure(f.elapsed_s)),
            ("id"@, Shape::Text(run.id@)),
            ("kind"@, Shape::Text(run.kind@)),
            ("outcome"@, Shape::Text(run.outcome@)),
            ("pages"@, Shape::Int(run.pages as int)),
            ("query"@, Shape::Text(run.query@)),
            ("records"@, Shape::Int(run.records as int)),
            ("source"@, Shape::Text(run.source@)),
            ("started_at"@, Shape::Text(instant_text(run.started_at))),
        ],
    )
}

fn run_json(run: &RunRecord, f: &RunFigures) -> (r: Json)
    ensures
        r.shape() == run_shape(*run, *f),
{
    let mut m = no_members();
    add_member(&mut m, "cost_usd", shown(&f.cost_usd));
    add_member(&mut m, "elapsed_s", shown(&f.elapsed_s));
    add_member(&mut m, "id", string(run.id.as_str()));
    add_member(&mut m, "kind", string(run.kind.as_str()));
    add_member(&mut m, "outcome", string(run.outcome.as_str()));
    add_member(&mut m, "pages", number(run.pages as u64));
    add_member(&mut m, "query", string(run.query.as_str()));
    add_member(&mut m, "records", number(run.records as u64));
    add_member(&mut m, "source", string(run.source.as_str()));
    add_member(&mut m, "started_at", instant(run.started_at));
    assert(member_shapes(m@) =~= run_shape(*run, *f)->Object_0);
    object(m)
}

/// The whole log: what it cost, when it started, how many runs it holds.
pub open spec fn all_time_shape(all: Seq<RunRecord>, first: Option<u64>, cost: Figure) -> Shape {
    Shape::Object(
        seq![
            ("cost_usd"@, figure(cost)),
            (
                "first_run_at"@,
                match first {
                    Some(t) => Shape::Text(instant_text(t)),
                    None => Shape::Null,
                },
            ),
            ("runs"@, Shape::Int(all.len() as int)),
        ],
    )
}

fn all_time_json(all: &Vec<RunRecord>, first: Option<u64>, cost: &Figure) -> (r: Json)
    ensures
        r.shape() == all_time_shape(all@, first, *cost),
{
    let mut m = no_members();
    add_member(&mut m, "cost_usd", shown(cost));
    let started = match first {
        Some(t) => instant(t),
        None => Json::Null,
    };
    add_member(&mut m, "first_run_at", started);
    add_member(&mut m, "runs", number(all.len() as u64));
    assert(member_shapes(m@) =~= all_time_shape(all@, first, *cost)->Object_0);
    object(m)
}

/// The points of the series.
pub open spec fn series_shapes(points: Seq<Point>, figures: Seq<PointFigures>) -> Seq<Shape> {
    Seq::new(points.len(), |i: int| point_shape(points[i], figures[i]))
}

fn series_json(points: &Vec<Point>, figures: &Vec<PointFigures>) -> (r: Json)
    requires
        points@.len() == figures@.len(),
    ensures
        r.shape() == Shape::List(series_shapes(points@, figures@)),
{
    let ghost all = series_shapes(points@, figures@);
    let mut out = no_items();
    let mut i: usize = 0;
    assert(item_shapes(out@) =~= all.take(0));
    while i < points.len()
        invariant
            i <= points@.len() == figures@.len(),
            all == series_shapes(points@, figures@),
            item_shapes(out@) == all.take(i as int),
        decreases points@.len() - i,
    {
        add_item(&mut out, point_json(&points[i], &figures[i]));
        i += 1;
        assert(item_shapes(out@) =~= all.take(i as int));
    }
    assert(all.take(i as int) =~= all);
    list(out)
}

/// The newest runs, newest first.
pub open spec fn recent_shapes(
    all: Seq<RunRecord>,
    recent: Seq<usize>,
    figures: Seq<RunFigures>,
) -> Seq<Shape> {
    Seq::new(recent.len(), |i: int| run_shape(all[recent[i] as int], figures[i]))
}

fn recent_json(all: &Vec<RunRecord>, recent: &Vec<usize>, figures: &Vec<RunFigures>) -> (r: Json)
    requires
        recent@.len() == figures@.len(),
        all_within(recent@, all@.len() as int),
    ensures
        r.shape() == Shape::List(recent_shapes(all@, recent@, figures@)),
{
    let ghost want = recent_shapes(all@, recent@, figures@);
    let mut out = no_items();
    let mut i: usize = 0;
    assert(item_shapes(out@) =~= want.take(0));
    while i < recent.len()
        invariant
            i <= recent@.len() == figures@.len(),
            all_within(recent@, all@.len() as int),
            want == recent_shapes(all@, recent@, figures@),
            item_shapes(out@) == want.take(i as int),
        decreases recent@.len() - i,
    {
        let at: usize = recent[i];
        add_item(&mut out, run_json(&all[at], &figures[i]));
        i += 1;
        assert(item_shapes(out@) =~= want.take(i as int));
    }
    assert(want.take(i as int) =~= want);
    list(out)
}

/// There is a figure for each point and for each recent run.
pub open spec fn match_up(s: Summary, f: Figures) -> bool {
    f.series@.len() == s.series@.len() && f.recent@.len() == s.recent@.len()
}

/// The whole reply, its members in the order of their names.
pub open spec fn dashboard_shape(
    all: Seq<RunRecord>,
    s: Summary,
    f: Figures,
    now: u64,
    bucket: Bucket,
    days: u32,
) -> Shape {
    Shape::Object(
        seq![
            ("all_time"@, all_time_shape(all, s.first_run_at, f.all_time_usd)),
            ("by_kind"@, kinds_shape(s, f)),
            ("by_preset"@, presets_shape(s)),
            ("cost"@, cost_shape(f)),
            ("generated_at"@, Shape::Text(instant_text(now))),
            ("range"@, range_shape(s.from, now, bucket, days)),
            ("recent"@, Shape::List(recent_shapes(all, s.recent@, f.recent@))),
            ("series"@, Shape::List(series_shapes(s.series@, f.series@))),
            ("tokens"@, tokens_shape(s)),
            ("totals"@, totals_shape(s, f)),
        ],
    )
}

/// What the statistics page is told of a range that ends at `now`.
pub fn dashboard(
    all: &Vec<RunRecord>,
    s: &Summary,
    f: &Figures,
    now: u64,
    bucket: Bucket,
    days: u32,
) -> (r: Json)
    requires
        s.describes(all@, now as int, bucket, days as int),
        sums_fit(*s),
        match_up(*s, *f),
    ensures
        r.shape() == dashboard_shape(all@, *s, *f, now, bucket, days),
{
    let mut m = no_members();
    add_member(&mut m, "all_time", all_time_json(all, s.first_run_at, &f.all_time_usd));
    add_member(&mut m, "by_kind", kinds_json(s, f));
    add_member(&mut m, "by_preset", presets_json(s));
    add_member(&mut m, "cost", cost_json(f));
    add_member(&mut m, "generated_at", instant(now));
    add_member(&mut m, "range", range_json(s.from, now, bucket, days));
    add_member(&mut m, "recent", recent_json(all, &s.recent, &f.recent));
    add_member(&mut m, "series", series_json(&s.series, &f.series));
    add_member(&mut m, "tokens", tokens_json(s));
    add_member(&mut m, "totals", totals_json(s, f));
    assert(member_shapes(m@) =~= dashboard_shape(all@, *s, *f, now, bucket, days)->Object_0);
    object(m)
}

// -------------------------------------------------------------------- laws --

/// Every count and figure of the whole range stands under its own name.
pub proof fn law_totals_are_named(s: Summary, f: Figures)
    ensures
        totals_shape(s, f).says("answer"@, Shape::Int(s.answers@.len() as int)),
        totals_shape(s, f).says("avg_cost_usd"@, Shape::Real(f.avg_cost_usd.bits, f.avg_cost_usd.text@)),
        totals_shape(s, f).says("avg_elapsed_s"@, Shape::Real(f.avg_elapsed_s.bits, f.avg_elapsed_s.text@)),
        totals_shape(s, f).says("cancelled"@, Shape::Int(s.outcomes.cancelled as int)),
        totals_shape(s, f).says("complete"@, Shape::Int(s.outcomes.complete as int)),
        totals_shape(s, f).says("cost_usd"@, Shape::Real(f.cost_usd.bits, f.cost_usd.text@)),
        totals_shape(s, f).says("empty"@, Shape::Int(s.outcomes.empty as int)),
        totals_shape(s, f).says("failed"@, Shape::Int(s.outcomes.failed as int)),
        totals_shape(s, f).says("harvest"@, Shape::Int(s.harvests@.len() as int)),
        totals_shape(s, f).says("mcp"@, Shape::Int(s.mcp as int)),
        totals_shape(s, f).says("p50_elapsed_s"@, Shape::Real(f.p50_elapsed_s.bits, f.p50_elapsed_s.text@)),
        totals_shape(s, f).says("p90_elapsed_s"@, Shape::Real(f.p90_elapsed_s.bits, f.p90_elapsed_s.text@)),
        totals_shape(s, f).says("pages"@, Shape::Int(s.pages as int)),
        totals_shape(s, f).says("partial"@, Shape::Int(s.outcomes.partial as int)),
        totals_shape(s, f).says("records"@, Shape::Int(s.records as int)),
        totals_shape(s, f).says("runs"@, Shape::Int(s.runs@.len() as int)),
        totals_shape(s, f).says("success_rate"@, Shape::Real(f.success_rate.bits, f.success_rate.text@)),
        totals_shape(s, f).says("truncated"@, Shape::Int(s.outcomes.truncated as int)),
        totals_shape(s, f).says("ui"@, Shape::Int(s.ui as int)),
{
    let v = totals_shape(s, f)->Object_0;
    assert(v[0] == ("answer"@, Shape::Int(s.answers@.len() as int)));
    assert(v[1] == ("avg_cost_usd"@, Shape::Real(f.avg_cost_usd.bits, f.avg_cost_usd.text@)));
    assert(v[2] == ("avg_elapsed_s"@, Shape::Real(f.avg_elapsed_s.bits, f.avg_elapsed_s.text@)));
    assert(v[3] == ("cancelled"@, Shape::Int(s.outcomes.cancelled as int)));
    assert(v[4] == ("complete"@, Shape::Int(s.outcomes.complete as int)));
    assert(v[5] == ("cost_usd"@, Shape::Real(f.cost_usd.bits, f.cost_usd.text@)));
    assert(v[6] == ("empty"@, Shape::Int(s.outcomes.empty as int)));
    assert(v[7] == ("failed"@, Shape::Int(s.outcomes.failed as int)));
    assert(v[8] == ("harvest"@, Shape::Int(s.harvests@.len() as int)));
    assert(v[9] == ("mcp"@, Shape::Int(s.mcp as int)));
    assert(v[10] == ("p50_elapsed_s"@, Shape::Real(f.p50_elapsed_s.bits, f.p50_elapsed_s.text@)));
    assert(v[11] == ("p90_elapsed_s"@, Shape::Real(f.p90_elapsed_s.bits, f.p90_elapsed_s.text@)));
    assert(v[12] == ("pages"@, Shape::Int(s.pages as int)));
    assert(v[13] == ("partial"@, Shape::Int(s.outcomes.partial as int)));
    assert(v[14] == ("records"@, Shape::Int(s.records as int)));
    assert(v[15] == ("runs"@, Shape::Int(s.runs@.len() as int)));
    assert(v[16] == ("success_rate"@, Shape::Real(f.success_rate.bits, f.success_rate.text@)));
    assert(v[17] == ("truncated"@, Shape::Int(s.outcomes.truncated as int)));
    assert(v[18] == ("ui"@, Shape::Int(s.ui as int)));
}

/// What was spent stands under the name of who spent it.
pub proof fn law_costs_are_named(f: Figures)
    ensures
        cost_shape(f).says("jev_usd"@, Shape::Real(f.jev_usd.bits, f.jev_usd.text@)),
        cost_shape(f).says("planner_usd"@, Shape::Real(f.planner_usd.bits, f.planner_usd.text@)),
        cost_shape(f).says("total_usd"@, Shape::Real(f.total_usd.bits, f.total_usd.text@)),
        cost_shape(f).says("writer_usd"@, Shape::Real(f.writer_usd.bits, f.writer_usd.text@)),
{
    let v = cost_shape(f)->Object_0;
    assert(v[0] == ("jev_usd"@, Shape::Real(f.jev_usd.bits, f.jev_usd.text@)));
    assert(v[1] == ("planner_usd"@, Shape::Real(f.planner_usd.bits, f.planner_usd.text@)));
    assert(v[2] == ("total_usd"@, Shape::Real(f.total_usd.bits, f.total_usd.text@)));
    assert(v[3] == ("writer_usd"@, Shape::Real(f.writer_usd.bits, f.writer_usd.text@)));
}

/// The tokens stand under the name of who read or wrote them.
pub proof fn law_tokens_are_named(s: Summary)
    ensures
        tokens_shape(s).says("jev_input"@, Shape::Int(s.jev_input as int)),
        tokens_shape(s).says("planner_completion"@, Shape::Int(s.planner_completion as int)),
        tokens_shape(s).says("planner_prompt"@, Shape::Int(s.planner_prompt as int)),
        tokens_shape(s).says("writer_completion"@, Shape::Int(s.writer_completion as int)),
        tokens_shape(s).says("writer_prompt"@, Shape::Int(s.writer_prompt as int)),
{
    let v = tokens_shape(s)->Object_0;
    assert(v[0] == ("jev_input"@, Shape::Int(s.jev_input as int)));
    assert(v[1] == ("planner_completion"@, Shape::Int(s.planner_completion as int)));
    assert(v[2] == ("planner_prompt"@, Shape::Int(s.planner_prompt as int)));
    assert(v[3] == ("writer_completion"@, Shape::Int(s.writer_completion as int)));
    assert(v[4] == ("writer_prompt"@, Shape::Int(s.writer_prompt as int)));
}

/// Every count of a point stands under its own name, beside the instant at which it starts.
pub proof fn law_points_are_named(p: Point, f: PointFigures)
    ensures
        point_shape(p, f).says("avg_elapsed_s"@, Shape::Real(f.avg_elapsed_s.bits, f.avg_elapsed_s.text@)),
        point_shape(p, f).says("cancelled"@, Shape::Int(p.outcomes.cancelled as int)),
        point_shape(p, f).says("complete"@, Shape::Int(p.outcomes.complete as int)),
        point_shape(p, f).says("cost_usd"@, Shape::Real(f.cost_usd.bits, f.cost_usd.text@)),
        point_shape(p, f).says("empty"@, Shape::Int(p.outcomes.empty as int)),
        point_shape(p, f).says("failed"@, Shape::Int(p.outcomes.failed as int)),
        point_shape(p, f).says("partial"@, Shape::Int(p.outcomes.partial as int)),
        point_shape(p, f).says("runs"@, Shape::Int(p.runs@.len() as int)),
        point_shape(p, f).says("t"@, Shape::Text(instant_text(p.start))),
        point_shape(p, f).says("truncated"@, Shape::Int(p.outcomes.truncated as int)),
{
    let v = point_shape(p, f)->Object_0;
    assert(v[0] == ("avg_elapsed_s"@, Shape::Real(f.avg_elapsed_s.bits, f.avg_elapsed_s.text@)));
    assert(v[1] == ("cancelled"@, Shape::Int(p.outcomes.cancelled as int)));
    assert(v[2] == ("complete"@, Shape::Int(p.outcomes.complete as int)));
    assert(v[3] == ("cost_usd"@, Shape::Real(f.cost_usd.bits, f.cost_usd.text@)));
    assert(v[4] == ("empty"@, Shape::Int(p.outcomes.empty as int)));
    assert(v[5] == ("failed"@, Shape::Int(p.outcomes.failed as int)));
    assert(v[6] == ("partial"@, Shape::Int(p.outcomes.partial as int)));
    assert(v[7] == ("runs"@, Shape::Int(p.runs@.len() as int)));
    assert(v[8] == ("t"@, Shape::Text(instant_text(p.start))));
    assert(v[9] == ("truncated"@, Shape::Int(p.outcomes.truncated as int)));
}

/// A recent run is shown with what the log says of it, each under its own name.
pub proof fn law_recent_runs_are_named(run: RunRecord, f: RunFigures)
    ensures
        run_shape(run, f).says("cost_usd"@, Shape::Real(f.cost_usd.bits, f.cost_usd.text@)),
        run_shape(run, f).says("elapsed_s"@, Shape::Real(f.elapsed_s.bits, f.elapsed_s.text@)),
        run_shape(run, f).says("id"@, Shape::Text(run.id@)),
        run_shape(run, f).says("kind"@, Shape::Text(run.kind@)),
        run_shape(run, f).says("outcome"@, Shape::Text(run.outcome@)),
        run_shape(run, f).says("pages"@, Shape::Int(run.pages as int)),
        run_shape(run, f).says("query"@, Shape::Text(run.query@)),
        run_shape(run, f).says("records"@, Shape::Int(run.records as int)),
        run_shape(run, f).says("source"@, Shape::Text(run.source@)),
        run_shape(run, f).says("started_at"@, Shape::Text(instant_text(run.started_at))),
{
    let v = run_shape(run, f)->Object_0;
    assert(v[0] == ("cost_usd"@, Shape::Real(f.cost_usd.bits, f.cost_usd.text@)));
    assert(v[1] == ("elapsed_s"@, Shape::Real(f.elapsed_s.bits, f.elapsed_s.text@)));
    assert(v[2] == ("id"@, Shape::Text(run.id@)));
    assert(v[3] == ("kind"@, Shape::Text(run.kind@)));
    assert(v[4] == ("outcome"@, Shape::Text(run.outcome@)));
    assert(v[5] == ("pages"@, Shape::Int(run.pages as int)));
    assert(v[6] == ("query"@, Shape::Text(run.query@)));
    assert(v[7] == ("records"@, Shape::Int(run.records as int)));
    assert(v[8] == ("source"@, Shape::Text(run.source@)));
    assert(v[9] == ("started_at"@, Shape::Text(instant_text(run.started_at))));
}

/// The whole reply says how many runs of each kind and preset there were, how many the log
/// holds, which range was asked for, and one point and one run for each of the summary's.
pub proof fn law_the_reply_is_about_its_range(
    all: Seq<RunRecord>,
    s: Summary,
    f: Figures,
    now: u64,
    bucket: Bucket,
    days: u32,
)
    ensures
        ({
            let d = dashboard_shape(all, s, f, now, bucket, days);
            &&& d.says("totals"@, totals_shape(s, f))
            &&& d.says("tokens"@, tokens_shape(s))
            &&& d.says("cost"@, cost_shape(f))
            &&& d.says("generated_at"@, Shape::Text(instant_text(now)))
            &&& d.says(
                "by_preset"@,
                Shape::Object(
                    seq![
                        ("quick"@, Shape::Int(s.quick as int)),
                        ("standard"@, Shape::Int(s.standard as int)),
                        ("thorough"@, Shape::Int(s.thorough as int)),
                    ],
                ),
            )
            &&& d.says(
                "range"@,
                Shape::Object(
                    seq![
                        ("bucket"@, Shape::Text(bucket.label())),
                        ("days"@, Shape::Int(days as int)),
                        ("from"@, Shape::Text(instant_text(s.from))),
                        ("to"@, Shape::Text(instant_text(now))),
                    ],
                ),
            )
            &&& exists|points: Seq<Shape>|
                #[trigger] d.says("series"@, Shape::List(points)) && points.len() == s.series@.len()
                    && forall|i: int|
                    0 <= i < points.len() ==> #[trigger] points[i] == point_shape(
                        s.series@[i],
                        f.series@[i],
                    )
            &&& exists|runs: Seq<Shape>|
                #[trigger] d.says("recent"@, Shape::List(runs)) && runs.len() == s.recent@.len() && forall|
                    i: int,
                |
                    0 <= i < runs.len() ==> #[trigger] runs[i] == run_shape(
                        all[s.recent@[i] as int],
                        f.recent@[i],
                    )
        }),
        kinds_shape(s, f).says("answer"@, kind_shape(s.answers@.len(), f.answer)),
        kinds_shape(s, f).says("harvest"@, kind_shape(s.harvests@.len(), f.harvest)),
        all_time_shape(all, s.first_run_at, f.all_time_usd).says(
            "runs"@,
            Shape::Int(all.len() as int),
        ),
{
    let v = dashboard_shape(all, s, f, now, bucket, days)->Object_0;
    assert(v[2] == ("by_preset"@, presets_shape(s)));
    assert(v[3] == ("cost"@, cost_shape(f)));
    assert(v[4] == ("generated_at"@, Shape::Text(instant_text(now))));
    assert(v[5] == ("range"@, range_shape(s.from, now, bucket, days)));
    let runs = recent_shapes(all, s.recent@, f.recent@);
    let points = series_shapes(s.series@, f.series@);
    assert(v[6] == ("recent"@, Shape::List(runs)));
    assert(v[7] == ("series"@, Shape::List(points)));
    assert(v[8] == ("tokens"@, tokens_shape(s)));
    assert(v[9] == ("totals"@, totals_shape(s, f)));
    assert(dashboard_shape(all, s, f, now, bucket, days).says("series"@, Shape::List(points)));
    assert(dashboard_shape(all, s, f, now, bucket, days).says("recent"@, Shape::List(runs)));
    let k = kinds_shape(s, f)->Object_0;
    assert(k[0] == ("answer"@, kind_shape(s.answers@.len(), f.answer)));
    assert(k[1] == ("harvest"@, kind_shape(s.harvests@.len(), f.harvest)));
    let a = all_time_shape(all, s.first_run_at, f.all_time_usd)->Object_0;
    assert(a[2] == ("runs"@, Shape::Int(all.len() as int)));
}

} // verus!
