//! The run log behind the statistics page: one record per finished search, and
//! what a range of them amounts to.
//!
//! Everything here is a function of the records and the clock, so alignment,
//! zero-filling and percentiles hold of every log.
use vstd::prelude::*;
use vstd::string::*;
use crate::clock::unix_now;
use crate::html::lemma_index_bounds;
use crate::order::{ascending, sort_numbers};
use crate::scan::{blank, index_from, index_of, is_blank};
use crate::text::{from_chars, str_eq, sub_chars, to_chars};
use crate::types::{MissionKind, Real, ScoutReport};
use crate::usage::UsageSnapshot;

verus! {

/// Runs listed as recent.
pub const RECENT: usize = 50;

/// Widest range served, in days.
pub const MAX_DAYS: u32 = 365;

/// Widest range served by the hour, in days.
pub const MAX_HOURLY_DAYS: u32 = 7;

/// One finished, failed or cancelled search.
#[derive(Debug, Clone)]
pub struct RunRecord {
    pub id: String,
    /// Unix seconds.
    pub started_at: u64,
    pub elapsed_ms: u64,
    pub query: String,
    /// `answer`, `harvest`, or `unknown` for a run that ended before its mission
    /// was known.
    pub kind: String,
    /// `ui` or `mcp`.
    pub source: String,
    pub preset: String,
    /// A report's outcome, or `failed` or `cancelled`.
    pub outcome: String,
    pub records: usize,
    pub pages: usize,
    pub rounds: usize,
    pub jev_requests: usize,
    pub jev_input_tokens: usize,
    pub jev_cost_usd: Real,
    pub llm_requests: usize,
    pub llm_prompt_tokens: usize,
    pub llm_completion_tokens: usize,
    /// `None` when the writer's endpoint reports no price.
    pub llm_cost_usd: Option<Real>,
    pub planner_requests: usize,
    pub planner_prompt_tokens: usize,
    pub planner_completion_tokens: usize,
    pub planner_cost_usd: Option<Real>,
    pub error: Option<String>,
}

impl Default for RunRecord {
    /// A record of nothing.
    fn default() -> (r: Self)
        ensures
            r.id@.len() == 0,
            r.started_at == 0,
            r.elapsed_ms == 0,
            r.query@.len() == 0,
            r.kind@.len() == 0,
            r.source@.len() == 0,
            r.preset@.len() == 0,
            r.outcome@.len() == 0,
            r.records == 0,
            r.pages == 0,
            r.rounds == 0,
            r.jev_requests == 0,
            r.jev_input_tokens == 0,
            r.jev_cost_usd == (Real { bits: 0 }),
            r.llm_requests == 0,
            r.llm_prompt_tokens == 0,
            r.llm_completion_tokens == 0,
            r.llm_cost_usd is None,
            r.planner_requests == 0,
            r.planner_prompt_tokens == 0,
            r.planner_completion_tokens == 0,
            r.planner_cost_usd is None,
            r.error is None,
    {
        RunRecord {
            id: String::new(),
            started_at: 0,
            elapsed_ms: 0,
            query: String::new(),
            kind: String::new(),
            source: String::new(),
            preset: String::new(),
            outcome: String::new(),
            records: 0,
            pages: 0,
            rounds: 0,
            jev_requests: 0,
            jev_input_tokens: 0,
            jev_cost_usd: Real { bits: 0 },
            llm_requests: 0,
            llm_prompt_tokens: 0,
            llm_completion_tokens: 0,
            llm_cost_usd: None,
            planner_requests: 0,
            planner_prompt_tokens: 0,
            planner_completion_tokens: 0,
            planner_cost_usd: None,
            error: None,
        }
    }
}

/// A price that was never reported counts as nothing.
pub open spec fn price_or_zero(p: Option<Real>) -> Real {
    match p {
        Some(x) => x,
        None => Real { bits: 0 },
    }
}

impl RunRecord {
    /// The three prices that add up to what the run cost.
    pub fn cost_usd(&self) -> (r: (Real, Real, Real))
        ensures
            r == (
                self.jev_cost_usd,
                price_or_zero(self.llm_cost_usd),
                price_or_zero(self.planner_cost_usd),
            ),
    {
        let llm = match self.llm_cost_usd {
            Some(x) => x,
            None => Real { bits: 0 },
        };
        let planner = match self.planner_cost_usd {
            Some(x) => x,
            None => Real { bits: 0 },
        };
        (self.jev_cost_usd, llm, planner)
    }
}

/// What a record says.
#[verifier::ext_equal]
pub struct RunView {
    pub id: Seq<char>,
    pub started_at: u64,
    pub elapsed_ms: u64,
    pub query: Seq<char>,
    pub kind: Seq<char>,
    pub source: Seq<char>,
    pub preset: Seq<char>,
    pub outcome: Seq<char>,
    pub records: usize,
    pub pages: usize,
    pub rounds: usize,
    pub jev_requests: usize,
    pub jev_input_tokens: usize,
    pub jev_cost_usd: Real,
    pub llm_requests: usize,
    pub llm_prompt_tokens: usize,
    pub llm_completion_tokens: usize,
    pub llm_cost_usd: Option<Real>,
    pub planner_requests: usize,
    pub planner_prompt_tokens: usize,
    pub planner_completion_tokens: usize,
    pub planner_cost_usd: Option<Real>,
    pub error: Option<Seq<char>>,
}

impl View for RunRecord {
    type V = RunView;

    open spec fn view(&self) -> RunView {
        RunView {
            id: self.id@,
            started_at: self.started_at,
            elapsed_ms: self.elapsed_ms,
            query: self.query@,
            kind: self.kind@,
            source: self.source@,
            preset: self.preset@,
            outcome: self.outcome@,
            records: self.records,
            pages: self.pages,
            rounds: self.rounds,
            jev_requests: self.jev_requests,
            jev_input_tokens: self.jev_input_tokens,
            jev_cost_usd: self.jev_cost_usd,
            llm_requests: self.llm_requests,
            llm_prompt_tokens: self.llm_prompt_tokens,
            llm_completion_tokens: self.llm_completion_tokens,
            llm_cost_usd: self.llm_cost_usd,
            planner_requests: self.planner_requests,
            planner_prompt_tokens: self.planner_prompt_tokens,
            planner_completion_tokens: self.planner_completion_tokens,
            planner_cost_usd: self.planner_cost_usd,
            error: match self.error {
                Some(e) => Some(e@),
                None => None,
            },
        }
    }
}

impl RunView {
    /// What is known about a run when it starts.
    pub open spec fn begun(
        id: Seq<char>,
        query: Seq<char>,
        source: Seq<char>,
        preset: Seq<char>,
        now: u64,
    ) -> RunView {
        RunView {
            id,
            started_at: now,
            elapsed_ms: 0,
            query,
            kind: "unknown"@,
            source,
            preset,
            outcome: "unknown"@,
            records: 0,
            pages: 0,
            rounds: 0,
            jev_requests: 0,
            jev_input_tokens: 0,
            jev_cost_usd: Real { bits: 0 },
            llm_requests: 0,
            llm_prompt_tokens: 0,
            llm_completion_tokens: 0,
            llm_cost_usd: None,
            planner_requests: 0,
            planner_prompt_tokens: 0,
            planner_completion_tokens: 0,
            planner_cost_usd: None,
            error: None,
        }
    }

    /// The same run, with what it spent.
    pub open spec fn spent(self, u: UsageSnapshot) -> RunView {
        RunView {
            jev_requests: u.jev_requests,
            jev_input_tokens: u.jev_input_tokens,
            jev_cost_usd: u.jev_cost_usd,
            llm_requests: u.llm.requests,
            llm_prompt_tokens: u.llm.prompt_tokens,
            llm_completion_tokens: u.llm.completion_tokens,
            llm_cost_usd: u.llm.cost_usd,
            planner_requests: u.planner.requests,
            planner_prompt_tokens: u.planner.prompt_tokens,
            planner_completion_tokens: u.planner.completion_tokens,
            planner_cost_usd: u.planner.cost_usd,
            ..self
        }
    }
}

/// The name of a mission's kind in the log.
pub open spec fn kind_name(k: MissionKind) -> Seq<char> {
    match k {
        MissionKind::Answer => "answer"@,
        MissionKind::Harvest => "harvest"@,
    }
}

impl RunRecord {
    /// What is known about a run that starts at `now`. The outcome is `unknown`
    /// until one of `finished`, `failed` or `cancelled` says otherwise.
    pub fn begin_at(id: &str, query: &str, source: &str, preset: &str, now: u64) -> (r: Self)
        ensures
            r@ == RunView::begun(id@, query@, source@, preset@, now),
    {
        RunRecord {
            id: id.to_owned(),
            started_at: now,
            elapsed_ms: 0,
            query: query.to_owned(),
            kind: "unknown".to_owned(),
            source: source.to_owned(),
            preset: preset.to_owned(),
            outcome: "unknown".to_owned(),
            records: 0,
            pages: 0,
            rounds: 0,
            jev_requests: 0,
            jev_input_tokens: 0,
            jev_cost_usd: Real { bits: 0 },
            llm_requests: 0,
            llm_prompt_tokens: 0,
            llm_completion_tokens: 0,
            llm_cost_usd: None,
            planner_requests: 0,
            planner_prompt_tokens: 0,
            planner_completion_tokens: 0,
            planner_cost_usd: None,
            error: None,
        }
    }

    /// What is known about a run that starts now.
    pub fn begin(id: &str, query: &str, source: &str, preset: &str) -> (r: Self)
        ensures
            r@ == RunView::begun(id@, query@, source@, preset@, r.started_at),
    {
        let now: u64 = unix_now();
        RunRecord::begin_at(id, query, source, preset, now)
    }

    pub fn with_usage(self, u: &UsageSnapshot) -> (r: Self)
        ensures
            r@ == self@.spent(*u),
    {
        let mut r = self;
        r.jev_requests = u.jev_requests;
        r.jev_input_tokens = u.jev_input_tokens;
        r.jev_cost_usd = u.jev_cost_usd;
        r.llm_requests = u.llm.requests;
        r.llm_prompt_tokens = u.llm.prompt_tokens;
        r.llm_completion_tokens = u.llm.completion_tokens;
        r.llm_cost_usd = u.llm.cost_usd;
        r.planner_requests = u.planner.requests;
        r.planner_prompt_tokens = u.planner.prompt_tokens;
        r.planner_completion_tokens = u.planner.completion_tokens;
        r.planner_cost_usd = u.planner.cost_usd;
        r
    }

    /// A run that produced a report, whatever its outcome.
    pub fn finished(self, report: &ScoutReport) -> (r: Self)
        ensures
            r@ == (RunView {
                kind: kind_name(report.mission.kind),
                outcome: report.outcome.label(),
                elapsed_ms: report.stats.elapsed_ms,
                records: report.records.len(),
                pages: report.stats.pages_fetched,
                rounds: report.stats.rounds,
                ..self@.spent(UsageSnapshot::of_stats(report.stats))
            }),
    {
        let usage = UsageSnapshot::from_stats(&report.stats);
        let mut r = self.with_usage(&usage);
        r.kind = match report.mission.kind {
            MissionKind::Answer => "answer".to_owned(),
            MissionKind::Harvest => "harvest".to_owned(),
        };
        r.outcome = report.outcome.as_str().to_owned();
        r.elapsed_ms = report.stats.elapsed_ms;
        r.records = report.records.len();
        r.pages = report.stats.pages_fetched;
        r.rounds = report.stats.rounds;
        r
    }

    /// A run that ended in an error; a failed run still cost money.
    pub fn failed(self, error: &str, elapsed_ms: u64, usage: &UsageSnapshot) -> (r: Self)
        ensures
            r@ == (RunView {
                outcome: "failed"@,
                error: Some(error@),
                elapsed_ms,
                ..self@.spent(*usage)
            }),
    {
        let mut r = self.with_usage(usage);
        r.outcome = "failed".to_owned();
        r.error = Some(error.to_owned());
        r.elapsed_ms = elapsed_ms;
        r
    }

    /// A run stopped before it ended.
    pub fn cancelled(self, elapsed_ms: u64, usage: &UsageSnapshot) -> (r: Self)
        ensures
            r@ == (RunView { outcome: "cancelled"@, elapsed_ms, ..self@.spent(*usage) }),
    {
        let mut r = self.with_usage(usage);
        r.outcome = "cancelled".to_owned();
        r.elapsed_ms = elapsed_ms;
        r
    }
}

// ---------------------------------------------------------------- buckets --

/// Width of one point of the series.
#[derive(Debug, Clone, Copy, PartialEq, Eq, Structural)]
pub enum Bucket {
    Hour,
    Day,
    /// ISO week: Monday 00:00 UTC to the next Monday.
    Week,
}

impl Bucket {
    pub open spec fn label(self) -> Seq<char> {
        match self {
            Bucket::Hour => "hour"@,
            Bucket::Day => "day"@,
            Bucket::Week => "week"@,
        }
    }

    /// Its width in seconds.
    pub open spec fn width(self) -> int {
        match self {
            Bucket::Hour => 3_600,
            Bucket::Day => 86_400,
            Bucket::Week => 604_800,
        }
    }

    /// Where in its bucket second 0 of Unix time stands: 1970-01-01 was a Thursday,
    /// three days after a Monday.
    pub open spec fn phase(self) -> int {
        match self {
            Bucket::Week => 259_200,
            _ => 0,
        }
    }

    /// The start of the bucket that holds `t`.
    pub open spec fn start_of(self, t: int) -> int {
        t - (t + self.phase()) % self.width()
    }

    /// The bucket that holds `t` starts at or after second 0.
    pub open spec fn reaches(self, t: int) -> bool {
        self.start_of(t) >= 0
    }

    pub fn parse(s: &str) -> (r: Option<Self>)
        ensures
            match r {
                Some(b) => s@ == b.label(),
                None => s@ != "hour"@ && s@ != "day"@ && s@ != "week"@,
            },
    {
        if str_eq(s, "hour") {
            Some(Bucket::Hour)
        } else if str_eq(s, "day") {
            Some(Bucket::Day)
        } else if str_eq(s, "week") {
            Some(Bucket::Week)
        } else {
            None
        }
    }

    pub fn as_str(self) -> (r: &'static str)
        ensures
            r@ == self.label(),
    {
        match self {
            Bucket::Hour => "hour",
            Bucket::Day => "day",
            Bucket::Week => "week",
        }
    }

    pub fn secs(self) -> (r: u64)
        ensures
            r == self.width(),
    {
        match self {
            Bucket::Hour => 3_600,
            Bucket::Day => 86_400,
            Bucket::Week => 604_800,
        }
    }

    /// The start of the bucket containing `t`, in UTC.
    pub fn align(self, t: u64) -> (r: u64)
        requires
            self.reaches(t as int),
        ensures
            r == self.start_of(t as int),
    {
        match self {
            Bucket::Hour => t - t % 3_600,
            Bucket::Day => t - t % 86_400,
            Bucket::Week => {
                let day: u64 = t / 86_400;
                proof {
                    lemma_week(t as int);
                }
                (day - (day + 3) % 7) * 86_400
            },
        }
    }
}

/// Weeks counted in seconds and in days start together.
proof fn lemma_week(t: int)
    requires
        t >= 0,
    ensures
        t - (t + 259_200) % 604_800 == (t / 86_400 - (t / 86_400 + 3) % 7) * 86_400,
{
    let day = t / 86_400;
    let rest = t % 86_400;
    let w = (day + 3) / 7;
    let k = (day + 3) % 7;
    assert(t + 259_200 == w * 604_800 + (k * 86_400 + rest));
    assert(0 <= k * 86_400 + rest < 604_800);
    assert((w * 604_800 + (k * 86_400 + rest)) % 604_800 == k * 86_400 + rest);
}

/// A bucket's name reads back as the bucket.
pub proof fn law_bucket_names_read_back(a: Bucket, b: Bucket)
    ensures
        a.label() == b.label() ==> a == b,
{
    reveal_strlit("hour");
    reveal_strlit("day");
    reveal_strlit("week");
    assert("hour"@[0] == 'h' && "day"@[0] == 'd' && "week"@[0] == 'w');
}

/// A bucket's start is its own start, it is at or before every second of the
/// bucket, and less than one width before.
pub proof fn law_alignment(b: Bucket, t: int)
    ensures
        b.start_of(b.start_of(t)) == b.start_of(t),
        b.start_of(t) <= t < b.start_of(t) + b.width(),
{
}

/// Clamp a requested range: 1 to 365 days, and at most 7 by the hour.
pub fn clamp_days(bucket: Bucket, days: i64) -> (r: u32)
    ensures
        r == {
            let max: i64 = if bucket == Bucket::Hour { 7 } else { 365 };
            if days < 1 {
                1
            } else if days > max {
                max
            } else {
                days
            }
        },
{
    let max: i64 = if bucket == Bucket::Hour {
        MAX_HOURLY_DAYS as i64
    } else {
        MAX_DAYS as i64
    };
    if days < 1 {
        1
    } else if days > max {
        max as u32
    } else {
        days as u32
    }
}

/// `a - b`, but not below 0.
pub open spec fn monus(a: int, b: int) -> int {
    if a > b {
        a - b
    } else {
        0
    }
}

/// The first second of a range, before it is widened to whole buckets: by the hour
/// the last `days` x 24 hours with the running one, else the last `days` days with
/// today.
pub open spec fn range_from(bucket: Bucket, days: int, now: int) -> int {
    let n = if days < 1 {
        1
    } else {
        days
    };
    match bucket {
        Bucket::Hour => monus(Bucket::Hour.start_of(now), (n * 24 - 1) * 3_600),
        _ => monus(Bucket::Day.start_of(now), (n - 1) * 86_400),
    }
}

/// Whole hours back from the start of an hour is the start of an hour.
proof fn lemma_hours_back(now: int, n: int)
    requires
        0 <= now,
        n >= 1,
    ensures
        Bucket::Hour.start_of(range_from(Bucket::Hour, n, now)) == range_from(
            Bucket::Hour,
            n,
            now,
        ),
        range_from(Bucket::Hour, n, now) <= now,
{
    let q = now / 3_600;
    let k = q - (n * 24 - 1);
    let r = range_from(Bucket::Hour, n, now);
    assert(r == if k > 0 { k * 3_600 } else { 0 });
    assert((k * 3_600) % 3_600 == 0);
}

fn back_from(top: u64, back: u64) -> (r: u64)
    ensures
        r == monus(top as int, back as int),
{
    if top > back {
        top - back
    } else {
        0
    }
}

/// Start of the first bucket of a `days`-long range ending at `now`.
pub fn range_start(bucket: Bucket, days: u32, now: u64) -> (r: u64)
    requires
        bucket.reaches(range_from(bucket, days as int, now as int)),
    ensures
        r == bucket.start_of(range_from(bucket, days as int, now as int)),
        r <= now,
{
    let n: u64 = if days < 1 {
        1
    } else {
        days as u64
    };
    if bucket == Bucket::Hour {
        proof {
            lemma_hours_back(now as int, n as int);
        }
        back_from(now - now % 3_600, (n * 24 - 1) * 3_600)
    } else {
        let r: u64 = back_from(now - now % 86_400, (n - 1) * 86_400);
        proof {
            law_alignment(bucket, r as int);
        }
        bucket.align(r)
    }
}

/// A range whose first bucket starts at or after second 0, and whose last one ends in time.
pub open spec fn in_range(bucket: Bucket, days: int, now: int) -> bool {
    bucket.reaches(range_from(bucket, days, now)) && now + bucket.width() <= u64::MAX
}

/// Can a range of this many days that ends at `now` be summed up?
pub fn can_aggregate(now: u64, bucket: Bucket, days: u32) -> (r: bool)
    ensures
        r == in_range(bucket, days as int, now as int),
{
    if now > u64::MAX - bucket.secs() {
        return false;
    }
    if bucket != Bucket::Week {
        proof {
            lemma_reaches(bucket, range_from(bucket, days as int, now as int));
        }
        return true;
    }
    let n: u64 = if days < 1 {
        1
    } else {
        days as u64
    };
    let first: u64 = back_from(now - now % 86_400, (n - 1) * 86_400);
    proof {
        lemma_reaches(bucket, first as int);
    }
    first >= 345_600
}

/// Every hour and every day of Unix time starts in it; the first week that does starts
/// four days in.
proof fn lemma_reaches(bucket: Bucket, t: int)
    requires
        t >= 0,
    ensures
        bucket.reaches(t) == (bucket != Bucket::Week || t >= 345_600),
{
}

// -------------------------------------------------------------- selections --

/// Indices of the first `n` runs that started from `lo` to `hi`, in log order.
pub open spec fn started(all: Seq<RunRecord>, lo: int, hi: int, n: int) -> Seq<int>
    decreases n,
{
    if n <= 0 {
        Seq::empty()
    } else {
        let rest = started(all, lo, hi, n - 1);
        if lo <= all[n - 1].started_at <= hi {
            rest.push(n - 1)
        } else {
            rest
        }
    }
}

/// Indices as mathematical integers.
pub open spec fn ints(v: Seq<usize>) -> Seq<int> {
    v.map_values(|i: usize| i as int)
}

/// Every index points into the log.
pub open spec fn all_within(v: Seq<usize>, n: int) -> bool {
    forall|k: int| 0 <= k < v.len() ==> #[trigger] v[k] < n
}

fn select(all: &Vec<RunRecord>, lo: u64, hi: u64) -> (r: Vec<usize>)
    ensures
        ints(r@) == started(all@, lo as int, hi as int, all@.len() as int),
        all_within(r@, all@.len() as int),
        r@.len() <= all@.len(),
{
    let mut r: Vec<usize> = Vec::new();
    let mut i: usize = 0;
    assert(ints(r@) =~= Seq::<int>::empty());
    while i < all.len()
        invariant
            i <= all@.len(),
            r@.len() <= i,
            ints(r@) == started(all@, lo as int, hi as int, i as int),
            all_within(r@, all@.len() as int),
        decreases all@.len() - i,
    {
        if lo <= all[i].started_at && all[i].started_at <= hi {
            let ghost before = r@;
            r.push(i);
            assert(ints(r@) =~= ints(before).push(i as int));
        }
        i += 1;
    }
    r
}

/// A run is selected exactly if it is in the log and started in the range.
proof fn lemma_started(all: Seq<RunRecord>, lo: int, hi: int, n: int)
    requires
        0 <= n <= all.len(),
    ensures
        forall|i: int| #[trigger]
            started(all, lo, hi, n).contains(i) <==> 0 <= i < n && lo <= all[i].started_at <= hi,
        forall|k: int|
            0 <= k < started(all, lo, hi, n).len() ==> 0 <= #[trigger] started(
                all,
                lo,
                hi,
                n,
            )[k] < n,
        forall|j: int, k: int|
            0 <= j < k < started(all, lo, hi, n).len() ==> #[trigger] started(all, lo, hi, n)[j]
                < #[trigger] started(all, lo, hi, n)[k],
    decreases n,
{
    if n > 0 {
        lemma_started(all, lo, hi, n - 1);
        let rest = started(all, lo, hi, n - 1);
        let now = started(all, lo, hi, n);
        assert forall|i: int| #[trigger] now.contains(i) <==> 0 <= i < n && lo
            <= all[i].started_at <= hi by {
            if lo <= all[n - 1].started_at <= hi {
                assert(now == rest.push(n - 1));
                assert(now[now.len() - 1] == n - 1);
                if rest.contains(i) {
                    let k = choose|k: int| 0 <= k < rest.len() && rest[k] == i;
                    assert(now[k] == i);
                }
                if now.contains(i) && i != n - 1 {
                    let k = choose|k: int| 0 <= k < now.len() && now[k] == i;
                    assert(rest[k] == i);
                }
            }
        }
    }
}

/// A text field that runs are counted by.
#[derive(Debug, Clone, Copy, PartialEq, Eq, Structural)]
pub enum Field {
    Outcome,
    Kind,
    Source,
    Preset,
}

pub open spec fn field_of(r: RunRecord, f: Field) -> Seq<char> {
    match f {
        Field::Outcome => r.outcome@,
        Field::Kind => r.kind@,
        Field::Source => r.source@,
        Field::Preset => r.preset@,
    }
}

/// The chosen runs whose field reads `label`, in order.
pub open spec fn having(all: Seq<RunRecord>, idx: Seq<int>, f: Field, label: Seq<char>) -> Seq<int>
    decreases idx.len(),
{
    if idx.len() == 0 {
        Seq::empty()
    } else {
        let rest = having(all, idx.drop_last(), f, label);
        if field_of(all[idx.last()], f) == label {
            rest.push(idx.last())
        } else {
            rest
        }
    }
}

fn filter_runs(all: &Vec<RunRecord>, idx: &Vec<usize>, f: Field, label: &str) -> (r: Vec<usize>)
    requires
        all_within(idx@, all@.len() as int),
    ensures
        ints(r@) == having(all@, ints(idx@), f, label@),
        all_within(r@, all@.len() as int),
{
    let mut r: Vec<usize> = Vec::new();
    let mut i: usize = 0;
    assert(ints(idx@).take(0) =~= Seq::<int>::empty());
    assert(ints(r@) =~= Seq::<int>::empty());
    while i < idx.len()
        invariant
            i <= idx@.len(),
            all_within(idx@, all@.len() as int),
            ints(r@) == having(all@, ints(idx@).take(i as int), f, label@),
            all_within(r@, all@.len() as int),
        decreases idx@.len() - i,
    {
        let k: usize = idx[i];
        assert(idx@[i as int] < all@.len());
        let text = match f {
            Field::Outcome => all[k].outcome.as_str(),
            Field::Kind => all[k].kind.as_str(),
            Field::Source => all[k].source.as_str(),
            Field::Preset => all[k].preset.as_str(),
        };
        let ghost before = r@;
        proof {
            let part = ints(idx@).take(i + 1);
            assert(part.drop_last() =~= ints(idx@).take(i as int));
            assert(part.last() == k as int);
        }
        if str_eq(text, label) {
            r.push(k);
            assert(ints(r@) =~= ints(before).push(k as int));
        }
        i += 1;
    }
    assert(ints(idx@).take(i as int) =~= ints(idx@));
    r
}

/// How many of the chosen runs have a field that reads `label`.
pub fn count(all: &Vec<RunRecord>, idx: &Vec<usize>, f: Field, label: &str) -> (r: usize)
    requires
        all_within(idx@, all@.len() as int),
    ensures
        r == having(all@, ints(idx@), f, label@).len(),
{
    let found = filter_runs(all, idx, f, label);
    assert(ints(found@).len() == found@.len());
    found.len()
}

/// A number that is summed over runs.
#[derive(Debug, Clone, Copy, PartialEq, Eq, Structural)]
pub enum Measure {
    Records,
    Pages,
    JevInput,
    WriterPrompt,
    WriterCompletion,
    PlannerPrompt,
    PlannerCompletion,
}

pub open spec fn measure_of(r: RunRecord, m: Measure) -> usize {
    match m {
        Measure::Records => r.records,
        Measure::Pages => r.pages,
        Measure::JevInput => r.jev_input_tokens,
        Measure::WriterPrompt => r.llm_prompt_tokens,
        Measure::WriterCompletion => r.llm_completion_tokens,
        Measure::PlannerPrompt => r.planner_prompt_tokens,
        Measure::PlannerCompletion => r.planner_completion_tokens,
    }
}

/// The sum of a number over the chosen runs.
pub open spec fn total_of(all: Seq<RunRecord>, idx: Seq<int>, m: Measure) -> nat
    decreases idx.len(),
{
    if idx.len() == 0 {
        0
    } else {
        total_of(all, idx.drop_last(), m) + measure_of(all[idx.last()], m) as nat
    }
}

/// The sum of a number over the chosen runs.
pub fn total(all: &Vec<RunRecord>, idx: &Vec<usize>, m: Measure) -> (r: u128)
    requires
        all_within(idx@, all@.len() as int),
    ensures
        r == total_of(all@, ints(idx@), m),
{
    let mut sum: u128 = 0;
    let mut i: usize = 0;
    let n: usize = idx.len();
    assert(ints(idx@).take(0) =~= Seq::<int>::empty());
    while i < n
        invariant
            i <= n == idx@.len(),
            all_within(idx@, all@.len() as int),
            sum == total_of(all@, ints(idx@).take(i as int), m),
            sum <= i * 0xffff_ffff_ffff_ffff,
        decreases n - i,
    {
        let k: usize = idx[i];
        assert(idx@[i as int] < all@.len());
        let x: usize = match m {
            Measure::Records => all[k].records,
            Measure::Pages => all[k].pages,
            Measure::JevInput => all[k].jev_input_tokens,
            Measure::WriterPrompt => all[k].llm_prompt_tokens,
            Measure::WriterCompletion => all[k].llm_completion_tokens,
            Measure::PlannerPrompt => all[k].planner_prompt_tokens,
            Measure::PlannerCompletion => all[k].planner_completion_tokens,
        };
        proof {
            let part = ints(idx@).take(i + 1);
            assert(part.drop_last() =~= ints(idx@).take(i as int));
            assert(part.last() == k as int);
            assert(i * 0xffff_ffff_ffff_ffff <= 0xffff_ffff_ffff_ffff * 0xffff_ffff_ffff_ffff)
                by (nonlinear_arith)
                requires
                    0 <= i <= 0xffff_ffff_ffff_ffff,
            ;
        }
        sum = sum + x as u128;
        i += 1;
    }
    assert(ints(idx@).take(i as int) =~= ints(idx@));
    sum
}

// -------------------------------------------------------------- percentile --

/// The rank that at least `p` percent of `n` values reach: the ceiling of
/// `p * n / 100`, but a rank that exists.
pub open spec fn nearest_rank(n: int, p: int) -> int {
    let rank = (p * n + 99) / 100;
    if rank < 1 {
        1
    } else if rank > n {
        n
    } else {
        rank
    }
}

/// Nearest-rank percentile of an ascending list; 0 for no values.
pub open spec fn percentile_of(sorted: Seq<u64>, p: int) -> u64 {
    if sorted.len() == 0 {
        0
    } else {
        sorted[nearest_rank(sorted.len() as int, p) - 1]
    }
}

/// Nearest-rank percentile of an ascending slice: the smallest value with at
/// least `p` percent of the values at or below it. 0 for no values.
pub fn percentile(sorted: &[u64], p: u32) -> (r: u64)
    ensures
        r == percentile_of(sorted@, p as int),
{
    let n: usize = sorted.len();
    if n == 0 {
        return 0;
    }
    proof {
        assert(p * n <= 0xffff_ffff * 0xffff_ffff_ffff_ffff) by (nonlinear_arith)
            requires
                0 <= p <= 0xffff_ffff,
                0 <= n <= 0xffff_ffff_ffff_ffff,
        ;
        assert(p * n >= 0) by (nonlinear_arith)
            requires
                0 <= p,
                0 <= n,
        ;
    }
    let rank: u128 = (p as u128 * n as u128 + 99) / 100;
    let at: usize = if rank < 1 {
        1
    } else if rank > n as u128 {
        n
    } else {
        rank as usize
    };
    sorted[at - 1]
}

/// How many values are at or below `x`.
pub open spec fn at_or_below(s: Seq<u64>, x: u64) -> nat
    decreases s.len(),
{
    if s.len() == 0 {
        0
    } else {
        at_or_below(s.drop_last(), x) + (if s.last() <= x {
            1nat
        } else {
            0nat
        })
    }
}

/// Values that are at or below `x`, counted from the front, are among all of them.
proof fn lemma_at_least(s: Seq<u64>, x: u64, k: int)
    requires
        0 <= k <= s.len(),
        forall|i: int| 0 <= i < k ==> s[i] <= x,
    ensures
        at_or_below(s, x) >= k,
    decreases s.len(),
{
    if s.len() > 0 {
        lemma_at_least(
            s.drop_last(),
            x,
            if k == s.len() {
                k - 1
            } else {
                k
            },
        );
    }
}

/// Values above `x` at the end of a list are not among those at or below it.
proof fn lemma_at_most(s: Seq<u64>, x: u64, k: int)
    requires
        0 <= k <= s.len(),
        forall|i: int| k <= i < s.len() ==> s[i] > x,
    ensures
        at_or_below(s, x) <= k,
    decreases s.len(),
{
    if s.len() > 0 {
        lemma_at_most(
            s.drop_last(),
            x,
            if k == s.len() {
                k - 1
            } else {
                k
            },
        );
    }
}

/// The percentile is the smallest value with at least `p` percent of the values at
/// or below it: it has them, and no smaller number does.
pub proof fn law_percentile_is_the_nearest_rank(sorted: Seq<u64>, p: int, smaller: u64)
    requires
        sorted.len() > 0,
        ascending(sorted),
        0 < p <= 100,
        smaller < percentile_of(sorted, p),
    ensures
        100 * at_or_below(sorted, percentile_of(sorted, p)) >= p * sorted.len(),
        100 * at_or_below(sorted, smaller) < p * sorted.len(),
{
    let n = sorted.len() as int;
    let r = nearest_rank(n, p);
    assert(0 < p * n <= 100 * n) by (nonlinear_arith)
        requires
            0 < p <= 100,
            n > 0,
    ;
    assert(r == (p * n + 99) / 100);
    assert(1 <= r <= n);
    let v = percentile_of(sorted, p);
    assert(v == sorted[r - 1]);
    lemma_at_least(sorted, v, r);
    lemma_at_most(sorted, smaller, r - 1);
}

// ------------------------------------------------------------------ recent --

/// Run `a` is listed before run `b`: it started later, or in the same second and
/// was logged later.
pub open spec fn newer(all: Seq<RunRecord>, a: int, b: int) -> bool {
    ||| all[a].started_at > all[b].started_at
    ||| all[a].started_at == all[b].started_at && a > b
}

/// Where run `i` goes into a list that is newest first.
pub open spec fn place(all: Seq<RunRecord>, s: Seq<int>, i: int) -> int
    decreases s.len(),
{
    if s.len() == 0 || newer(all, i, s[0]) {
        0
    } else {
        1 + place(all, s.drop_first(), i)
    }
}

/// The newest `max` of the chosen runs, newest first.
pub open spec fn newest(all: Seq<RunRecord>, idx: Seq<int>, max: int) -> Seq<int>
    decreases idx.len(),
{
    if idx.len() == 0 {
        Seq::empty()
    } else {
        let rest = newest(all, idx.drop_last(), max);
        let i = idx.last();
        let full = rest.insert(place(all, rest, i), i);
        if full.len() > max {
            full.take(max)
        } else {
            full
        }
    }
}

proof fn lemma_place(all: Seq<RunRecord>, s: Seq<int>, i: int)
    ensures
        0 <= place(all, s, i) <= s.len(),
        forall|k: int| 0 <= k < place(all, s, i) ==> !newer(all, i, #[trigger] s[k]),
        place(all, s, i) < s.len() ==> newer(all, i, s[place(all, s, i)]),
    decreases s.len(),
{
    if s.len() > 0 && !newer(all, i, s[0]) {
        let t = s.drop_first();
        lemma_place(all, t, i);
        assert forall|k: int| 0 <= k < place(all, s, i) implies !newer(
            all,
            i,
            #[trigger] s[k],
        ) by {
            if k > 0 {
                assert(t[k - 1] == s[k]);
            }
        }
        assert(place(all, t, i) < t.len() ==> t[place(all, t, i)] == s[place(all, s, i)]);
    }
}

fn place_of(all: &Vec<RunRecord>, s: &Vec<usize>, i: usize) -> (r: usize)
    requires
        i < all@.len(),
        all_within(s@, all@.len() as int),
    ensures
        r == place(all@, ints(s@), i as int),
        r <= s@.len(),
{
    let mut k: usize = 0;
    assert(ints(s@).skip(0) =~= ints(s@));
    while k < s.len()
        invariant_except_break
            k <= s@.len(),
            i < all@.len(),
            all_within(s@, all@.len() as int),
            place(all@, ints(s@), i as int) == k + place(all@, ints(s@).skip(k as int), i as int),
        ensures
            k == place(all@, ints(s@), i as int),
            k <= s@.len(),
        decreases s@.len() - k,
    {
        let j: usize = s[k];
        let ghost rest = ints(s@).skip(k as int);
        assert(rest[0] == j as int);
        if all[i].started_at > all[j].started_at || (all[i].started_at == all[j].started_at && i
            > j) {
            break;
        }
        assert(rest.drop_first() =~= ints(s@).skip(k + 1));
        k += 1;
    }
    k
}

fn newest_first(all: &Vec<RunRecord>, idx: &Vec<usize>, max: usize) -> (r: Vec<usize>)
    requires
        all_within(idx@, all@.len() as int),
        max < usize::MAX,
    ensures
        ints(r@) == newest(all@, ints(idx@), max as int),
        all_within(r@, all@.len() as int),
{
    let mut r: Vec<usize> = Vec::new();
    let mut i: usize = 0;
    assert(ints(idx@).take(0) =~= Seq::<int>::empty());
    assert(ints(r@) =~= Seq::<int>::empty());
    while i < idx.len()
        invariant
            i <= idx@.len(),
            max < usize::MAX,
            r@.len() <= max,
            all_within(idx@, all@.len() as int),
            ints(r@) == newest(all@, ints(idx@).take(i as int), max as int),
            all_within(r@, all@.len() as int),
        decreases idx@.len() - i,
    {
        let k: usize = idx[i];
        assert(idx@[i as int] < all@.len());
        proof {
            let part = ints(idx@).take(i + 1);
            assert(part.drop_last() =~= ints(idx@).take(i as int));
            assert(part.last() == k as int);
        }
        let at: usize = place_of(all, &r, k);
        let ghost before = r@;
        r.insert(at, k);
        assert(ints(r@) =~= ints(before).insert(at as int, k as int));
        if r.len() > max {
            let ghost full = r@;
            r.truncate(max);
            assert(ints(r@) =~= ints(full).take(max as int));
        }
        i += 1;
    }
    assert(ints(idx@).take(i as int) =~= ints(idx@));
    r
}

/// The list of recent runs is newest first, holds only chosen runs, is as long as
/// it may be, and whatever it leaves out is older than all of it.
pub proof fn law_recent_runs_are_the_newest(all: Seq<RunRecord>, idx: Seq<int>, max: int)
    requires
        max >= 0,
        forall|j: int, k: int| 0 <= j < k < idx.len() ==> idx[j] < idx[k],
    ensures
        newest(all, idx, max).len() == if idx.len() < max { idx.len() as int } else { max },
        forall|k: int|
            0 <= k < newest(all, idx, max).len() ==> idx.contains(
                #[trigger] newest(all, idx, max)[k],
            ),
        forall|j: int, k: int|
            0 <= j < k < newest(all, idx, max).len() ==> newer(
                all,
                #[trigger] newest(all, idx, max)[j],
                #[trigger] newest(all, idx, max)[k],
            ),
        forall|i: int, k: int|
            idx.contains(i) && !newest(all, idx, max).contains(i) && 0 <= k < newest(
                all,
                idx,
                max,
            ).len() ==> #[trigger] newer(all, newest(all, idx, max)[k], i),
    decreases idx.len(),
{
    if idx.len() > 0 {
        let part = idx.drop_last();
        law_recent_runs_are_the_newest(all, part, max);
        let rest = newest(all, part, max);
        let i = idx.last();
        let p = place(all, rest, i);
        lemma_place(all, rest, i);
        let full = rest.insert(p, i);
        let now = newest(all, idx, max);
        assert forall|k: int| 0 <= k < rest.len() implies #[trigger] rest[k] < i by {
            assert(part.contains(rest[k]));
            let m = choose|m: int| 0 <= m < part.len() && part[m] == rest[k];
            assert(idx[m] == rest[k]);
        }
        assert forall|k: int| 0 <= k < full.len() implies idx.contains(#[trigger] full[k]) by {
            if k == p {
                assert(idx[idx.len() - 1] == i);
            } else {
                let o = if k < p {
                    rest[k]
                } else {
                    rest[k - 1]
                };
                assert(part.contains(o));
                let m = choose|m: int| 0 <= m < part.len() && part[m] == o;
                assert(idx[m] == o);
            }
        }
        assert forall|j: int, k: int| 0 <= j < k < full.len() implies newer(
            all,
            #[trigger] full[j],
            #[trigger] full[k],
        ) by {
            lemma_inserted_order(all, rest, i, j, k);
        }
        assert forall|o: int, k: int|
            idx.contains(o) && !now.contains(o) && 0 <= k < now.len() implies #[trigger] newer(
            all,
            now[k],
            o,
        ) by {
            assert(now[k] == full[k]);
            if full.contains(o) {
                let m = choose|m: int| 0 <= m < full.len() && full[m] == o;
                assert(m >= now.len()) by {
                    if m < now.len() {
                        assert(now[m] == o);
                    }
                }
                assert(newer(all, full[k], full[m]));
            } else {
                let m = choose|m: int| 0 <= m < idx.len() && idx[m] == o;
                if m == idx.len() - 1 {
                    assert(full[p] == o);
                }
                assert(part[m] == o);
                assert(part.contains(o));
                assert(!rest.contains(o)) by {
                    if rest.contains(o) {
                        let q = choose|q: int| 0 <= q < rest.len() && rest[q] == o;
                        if q < p {
                            assert(full[q] == o);
                        } else {
                            assert(full[q + 1] == o);
                        }
                    }
                }
                // Something was left out before, so the list is full.
                lemma_all_in(part, rest, max, o);
                assert(rest.len() == max);
                if max > 0 {
                    assert(newer(all, rest[max - 1], o));
                    if k == p {
                        // The new run displaced one that was newer than `o`.
                        assert(newer(all, i, rest[p]));
                        assert(newer(all, rest[p], o));
                    } else if k < p {
                        assert(newer(all, rest[k], o));
                    } else {
                        assert(newer(all, rest[k - 1], o));
                    }
                }
            }
        }
    }
}

/// Putting run `i`, logged after all of `s`, in its place keeps the order.
proof fn lemma_inserted_order(all: Seq<RunRecord>, s: Seq<int>, i: int, j: int, k: int)
    requires
        forall|x: int, y: int|
            0 <= x < y < s.len() ==> newer(all, #[trigger] s[x], #[trigger] s[y]),
        forall|x: int| 0 <= x < s.len() ==> #[trigger] s[x] < i,
        0 <= j < k < s.len() + 1,
    ensures
        newer(
            all,
            s.insert(place(all, s, i), i)[j],
            s.insert(place(all, s, i), i)[k],
        ),
{
    lemma_place(all, s, i);
    let p = place(all, s, i);
    let full = s.insert(p, i);
    if j < p {
        assert(full[j] == s[j]);
        assert(!newer(all, i, s[j]));
        if k > p {
            assert(full[k] == s[k - 1]);
            assert(newer(all, s[j], s[k - 1]));
        } else if k < p {
            assert(newer(all, s[j], s[k]));
        }
    } else if j == p {
        assert(full[k] == s[k - 1]);
        assert(newer(all, i, s[p]));
        if k - 1 > p {
            assert(newer(all, s[p], s[k - 1]));
        }
    } else {
        assert(full[j] == s[j - 1] && full[k] == s[k - 1]);
        assert(newer(all, s[j - 1], s[k - 1]));
    }
}

/// A list that leaves something out is full: with room for all it holds all.
proof fn lemma_all_in(idx: Seq<int>, list: Seq<int>, max: int, o: int)
    requires
        max >= 0,
        idx.contains(o),
        !list.contains(o),
        list.len() == if idx.len() < max { idx.len() as int } else { max },
        forall|k: int| 0 <= k < list.len() ==> idx.contains(#[trigger] list[k]),
        forall|j: int, k: int| 0 <= j < k < idx.len() ==> idx[j] < idx[k],
        forall|j: int, k: int| 0 <= j < k < list.len() ==> list[j] != list[k],
    ensures
        list.len() == max,
{
    if list.len() < max {
        assert(list.no_duplicates());
        assert(idx.no_duplicates());
        list.unique_seq_to_set();
        idx.unique_seq_to_set();
        assert(list.to_set().insert(o).subset_of(idx.to_set())) by {
            assert forall|x: int| #[trigger] list.to_set().insert(o).contains(x) implies idx.to_set().contains(
                x,
            ) by {
                if x != o {
                    let k = choose|k: int| 0 <= k < list.len() && list[k] == x;
                    assert(idx.contains(list[k]));
                }
            }
        }
        vstd::set_lib::lemma_len_subset(list.to_set().insert(o), idx.to_set());
    }
}

// ------------------------------------------------------------- aggregation --

/// How many runs ended in each way.
#[derive(Debug, Clone, Copy, PartialEq, Eq, Structural)]
pub struct Outcomes {
    pub complete: usize,
    pub partial: usize,
    pub truncated: usize,
    pub empty: usize,
    pub failed: usize,
    pub cancelled: usize,
}

/// The counts are those of the chosen runs.
pub open spec fn counts_outcomes(o: Outcomes, all: Seq<RunRecord>, idx: Seq<int>) -> bool {
    &&& o.complete == having(all, idx, Field::Outcome, "complete"@).len()
    &&& o.partial == having(all, idx, Field::Outcome, "partial"@).len()
    &&& o.truncated == having(all, idx, Field::Outcome, "truncated"@).len()
    &&& o.empty == having(all, idx, Field::Outcome, "empty"@).len()
    &&& o.failed == having(all, idx, Field::Outcome, "failed"@).len()
    &&& o.cancelled == having(all, idx, Field::Outcome, "cancelled"@).len()
}

fn outcomes(all: &Vec<RunRecord>, idx: &Vec<usize>) -> (r: Outcomes)
    requires
        all_within(idx@, all@.len() as int),
    ensures
        counts_outcomes(r, all@, ints(idx@)),
{
    Outcomes {
        complete: count(all, idx, Field::Outcome, "complete"),
        partial: count(all, idx, Field::Outcome, "partial"),
        truncated: count(all, idx, Field::Outcome, "truncated"),
        empty: count(all, idx, Field::Outcome, "empty"),
        failed: count(all, idx, Field::Outcome, "failed"),
        cancelled: count(all, idx, Field::Outcome, "cancelled"),
    }
}

/// One point of the series: a bucket, the runs that started in it, and how they
/// ended.
#[derive(Debug)]
pub struct Point {
    pub start: u64,
    pub runs: Vec<usize>,
    pub outcomes: Outcomes,
}

/// The last second of a bucket that a range ending at `now` takes in.
pub open spec fn last_second(start: int, width: int, now: int) -> int {
    if start + width - 1 < now {
        start + width - 1
    } else {
        now
    }
}

/// A point holds its bucket's runs, in log order.
pub open spec fn is_point(
    p: Point,
    all: Seq<RunRecord>,
    start: int,
    width: int,
    now: int,
) -> bool {
    &&& p.start == start
    &&& ints(p.runs@) == started(all, start, last_second(start, width, now), all.len() as int)
    &&& counts_outcomes(p.outcomes, all, ints(p.runs@))
    &&& all_within(p.runs@, all.len() as int)
}

/// Contiguous buckets from `from` to the one that holds `now`, zeros included,
/// oldest first.
pub open spec fn is_series(
    series: Seq<Point>,
    all: Seq<RunRecord>,
    from: int,
    width: int,
    now: int,
) -> bool {
    &&& series.len() == (now - from) / width + 1
    &&& forall|i: int|
        0 <= i < series.len() ==> is_point(#[trigger] series[i], all, from + i * width, width, now)
}

fn series_of(all: &Vec<RunRecord>, from: u64, width: u64, now: u64) -> (r: Vec<Point>)
    requires
        from <= now,
        width > 0,
        now + width <= u64::MAX,
    ensures
        is_series(r@, all@, from as int, width as int, now as int),
{
    let mut r: Vec<Point> = Vec::new();
    let mut t: u64 = from;
    proof {
        assert(from + 0 * width == from) by (nonlinear_arith);
    }
    while t <= now
        invariant
            from <= now,
            width > 0,
            now + width <= u64::MAX,
            t == from + r@.len() * width,
            t <= now + width,
            forall|i: int|
                0 <= i < r@.len() ==> is_point(
                    #[trigger] r@[i],
                    all@,
                    from + i * width,
                    width as int,
                    now as int,
                ),
        decreases now + width - t,
    {
        let last: u64 = if t + width - 1 < now {
            t + width - 1
        } else {
            now
        };
        let runs = select(all, t, last);
        let outcomes = outcomes(all, &runs);
        proof {
            let n = r@.len() as int;
            assert((n + 1) * width == n * width + width) by (nonlinear_arith);
        }
        r.push(Point { start: t, runs, outcomes });
        t = t + width;
    }
    proof {
        let n = r@.len() as int;
        let w = width as int;
        let d = now - from;
        assert(n * w > d);
        assert(n > 0) by (nonlinear_arith)
            requires
                n * w > d,
                d >= 0,
                w > 0,
        ;
        assert(r@[n - 1].start <= now) by {
            assert(is_point(r@[n - 1], all@, from + (n - 1) * w, w, now as int));
            assert((n - 1) * w == n * w - w) by (nonlinear_arith);
        }
        assert((n - 1) * w <= d) by {
            assert(is_point(r@[n - 1], all@, from + (n - 1) * w, w, now as int));
        }
        assert(d / w == n - 1) by (nonlinear_arith)
            requires
                w > 0,
                (n - 1) * w <= d < n * w,
        ;
    }
    r
}

/// What a range of the log amounts to. Lists of runs are indices into the log;
/// what takes fractions (prices, averages, rates) is worked out from them.
#[derive(Debug)]
pub struct Summary {
    /// First second of the range.
    pub from: u64,
    /// The runs of the range, in log order.
    pub runs: Vec<usize>,
    pub outcomes: Outcomes,
    pub ui: usize,
    pub mcp: usize,
    pub quick: usize,
    pub standard: usize,
    pub thorough: usize,
    pub records: u128,
    pub pages: u128,
    /// Median and 90th percentile of the runs' times, in milliseconds.
    pub p50_ms: u64,
    pub p90_ms: u64,
    pub jev_input: u128,
    pub writer_prompt: u128,
    pub writer_completion: u128,
    pub planner_prompt: u128,
    pub planner_completion: u128,
    pub series: Vec<Point>,
    /// The answers among the runs, and how many of them were complete.
    pub answers: Vec<usize>,
    pub complete_answers: usize,
    /// The harvests among the runs, and how many of them were complete.
    pub harvests: Vec<usize>,
    pub complete_harvests: usize,
    /// The newest runs of the range, newest first.
    pub recent: Vec<usize>,
    /// When the first run of the whole log started.
    pub first_run_at: Option<u64>,
}

/// The times of the chosen runs, in their order.
pub open spec fn times(all: Seq<RunRecord>, idx: Seq<int>) -> Seq<u64> {
    idx.map_values(|i: int| all[i].elapsed_ms)
}

/// The `p`-th percentile of numbers in any order.
pub open spec fn is_percentile(r: u64, of: Seq<u64>, p: int) -> bool {
    exists|sorted: Seq<u64>| #[trigger]
        ascending(sorted) && sorted.to_multiset() == of.to_multiset() && r == percentile_of(
            sorted,
            p,
        )
}

/// The earliest start in a log.
pub open spec fn is_first_start(r: Option<u64>, all: Seq<RunRecord>) -> bool {
    match r {
        None => all.len() == 0,
        Some(t) => {
            &&& exists|i: int| 0 <= i < all.len() && (#[trigger] all[i]).started_at == t
            &&& forall|i: int| 0 <= i < all.len() ==> t <= (#[trigger] all[i]).started_at
        },
    }
}

impl Summary {
    /// The counts and sums are those of the range's runs.
    pub open spec fn counts_runs(self, all: Seq<RunRecord>) -> bool {
        let idx = ints(self.runs@);
        &&& counts_outcomes(self.outcomes, all, idx)
        &&& self.ui == having(all, idx, Field::Source, "ui"@).len()
        &&& self.mcp == having(all, idx, Field::Source, "mcp"@).len()
        &&& self.quick == having(all, idx, Field::Preset, "quick"@).len()
        &&& self.standard == having(all, idx, Field::Preset, "standard"@).len()
        &&& self.thorough == having(all, idx, Field::Preset, "thorough"@).len()
        &&& self.records == total_of(all, idx, Measure::Records)
        &&& self.pages == total_of(all, idx, Measure::Pages)
        &&& self.jev_input == total_of(all, idx, Measure::JevInput)
        &&& self.writer_prompt == total_of(all, idx, Measure::WriterPrompt)
        &&& self.writer_completion == total_of(all, idx, Measure::WriterCompletion)
        &&& self.planner_prompt == total_of(all, idx, Measure::PlannerPrompt)
        &&& self.planner_completion == total_of(all, idx, Measure::PlannerCompletion)
    }

    /// The runs are split by kind, and each kind's successes are counted.
    pub open spec fn splits_kinds(self, all: Seq<RunRecord>) -> bool {
        let idx = ints(self.runs@);
        &&& ints(self.answers@) == having(all, idx, Field::Kind, "answer"@)
        &&& ints(self.harvests@) == having(all, idx, Field::Kind, "harvest"@)
        &&& self.complete_answers == having(
            all,
            ints(self.answers@),
            Field::Outcome,
            "complete"@,
        ).len()
        &&& self.complete_harvests == having(
            all,
            ints(self.harvests@),
            Field::Outcome,
            "complete"@,
        ).len()
    }

    /// This is what the `days` up to `now` amount to, by `bucket`.
    pub open spec fn describes(
        self,
        all: Seq<RunRecord>,
        now: int,
        bucket: Bucket,
        days: int,
    ) -> bool {
        let idx = ints(self.runs@);
        &&& self.from == bucket.start_of(range_from(bucket, days, now))
        &&& idx == started(all, self.from as int, now, all.len() as int)
        &&& self.counts_runs(all)
        &&& self.splits_kinds(all)
        &&& is_percentile(self.p50_ms, times(all, idx), 50)
        &&& is_percentile(self.p90_ms, times(all, idx), 90)
        &&& is_series(self.series@, all, self.from as int, bucket.width(), now)
        &&& ints(self.recent@) == newest(all, idx, RECENT as int)
        &&& all_within(self.recent@, all.len() as int)
        &&& is_first_start(self.first_run_at, all)
    }
}

fn times_of(all: &Vec<RunRecord>, idx: &Vec<usize>) -> (r: Vec<u64>)
    requires
        all_within(idx@, all@.len() as int),
    ensures
        r@ == times(all@, ints(idx@)),
{
    let mut r: Vec<u64> = Vec::new();
    let mut i: usize = 0;
    while i < idx.len()
        invariant
            i <= idx@.len(),
            all_within(idx@, all@.len() as int),
            r@ == times(all@, ints(idx@)).take(i as int),
        decreases idx@.len() - i,
    {
        let k: usize = idx[i];
        assert(idx@[i as int] < all@.len());
        r.push(all[k].elapsed_ms);
        assert(r@ =~= times(all@, ints(idx@)).take(i + 1));
        i += 1;
    }
    assert(r@ =~= times(all@, ints(idx@)));
    r
}

fn first_start(all: &Vec<RunRecord>) -> (r: Option<u64>)
    ensures
        is_first_start(r, all@),
{
    if all.len() == 0 {
        return None;
    }
    let mut best: u64 = all[0].started_at;
    let mut i: usize = 1;
    while i < all.len()
        invariant
            1 <= i <= all@.len(),
            exists|k: int| 0 <= k < all@.len() && (#[trigger] all@[k]).started_at == best,
            forall|k: int| 0 <= k < i ==> best <= (#[trigger] all@[k]).started_at,
        decreases all@.len() - i,
    {
        if all[i].started_at < best {
            best = all[i].started_at;
        }
        i += 1;
    }
    Some(best)
}

/// What the range of `days` up to `now` amounts to, in points of one `bucket`.
pub fn aggregate(all: &Vec<RunRecord>, now: u64, bucket: Bucket, days: u32) -> (r: Summary)
    requires
        in_range(bucket, days as int, now as int),
    ensures
        r.describes(all@, now as int, bucket, days as int),
{
    let from: u64 = range_start(bucket, days, now);
    let runs = select(all, from, now);
    let elapsed = times_of(all, &runs);
    let sorted = sort_numbers(&elapsed);
    let answers = filter_runs(all, &runs, Field::Kind, "answer");
    let harvests = filter_runs(all, &runs, Field::Kind, "harvest");
    let p50_ms: u64 = percentile(&sorted, 50);
    let p90_ms: u64 = percentile(&sorted, 90);
    proof {
        assert(ascending(sorted@) && sorted@.to_multiset() == elapsed@.to_multiset());
        assert(is_percentile(p50_ms, elapsed@, 50));
        assert(is_percentile(p90_ms, elapsed@, 90));
    }
    Summary {
        from,
        outcomes: outcomes(all, &runs),
        ui: count(all, &runs, Field::Source, "ui"),
        mcp: count(all, &runs, Field::Source, "mcp"),
        quick: count(all, &runs, Field::Preset, "quick"),
        standard: count(all, &runs, Field::Preset, "standard"),
        thorough: count(all, &runs, Field::Preset, "thorough"),
        records: total(all, &runs, Measure::Records),
        pages: total(all, &runs, Measure::Pages),
        p50_ms,
        p90_ms,
        jev_input: total(all, &runs, Measure::JevInput),
        writer_prompt: total(all, &runs, Measure::WriterPrompt),
        writer_completion: total(all, &runs, Measure::WriterCompletion),
        planner_prompt: total(all, &runs, Measure::PlannerPrompt),
        planner_completion: total(all, &runs, Measure::PlannerCompletion),
        series: series_of(all, from, bucket.secs(), now),
        complete_answers: count(all, &answers, Field::Outcome, "complete"),
        complete_harvests: count(all, &harvests, Field::Outcome, "complete"),
        answers,
        harvests,
        recent: newest_first(all, &runs, RECENT),
        first_run_at: first_start(all),
        runs,
    }
}

/// Every run of the range is in exactly one point of the series, and no other run
/// is in any.
pub proof fn law_each_run_is_in_one_point(
    series: Seq<Point>,
    all: Seq<RunRecord>,
    from: int,
    width: int,
    now: int,
    run: int,
)
    requires
        0 <= from <= now,
        width > 0,
        is_series(series, all, from, width, now),
    ensures
        started(all, from, now, all.len() as int).contains(run) ==> exists|i: int|
            0 <= i < series.len() && ints((#[trigger] series[i]).runs@).contains(run),
        forall|i: int|
            0 <= i < series.len() && ints((#[trigger] series[i]).runs@).contains(run) ==> started(
                all,
                from,
                now,
                all.len() as int,
            ).contains(run),
        forall|i: int, j: int|
            0 <= i < series.len() && 0 <= j < series.len() && ints(
                (#[trigger] series[i]).runs@,
            ).contains(run) && ints((#[trigger] series[j]).runs@).contains(run) ==> i == j,
{
    let n = all.len() as int;
    lemma_started(all, from, now, n);
    assert forall|i: int|
        0 <= i < series.len() && ints((#[trigger] series[i]).runs@).contains(run) implies 0 <= run
        < n && from <= all[run].started_at <= now && i == (all[run].started_at - from) / width by {
        let start = from + i * width;
        assert(is_point(series[i], all, start, width, now));
        lemma_started(all, start, last_second(start, width, now), n);
        let d = all[run].started_at - from;
        assert(i * width <= d < i * width + width);
        assert(i * width >= 0) by (nonlinear_arith)
            requires
                i >= 0,
                width > 0,
        ;
        assert(d / width == i) by (nonlinear_arith)
            requires
                i * width <= d < i * width + width,
                width > 0,
        ;
    }
    if started(all, from, now, n).contains(run) {
        let d = all[run].started_at - from;
        let i = d / width;
        assert(0 <= i && i * width <= d < i * width + width) by (nonlinear_arith)
            requires
                i == d / width,
                d >= 0,
                width > 0,
        ;
        assert(i <= (now - from) / width) by (nonlinear_arith)
            requires
                i == d / width,
                d <= now - from,
                width > 0,
        ;
        let start = from + i * width;
        assert(is_point(series[i], all, start, width, now));
        lemma_started(all, start, last_second(start, width, now), n);
        assert(ints(series[i].runs@).contains(run));
    }
}

/// How many of the first `n` runs started from `lo` to `hi`, of all or of those that
/// ended as `label`.
spec fn tally(all: Seq<RunRecord>, lo: int, hi: int, label: Option<Seq<char>>, n: int) -> nat
    decreases n,
{
    if n <= 0 {
        0
    } else {
        let r = all[n - 1];
        tally(all, lo, hi, label, n - 1) + if lo <= r.started_at <= hi && (label is None
            || r.outcome@ == label->0) {
            1nat
        } else {
            0
        }
    }
}

proof fn lemma_tally(all: Seq<RunRecord>, lo: int, hi: int, label: Seq<char>, n: int)
    requires
        0 <= n <= all.len(),
    ensures
        started(all, lo, hi, n).len() == tally(all, lo, hi, None, n),
        having(all, started(all, lo, hi, n), Field::Outcome, label).len() == tally(
            all,
            lo,
            hi,
            Some(label),
            n,
        ),
    decreases n,
{
    if n > 0 {
        lemma_tally(all, lo, hi, label, n - 1);
        let before = started(all, lo, hi, n - 1);
        let now = started(all, lo, hi, n);
        if lo <= all[n - 1].started_at <= hi {
            assert(now.drop_last() =~= before);
            assert(now.last() == n - 1);
        }
    }
}

proof fn lemma_tally_parts(
    all: Seq<RunRecord>,
    lo: int,
    mid: int,
    hi: int,
    label: Option<Seq<char>>,
    n: int,
)
    requires
        lo <= mid + 1,
        mid <= hi,
    ensures
        tally(all, lo, hi, label, n) == tally(all, lo, mid, label, n) + tally(
            all,
            mid + 1,
            hi,
            label,
            n,
        ),
    decreases n,
{
    if n > 0 {
        lemma_tally_parts(all, lo, mid, hi, label, n - 1);
    }
}

/// What the first `n` points of a series add up to.
pub open spec fn adds_up(series: Seq<Point>, n: int, of: spec_fn(Point) -> nat) -> nat
    decreases n,
{
    if n <= 0 {
        0
    } else {
        adds_up(series, n - 1, of) + of(series[n - 1])
    }
}

proof fn lemma_series_tally(
    series: Seq<Point>,
    all: Seq<RunRecord>,
    from: int,
    width: int,
    now: int,
    label: Option<Seq<char>>,
    of: spec_fn(Point) -> nat,
    k: int,
)
    requires
        0 <= from <= now,
        width > 0,
        is_series(series, all, from, width, now),
        0 < k <= series.len(),
        forall|i: int|
            0 <= i < series.len() ==> of(#[trigger] series[i]) == tally(
                all,
                from + i * width,
                last_second(from + i * width, width, now),
                label,
                all.len() as int,
            ),
    ensures
        adds_up(series, k, of) == tally(
            all,
            from,
            last_second(from + (k - 1) * width, width, now),
            label,
            all.len() as int,
        ),
    decreases k,
{
    let n = all.len() as int;
    let start = from + (k - 1) * width;
    assert(of(series[k - 1]) == tally(all, start, last_second(start, width, now), label, n));
    assert((k - 1) * width <= ((now - from) / width) * width <= now - from) by (nonlinear_arith)
        requires
            width > 0,
            now >= from,
            k - 1 <= (now - from) / width,
    ;
    if k == 1 {
        assert((k - 1) * width == 0) by (nonlinear_arith)
            requires
                k == 1,
        ;
        assert(adds_up(series, 0, of) == 0);
    } else {
        lemma_series_tally(series, all, from, width, now, label, of, k - 1);
        let before = from + (k - 2) * width;
        assert(before + width == start) by (nonlinear_arith)
            requires
                before == from + (k - 2) * width,
                start == from + (k - 1) * width,
        ;
        assert((k - 2) * width >= 0) by (nonlinear_arith)
            requires
                k >= 2,
                width > 0,
        ;
        lemma_tally_parts(all, from, start - 1, last_second(start, width, now), label, n);
    }
}

/// A range starts no later than it ends.
proof fn lemma_range_start(bucket: Bucket, days: int, now: int)
    requires
        0 <= now,
    ensures
        bucket.start_of(range_from(bucket, days, now)) <= now,
{
    law_alignment(Bucket::Hour, now);
    law_alignment(Bucket::Day, now);
    law_alignment(bucket, range_from(bucket, days, now));
}

/// The last point of a series takes in its end.
proof fn lemma_last_point(from: int, width: int, now: int)
    requires
        from <= now,
        width > 0,
    ensures
        last_second(from + ((now - from) / width) * width, width, now) == now,
        (now - from) / width >= 0,
{
    let d = now - from;
    assert(0 <= d / width && (d / width) * width <= d < (d / width) * width + width)
        by (nonlinear_arith)
        requires
            d >= 0,
            width > 0,
    ;
}

proof fn lemma_outcome_adds(
    s: Summary,
    all: Seq<RunRecord>,
    now: int,
    width: int,
    label: Seq<char>,
    of: spec_fn(Point) -> nat,
)
    requires
        s.from <= now,
        width > 0,
        ints(s.runs@) == started(all, s.from as int, now, all.len() as int),
        is_series(s.series@, all, s.from as int, width, now),
        forall|i: int|
            0 <= i < s.series@.len() ==> of(#[trigger] s.series@[i]) == having(
                all,
                ints(s.series@[i].runs@),
                Field::Outcome,
                label,
            ).len(),
    ensures
        adds_up(s.series@, s.series@.len() as int, of) == having(
            all,
            ints(s.runs@),
            Field::Outcome,
            label,
        ).len(),
{
    let n = all.len() as int;
    let from = s.from as int;
    let series = s.series@;
    lemma_last_point(from, width, now);
    assert forall|i: int| 0 <= i < series.len() implies of(#[trigger] series[i]) == tally(
        all,
        from + i * width,
        last_second(from + i * width, width, now),
        Some(label),
        n,
    ) by {
        assert(is_point(series[i], all, from + i * width, width, now));
        lemma_tally(
            all,
            from + i * width,
            last_second(from + i * width, width, now),
            label,
            n,
        );
    }
    lemma_series_tally(series, all, from, width, now, Some(label), of, series.len() as int);
    lemma_tally(all, from, now, label, n);
}

/// The points of a summary add up to its totals: the runs, and the runs of each outcome.
pub proof fn law_points_add_up_to_the_totals(
    s: Summary,
    all: Seq<RunRecord>,
    now: int,
    bucket: Bucket,
    days: int,
)
    requires
        0 <= now,
        s.describes(all, now, bucket, days),
    ensures
        ({
            let points = s.series@;
            let n = points.len() as int;
            &&& adds_up(points, n, |p: Point| p.runs@.len()) == s.runs@.len()
            &&& adds_up(points, n, |p: Point| p.outcomes.complete as nat) == s.outcomes.complete
            &&& adds_up(points, n, |p: Point| p.outcomes.partial as nat) == s.outcomes.partial
            &&& adds_up(points, n, |p: Point| p.outcomes.truncated as nat) == s.outcomes.truncated
            &&& adds_up(points, n, |p: Point| p.outcomes.empty as nat) == s.outcomes.empty
            &&& adds_up(points, n, |p: Point| p.outcomes.failed as nat) == s.outcomes.failed
            &&& adds_up(points, n, |p: Point| p.outcomes.cancelled as nat) == s.outcomes.cancelled
        }),
{
    let n = all.len() as int;
    let from = s.from as int;
    let width = bucket.width();
    let series = s.series@;
    lemma_range_start(bucket, days, now);
    lemma_last_point(from, width, now);
    let runs = |p: Point| p.runs@.len();
    assert forall|i: int| 0 <= i < series.len() implies runs(#[trigger] series[i]) == tally(
        all,
        from + i * width,
        last_second(from + i * width, width, now),
        None,
        n,
    ) by {
        assert(is_point(series[i], all, from + i * width, width, now));
        lemma_tally(
            all,
            from + i * width,
            last_second(from + i * width, width, now),
            Seq::empty(),
            n,
        );
        assert(ints(series[i].runs@).len() == series[i].runs@.len());
    }
    lemma_series_tally(series, all, from, width, now, None, runs, series.len() as int);
    lemma_tally(all, from, now, Seq::empty(), n);
    assert(ints(s.runs@).len() == s.runs@.len());
    assert forall|i: int| 0 <= i < series.len() implies counts_outcomes(
        (#[trigger] series[i]).outcomes,
        all,
        ints(series[i].runs@),
    ) by {
        assert(is_point(series[i], all, from + i * width, width, now));
    }
    lemma_outcome_adds(s, all, now, width, "complete"@, |p: Point| p.outcomes.complete as nat);
    lemma_outcome_adds(s, all, now, width, "partial"@, |p: Point| p.outcomes.partial as nat);
    lemma_outcome_adds(s, all, now, width, "truncated"@, |p: Point| p.outcomes.truncated as nat);
    lemma_outcome_adds(s, all, now, width, "empty"@, |p: Point| p.outcomes.empty as nat);
    lemma_outcome_adds(s, all, now, width, "failed"@, |p: Point| p.outcomes.failed as nat);
    lemma_outcome_adds(s, all, now, width, "cancelled"@, |p: Point| p.outcomes.cancelled as nat);
}

/// The points of a summary are consecutive buckets, oldest first, from the one the range
/// starts with to the one that holds its end.
pub proof fn law_points_are_contiguous(
    s: Summary,
    all: Seq<RunRecord>,
    now: int,
    bucket: Bucket,
    days: int,
)
    requires
        0 <= now,
        s.describes(all, now, bucket, days),
    ensures
        s.series@.len() > 0,
        s.series@[0].start == s.from,
        s.series@.last().start == bucket.start_of(now),
        forall|i: int|
            0 <= i < s.series@.len() - 1 ==> (#[trigger] s.series@[i + 1]).start
                == s.series@[i].start + bucket.width(),
{
    let from = s.from as int;
    let width = bucket.width();
    let series = s.series@;
    let k = (now - from) / width;
    lemma_range_start(bucket, days, now);
    lemma_last_point(from, width, now);
    assert(is_point(series[0], all, from + 0 * width, width, now));
    assert(is_point(series[k], all, from + k * width, width, now));
    assert forall|i: int| 0 <= i < series.len() - 1 implies (#[trigger] series[i + 1]).start
        == series[i].start + width by {
        assert(is_point(series[i], all, from + i * width, width, now));
        assert(is_point(series[i + 1], all, from + (i + 1) * width, width, now));
        assert((i + 1) * width == i * width + width) by (nonlinear_arith);
    }
    law_alignment(bucket, range_from(bucket, days, now));
    law_points_are_buckets(bucket, from, k);
    let last = from + k * width;
    assert(last <= now < last + width) by {
        let d = now - from;
        assert((d / width) * width <= d < (d / width) * width + width) by (nonlinear_arith)
            requires
                d >= 0,
                width > 0,
        ;
    }
    lemma_same_bucket(bucket, last, now);
}

/// A time within a bucket's width of its start is in the bucket.
proof fn lemma_same_bucket(bucket: Bucket, start: int, t: int)
    requires
        bucket.start_of(start) == start,
        start <= t < start + bucket.width(),
    ensures
        bucket.start_of(t) == start,
{
    let w = bucket.width();
    let a = start + bucket.phase();
    let b = t + bucket.phase();
    assert(b % w == b - a) by (nonlinear_arith)
        requires
            a % w == 0,
            a <= b < a + w,
            w > 0,
    {
        assert(a == (a / w) * w);
        assert(b / w == a / w);
    }
}

/// A series that starts with a bucket goes on in whole buckets.
pub proof fn law_points_are_buckets(bucket: Bucket, from: int, i: int)
    requires
        bucket.start_of(from) == from,
    ensures
        bucket.start_of(from + i * bucket.width()) == from + i * bucket.width(),
{
    let w = bucket.width();
    let a = from + bucket.phase();
    assert((a + i * w) % w == 0) by (nonlinear_arith)
        requires
            a % w == 0,
            w > 0,
    {
        assert(a == (a / w) * w);
        assert(a + i * w == (a / w + i) * w);
    }
    assert(from + i * w + bucket.phase() == a + i * w);
}

/// Far enough from the epoch a range by the day has as many points as days, a range
/// by the hour one for each of their hours, and a range by the week starts in the
/// week of the day that the range by the day starts with.
pub proof fn law_ranges_have_their_points(days: int, now: int)
    requires
        days >= 1,
        now >= days * 86_400,
    ensures
        (now - Bucket::Day.start_of(range_from(Bucket::Day, days, now))) / 86_400 + 1 == days,
        (now - Bucket::Hour.start_of(range_from(Bucket::Hour, days, now))) / 3_600 + 1 == days
            * 24,
        Bucket::Week.start_of(range_from(Bucket::Week, days, now)) == Bucket::Week.start_of(
            Bucket::Day.start_of(range_from(Bucket::Day, days, now)),
        ),
{
    let d = now / 86_400;
    let first = range_from(Bucket::Day, days, now);
    assert(first == (d - (days - 1)) * 86_400);
    assert(first % 86_400 == 0);
    lemma_hours_back(now, days);
    assert(range_from(Bucket::Hour, days, now) == (now / 3_600 - (days * 24 - 1)) * 3_600);
}

// --------------------------------------------------------------------- log --

/// The lines of `s` from index `i` on, each without its line break (a line feed,
/// with or without a carriage return before it).
pub open spec fn log_from(s: Seq<char>, i: int) -> Seq<Seq<char>>
    decreases s.len() - i,
    when 0 <= i <= s.len()
    via log_from_moves
{
    if i == s.len() {
        Seq::empty()
    } else {
        match index_from(s, i, '\n') {
            None => seq![s.subrange(i, s.len() as int)],
            Some(k) => {
                let line = s.subrange(i, k);
                let bare = if line.len() > 0 && line.last() == '\r' {
                    line.drop_last()
                } else {
                    line
                };
                seq![bare] + log_from(s, k + 1)
            },
        }
    }
}

#[via_fn]
proof fn log_from_moves(s: Seq<char>, i: int) {
    lemma_index_bounds(s, i, '\n');
}

/// The lines from the `k`-th on that say something, each with its number, counted
/// from 1.
pub open spec fn entries_from(lines: Seq<Seq<char>>, k: int) -> Seq<(int, Seq<char>)>
    decreases lines.len() - k,
{
    if k < 0 || k >= lines.len() {
        Seq::empty()
    } else if blank(lines[k]) {
        entries_from(lines, k + 1)
    } else {
        seq![(k + 1, lines[k])] + entries_from(lines, k + 1)
    }
}

/// Numbered lines as mathematical values.
pub open spec fn entry_views(v: Seq<(usize, String)>) -> Seq<(int, Seq<char>)> {
    v.map_values(|e: (usize, String)| (e.0 as int, e.1@))
}

/// The lines of a log that hold a record: those that are not blank, each with its
/// number for a warning about it.
pub fn log_lines(text: &str) -> (r: Vec<(usize, String)>)
    ensures
        entry_views(r@) == entries_from(log_from(text@, 0), 0),
{
    let v = to_chars(text);
    let mut out: Vec<(usize, String)> = Vec::new();
    let mut pos: usize = 0;
    let mut number: usize = 0;
    let ghost lines = log_from(v@, 0);
    assert(lines.skip(0) =~= lines);
    assert(entry_views(out@) + entries_from(lines, 0) =~= entries_from(lines, 0));
    while pos < v.len()
        invariant
            v@ == text@,
            pos <= v@.len(),
            number <= pos,
            number <= lines.len(),
            lines == log_from(v@, 0),
            lines.skip(number as int) == log_from(v@, pos as int),
            entry_views(out@) + entries_from(lines, number as int) == entries_from(lines, 0),
        decreases v@.len() - pos,
    {
        let end: usize = match index_of(&v, pos, '\n') {
            Some(k) => k,
            None => v.len(),
        };
        let bare: usize = if end < v.len() && end > pos && v[end - 1] == '\r' {
            end - 1
        } else {
            end
        };
        let line = sub_chars(&v, pos, bare);
        let ghost rest = log_from(v@, pos as int);
        proof {
            let whole = v@.subrange(pos as int, end as int);
            assert(end > pos ==> whole.last() == v@[end - 1]);
            assert(line@ =~= if end < v@.len() && whole.len() > 0 && whole.last() == '\r' {
                whole.drop_last()
            } else {
                whole
            });
            assert(rest.len() > 0 && rest[0] == line@);
            assert(lines.skip(number as int) == rest);
            assert(number < lines.len());
            assert(lines.skip(number as int)[0] == lines[number as int]);
        }
        number += 1;
        let ghost before = out@;
        if !is_blank(&line) {
            out.push((number, from_chars(&line)));
            proof {
                assert(entry_views(out@) =~= entry_views(before).push((number as int, line@)));
                assert(entry_views(before) + (seq![(number as int, line@)] + entries_from(
                    lines,
                    number as int,
                )) =~= entry_views(out@) + entries_from(lines, number as int));
            }
        }
        pos = if end < v.len() {
            end + 1
        } else {
            end
        };
        proof {
            assert(lines.skip(number as int) =~= rest.drop_first());
            assert(rest.drop_first() =~= log_from(v@, pos as int));
        }
    }
    assert(lines.skip(number as int).len() == 0);
    assert(entry_views(out@) + entries_from(lines, number as int) =~= entry_views(out@));
    out
}

/// A directory that the environment names.
#[derive(Debug, Clone, Copy, PartialEq, Eq, Structural)]
pub enum BaseDir {
    /// The XDG variable's own directory.
    Xdg,
    Home,
}

/// Where the log is kept by default: `webscout` in `$XDG_DATA_HOME`, else
/// `.local/share/webscout` in `$HOME`; nowhere when neither is set to something.
pub fn default_data_dir(has_xdg: bool, has_home: bool) -> (r: Option<(BaseDir, &'static str)>)
    ensures
        match r {
            Some((BaseDir::Xdg, path)) => has_xdg && path@ == "webscout"@,
            Some((BaseDir::Home, path)) => !has_xdg && has_home && path@
                == ".local/share/webscout"@,
            None => !has_xdg && !has_home,
        },
{
    if has_xdg {
        Some((BaseDir::Xdg, "webscout"))
    } else if has_home {
        Some((BaseDir::Home, ".local/share/webscout"))
    } else {
        None
    }
}

} // verus!
