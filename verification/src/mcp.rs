//! The tool server: searches as jobs that a client starts, polls and reads.
//!
//! A search outlives the call that started it. One shared token guards every call,
//! and a server without one refuses them all.
use vstd::prelude::*;
use vstd::string::*;
use vstd::utf8::encode_utf8_decode_utf8;
use crate::config::{unquote, unquoted};
use crate::json::{
    add_item, add_member, item_shapes, list, member_shapes, no_items, no_members, object, string,
    strings, text_shapes, Json, Shape,
};
use crate::numeral::{decimal, show_usize};
use crate::options::formats;
use crate::runs::ProgressEvent;
use crate::scan::{index_from, index_of, trim, trim_str};
use crate::text::{from_range, lower_all, str_eq, str_views, to_ascii_lower, to_chars};
use crate::tools::{tool_definitions, tools, ToolGroup};
use crate::types::ScoutReport;
use crate::usage::UsageSnapshot;

verus! {

/// Searches remembered, running or finished.
pub const MAX_JOBS: usize = 100;

/// Searches allowed to run at once when nothing says otherwise.
pub const DEFAULT_MAX_RUNNING: usize = 4;

/// How long a search that waits does so before it hands back a request id, in
/// seconds.
pub const SEARCH_WAIT_SECS: u64 = 10;

/// Items a list returns when neither the caller nor the request named a number.
pub const DEFAULT_ROW_LIMIT: usize = 50;

/// Progress lines kept of a search.
pub const RECENT_PROGRESS: usize = 12;

// ------------------------------------------------------------------- tokens --

/// Compare without an early exit inside the values, so that the time it takes says
/// nothing about how much of a guess was right.
pub fn constant_time_eq(a: &[u8], b: &[u8]) -> (r: bool)
    ensures
        r == (a@ == b@),
{
    if a.len() != b.len() {
        return false;
    }
    let n: usize = a.len();
    let mut acc: u8 = 0;
    let mut i: usize = 0;
    while i < n
        invariant
            i <= n,
            n == a@.len(),
            n == b@.len(),
            acc == 0 <==> forall|k: int| 0 <= k < i ==> a@[k] == b@[k],
        decreases n - i,
    {
        let x: u8 = a[i];
        let y: u8 = b[i];
        let ghost before = acc;
        acc = acc | (x ^ y);
        assert(acc == 0 <==> before == 0 && x == y) by (bit_vector)
            requires
                acc == before | (x ^ y),
        ;
        i += 1;
    }
    proof {
        if acc == 0 {
            assert(a@ =~= b@);
        }
    }
    acc == 0
}

/// The token of a header `Bearer <token>`, the scheme in any case.
pub open spec fn bearer_token(header: Seq<char>) -> Option<Seq<char>> {
    let v = trim(header);
    match index_from(v, 0, ' ') {
        Some(i) => if lower_all(v.take(i)) == "bearer"@ && trim(v.skip(i + 1)).len() > 0 {
            Some(trim(v.skip(i + 1)))
        } else {
            None
        },
        None => None,
    }
}

pub open spec fn bearer_of(header: Option<&str>) -> Option<Seq<char>> {
    match header {
        Some(h) => bearer_token(h@),
        None => None,
    }
}

pub open spec fn opt_text(s: Option<String>) -> Option<Seq<char>> {
    match s {
        Some(t) => Some(t@),
        None => None,
    }
}

/// The bearer token a request carries, if any.
pub fn bearer(header: Option<&str>) -> (r: Option<String>)
    ensures
        opt_text(r) == bearer_of(header),
{
    match header {
        Some(h) => {
            let v = to_chars(trim_str(h));
            let n: usize = v.len();
            match index_of(&v, 0, ' ') {
                Some(i) => {
                    let scheme = crate::text::sub_chars(&v, 0, i);
                    assert(v@.subrange(0, i as int) =~= v@.take(i as int));
                    let low = to_ascii_lower(&scheme);
                    let low = crate::text::from_chars(&low);
                    let rest = from_range(&v, i + 1, n);
                    assert(v@.subrange(i + 1, n as int) =~= v@.skip(i + 1));
                    let token = trim_str(rest.as_str());
                    if str_eq(low.as_str(), "bearer") && token.unicode_len() > 0 {
                        Some(token.to_owned())
                    } else {
                        None
                    }
                },
                None => None,
            }
        },
        None => None,
    }
}

/// Why a call is refused.
#[derive(Debug, Clone, Copy, PartialEq, Eq, Structural)]
pub enum Denial {
    /// No token is configured: the endpoint is closed to everyone.
    Disabled,
    /// The call carries no token.
    Missing,
    /// The call carries another token.
    Invalid,
}

impl Denial {
    pub open spec fn code(self) -> int {
        if self == Denial::Disabled {
            503
        } else {
            401
        }
    }

    pub open spec fn error(self) -> Seq<char> {
        match self {
            Denial::Disabled => "mcp_disabled"@,
            Denial::Missing => "invalid_request"@,
            Denial::Invalid => "invalid_token"@,
        }
    }

    pub open spec fn reason(self) -> Seq<char> {
        match self {
            Denial::Disabled =>
                "The MCP endpoint is disabled: set WEBSCOUT_MCP_TOKEN on the server to enable it."@,
            Denial::Missing =>
                "Missing token. Send the header `Authorization: Bearer <token>`, where the token is WEBSCOUT_MCP_TOKEN from the server's .env."@,
            Denial::Invalid => "The bearer token is not valid."@,
        }
    }

    /// The status of the refusal.
    pub fn status(self) -> (r: u16)
        ensures
            r == self.code(),
    {
        if self == Denial::Disabled {
            503
        } else {
            401
        }
    }

    /// The body of the refusal.
    pub fn body(self) -> (r: Json)
        ensures
            r.shape() == Shape::Object(
                seq![
                    ("error"@, Shape::Text(self.error())),
                    ("message"@, Shape::Text(self.reason())),
                ],
            ),
    {
        let error = match self {
            Denial::Disabled => "mcp_disabled",
            Denial::Missing => "invalid_request",
            Denial::Invalid => "invalid_token",
        };
        let reason = match self {
            Denial::Disabled =>
                "The MCP endpoint is disabled: set WEBSCOUT_MCP_TOKEN on the server to enable it.",
            Denial::Missing =>
                "Missing token. Send the header `Authorization: Bearer <token>`, where the token is WEBSCOUT_MCP_TOKEN from the server's .env.",
            Denial::Invalid => "The bearer token is not valid.",
        };
        let mut m = no_members();
        add_member(&mut m, "error", string(error));
        add_member(&mut m, "message", string(reason));
        assert(member_shapes(m@) =~= seq![
            ("error"@, Shape::Text(self.error())),
            ("message"@, Shape::Text(self.reason())),
        ]);
        object(m)
    }

    /// The challenge that goes with a refusal, where a token would help.
    pub fn challenge(self) -> (r: Option<String>)
        ensures
            opt_text(r) == (if self == Denial::Disabled {
                None
            } else {
                Some("Bearer realm=\"webscout\", error=\""@ + self.error() + "\""@)
            }),
    {
        let error = match self {
            Denial::Disabled => return None,
            Denial::Missing => "invalid_request",
            Denial::Invalid => "invalid_token",
        };
        let mut s = "Bearer realm=\"webscout\", error=\"".to_owned();
        s.append(error);
        s.append("\"");
        Some(s)
    }
}

/// What a call gets by the token it carries: nothing is open without a token on the
/// server.
pub open spec fn denied(expected: Option<Seq<char>>, got: Option<Seq<char>>) -> Option<Denial> {
    match expected {
        None => Some(Denial::Disabled),
        Some(e) => match got {
            None => Some(Denial::Missing),
            Some(g) => if g == e {
                None
            } else {
                Some(Denial::Invalid)
            },
        },
    }
}

// --------------------------------------------------------------------- jobs --

#[derive(Debug, Clone, Copy, PartialEq, Eq, Structural)]
pub enum Status {
    Running,
    Finished,
    Failed,
    Cancelled,
}

impl Status {
    pub open spec fn label(self) -> Seq<char> {
        match self {
            Status::Running => "running"@,
            Status::Finished => "finished"@,
            Status::Failed => "failed"@,
            Status::Cancelled => "cancelled"@,
        }
    }

    pub fn as_str(self) -> (r: &'static str)
        ensures
            r@ == self.label(),
    {
        match self {
            Status::Running => "running",
            Status::Finished => "finished",
            Status::Failed => "failed",
            Status::Cancelled => "cancelled",
        }
    }
}

/// How a search ended.
#[derive(Debug)]
pub enum Settlement {
    /// With a report, and its exports by format.
    Finished(ScoutReport, Vec<(String, String)>),
    /// With an error, after spending this.
    Failed(String, UsageSnapshot),
    /// By request, after spending this.
    Cancelled(UsageSnapshot),
}

impl Settlement {
    pub open spec fn status(self) -> Status {
        match self {
            Settlement::Finished(_, _) => Status::Finished,
            Settlement::Failed(_, _) => Status::Failed,
            Settlement::Cancelled(_) => Status::Cancelled,
        }
    }
}

/// One search, from its start until it is forgotten.
#[derive(Debug)]
pub struct Job {
    pub id: String,
    pub query: String,
    pub options: Vec<(String, Json)>,
    pub started_at: String,
    pub status: Status,
    pub last: Option<ProgressEvent>,
    /// The latest progress: the second of the run, and what happened.
    pub recent: Vec<(u64, String)>,
    pub report: Option<ScoutReport>,
    pub formats: Vec<(String, String)>,
    pub error: Option<String>,
    pub elapsed_ms: Option<u64>,
    /// What a search that failed or was cancelled had spent.
    pub final_usage: Option<UsageSnapshot>,
}

/// What a progress event says in one line.
pub open spec fn progress_text(ev: ProgressEvent) -> Seq<char> {
    "["@ + ev.stage@ + "] "@ + (match ev.round {
        Some(n) => "round "@ + decimal(n as nat) + ": "@,
        None => ""@,
    }) + ev.message@
}

pub open spec fn recent_views(v: Seq<(u64, String)>) -> Seq<(u64, Seq<char>)> {
    v.map_values(|p: (u64, String)| (p.0, p.1@))
}

/// The last `n` of a list.
pub open spec fn last_of<T>(v: Seq<T>, n: int) -> Seq<T> {
    if v.len() > n {
        v.skip(v.len() - n)
    } else {
        v
    }
}

impl Job {
    /// A search that starts.
    pub fn new(id: String, query: String, options: Vec<(String, Json)>, started_at: String) -> (r:
        Self)
        ensures
            r.id == id,
            r.query == query,
            r.options == options,
            r.started_at == started_at,
            r.status == Status::Running,
            r.last is None,
            r.recent@.len() == 0,
            r.report is None,
            r.formats@.len() == 0,
            r.error is None,
            r.elapsed_ms is None,
            r.final_usage is None,
    {
        Job {
            id,
            query,
            options,
            started_at,
            status: Status::Running,
            last: None,
            recent: Vec::new(),
            report: None,
            formats: Vec::new(),
            error: None,
            elapsed_ms: None,
            final_usage: None,
        }
    }

    pub fn is_running(&self) -> (r: bool)
        ensures
            r == (self.status == Status::Running),
    {
        self.status == Status::Running
    }

    /// How long the search has taken: as it ended, or `so_far` while it runs.
    pub fn elapsed(&self, so_far: u64) -> (r: u64)
        ensures
            r == (match self.elapsed_ms {
                Some(ms) => ms,
                None => so_far,
            }),
    {
        match self.elapsed_ms {
            Some(ms) => ms,
            None => so_far,
        }
    }

    /// Take note of progress, `at` seconds into the run. The oldest lines go.
    pub fn record(&mut self, at: u64, ev: ProgressEvent)
        ensures
            recent_views(final(self).recent@) == last_of(
                recent_views(old(self).recent@).push((at, progress_text(ev))),
                RECENT_PROGRESS as int,
            ),
            final(self).last == Some(ev),
            final(self).status == old(self).status,
            final(self).id == old(self).id,
            final(self).query == old(self).query,
            final(self).options == old(self).options,
            final(self).started_at == old(self).started_at,
            final(self).report == old(self).report,
            final(self).formats == old(self).formats,
            final(self).error == old(self).error,
            final(self).elapsed_ms == old(self).elapsed_ms,
            final(self).final_usage == old(self).final_usage,
    {
        let mut s = "[".to_owned();
        s.append(ev.stage.as_str());
        s.append("] ");
        let mut round = "".to_owned();
        if let Some(n) = ev.round {
            round = "round ".to_owned();
            let d = show_usize(n);
            round.append(d.as_str());
            round.append(": ");
        }
        s.append(round.as_str());
        s.append(ev.message.as_str());
        let ghost given = recent_views(self.recent@).push((at, s@));
        self.recent.push((at, s));
        assert(recent_views(self.recent@) =~= given);
        assert(given.skip(0) =~= given);
        let ghost mut gone: int = 0;
        while self.recent.len() > RECENT_PROGRESS
            invariant
                gone >= 0,
                gone <= given.len(),
                given.len() - gone == self.recent@.len(),
                gone > 0 ==> self.recent@.len() >= RECENT_PROGRESS,
                recent_views(self.recent@) == given.skip(gone),
                given.skip(0) == given,
                self.last == old(self).last,
                self.status == old(self).status,
                self.id == old(self).id,
                self.query == old(self).query,
                self.options == old(self).options,
                self.started_at == old(self).started_at,
                self.report == old(self).report,
                self.formats == old(self).formats,
                self.error == old(self).error,
                self.elapsed_ms == old(self).elapsed_ms,
                self.final_usage == old(self).final_usage,
            decreases self.recent@.len(),
        {
            let ghost before = self.recent@;
            self.recent.remove(0);
            assert(recent_views(self.recent@) =~= recent_views(before).skip(1));
            assert(given.skip(gone).skip(1) =~= given.skip(gone + 1));
            proof {
                gone = gone + 1;
            }
        }
        assert(recent_views(self.recent@).len() == self.recent@.len());
        self.last = Some(ev);
    }

    /// `after` is the search once it was settled, which counted or did not.
    pub open spec fn settles(
        self,
        how: Settlement,
        elapsed_ms: u64,
        after: Job,
        counted: bool,
    ) -> bool {
        &&& counted == (self.status == Status::Running)
        &&& !counted ==> after == self
        &&& counted ==> after.status == how.status() && after.elapsed_ms == Some(elapsed_ms)
        &&& counted ==> match how {
            Settlement::Finished(report, formats) => after.report == Some(report) && after.formats
                == formats && after.error == self.error && after.final_usage == self.final_usage,
            Settlement::Failed(e, u) => after.error == Some(e) && after.final_usage == Some(u)
                && after.report == self.report && after.formats == self.formats,
            Settlement::Cancelled(u) => after.final_usage == Some(u) && after.error == self.error
                && after.report == self.report && after.formats == self.formats,
        }
        &&& after.id == self.id
        &&& after.query == self.query
        &&& after.options == self.options
        &&& after.started_at == self.started_at
        &&& after.last == self.last
        &&& after.recent == self.recent
    }

    /// Settle the search. Only the first settlement counts: a cancellation that raced
    /// a run that was finishing keeps whichever landed first. True when it counted.
    pub fn settle(&mut self, how: Settlement, elapsed_ms: u64) -> (r: bool)
        ensures
            old(self).settles(how, elapsed_ms, *final(self), r),
    {
        if self.status != Status::Running {
            return false;
        }
        match how {
            Settlement::Finished(report, formats) => {
                self.status = Status::Finished;
                self.report = Some(report);
                self.formats = formats;
            },
            Settlement::Failed(e, u) => {
                self.status = Status::Failed;
                self.error = Some(e);
                self.final_usage = Some(u);
            },
            Settlement::Cancelled(u) => {
                self.status = Status::Cancelled;
                self.final_usage = Some(u);
            },
        }
        self.elapsed_ms = Some(elapsed_ms);
        true
    }

    /// What the search has spent: as its report says, as it was when the search
    /// ended without one, or `so_far` while it runs.
    pub fn usage(&self, so_far: UsageSnapshot) -> (r: UsageSnapshot)
        ensures
            r == (match self.report {
                Some(report) => UsageSnapshot::of_stats(report.stats),
                None => match self.final_usage {
                    Some(u) => u,
                    None => so_far,
                },
            }),
    {
        match &self.report {
            Some(report) => UsageSnapshot::from_stats(&report.stats),
            None => match self.final_usage {
                Some(u) => u,
                None => so_far,
            },
        }
    }
}

/// Only the first of two settlements counts, whichever they are: a search that ended
/// stays as it ended.
pub proof fn law_the_first_settlement_counts(
    running: Job,
    first: Settlement,
    first_ms: u64,
    ended: Job,
    second: Settlement,
    second_ms: u64,
    after: Job,
    counted: bool,
)
    requires
        running.status == Status::Running,
        running.settles(first, first_ms, ended, true),
        ended.settles(second, second_ms, after, counted),
    ensures
        !counted,
        after == ended,
        after.status == first.status(),
        after.elapsed_ms == Some(first_ms),
{
}

/// What the server keeps between calls.
#[derive(Debug)]
pub struct McpState {
    /// Without one the endpoint is closed.
    pub token: Option<String>,
    pub max_running: usize,
    /// In the order they were started.
    pub jobs: Vec<Job>,
}

/// The first job that does not run any more.
pub open spec fn first_ended(jobs: Seq<Job>, i: int) -> Option<int>
    decreases jobs.len() - i,
{
    if i < 0 || i >= jobs.len() {
        None
    } else if jobs[i].status != Status::Running {
        Some(i)
    } else {
        first_ended(jobs, i + 1)
    }
}

/// The jobs with room for one more: the oldest that ended are forgotten first, and
/// one that runs never is.
pub open spec fn with_room(jobs: Seq<Job>) -> Seq<Job>
    decreases jobs.len(),
    via with_room_shrinks
{
    if jobs.len() >= MAX_JOBS {
        match first_ended(jobs, 0) {
            Some(i) => with_room(jobs.remove(i)),
            None => jobs,
        }
    } else {
        jobs
    }
}

#[via_fn]
proof fn with_room_shrinks(jobs: Seq<Job>) {
    lemma_first_ended(jobs, 0);
}

proof fn lemma_first_ended(jobs: Seq<Job>, i: int)
    requires
        0 <= i <= jobs.len(),
    ensures
        match first_ended(jobs, i) {
            Some(k) => i <= k < jobs.len() && jobs[k].status != Status::Running,
            None => forall|k: int| i <= k < jobs.len() ==> jobs[k].status == Status::Running,
        },
    decreases jobs.len() - i,
{
    if i < jobs.len() {
        lemma_first_ended(jobs, i + 1);
    }
}

/// How many of the first `n` jobs run.
pub open spec fn running_of(jobs: Seq<Job>, n: int) -> nat
    decreases n,
{
    if n <= 0 {
        0
    } else {
        running_of(jobs, n - 1) + (if jobs[n - 1].status == Status::Running {
            1nat
        } else {
            0nat
        })
    }
}

/// The first job of that id.
pub open spec fn job_at(jobs: Seq<Job>, id: Seq<char>, i: int) -> Option<int>
    decreases jobs.len() - i,
{
    if i < 0 || i >= jobs.len() {
        None
    } else if jobs[i].id@ == id {
        Some(i)
    } else {
        job_at(jobs, id, i + 1)
    }
}

impl McpState {
    /// A server with this token, if it is one: blank or quoted blank is none.
    pub fn new(token: Option<String>, max_running: usize) -> (r: Self)
        ensures
            opt_text(r.token) == (match token {
                Some(t) => if unquoted(t@).len() > 0 {
                    Some(unquoted(t@))
                } else {
                    None
                },
                None => None,
            }),
            r.max_running == (if max_running == 0 {
                1
            } else {
                max_running
            }),
            r.jobs@.len() == 0,
    {
        let token = match token {
            Some(t) => {
                let u = unquote(t.as_str());
                if u.unicode_len() > 0 {
                    Some(u.to_owned())
                } else {
                    None
                }
            },
            None => None,
        };
        McpState {
            token,
            max_running: if max_running == 0 {
                1
            } else {
                max_running
            },
            jobs: Vec::new(),
        }
    }

    pub fn enabled(&self) -> (r: bool)
        ensures
            r == (self.token is Some),
    {
        self.token.is_some()
    }

    /// `None` when the call may proceed; otherwise why it is refused.
    pub fn check_auth(&self, header: Option<&str>) -> (r: Option<Denial>)
        ensures
            r == denied(opt_text(self.token), bearer_of(header)),
    {
        match &self.token {
            None => Some(Denial::Disabled),
            Some(expected) => match bearer(header) {
                None => Some(Denial::Missing),
                Some(got) => {
                    proof {
                        encode_utf8_decode_utf8(got@);
                        encode_utf8_decode_utf8(expected@);
                    }
                    if constant_time_eq(got.as_str().as_bytes(), expected.as_str().as_bytes()) {
                        None
                    } else {
                        Some(Denial::Invalid)
                    }
                },
            },
        }
    }

    /// Where a search stands in the list.
    pub fn find(&self, id: &str) -> (r: Option<usize>)
        ensures
            match r {
                Some(i) => job_at(self.jobs@, id@, 0) == Some(i as int) && i < self.jobs@.len()
                    && self.jobs@[i as int].id@ == id@,
                None => job_at(self.jobs@, id@, 0) is None,
            },
    {
        let mut i: usize = 0;
        while i < self.jobs.len()
            invariant
                i <= self.jobs@.len(),
                job_at(self.jobs@, id@, 0) == job_at(self.jobs@, id@, i as int),
            decreases self.jobs@.len() - i,
        {
            if str_eq(self.jobs[i].id.as_str(), id) {
                return Some(i);
            }
            i += 1;
        }
        None
    }

    /// How many searches run.
    pub fn running(&self) -> (r: usize)
        ensures
            r == running_of(self.jobs@, self.jobs@.len() as int),
    {
        let n: usize = self.jobs.len();
        let mut count: usize = 0;
        let mut i: usize = 0;
        while i < n
            invariant
                i <= n,
                n == self.jobs@.len(),
                count == running_of(self.jobs@, i as int),
                count <= i,
            decreases n - i,
        {
            if self.jobs[i].is_running() {
                count += 1;
            }
            i += 1;
        }
        count
    }

    /// Remember a search.
    pub fn insert(&mut self, job: Job)
        ensures
            final(self).jobs@ == with_room(old(self).jobs@).push(job),
            final(self).token == old(self).token,
            final(self).max_running == old(self).max_running,
    {
        let ghost target = with_room(self.jobs@);
        let mut room: bool = self.jobs.len() < MAX_JOBS;
        while !room
            invariant
                with_room(self.jobs@) == target,
                room ==> self.jobs@ == target,
                !room ==> self.jobs@.len() >= MAX_JOBS,
                self.token == old(self).token,
                self.max_running == old(self).max_running,
            decreases self.jobs@.len() + (if room { 0int } else { 1int }),
        {
            match ended_position(&self.jobs) {
                Some(i) => {
                    let ghost before = self.jobs@;
                    self.jobs.remove(i);
                    assert(self.jobs@ =~= before.remove(i as int));
                    assert(with_room(before) == with_room(before.remove(i as int)));
                    assert(with_room(self.jobs@) == target);
                    room = self.jobs.len() < MAX_JOBS;
                },
                None => {
                    room = true;
                },
            }
        }
        self.jobs.push(job);
    }
}

fn ended_position(jobs: &Vec<Job>) -> (r: Option<usize>)
    ensures
        match r {
            Some(i) => first_ended(jobs@, 0) == Some(i as int) && i < jobs@.len(),
            None => first_ended(jobs@, 0) is None,
        },
{
    let mut i: usize = 0;
    while i < jobs.len()
        invariant
            i <= jobs@.len(),
            first_ended(jobs@, 0) == first_ended(jobs@, i as int),
        decreases jobs@.len() - i,
    {
        if !jobs[i].is_running() {
            return Some(i);
        }
        i += 1;
    }
    None
}

/// A server without a token lets nobody in; with one, exactly those who send it.
pub proof fn law_a_missing_guard_is_never_an_open_door(
    expected: Option<Seq<char>>,
    got: Option<Seq<char>>,
)
    ensures
        expected is None ==> denied(expected, got) == Some(Denial::Disabled),
        denied(expected, got) is None <==> expected is Some && got == expected,
{
}

proof fn lemma_with_room(jobs: Seq<Job>, k: int)
    requires
        0 <= k < jobs.len(),
        jobs[k].status == Status::Running,
    ensures
        with_room(jobs).contains(jobs[k]),
    decreases jobs.len(),
{
    if jobs.len() >= MAX_JOBS {
        lemma_first_ended(jobs, 0);
        match first_ended(jobs, 0) {
            Some(i) => {
                let rest = jobs.remove(i);
                let at = if k < i {
                    k
                } else {
                    k - 1
                };
                assert(rest[at] == jobs[k]);
                lemma_with_room(rest, at);
            },
            None => {
                assert(jobs[k] == with_room(jobs)[k]);
            },
        }
    } else {
        assert(jobs[k] == with_room(jobs)[k]);
    }
}

proof fn lemma_room(jobs: Seq<Job>)
    ensures
        with_room(jobs).len() >= MAX_JOBS ==> forall|j: int|
            0 <= j < with_room(jobs).len() ==> (#[trigger] with_room(jobs)[j]).status
                == Status::Running,
    decreases jobs.len(),
{
    if jobs.len() >= MAX_JOBS {
        lemma_first_ended(jobs, 0);
        if let Some(i) = first_ended(jobs, 0) {
            lemma_room(jobs.remove(i));
        }
    }
}

/// Remembering a search forgets none that runs, and no more are remembered than the
/// server has room for unless all of them run.
pub proof fn law_running_searches_are_never_forgotten(jobs: Seq<Job>, job: Job, k: int)
    requires
        0 <= k < jobs.len(),
        jobs[k].status == Status::Running,
    ensures
        with_room(jobs).push(job).contains(jobs[k]),
        with_room(jobs).push(job).len() <= MAX_JOBS || forall|j: int|
            0 <= j < with_room(jobs).len() ==> (#[trigger] with_room(jobs)[j]).status
                == Status::Running,
{
    lemma_with_room(jobs, k);
    lemma_room(jobs);
    let kept = with_room(jobs);
    let i = kept.index_of(jobs[k]);
    assert(kept.push(job)[i] == jobs[k]);
}

// ---------------------------------------------------------------- messages --

/// Protocol revisions this server speaks, newest first.
pub open spec fn versions() -> Seq<Seq<char>> {
    seq!["2025-11-25"@, "2025-06-18"@, "2025-03-26"@, "2024-11-05"@]
}

/// Protocol revisions this server speaks, newest first.
pub fn protocol_versions() -> (r: Vec<&'static str>)
    ensures
        str_views(r@) == versions(),
{
    let r = vec!["2025-11-25", "2025-06-18", "2025-03-26", "2024-11-05"];
    assert(str_views(r@) =~= versions());
    r
}

/// What a client is told about using this server.
pub const INSTRUCTIONS: &'static str = "webscout searches the web, reads the pages it finds, and returns only facts it could verify against them: a direct answer with numbered sources for a question, or a table of items for a list request (\"Find 20 coworking spaces in Barcelona with a public email\"). To use it, call `search` with the request in plain language. It waits about 10 seconds; a quick question may be answered in that call. Otherwise the result has status \"running\" and a request_id: call `get_search_result` with it, and keep calling while the status is still \"running\" — each call waits about 10 seconds for the search, so call again straight away, without sleeping. Questions usually take 15 seconds to 2 minutes; lists can take many minutes. Never start the same search twice. Use detail=\"full\" on get_search_result for sources, notes, cost and run statistics. An outcome of \"empty\" means nothing could be verified, not that the thing does not exist. `start_search` returns at once without waiting, for long searches you want to run in the background while doing other work.";

pub open spec fn result_message(id: Shape, result: Shape) -> Shape {
    Shape::Object(
        seq![("id"@, id), ("jsonrpc"@, Shape::Text("2.0"@)), ("result"@, result)],
    )
}

pub open spec fn error_message(id: Shape, code: int, message: Seq<char>) -> Shape {
    Shape::Object(
        seq![
            (
                "error"@,
                Shape::Object(
                    seq![("code"@, Shape::Int(code)), ("message"@, Shape::Text(message))],
                ),
            ),
            ("id"@, id),
            ("jsonrpc"@, Shape::Text("2.0"@)),
        ],
    )
}

/// The answer to a request.
pub fn rpc_result(id: Json, result: Json) -> (r: Json)
    ensures
        r.shape() == result_message(id.shape(), result.shape()),
{
    let ghost expected = result_message(id.shape(), result.shape());
    let mut m = no_members();
    add_member(&mut m, "id", id);
    add_member(&mut m, "jsonrpc", string("2.0"));
    add_member(&mut m, "result", result);
    assert(member_shapes(m@) =~= expected->Object_0);
    object(m)
}

/// The answer to a request that could not be served.
pub fn rpc_error(id: Json, code: i64, message: &str) -> (r: Json)
    ensures
        r.shape() == error_message(id.shape(), code as int, message@),
{
    let ghost expected = error_message(id.shape(), code as int, message@);
    let mut e = no_members();
    add_member(&mut e, "code", Json::Below(code));
    add_member(&mut e, "message", string(message));
    assert(member_shapes(e@) =~= seq![
        ("code"@, Shape::Int(code as int)),
        ("message"@, Shape::Text(message@)),
    ]);
    let e = object(e);
    let mut m = no_members();
    add_member(&mut m, "error", e);
    add_member(&mut m, "id", id);
    add_member(&mut m, "jsonrpc", string("2.0"));
    assert(member_shapes(m@) =~= expected->Object_0);
    object(m)
}

/// A body that holds messages.
#[derive(Debug)]
pub enum Envelope {
    /// There is nothing in it; this is the answer.
    Empty(Json),
    Batch(Vec<Json>),
    Single(Json),
}

/// Open a body: one message, or a batch of them.
pub fn open_envelope(body: Json) -> (r: Envelope)
    ensures
        match body {
            Json::List(v) => if v@.len() == 0 {
                r matches Envelope::Empty(e) && e.shape() == error_message(
                    Shape::Null,
                    -32600,
                    "empty batch"@,
                )
            } else {
                r matches Envelope::Batch(w) && w == v
            },
            _ => r matches Envelope::Single(m) && m == body,
        },
{
    match body {
        Json::List(v) => {
            if v.len() == 0 {
                Envelope::Empty(rpc_error(Json::Null, -32600, "empty batch"))
            } else {
                Envelope::Batch(v)
            }
        },
        other => Envelope::Single(other),
    }
}

/// The version to speak with a client that asked for one: the same where it is
/// spoken here, else the newest.
pub open spec fn agreed_version(asked: Seq<char>) -> Seq<char> {
    if versions().contains(asked) {
        asked
    } else {
        versions()[0]
    }
}

pub open spec fn asked_version(params: Shape) -> Seq<char> {
    match params.get("protocolVersion"@) {
        Some(v) => match v.as_text() {
            Some(t) => t,
            None => ""@,
        },
        None => ""@,
    }
}

pub open spec fn capabilities() -> Shape {
    Shape::Object(
        seq![("tools"@, Shape::Object(seq![("listChanged"@, Shape::Bool(false))]))],
    )
}

pub open spec fn server_info(version: Seq<char>) -> Shape {
    Shape::Object(
        seq![
            ("name"@, Shape::Text("webscout"@)),
            ("title"@, Shape::Text("webscout — verified web search"@)),
            ("version"@, Shape::Text(version)),
        ],
    )
}

pub open spec fn initialized(params: Shape, version: Seq<char>) -> Shape {
    Shape::Object(
        seq![
            ("capabilities"@, capabilities()),
            ("instructions"@, Shape::Text(INSTRUCTIONS@)),
            ("protocolVersion"@, Shape::Text(agreed_version(asked_version(params)))),
            ("serverInfo"@, server_info(version)),
        ],
    )
}

fn agree(asked: &str) -> (r: &'static str)
    ensures
        r@ == agreed_version(asked@),
{
    let known = protocol_versions();
    let mut i: usize = 0;
    while i < known.len()
        invariant
            i <= known@.len(),
            str_views(known@) == versions(),
            forall|k: int| 0 <= k < i ==> #[trigger] versions()[k] != asked@,
        decreases known@.len() - i,
    {
        assert(str_views(known@)[i as int] == known@[i as int]@);
        if str_eq(known[i], asked) {
            assert(versions()[i as int] == asked@);
            return known[i];
        }
        i += 1;
    }
    assert(str_views(known@).len() == known@.len());
    assert(str_views(known@)[0] == known@[0]@);
    assert(!versions().contains(asked@));
    known[0]
}

/// Agree on a version and say what this server is. `version` is the program's own.
pub fn initialize(params: &Json, version: &str) -> (r: Json)
    ensures
        r.shape() == initialized(params.shape(), version@),
{
    let asked = match params.get("protocolVersion") {
        Some(v) => match v.as_str() {
            Some(t) => t,
            None => "",
        },
        None => "",
    };
    let mut t = no_members();
    add_member(&mut t, "listChanged", Json::Bool(false));
    assert(member_shapes(t@) =~= seq![("listChanged"@, Shape::Bool(false))]);
    let t = object(t);
    let mut c = no_members();
    add_member(&mut c, "tools", t);
    assert(member_shapes(c@) =~= capabilities()->Object_0);
    let c = object(c);
    let mut s = no_members();
    add_member(&mut s, "name", string("webscout"));
    add_member(&mut s, "title", string("webscout — verified web search"));
    add_member(&mut s, "version", string(version));
    assert(member_shapes(s@) =~= server_info(version@)->Object_0);
    let s = object(s);
    let mut m = no_members();
    add_member(&mut m, "capabilities", c);
    add_member(&mut m, "instructions", string(INSTRUCTIONS));
    add_member(&mut m, "protocolVersion", string(agree(asked)));
    add_member(&mut m, "serverInfo", s);
    assert(member_shapes(m@) =~= initialized(params.shape(), version@)->Object_0);
    object(m)
}

/// A tool a client may call.
#[derive(Debug, Clone, Copy, PartialEq, Eq, Structural)]
pub enum Tool {
    Search,
    StartSearch,
    GetSearchResult,
    GetSearchStatus,
    CancelSearch,
    ListSearches,
    ListSearchOptions,
}

impl Tool {
    pub open spec fn name(self) -> Seq<char> {
        match self {
            Tool::Search => "search"@,
            Tool::StartSearch => "start_search"@,
            Tool::GetSearchResult => "get_search_result"@,
            Tool::GetSearchStatus => "get_search_status"@,
            Tool::CancelSearch => "cancel_search"@,
            Tool::ListSearches => "list_searches"@,
            Tool::ListSearchOptions => "list_search_options"@,
        }
    }

    pub open spec fn named(s: Seq<char>) -> Option<Tool> {
        if s == "search"@ {
            Some(Tool::Search)
        } else if s == "start_search"@ {
            Some(Tool::StartSearch)
        } else if s == "get_search_result"@ {
            Some(Tool::GetSearchResult)
        } else if s == "get_search_status"@ {
            Some(Tool::GetSearchStatus)
        } else if s == "cancel_search"@ {
            Some(Tool::CancelSearch)
        } else if s == "list_searches"@ {
            Some(Tool::ListSearches)
        } else if s == "list_search_options"@ {
            Some(Tool::ListSearchOptions)
        } else {
            None
        }
    }

    fn parse(s: &str) -> (r: Option<Tool>)
        ensures
            r == Tool::named(s@),
    {
        if str_eq(s, "search") {
            Some(Tool::Search)
        } else if str_eq(s, "start_search") {
            Some(Tool::StartSearch)
        } else if str_eq(s, "get_search_result") {
            Some(Tool::GetSearchResult)
        } else if str_eq(s, "get_search_status") {
            Some(Tool::GetSearchStatus)
        } else if str_eq(s, "cancel_search") {
            Some(Tool::CancelSearch)
        } else if str_eq(s, "list_searches") {
            Some(Tool::ListSearches)
        } else if str_eq(s, "list_search_options") {
            Some(Tool::ListSearchOptions)
        } else {
            None
        }
    }
}

/// What to do about a message.
#[derive(Debug)]
pub enum Incoming {
    /// Nothing: it asks for no answer.
    Silent,
    /// Send this.
    Reply(Json),
    /// Call a tool with these arguments, and answer the request of this id.
    Call(Json, Tool, Json),
}

pub ghost enum IncomingView {
    Silent,
    Reply(Shape),
    Call(Shape, Tool, Shape),
}

impl View for Incoming {
    type V = IncomingView;

    open spec fn view(&self) -> IncomingView {
        match *self {
            Incoming::Silent => IncomingView::Silent,
            Incoming::Reply(j) => IncomingView::Reply(j.shape()),
            Incoming::Call(id, t, a) => IncomingView::Call(id.shape(), t, a.shape()),
        }
    }
}

pub open spec fn empty_list(name: Seq<char>) -> Shape {
    Shape::Object(seq![(name, Shape::List(Seq::empty()))])
}

/// A call of a tool: it needs a name that is known, and arguments that are an object
/// or absent.
pub open spec fn tool_call(id: Shape, params: Shape) -> IncomingView {
    match params.get("name"@) {
        Some(v) => match v.as_text() {
            Some(name) => {
                let args = match params.get("arguments"@) {
                    None => Some(Shape::Object(Seq::empty())),
                    Some(Shape::Null) => Some(Shape::Object(Seq::empty())),
                    Some(Shape::Object(m)) => Some(Shape::Object(m)),
                    Some(_) => None,
                };
                match args {
                    None => IncomingView::Reply(
                        error_message(id, -32602, "arguments must be an object"@),
                    ),
                    Some(a) => match Tool::named(name) {
                        Some(t) => IncomingView::Call(id, t, a),
                        None => IncomingView::Reply(
                            error_message(id, -32602, "unknown tool: "@ + name),
                        ),
                    },
                }
            },
            None => IncomingView::Reply(
                error_message(id, -32602, "tools/call needs a tool name"@),
            ),
        },
        None => IncomingView::Reply(error_message(id, -32602, "tools/call needs a tool name"@)),
    }
}

/// What a request is answered.
pub open spec fn answered(
    id: Shape,
    method: Seq<char>,
    params: Shape,
    version: Seq<char>,
    groups: Seq<ToolGroup>,
) -> IncomingView {
    if method == "initialize"@ {
        IncomingView::Reply(result_message(id, initialized(params, version)))
    } else if method == "ping"@ {
        IncomingView::Reply(result_message(id, Shape::Object(Seq::empty())))
    } else if method == "tools/list"@ {
        IncomingView::Reply(
            result_message(id, Shape::Object(seq![("tools"@, Shape::List(tools(groups)))])),
        )
    } else if method == "tools/call"@ {
        tool_call(id, params)
    } else if method == "resources/list"@ {
        IncomingView::Reply(result_message(id, empty_list("resources"@)))
    } else if method == "resources/templates/list"@ {
        IncomingView::Reply(result_message(id, empty_list("resourceTemplates"@)))
    } else if method == "prompts/list"@ {
        IncomingView::Reply(result_message(id, empty_list("prompts"@)))
    } else if method == "logging/setLevel"@ {
        IncomingView::Reply(result_message(id, Shape::Object(Seq::empty())))
    } else {
        IncomingView::Reply(error_message(id, -32601, "method not found: "@ + method))
    }
}

/// What a message asks for. A response to something never sent, and a notification,
/// need no answer.
pub open spec fn received(msg: Shape, version: Seq<char>, groups: Seq<ToolGroup>) -> IncomingView {
    if msg is Object {
        match msg.get("method"@) {
            Some(v) => match v.as_text() {
                Some(method) => match msg.get("id"@) {
                    Some(id) => answered(
                        id,
                        method,
                        match msg.get("params"@) {
                            Some(p) => p,
                            None => Shape::Null,
                        },
                        version,
                        groups,
                    ),
                    None => IncomingView::Silent,
                },
                None => IncomingView::Silent,
            },
            None => IncomingView::Silent,
        }
    } else {
        IncomingView::Reply(error_message(Shape::Null, -32600, "a message must be a JSON object"@))
    }
}

fn no_list(name: &str) -> (r: Json)
    ensures
        r.shape() == empty_list(name@),
{
    let empty = list(no_items());
    let mut m = no_members();
    add_member(&mut m, name, empty);
    assert(member_shapes(m@) =~= empty_list(name@)->Object_0);
    object(m)
}

fn receive_call(id: Json, params: &Json) -> (r: Incoming)
    ensures
        r@ == tool_call(id.shape(), params.shape()),
{
    let name = match params.get("name") {
        Some(v) => match v.as_str() {
            Some(t) => t,
            None => return Incoming::Reply(rpc_error(id, -32602, "tools/call needs a tool name")),
        },
        None => return Incoming::Reply(rpc_error(id, -32602, "tools/call needs a tool name")),
    };
    let args = match params.get("arguments") {
        None => object(no_members()),
        Some(Json::Null) => object(no_members()),
        Some(a) => match a {
            Json::Object(_) => a.copy(),
            _ => return Incoming::Reply(rpc_error(id, -32602, "arguments must be an object")),
        },
    };
    match Tool::parse(name) {
        Some(t) => Incoming::Call(id, t, args),
        None => {
            let mut s = "unknown tool: ".to_owned();
            s.append(name);
            Incoming::Reply(rpc_error(id, -32602, s.as_str()))
        },
    }
}

fn answer(id: Json, method: &str, params: &Json, version: &str, groups: &Vec<ToolGroup>) -> (r:
    Incoming)
    ensures
        r@ == answered(id.shape(), method@, params.shape(), version@, groups@),
{
    if str_eq(method, "initialize") {
        Incoming::Reply(rpc_result(id, initialize(params, version)))
    } else if str_eq(method, "ping") {
        Incoming::Reply(rpc_result(id, object(no_members())))
    } else if str_eq(method, "tools/list") {
        let all = list(tool_definitions(groups));
        let mut m = no_members();
        add_member(&mut m, "tools", all);
        assert(member_shapes(m@) =~= seq![("tools"@, Shape::List(tools(groups@)))]);
        Incoming::Reply(rpc_result(id, object(m)))
    } else if str_eq(method, "tools/call") {
        receive_call(id, params)
    } else if str_eq(method, "resources/list") {
        Incoming::Reply(rpc_result(id, no_list("resources")))
    } else if str_eq(method, "resources/templates/list") {
        Incoming::Reply(rpc_result(id, no_list("resourceTemplates")))
    } else if str_eq(method, "prompts/list") {
        Incoming::Reply(rpc_result(id, no_list("prompts")))
    } else if str_eq(method, "logging/setLevel") {
        Incoming::Reply(rpc_result(id, object(no_members())))
    } else {
        let mut s = "method not found: ".to_owned();
        s.append(method);
        Incoming::Reply(rpc_error(id, -32601, s.as_str()))
    }
}

/// Read one message and decide what to do about it.
pub fn handle_message(msg: &Json, version: &str, groups: &Vec<ToolGroup>) -> (r: Incoming)
    ensures
        r@ == received(msg.shape(), version@, groups@),
{
    match msg {
        Json::Object(_) => {},
        _ => {
            return Incoming::Reply(
                rpc_error(Json::Null, -32600, "a message must be a JSON object"),
            );
        },
    }
    let method = match msg.get("method") {
        Some(v) => match v.as_str() {
            Some(t) => t,
            None => return Incoming::Silent,
        },
        None => return Incoming::Silent,
    };
    let id = match msg.get("id") {
        Some(v) => v.copy(),
        None => return Incoming::Silent,
    };
    let nothing = Json::Null;
    let params = match msg.get("params") {
        Some(p) => p,
        None => &nothing,
    };
    answer(id, method, params, version, groups)
}

/// A tool's name reads back as the tool, and every tool that is listed can be called.
pub proof fn law_tool_names_read_back(t: Tool)
    ensures
        Tool::named(t.name()) == Some(t),
        crate::tools::tool_names().contains(t.name()),
{
    reveal_strlit("search");
    reveal_strlit("start_search");
    reveal_strlit("get_search_result");
    reveal_strlit("get_search_status");
    reveal_strlit("cancel_search");
    reveal_strlit("list_searches");
    reveal_strlit("list_search_options");
    assert("get_search_result"@[11] == 'r' && "get_search_status"@[11] == 's');
    assert("search"@.len() == 6 && "start_search"@.len() == 12 && "get_search_result"@.len() == 17
        && "get_search_status"@.len() == 17 && "cancel_search"@.len() == 13 && "list_searches"@.len()
        == 13 && "list_search_options"@.len() == 19);
    assert("cancel_search"@[0] == 'c' && "list_searches"@[0] == 'l');
    let n = crate::tools::tool_names();
    assert(n[0] == "search"@ && n[1] == "start_search"@ && n[2] == "get_search_result"@ && n[3]
        == "get_search_status"@ && n[4] == "cancel_search"@ && n[5] == "list_searches"@ && n[6]
        == "list_search_options"@);
}

/// A request is always answered or turned into a call; what carries no id never is.
pub proof fn law_requests_are_answered(msg: Shape, version: Seq<char>, groups: Seq<ToolGroup>)
    requires
        msg is Object,
    ensures
        msg.get("id"@) is None ==> received(msg, version, groups) is Silent,
        msg.get("id"@) is Some && (msg.get("method"@) matches Some(Shape::Text(_))) ==> !(received(
            msg,
            version,
            groups,
        ) is Silent),
{
}

/// The name and title of each tool that is listed.
pub open spec fn titles(all: Seq<Shape>) -> Seq<Shape> {
    all.map_values(
        |t: Shape|
            Shape::Object(
                seq![
                    (
                        "name"@,
                        match t.get("name"@) {
                            Some(v) => v,
                            None => Shape::Null,
                        },
                    ),
                    (
                        "title"@,
                        match t.get("title"@) {
                            Some(v) => v,
                            None => Shape::Null,
                        },
                    ),
                ],
            ),
    )
}

/// How to connect to this server. It holds no secret.
pub open spec fn connection(enabled: bool, groups: Seq<ToolGroup>) -> Shape {
    Shape::Object(
        seq![
            ("auth"@, Shape::Text("bearer"@)),
            ("enabled"@, Shape::Bool(enabled)),
            ("path"@, Shape::Text("/mcp"@)),
            ("protocol_versions"@, Shape::List(text_shapes(versions()))),
            ("tools"@, Shape::List(titles(tools(groups)))),
            ("transport"@, Shape::Text("streamable-http"@)),
        ],
    )
}

fn member_or_null(t: &Json, name: &str) -> (r: Json)
    ensures
        r.shape() == (match t.shape().get(name@) {
            Some(v) => v,
            None => Shape::Null,
        }),
{
    match t.get(name) {
        Some(v) => v.copy(),
        None => Json::Null,
    }
}

/// Say how to connect to this server.
pub fn connection_info(state: &McpState, groups: &Vec<ToolGroup>) -> (r: Json)
    ensures
        r.shape() == connection(state.token is Some, groups@),
{
    let all = tool_definitions(groups);
    let mut items = no_items();
    let mut i: usize = 0;
    let ghost named = titles(item_shapes(all@));
    assert(named.take(0) =~= Seq::<Shape>::empty());
    while i < all.len()
        invariant
            i <= all@.len(),
            named == titles(item_shapes(all@)),
            item_shapes(items@) == named.take(i as int),
        decreases all@.len() - i,
    {
        let mut m = no_members();
        add_member(&mut m, "name", member_or_null(&all[i], "name"));
        add_member(&mut m, "title", member_or_null(&all[i], "title"));
        assert(item_shapes(all@)[i as int] == all@[i as int].shape());
        assert(member_shapes(m@) =~= named[i as int]->Object_0);
        add_item(&mut items, object(m));
        assert(named.take(i + 1) =~= named.take(i as int).push(named[i as int]));
        i += 1;
    }
    assert(named.take(i as int) =~= named);
    let items = list(items);
    let known = protocol_versions();
    let mut m = no_members();
    add_member(&mut m, "auth", string("bearer"));
    add_member(&mut m, "enabled", Json::Bool(state.enabled()));
    add_member(&mut m, "path", string("/mcp"));
    add_member(&mut m, "protocol_versions", strings(&known));
    add_member(&mut m, "tools", items);
    add_member(&mut m, "transport", string("streamable-http"));
    assert(member_shapes(m@) =~= connection(state.token is Some, groups@)->Object_0);
    object(m)
}

/// A reply is to the request it answers: it carries that request's id, and so does a call.
/// A method that is not known is refused by its name.
pub proof fn law_replies_carry_their_request(
    id: Shape,
    method: Seq<char>,
    params: Shape,
    version: Seq<char>,
    groups: Seq<ToolGroup>,
)
    ensures
        match answered(id, method, params, version, groups) {
            IncomingView::Reply(r) => r.says("id"@, id) && r.says("jsonrpc"@, Shape::Text("2.0"@)),
            IncomingView::Call(of, _, _) => of == id && method == "tools/call"@,
            IncomingView::Silent => false,
        },
        method == "ping"@ ==> (answered(id, method, params, version, groups) matches IncomingView::Reply(
            r,
        ) && r.says("result"@, Shape::Object(Seq::empty()))),
        method == "tools/list"@ ==> (answered(id, method, params, version, groups)
            matches IncomingView::Reply(r) && r.says(
            "result"@,
            Shape::Object(seq![("tools"@, Shape::List(tools(groups)))]),
        )),
        !seq![
            "initialize"@,
            "ping"@,
            "tools/list"@,
            "tools/call"@,
            "resources/list"@,
            "resources/templates/list"@,
            "prompts/list"@,
            "logging/setLevel"@,
        ].contains(method) ==> (answered(id, method, params, version, groups)
            matches IncomingView::Reply(r) && r.says(
            "error"@,
            Shape::Object(
                seq![
                    ("code"@, Shape::Int(-32601)),
                    ("message"@, Shape::Text("method not found: "@ + method)),
                ],
            ),
        )),
{
    assert forall|result: Shape| (#[trigger] result_message(id, result)).says("id"@, id)
        && result_message(id, result).says("jsonrpc"@, Shape::Text("2.0"@)) && result_message(
        id,
        result,
    ).says("result"@, result) by {
        let v = result_message(id, result)->Object_0;
        assert(v[0] == ("id"@, id) && v[1] == ("jsonrpc"@, Shape::Text("2.0"@)) && v[2] == (
            "result"@,
            result,
        ));
    }
    assert forall|code: int, text: Seq<char>|
        (#[trigger] error_message(id, code, text)).says("id"@, id) && error_message(
            id,
            code,
            text,
        ).says("jsonrpc"@, Shape::Text("2.0"@)) && error_message(id, code, text).says(
            "error"@,
            Shape::Object(seq![("code"@, Shape::Int(code)), ("message"@, Shape::Text(text))]),
        ) by {
        let v = error_message(id, code, text)->Object_0;
        assert(v[0].0 == "error"@ && v[1] == ("id"@, id) && v[2] == (
            "jsonrpc"@,
            Shape::Text("2.0"@),
        ));
        assert(v[0] == (
            "error"@,
            Shape::Object(seq![("code"@, Shape::Int(code)), ("message"@, Shape::Text(text))]),
        ));
    }
    let known = seq![
        "initialize"@,
        "ping"@,
        "tools/list"@,
        "tools/call"@,
        "resources/list"@,
        "resources/templates/list"@,
        "prompts/list"@,
        "logging/setLevel"@,
    ];
    assert(known[0] == "initialize"@ && known[1] == "ping"@ && known[2] == "tools/list"@ && known[3]
        == "tools/call"@ && known[4] == "resources/list"@ && known[5]
        == "resources/templates/list"@ && known[6] == "prompts/list"@ && known[7]
        == "logging/setLevel"@);
    reveal_strlit("initialize");
    reveal_strlit("ping");
    reveal_strlit("tools/list");
    assert("initialize"@.len() == 10 && "ping"@.len() == 4 && "tools/list"@.len() == 10);
    assert("initialize"@[0] == 'i' && "tools/list"@[0] == 't');
}

} // verus!
