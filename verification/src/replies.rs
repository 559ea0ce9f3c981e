//! What the tools answer: starting a search, its progress, and its result.
use vstd::prelude::*;
use vstd::string::*;
use crate::json::{
    add_item, add_member, item_shapes, law_setting_a_member_keeps_the_others, list, member_from,
    member_shapes, no_items, no_members, number, object, opt_shape, set_member, string,
    text_shapes, with_member, Json, Shape,
};
use crate::mcp::{
    job_at, opt_text, recent_views, Job, McpState, Settlement, Status, DEFAULT_ROW_LIMIT,
};
use crate::numeral::{decimal, parse_u64, parsed, show, show_usize};
use crate::options::{format_names, formats};
use crate::output::{gloss, markdown_body, md_body, meaning};
use crate::runs::{llm_usage_json, llm_usage_members, CostTexts};
use crate::scan::{blank, is_blank_str, join, join_strings, trim, trim_str};
use crate::text::{str_eq, str_views, to_chars, views};
use crate::tools::{DEFAULT_WAIT_SECS, MAX_WAIT_SECS};
use crate::types::{Figure, Mission, MissionKind, Passage, Real, Record, ScoutReport};
use crate::usage::{LlmUsage, UsageSnapshot};

verus! {

// ------------------------------------------------------------------ content --

pub open spec fn text_content(text: Seq<char>) -> Shape {
    Shape::List(
        seq![
            Shape::Object(seq![("text"@, Shape::Text(text)), ("type"@, Shape::Text("text"@))]),
        ],
    )
}

fn content(text: &str) -> (r: Json)
    ensures
        r.shape() == text_content(text@),
{
    let mut m = no_members();
    add_member(&mut m, "text", string(text));
    add_member(&mut m, "type", string("text"));
    assert(member_shapes(m@) =~= seq![
        ("text"@, Shape::Text(text@)),
        ("type"@, Shape::Text("text"@)),
    ]);
    let m = object(m);
    let mut v = no_items();
    let ghost item = m.shape();
    add_item(&mut v, m);
    assert(item_shapes(v@) =~= seq![item]);
    list(v)
}

pub open spec fn failure(text: Seq<char>) -> Shape {
    Shape::Object(seq![("content"@, text_content(text)), ("isError"@, Shape::Bool(true))])
}

/// A failure that the model can read and recover from.
pub fn tool_error(message: &str) -> (r: Json)
    ensures
        r.shape() == failure(message@),
{
    let mut m = no_members();
    add_member(&mut m, "content", content(message));
    add_member(&mut m, "isError", Json::Bool(true));
    assert(member_shapes(m@) =~= failure(message@)->Object_0);
    object(m)
}

pub open spec fn plain(text: Seq<char>) -> Shape {
    Shape::Object(seq![("content"@, text_content(text))])
}

/// A text as a result.
pub fn tool_text(text: &str) -> (r: Json)
    ensures
        r.shape() == plain(text@),
{
    let mut m = no_members();
    add_member(&mut m, "content", content(text));
    assert(member_shapes(m@) =~= plain(text@)->Object_0);
    object(m)
}

pub open spec fn structured(v: Shape) -> Shape {
    Shape::Object(
        seq![("content"@, text_content(v.laid_out(Seq::empty()))), ("structuredContent"@, v)],
    )
}

/// A JSON result: as text for every client, and as a value for those that read it.
pub fn tool_json(v: Json) -> (r: Json)
    ensures
        r.shape() == structured(v.shape()),
{
    let text = v.to_pretty();
    let ghost expected = structured(v.shape());
    let mut m = no_members();
    add_member(&mut m, "content", content(text.as_str()));
    add_member(&mut m, "structuredContent", v);
    assert(member_shapes(m@) =~= expected->Object_0);
    object(m)
}

// ----------------------------------------------------------------- starting --

/// What a search that is to start asks for.
#[derive(Debug)]
pub struct Launch {
    pub query: String,
    pub options: Vec<(String, Json)>,
}

pub ghost enum LaunchView {
    Ready(Seq<char>, Seq<(Seq<char>, Shape)>),
    Refused(Seq<char>),
}

/// A text argument without surrounding white space; nothing where there is none.
pub open spec fn text_arg_of(args: Shape, name: Seq<char>) -> Option<Seq<char>> {
    match args.get(name) {
        Some(Shape::Text(t)) => Some(trim(t)),
        _ => None,
    }
}

/// The bag of further options; `None` when it is something else than an object.
pub open spec fn bag_of(args: Shape) -> Option<Seq<(Seq<char>, Shape)>> {
    match args.get("options"@) {
        None => Some(Seq::empty()),
        Some(Shape::Null) => Some(Seq::empty()),
        Some(Shape::Object(m)) => Some(m),
        Some(_) => None,
    }
}

/// The first `n` arguments that are options folded onto the bag.
pub open spec fn folded(
    bag: Seq<(Seq<char>, Shape)>,
    args: Seq<(Seq<char>, Shape)>,
    n: int,
) -> Seq<(Seq<char>, Shape)>
    decreases n,
{
    if n <= 0 {
        bag
    } else {
        let before = folded(bag, args, n - 1);
        if args[n - 1].0 == "query"@ || args[n - 1].0 == "options"@ || args[n - 1].1 is Null {
            before
        } else {
            with_member(before, args[n - 1].0, args[n - 1].1)
        }
    }
}

/// A number of rounds that was sent as a text is read as the number it writes.
pub open spec fn with_rounds(options: Seq<(Seq<char>, Shape)>) -> Seq<(Seq<char>, Shape)> {
    match member_from(options, "max_rounds"@, 0) {
        Some(Shape::Text(t)) => match parsed(trim(t), u64::MAX as nat) {
            Some(n) => with_member(options, "max_rounds"@, Shape::Int(n as int)),
            None => options,
        },
        _ => options,
    }
}

/// What these arguments ask for: a query that is not empty, and options from the bag
/// and from the arguments themselves, which win.
pub open spec fn launching(args: Shape) -> LaunchView {
    let query = text_arg_of(args, "query"@);
    if query is None || query->0.len() == 0 {
        LaunchView::Refused("query is required and must not be empty."@)
    } else {
        match bag_of(args) {
            None => LaunchView::Refused("options must be an object of option names to values."@),
            Some(bag) => {
                let members = args->Object_0;
                LaunchView::Ready(
                    query->0,
                    with_rounds(folded(bag, members, members.len() as int)),
                )
            },
        }
    }
}

/// Copies of the members of an object.
pub fn copy_members(v: &Vec<(String, Json)>) -> (r: Vec<(String, Json)>)
    ensures
        member_shapes(r@) == member_shapes(v@),
{
    let mut out = no_members();
    let mut i: usize = 0;
    assert(member_shapes(v@).take(0) =~= Seq::<(Seq<char>, Shape)>::empty());
    while i < v.len()
        invariant
            i <= v@.len(),
            member_shapes(out@) == member_shapes(v@).take(i as int),
        decreases v@.len() - i,
    {
        let value = v[i].1.copy();
        add_member(&mut out, v[i].0.as_str(), value);
        assert(member_shapes(v@).take(i + 1) =~= member_shapes(v@).take(i as int).push(
            member_shapes(v@)[i as int],
        ));
        i += 1;
    }
    assert(member_shapes(v@).take(i as int) =~= member_shapes(v@));
    out
}

fn trimmed_arg<'a>(args: &'a Json, name: &str) -> (r: Option<&'a str>)
    ensures
        match r {
            Some(t) => text_arg_of(args.shape(), name@) == Some(t@),
            None => text_arg_of(args.shape(), name@) is None,
        },
{
    match args.get(name) {
        Some(v) => match v.as_str() {
            Some(t) => Some(trim_str(t)),
            None => None,
        },
        None => None,
    }
}

fn fold_args(options: &mut Vec<(String, Json)>, args: &Vec<(String, Json)>)
    ensures
        member_shapes(final(options)@) == folded(
            member_shapes(old(options)@),
            member_shapes(args@),
            args@.len() as int,
        ),
{
    let mut i: usize = 0;
    while i < args.len()
        invariant
            i <= args@.len(),
            member_shapes(options@) == folded(
                member_shapes(old(options)@),
                member_shapes(args@),
                i as int,
            ),
        decreases args@.len() - i,
    {
        let name = args[i].0.as_str();
        assert(member_shapes(args@)[i as int] == (args@[i as int].0@, args@[i as int].1.shape()));
        let skip = str_eq(name, "query") || str_eq(name, "options") || match &args[i].1 {
            Json::Null => true,
            _ => false,
        };
        if !skip {
            let value = args[i].1.copy();
            set_member(options, name, value);
        }
        i += 1;
    }
}

/// Find a member by its name.
fn member<'a>(v: &'a Vec<(String, Json)>, name: &str) -> (r: Option<&'a Json>)
    ensures
        opt_shape(r) == member_from(member_shapes(v@), name@, 0),
{
    let mut i: usize = 0;
    while i < v.len()
        invariant
            i <= v@.len(),
            member_from(member_shapes(v@), name@, 0) == member_from(
                member_shapes(v@),
                name@,
                i as int,
            ),
        decreases v@.len() - i,
    {
        assert(member_shapes(v@)[i as int] == (v@[i as int].0@, v@[i as int].1.shape()));
        if str_eq(v[i].0.as_str(), name) {
            return Some(&v[i].1);
        }
        i += 1;
    }
    None
}

fn read_rounds(options: &mut Vec<(String, Json)>)
    ensures
        member_shapes(final(options)@) == with_rounds(member_shapes(old(options)@)),
{
    let n: Option<u64> = match member(options, "max_rounds") {
        Some(v) => match v.as_str() {
            Some(t) => {
                let c = to_chars(trim_str(t));
                parse_u64(&c)
            },
            None => None,
        },
        None => None,
    };
    if let Some(n) = n {
        set_member(options, "max_rounds", number(n));
    }
}

/// Read what a search that is to start asks for, or why it cannot.
pub fn read_launch(args: &Json) -> (r: Result<Launch, String>)
    ensures
        match r {
            Ok(l) => launching(args.shape()) == LaunchView::Ready(
                l.query@,
                member_shapes(l.options@),
            ),
            Err(e) => launching(args.shape()) == LaunchView::Refused(e@),
        },
{
    let query = match trimmed_arg(args, "query") {
        Some(q) => q,
        None => return Err("query is required and must not be empty.".to_owned()),
    };
    if query.unicode_len() == 0 {
        return Err("query is required and must not be empty.".to_owned());
    }
    let mut options = match args.get("options") {
        None => no_members(),
        Some(Json::Null) => no_members(),
        Some(v) => match v {
            Json::Object(m) => {
                let c = copy_members(m);
                assert(v.shape()->Object_0 =~= member_shapes(m@));
                c
            },
            _ => return Err("options must be an object of option names to values.".to_owned()),
        },
    };
    match args {
        Json::Object(members) => {
            assert(args.shape()->Object_0 =~= member_shapes(members@));
            fold_args(&mut options, members);
        },
        _ => {},
    }
    read_rounds(&mut options);
    Ok(Launch { query: query.to_owned(), options })
}

/// What a client is told of an option that was refused.
pub fn options_refused(message: &str) -> (r: String)
    ensures
        r@ == message@ + " Call list_search_options for the full list."@,
{
    let mut s = message.to_owned();
    s.append(" Call list_search_options for the full list.");
    s
}

/// Why no further search may start; `None` when one may.
pub fn at_capacity(state: &McpState) -> (r: Option<String>)
    ensures
        ({
            let running = crate::mcp::running_of(state.jobs@, state.jobs@.len() as int);
            opt_text(r) == (if running >= state.max_running {
                Some(
                    decimal(running)
                        + " searches are already running, the most this server allows at once. Wait for one to finish (get_search_result) or stop one (cancel_search), then try again."@,
                )
            } else {
                None
            })
        }),
{
    let running: usize = state.running();
    if running >= state.max_running {
        let mut s = show_usize(running);
        s.append(
            " searches are already running, the most this server allows at once. Wait for one to finish (get_search_result) or stop one (cancel_search), then try again.",
        );
        Some(s)
    } else {
        None
    }
}

pub open spec fn started_shape(job: Job) -> Shape {
    Shape::Object(
        seq![
            (
                "next"@,
                Shape::Text(
                    "Call get_search_result with this request_id; it waits for the result. Repeat while status is running."@,
                ),
            ),
            ("query"@, Shape::Text(job.query@)),
            ("request_id"@, Shape::Text(job.id@)),
            ("status"@, Shape::Text("running"@)),
        ],
    )
}

/// The answer to a search that was started and is not waited for.
pub fn started(job: &Job) -> (r: Json)
    ensures
        r.shape() == structured(started_shape(*job)),
{
    let mut m = no_members();
    add_member(
        &mut m,
        "next",
        string(
            "Call get_search_result with this request_id; it waits for the result. Repeat while status is running.",
        ),
    );
    add_member(&mut m, "query", string(job.query.as_str()));
    add_member(&mut m, "request_id", string(job.id.as_str()));
    add_member(&mut m, "status", string("running"));
    assert(member_shapes(m@) =~= started_shape(*job)->Object_0);
    tool_json(object(m))
}

/// An argument that says how a result is read.
pub open spec fn reads(name: Seq<char>) -> bool {
    name == "detail"@ || name == "limit"@
}

/// The first `n` arguments that say how a result is read, or those that do not.
pub open spec fn part_of(args: Seq<(Seq<char>, Shape)>, reading: bool, n: int) -> Seq<
    (Seq<char>, Shape),
>
    decreases n,
{
    if n <= 0 {
        Seq::empty()
    } else {
        let before = part_of(args, reading, n - 1);
        if reads(args[n - 1].0) == reading {
            before.push(args[n - 1])
        } else {
            before
        }
    }
}

/// Part the arguments of a search that waits: those of the run, and those of reading
/// its result.
pub fn part_args(args: &Vec<(String, Json)>) -> (r: (Json, Json))
    ensures
        r.0.shape() == Shape::Object(part_of(member_shapes(args@), false, args@.len() as int)),
        r.1.shape() == Shape::Object(part_of(member_shapes(args@), true, args@.len() as int)),
{
    let mut run = no_members();
    let mut read = no_members();
    let mut i: usize = 0;
    while i < args.len()
        invariant
            i <= args@.len(),
            member_shapes(run@) == part_of(member_shapes(args@), false, i as int),
            member_shapes(read@) == part_of(member_shapes(args@), true, i as int),
        decreases args@.len() - i,
    {
        let name = args[i].0.as_str();
        let value = args[i].1.copy();
        assert(member_shapes(args@)[i as int] == (args@[i as int].0@, args@[i as int].1.shape()));
        if str_eq(name, "detail") || str_eq(name, "limit") {
            add_member(&mut read, name, value);
        } else {
            add_member(&mut run, name, value);
        }
        i += 1;
    }
    (object(run), object(read))
}

// ------------------------------------------------------------------ looking --

pub open spec fn no_such_search(id: Seq<char>) -> Seq<char> {
    "No search with request_id \""@ + id
        + "\". The server remembers the last 100 searches until it restarts; list_searches shows them."@
}

/// Which search the arguments mean, or the answer to a client that means none.
pub fn lookup(state: &McpState, args: &Json) -> (r: Result<usize, Json>)
    ensures
        match text_arg_of(args.shape(), "request_id"@) {
            None => r matches Err(e) && e.shape() == failure("request_id is required."@),
            Some(id) => match job_at(state.jobs@, id, 0) {
                Some(i) => r == Ok::<usize, Json>(i as usize) && 0 <= i < state.jobs@.len(),
                None => r matches Err(e) && e.shape() == failure(no_such_search(id)),
            },
        },
{
    match trimmed_arg(args, "request_id") {
        None => Err(tool_error("request_id is required.")),
        Some(id) => match state.find(id) {
            Some(i) => Ok(i),
            None => {
                let mut s = "No search with request_id \"".to_owned();
                s.append(id);
                s.append(
                    "\". The server remembers the last 100 searches until it restarts; list_searches shows them.",
                );
                Err(tool_error(s.as_str()))
            },
        },
    }
}

pub open spec fn ended_shape(job: Job) -> Shape {
    Shape::Object(
        seq![
            (
                "message"@,
                Shape::Text("The search had already ended; nothing was cancelled."@),
            ),
            ("request_id"@, Shape::Text(job.id@)),
            ("status"@, Shape::Text(job.status.label())),
        ],
    )
}

pub open spec fn cancelled_shape(id: Seq<char>) -> Shape {
    Shape::Object(
        seq![("request_id"@, Shape::Text(id)), ("status"@, Shape::Text("cancelled"@))],
    )
}

/// Stop a search that runs; one that has ended stays as it is.
pub fn cancel(job: &mut Job, usage: UsageSnapshot, elapsed_ms: u64) -> (r: Json)
    ensures
        old(job).status != Status::Running ==> *final(job) == *old(job) && r.shape() == structured(
            ended_shape(*old(job)),
        ),
        old(job).status == Status::Running ==> old(job).settles(
            Settlement::Cancelled(usage),
            elapsed_ms,
            *final(job),
            true,
        ) && r.shape() == structured(cancelled_shape(old(job).id@)),
{
    if !job.is_running() {
        let mut m = no_members();
        add_member(
            &mut m,
            "message",
            string("The search had already ended; nothing was cancelled."),
        );
        add_member(&mut m, "request_id", string(job.id.as_str()));
        add_member(&mut m, "status", string(job.status.as_str()));
        assert(member_shapes(m@) =~= ended_shape(*old(job))->Object_0);
        return tool_json(object(m));
    }
    job.settle(Settlement::Cancelled(usage), elapsed_ms);
    let mut m = no_members();
    add_member(&mut m, "request_id", string(job.id.as_str()));
    add_member(&mut m, "status", string("cancelled"));
    assert(member_shapes(m@) =~= cancelled_shape(old(job).id@)->Object_0);
    tool_json(object(m))
}

/// A search's outcome, where it has a report.
pub open spec fn outcome_shape(job: Job) -> Shape {
    match job.report {
        Some(r) => Shape::Text(r.outcome.label()),
        None => Shape::Null,
    }
}

pub open spec fn listed(job: Job, elapsed: Figure) -> Shape {
    Shape::Object(
        seq![
            ("elapsed_seconds"@, Shape::Real(elapsed.bits, elapsed.text@)),
            ("outcome"@, outcome_shape(job)),
            ("query"@, Shape::Text(job.query@)),
            ("request_id"@, Shape::Text(job.id@)),
            ("started_at"@, Shape::Text(job.started_at@)),
            ("status"@, Shape::Text(job.status.label())),
        ],
    )
}

fn list_job(job: &Job, elapsed: &Figure) -> (r: Json)
    ensures
        r.shape() == listed(*job, *elapsed),
{
    let mut m = no_members();
    add_member(&mut m, "elapsed_seconds", Json::Real(elapsed.clone()));
    let outcome = match &job.report {
        Some(r) => string(r.outcome.as_str()),
        None => Json::Null,
    };
    add_member(&mut m, "outcome", outcome);
    add_member(&mut m, "query", string(job.query.as_str()));
    add_member(&mut m, "request_id", string(job.id.as_str()));
    add_member(&mut m, "started_at", string(job.started_at.as_str()));
    add_member(&mut m, "status", string(job.status.as_str()));
    assert(member_shapes(m@) =~= listed(*job, *elapsed)->Object_0);
    object(m)
}

/// The last `n` of the searches, newest first.
pub open spec fn newest_jobs(jobs: Seq<Job>, elapsed: Seq<Figure>, n: int) -> Seq<Shape>
    decreases n,
{
    if n <= 0 {
        Seq::empty()
    } else {
        newest_jobs(jobs, elapsed, n - 1).push(
            listed(jobs[jobs.len() - n], elapsed[jobs.len() - n]),
        )
    }
}

/// The searches this server remembers, newest first. `elapsed` has the seconds of
/// each, in the order of the jobs.
pub fn list_searches(state: &McpState, elapsed: &Vec<Figure>) -> (r: Json)
    requires
        elapsed@.len() == state.jobs@.len(),
    ensures
        r.shape() == structured(
            Shape::Object(
                seq![
                    (
                        "searches"@,
                        Shape::List(
                            newest_jobs(state.jobs@, elapsed@, state.jobs@.len() as int),
                        ),
                    ),
                ],
            ),
        ),
{
    let mut items = no_items();
    let n: usize = state.jobs.len();
    let mut i: usize = 0;
    while i < n
        invariant
            i <= n,
            n == state.jobs@.len(),
            elapsed@.len() == n,
            item_shapes(items@) == newest_jobs(state.jobs@, elapsed@, i as int),
        decreases n - i,
    {
        i += 1;
        let item = list_job(&state.jobs[n - i], &elapsed[n - i]);
        add_item(&mut items, item);
    }
    let items = list(items);
    let ghost all = items.shape();
    let mut m = no_members();
    add_member(&mut m, "searches", items);
    assert(member_shapes(m@) =~= seq![("searches"@, all)]);
    tool_json(object(m))
}

// ------------------------------------------------------------------- costs --

/// What a client contributes to the spending of a run: nothing when it made no
/// request, its price otherwise, and unknown when it never reported one.
pub open spec fn spent_by(u: LlmUsage) -> Option<Real> {
    if u.requests == 0 {
        Some(Real { bits: 0 })
    } else {
        u.cost_usd
    }
}

/// The three amounts whose sum is what a run has spent, or `None` when a client that
/// ran never reported a price: a partial sum would be read as the total.
pub fn total_cost(u: &UsageSnapshot) -> (r: Option<(Real, Real, Real)>)
    ensures
        r == (match (spent_by(u.llm), spent_by(u.planner)) {
            (Some(a), Some(b)) => Some((u.jev_cost_usd, a, b)),
            _ => None,
        }),
{
    let a = if u.llm.requests == 0 {
        Some(Real { bits: 0 })
    } else {
        u.llm.cost_usd
    };
    let b = if u.planner.requests == 0 {
        Some(Real { bits: 0 })
    } else {
        u.planner.cost_usd
    };
    match a {
        Some(a) => match b {
            Some(b) => Some((u.jev_cost_usd, a, b)),
            None => None,
        },
        None => None,
    }
}

/// A number, or null.
pub open spec fn figure_or_null(f: Option<Figure>) -> Shape {
    match f {
        Some(x) => Shape::Real(x.bits, x.text@),
        None => Shape::Null,
    }
}

fn figure(f: &Option<Figure>) -> (r: Json)
    ensures
        r.shape() == figure_or_null(*f),
{
    match f {
        Some(x) => Json::Real(x.clone()),
        None => Json::Null,
    }
}

pub open spec fn jev_spending(u: UsageSnapshot, cost: Seq<char>) -> Shape {
    Shape::Object(
        seq![
            ("cost_usd"@, Shape::Real(u.jev_cost_usd.bits, cost)),
            ("input_tokens"@, Shape::Int(u.jev_input_tokens as int)),
            ("requests"@, Shape::Int(u.jev_requests as int)),
        ],
    )
}

/// What a run spent, by client and in all.
pub open spec fn spending(u: UsageSnapshot, costs: CostTexts, total: Option<Figure>) -> Shape {
    Shape::Object(
        seq![
            ("jev"@, jev_spending(u, costs.jev@)),
            ("planner"@, Shape::Object(llm_usage_members(u.planner, costs.planner@))),
            ("total_usd"@, figure_or_null(total)),
            ("writer"@, Shape::Object(llm_usage_members(u.llm, costs.llm@))),
        ],
    )
}

/// What a run spent. `costs` has the prices as texts, `total` their sum where it is
/// known.
pub fn cost_json(u: &UsageSnapshot, costs: &CostTexts, total: &Option<Figure>) -> (r: Json)
    ensures
        r.shape() == spending(*u, *costs, *total),
{
    let mut j = no_members();
    add_member(
        &mut j,
        "cost_usd",
        Json::Real(Figure { bits: u.jev_cost_usd.bits, text: costs.jev.as_str().to_owned() }),
    );
    add_member(&mut j, "input_tokens", number(u.jev_input_tokens as u64));
    add_member(&mut j, "requests", number(u.jev_requests as u64));
    assert(member_shapes(j@) =~= jev_spending(*u, costs.jev@)->Object_0);
    let j = object(j);
    let mut m = no_members();
    add_member(&mut m, "jev", j);
    add_member(&mut m, "planner", llm_usage_json(&u.planner, costs.planner.as_str()));
    add_member(&mut m, "total_usd", figure(total));
    add_member(&mut m, "writer", llm_usage_json(&u.llm, costs.llm.as_str()));
    assert(member_shapes(m@) =~= spending(*u, *costs, *total)->Object_0);
    object(m)
}

// ------------------------------------------------------------------ status --

/// The latest progress, each line with its second.
pub open spec fn progress_lines(v: Seq<(u64, Seq<char>)>) -> Seq<Seq<char>> {
    v.map_values(|p: (u64, Seq<char>)| decimal(p.0 as nat) + "s "@ + p.1)
}

fn progress_list(v: &Vec<(u64, String)>) -> (r: Json)
    ensures
        r.shape() == Shape::List(text_shapes(progress_lines(recent_views(v@)))),
{
    let mut items = no_items();
    let mut i: usize = 0;
    let ghost all = text_shapes(progress_lines(recent_views(v@)));
    assert(all.take(0) =~= Seq::<Shape>::empty());
    while i < v.len()
        invariant
            i <= v@.len(),
            all == text_shapes(progress_lines(recent_views(v@))),
            item_shapes(items@) == all.take(i as int),
        decreases v@.len() - i,
    {
        let mut s = show(v[i].0 as u128);
        s.append("s ");
        s.append(v[i].1.as_str());
        assert(recent_views(v@)[i as int] == (v@[i as int].0, v@[i as int].1@));
        assert(all[i as int] == Shape::Text(s@));
        add_item(&mut items, string(s.as_str()));
        assert(all.take(i + 1) =~= all.take(i as int).push(all[i as int]));
        i += 1;
    }
    assert(all.take(i as int) =~= all);
    list(items)
}

pub open spec fn round_shape(round: Option<usize>) -> Shape {
    match round {
        Some(n) => Shape::Int(n as int),
        None => Shape::Null,
    }
}

fn round_json(round: Option<usize>) -> (r: Json)
    ensures
        r.shape() == round_shape(round),
{
    match round {
        Some(n) => number(n as u64),
        None => Json::Null,
    }
}

pub open spec fn text_or_null(s: Option<String>) -> Shape {
    match s {
        Some(t) => Shape::Text(t@),
        None => Shape::Null,
    }
}

/// What to do next about a search.
pub open spec fn next_step(status: Status) -> Seq<(Seq<char>, Shape)> {
    match status {
        Status::Running => seq![
            (
                "next"@,
                Shape::Text(
                    "Still running. Call get_search_result with this request_id to wait for it."@,
                ),
            ),
        ],
        Status::Finished => seq![
            ("next"@, Shape::Text("Finished. Call get_search_result to read it."@)),
        ],
        _ => Seq::empty(),
    }
}

/// The report of a search that finished.
pub open spec fn finished_report(job: Job) -> Option<ScoutReport> {
    if job.status == Status::Finished {
        job.report
    } else {
        None
    }
}

/// The first half of a search's status, in the order of the names.
pub open spec fn status_head(job: Job, elapsed: Figure, cost: Option<Figure>) -> Seq<
    (Seq<char>, Shape),
> {
    seq![
        ("cost_so_far_usd"@, figure_or_null(cost)),
        ("elapsed_seconds"@, Shape::Real(elapsed.bits, elapsed.text@)),
    ] + (if job.status == Status::Failed {
        seq![("error"@, text_or_null(job.error))]
    } else {
        Seq::empty()
    }) + (match job.last {
        Some(ev) => seq![
            ("items_found"@, Shape::Int(ev.counts.records as int)),
            ("message"@, Shape::Text(ev.message@)),
        ],
        None => Seq::empty(),
    }) + next_step(job.status) + (if job.options@.len() > 0 {
        seq![("options"@, Shape::Object(member_shapes(job.options@)))]
    } else {
        Seq::empty()
    })
}

/// The second half.
pub open spec fn status_tail(job: Job) -> Seq<(Seq<char>, Shape)> {
    (match finished_report(job) {
        Some(r) => seq![("outcome"@, Shape::Text(r.outcome.label()))],
        None => Seq::empty(),
    }) + (match job.last {
        Some(ev) => seq![("pages_read"@, Shape::Int(ev.counts.pages as int))],
        None => Seq::empty(),
    }) + seq![
        ("query"@, Shape::Text(job.query@)),
        (
            "recent_progress"@,
            Shape::List(text_shapes(progress_lines(recent_views(job.recent@)))),
        ),
        ("request_id"@, Shape::Text(job.id@)),
    ] + (match job.last {
        Some(ev) => seq![
            ("round"@, round_shape(ev.round)),
            ("stage"@, Shape::Text(ev.stage@)),
        ],
        None => Seq::empty(),
    }) + seq![
        ("started_at"@, Shape::Text(job.started_at@)),
        ("status"@, Shape::Text(job.status.label())),
    ] + (match finished_report(job) {
        Some(r) => seq![("summary"@, Shape::Text(meaning(r)))],
        None => Seq::empty(),
    })
}

fn add_head(m: &mut Vec<(String, Json)>, job: &Job, elapsed: &Figure, cost: &Option<Figure>)
    ensures
        member_shapes(final(m)@) == member_shapes(old(m)@) + status_head(*job, *elapsed, *cost),
{
    add_member(m, "cost_so_far_usd", figure(cost));
    add_member(m, "elapsed_seconds", Json::Real(elapsed.clone()));
    if job.status == Status::Failed {
        let e = match &job.error {
            Some(t) => string(t.as_str()),
            None => Json::Null,
        };
        add_member(m, "error", e);
    }
    if let Some(ev) = &job.last {
        add_member(m, "items_found", number(ev.counts.records as u64));
        add_member(m, "message", string(ev.message.as_str()));
    }
    match job.status {
        Status::Running => {
            add_member(
                m,
                "next",
                string("Still running. Call get_search_result with this request_id to wait for it."),
            );
        },
        Status::Finished => {
            add_member(m, "next", string("Finished. Call get_search_result to read it."));
        },
        _ => {},
    }
    if job.options.len() > 0 {
        let options = object(copy_members(&job.options));
        add_member(m, "options", options);
    }
    assert(member_shapes(m@) =~= member_shapes(old(m)@) + status_head(*job, *elapsed, *cost));
}

fn add_tail(m: &mut Vec<(String, Json)>, job: &Job)
    ensures
        member_shapes(final(m)@) == member_shapes(old(m)@) + status_tail(*job),
{
    let finished = job.status == Status::Finished;
    if finished {
        if let Some(r) = &job.report {
            add_member(m, "outcome", string(r.outcome.as_str()));
        }
    }
    if let Some(ev) = &job.last {
        add_member(m, "pages_read", number(ev.counts.pages as u64));
    }
    add_member(m, "query", string(job.query.as_str()));
    add_member(m, "recent_progress", progress_list(&job.recent));
    add_member(m, "request_id", string(job.id.as_str()));
    if let Some(ev) = &job.last {
        add_member(m, "round", round_json(ev.round));
        add_member(m, "stage", string(ev.stage.as_str()));
    }
    add_member(m, "started_at", string(job.started_at.as_str()));
    add_member(m, "status", string(job.status.as_str()));
    if finished {
        if let Some(r) = &job.report {
            let g = gloss(r);
            add_member(m, "summary", string(g.as_str()));
        }
    }
    assert(member_shapes(m@) =~= member_shapes(old(m)@) + status_tail(*job));
}

pub open spec fn status_shape(job: Job, elapsed: Figure, cost: Option<Figure>) -> Shape {
    Shape::Object(status_head(job, elapsed, cost) + status_tail(job))
}

/// Where a search stands. `elapsed` has its seconds, `cost` what it has spent where
/// that is known.
pub fn status_json(job: &Job, elapsed: &Figure, cost: &Option<Figure>) -> (r: Json)
    ensures
        r.shape() == status_shape(*job, *elapsed, *cost),
{
    let mut m = no_members();
    add_head(&mut m, job, elapsed, cost);
    add_tail(&mut m, job);
    assert(member_shapes(m@) =~= status_head(*job, *elapsed, *cost) + status_tail(*job));
    object(m)
}

// ----------------------------------------------------------------- reading --

/// The bit pattern of the whole number `k`, from 0 to 15, as a double.
pub open spec fn double_of(k: int) -> int {
    if k == 0 {
        0
    } else if k == 1 {
        0x3FF0_0000_0000_0000
    } else if k < 4 {
        0x4000_0000_0000_0000 + (k - 2) * 0x8_0000_0000_0000
    } else if k < 8 {
        0x4010_0000_0000_0000 + (k - 4) * 0x4_0000_0000_0000
    } else {
        0x4020_0000_0000_0000 + (k - 8) * 0x2_0000_0000_0000
    }
}

/// Is this bit pattern no number?
pub open spec fn is_nan(r: Real) -> bool {
    0x7FF0_0000_0000_0000 < r.bits < 0x8000_0000_0000_0000 || 0xFFF0_0000_0000_0000 < r.bits
}

/// The whole seconds of a number of them, no fewer than none and no more than a call
/// may wait.
pub open spec fn whole_seconds(r: Real, k: int) -> int
    decreases k,
{
    if k <= 0 || is_nan(r) {
        0
    } else if r.rank() >= double_of(k) {
        k
    } else {
        whole_seconds(r, k - 1)
    }
}

fn seconds_of(r: Real) -> (n: u64)
    ensures
        n == whole_seconds(r, 15),
{
    let bits: u64 = r.bits;
    if (0x7FF0_0000_0000_0000 < bits && bits < 0x8000_0000_0000_0000) || 0xFFF0_0000_0000_0000
        < bits {
        return 0;
    }
    if bits >= 0x8000_0000_0000_0000 {
        proof {
            lemma_below_zero(r, 15);
        }
        return 0;
    }
    let mut k: u64 = 15;
    while k > 0
        invariant
            k <= 15,
            bits == r.bits,
            bits < 0x8000_0000_0000_0000,
            !is_nan(r),
            whole_seconds(r, 15) == whole_seconds(r, k as int),
        decreases k,
    {
        let bound: u64 = if k == 1 {
            0x3FF0_0000_0000_0000
        } else if k < 4 {
            0x4000_0000_0000_0000 + (k - 2) * 0x8_0000_0000_0000
        } else if k < 8 {
            0x4010_0000_0000_0000 + (k - 4) * 0x4_0000_0000_0000
        } else {
            0x4020_0000_0000_0000 + (k - 8) * 0x2_0000_0000_0000
        };
        if bits >= bound {
            return k;
        }
        k -= 1;
    }
    0
}

proof fn lemma_below_zero(r: Real, k: int)
    requires
        r.bits >= 0x8000_0000_0000_0000,
        0 <= k <= 15,
    ensures
        whole_seconds(r, k) == 0,
    decreases k,
{
    if k > 0 {
        lemma_below_zero(r, k - 1);
    }
}

/// How long a reading call waits: what it says, as a number or as a text that writes
/// one, cut to what a call may wait; else the default.
pub open spec fn waiting(args: Shape, written: Option<Real>) -> int {
    match args.get("wait_seconds"@) {
        Some(Shape::Int(n)) => if n < 0 {
            0
        } else if n > MAX_WAIT_SECS {
            MAX_WAIT_SECS as int
        } else {
            n
        },
        Some(Shape::Real(bits, _)) => whole_seconds(Real { bits }, 15),
        Some(Shape::Text(_)) => match written {
            Some(r) => whole_seconds(r, 15),
            None => DEFAULT_WAIT_SECS as int,
        },
        _ => DEFAULT_WAIT_SECS as int,
    }
}

/// How long a reading call waits, in seconds. `written` is the number that the
/// argument writes where it is a text and writes one.
pub fn parse_wait(args: &Json, written: Option<Real>) -> (r: u64)
    ensures
        r == waiting(args.shape(), written),
        r <= MAX_WAIT_SECS,
{
    proof {
        lemma_at_most(Real { bits: 0 }, 15);
    }
    match args.get("wait_seconds") {
        Some(Json::Whole(n)) => if *n > MAX_WAIT_SECS {
            MAX_WAIT_SECS
        } else {
            *n
        },
        Some(Json::Below(n)) => if *n < 0 {
            0
        } else if *n > 15 {
            MAX_WAIT_SECS
        } else {
            *n as u64
        },
        Some(Json::Real(f)) => {
            proof {
                lemma_at_most(Real { bits: f.bits }, 15);
            }
            seconds_of(Real { bits: f.bits })
        },
        Some(Json::Text(_)) => match written {
            Some(r) => {
                proof {
                    lemma_at_most(r, 15);
                }
                seconds_of(r)
            },
            None => DEFAULT_WAIT_SECS,
        },
        _ => DEFAULT_WAIT_SECS,
    }
}

proof fn lemma_at_most(r: Real, k: int)
    requires
        k >= 0,
    ensures
        0 <= whole_seconds(r, k) <= k,
    decreases k,
{
    if k > 0 {
        lemma_at_most(r, k - 1);
    }
}

/// How many items of a list are returned; `None` is all of them.
pub open spec fn rows(args: Shape, target: Option<usize>) -> Option<int> {
    let given = match args.get("limit"@) {
        Some(Shape::Int(n)) => if n >= 0 {
            Some(n)
        } else {
            None
        },
        Some(Shape::Text(t)) => match parsed(trim(t), u64::MAX as nat) {
            Some(n) => Some(n as int),
            None => None,
        },
        _ => None,
    };
    match given {
        Some(n) => if n == 0 {
            None
        } else {
            Some(n)
        },
        None => Some(
            match target {
                Some(t) => if t == 0 {
                    1
                } else {
                    t as int
                },
                None => DEFAULT_ROW_LIMIT as int,
            },
        ),
    }
}

/// How many items of a list to return: what the caller says, where 0 is all of them;
/// else as many as the request asked for.
pub fn row_limit(args: &Json, target: Option<usize>) -> (r: Option<u64>)
    ensures
        match r {
            Some(n) => rows(args.shape(), target) == Some(n as int),
            None => rows(args.shape(), target) is None,
        },
{
    let given: Option<u64> = match args.get("limit") {
        Some(v) => match v {
            Json::Text(t) => {
                let c = to_chars(trim_str(t.as_str()));
                parse_u64(&c)
            },
            _ => v.as_u64(),
        },
        None => None,
    };
    match given {
        Some(n) => if n == 0 {
            None
        } else {
            Some(n)
        },
        None => Some(
            match target {
                Some(t) => if t == 0 {
                    1
                } else {
                    t as u64
                },
                None => DEFAULT_ROW_LIMIT as u64,
            },
        ),
    }
}

/// How a result is to be read.
#[derive(Debug)]
pub struct Reading {
    /// Everything, rather than the text alone.
    pub full: bool,
    /// As an export in this format instead.
    pub format: Option<String>,
}

pub open spec fn detail_of(args: Shape) -> Seq<char> {
    match args.get("detail"@) {
        Some(Shape::Text(t)) => t,
        _ => "simple"@,
    }
}

pub open spec fn format_of(args: Shape) -> Option<Seq<char>> {
    match args.get("format"@) {
        Some(Shape::Text(t)) => Some(t),
        _ => None,
    }
}

/// Why a result cannot be read in this way.
pub open spec fn reading_error(args: Shape) -> Option<Seq<char>> {
    let detail = detail_of(args);
    if detail != "simple"@ && detail != "full"@ {
        Some("detail must be \"simple\" or \"full\"."@)
    } else if format_of(args) is Some && !formats().contains(format_of(args)->0) {
        Some("format must be one of "@ + join(formats(), ", "@) + "."@)
    } else {
        None
    }
}

fn is_format(f: &str) -> (r: bool)
    ensures
        r == formats().contains(f@),
{
    let names = format_names();
    let mut i: usize = 0;
    while i < names.len()
        invariant
            i <= names@.len(),
            str_views(names@) == formats(),
            forall|k: int| 0 <= k < i ==> #[trigger] formats()[k] != f@,
        decreases names@.len() - i,
    {
        assert(str_views(names@)[i as int] == names@[i as int]@);
        if str_eq(names[i], f) {
            assert(formats()[i as int] == f@);
            return true;
        }
        i += 1;
    }
    assert(str_views(names@).len() == names@.len());
    false
}

fn owned(v: &Vec<&'static str>) -> (r: Vec<String>)
    ensures
        views(r@) == str_views(v@),
{
    let mut out: Vec<String> = Vec::new();
    let mut i: usize = 0;
    assert(str_views(v@).take(0) =~= Seq::<Seq<char>>::empty());
    assert(views(out@) =~= Seq::<Seq<char>>::empty());
    while i < v.len()
        invariant
            i <= v@.len(),
            views(out@) == str_views(v@).take(i as int),
        decreases v@.len() - i,
    {
        let ghost before = views(out@);
        out.push(v[i].to_owned());
        assert(views(out@) =~= before.push(v@[i as int]@));
        assert(str_views(v@).take(i + 1) =~= str_views(v@).take(i as int).push(v@[i as int]@));
        i += 1;
    }
    assert(str_views(v@).take(i as int) =~= str_views(v@));
    out
}

/// Read how a result is to be read, or why it cannot be.
pub fn read_reading(args: &Json) -> (r: Result<Reading, String>)
    ensures
        match r {
            Ok(x) => reading_error(args.shape()) is None && x.full == (detail_of(args.shape())
                == "full"@) && opt_text(x.format) == format_of(args.shape()),
            Err(e) => reading_error(args.shape()) == Some(e@),
        },
{
    let detail = match args.get("detail") {
        Some(v) => match v.as_str() {
            Some(t) => t,
            None => "simple",
        },
        None => "simple",
    };
    proof {
        reveal_strlit("simple");
        reveal_strlit("full");
        assert("simple"@.len() != "full"@.len());
    }
    let full = str_eq(detail, "full");
    if !str_eq(detail, "simple") && !full {
        return Err("detail must be \"simple\" or \"full\".".to_owned());
    }
    let format = match args.get("format") {
        Some(v) => match v.as_str() {
            Some(t) => Some(t),
            None => None,
        },
        None => None,
    };
    match format {
        Some(f) => {
            if !is_format(f) {
                let names = owned(&format_names());
                let mut s = "format must be one of ".to_owned();
                let joined = join_strings(&names, ", ");
                s.append(joined.as_str());
                s.append(".");
                return Err(s);
            }
            Ok(Reading { full, format: Some(f.to_owned()) })
        },
        None => Ok(Reading { full, format: None }),
    }
}

/// The export of a search in one format.
pub open spec fn export_from(v: Seq<(String, String)>, format: Seq<char>, i: int) -> Option<
    Seq<char>,
>
    decreases v.len() - i,
{
    if i < 0 || i >= v.len() {
        None
    } else if v[i].0@ == format {
        Some(v[i].1@)
    } else {
        export_from(v, format, i + 1)
    }
}

fn export<'a>(v: &'a Vec<(String, String)>, format: &str) -> (r: Option<&'a str>)
    ensures
        match r {
            Some(t) => export_from(v@, format@, 0) == Some(t@),
            None => export_from(v@, format@, 0) is None,
        },
{
    let mut i: usize = 0;
    while i < v.len()
        invariant
            i <= v@.len(),
            export_from(v@, format@, 0) == export_from(v@, format@, i as int),
        decreases v@.len() - i,
    {
        if str_eq(v[i].0.as_str(), format) {
            return Some(v[i].1.as_str());
        }
        i += 1;
    }
    None
}

/// A search that still runs, as a reading call reports it.
pub open spec fn still_running(job: Job, elapsed: Figure) -> Shape {
    Shape::Object(
        seq![
            ("elapsed_seconds"@, Shape::Real(elapsed.bits, elapsed.text@)),
            (
                "items_found"@,
                match job.last {
                    Some(ev) => Shape::Int(ev.counts.records as int),
                    None => Shape::Null,
                },
            ),
            (
                "next"@,
                Shape::Text(
                    "Not finished yet. Call get_search_result again with the same request_id."@,
                ),
            ),
            (
                "pages_read"@,
                match job.last {
                    Some(ev) => Shape::Int(ev.counts.pages as int),
                    None => Shape::Null,
                },
            ),
            (
                "progress"@,
                Shape::Text(
                    match job.last {
                        Some(ev) => ev.message@,
                        None => "starting"@,
                    },
                ),
            ),
            ("query"@, Shape::Text(job.query@)),
            ("request_id"@, Shape::Text(job.id@)),
            ("status"@, Shape::Text("running"@)),
        ],
    )
}

fn report_running(job: &Job, elapsed: &Figure) -> (r: Json)
    ensures
        r.shape() == still_running(*job, *elapsed),
{
    let mut m = no_members();
    add_member(&mut m, "elapsed_seconds", Json::Real(elapsed.clone()));
    let items = match &job.last {
        Some(ev) => number(ev.counts.records as u64),
        None => Json::Null,
    };
    add_member(&mut m, "items_found", items);
    add_member(
        &mut m,
        "next",
        string("Not finished yet. Call get_search_result again with the same request_id."),
    );
    let pages = match &job.last {
        Some(ev) => number(ev.counts.pages as u64),
        None => Json::Null,
    };
    add_member(&mut m, "pages_read", pages);
    let progress = match &job.last {
        Some(ev) => string(ev.message.as_str()),
        None => string("starting"),
    };
    add_member(&mut m, "progress", progress);
    add_member(&mut m, "query", string(job.query.as_str()));
    add_member(&mut m, "request_id", string(job.id.as_str()));
    add_member(&mut m, "status", string("running"));
    assert(member_shapes(m@) =~= still_running(*job, *elapsed)->Object_0);
    object(m)
}

/// What a reading call answers once it has waited; `None` when the report of the
/// search is to be shown.
pub open spec fn outcome_of(job: Job, reading: Reading, elapsed: Figure) -> Option<Shape> {
    match job.status {
        Status::Running => Some(structured(still_running(job, elapsed))),
        Status::Failed => Some(
            failure(
                "The search failed: "@ + (match job.error {
                    Some(e) => e@,
                    None => "unknown error"@,
                }),
            ),
        ),
        Status::Cancelled => Some(failure("The search was cancelled; it has no result."@)),
        Status::Finished => if job.report is None {
            Some(failure("internal error: finished search has no report"@))
        } else {
            match reading.format {
                Some(f) => Some(
                    match export_from(job.formats@, f@, 0) {
                        Some(doc) => plain(doc),
                        None => failure("this result could not be rendered as "@ + f@),
                    },
                ),
                None => None,
            }
        },
    }
}

/// Answer a reading call, or `None` when the report of the search is to be shown.
pub fn read_result(job: &Job, reading: &Reading, elapsed: &Figure) -> (r: Option<Json>)
    ensures
        match r {
            Some(j) => outcome_of(*job, *reading, *elapsed) == Some(j.shape()),
            None => outcome_of(*job, *reading, *elapsed) is None,
        },
        r is None ==> job.report is Some,
{
    match job.status {
        Status::Running => Some(tool_json(report_running(job, elapsed))),
        Status::Failed => {
            let mut s = "The search failed: ".to_owned();
            match &job.error {
                Some(e) => {
                    s.append(e.as_str());
                },
                None => {
                    s.append("unknown error");
                },
            }
            Some(tool_error(s.as_str()))
        },
        Status::Cancelled => Some(tool_error("The search was cancelled; it has no result.")),
        Status::Finished => {
            if job.report.is_none() {
                return Some(tool_error("internal error: finished search has no report"));
            }
            match &reading.format {
                Some(f) => match export(&job.formats, f.as_str()) {
                    Some(doc) => Some(tool_text(doc)),
                    None => {
                        let mut s = "this result could not be rendered as ".to_owned();
                        s.append(f.as_str());
                        Some(tool_error(s.as_str()))
                    },
                },
                None => None,
            }
        },
    }
}

// ------------------------------------------------------------------ showing --

/// A report cut to what a client should read.
#[derive(Debug)]
pub struct Shown {
    pub report: ScoutReport,
    /// How many records the search found.
    pub total: usize,
    /// How many of them are complete.
    pub complete: usize,
}

/// The records from `i` on that are complete, or those that are not, in their order.
pub open spec fn picked(
    records: Seq<Record>,
    complete: Seq<bool>,
    want: bool,
    i: int,
) -> Seq<Record>
    decreases records.len() - i,
{
    if i < 0 || i >= records.len() {
        Seq::empty()
    } else if complete[i] == want {
        seq![records[i]] + picked(records, complete, want, i + 1)
    } else {
        picked(records, complete, want, i + 1)
    }
}

/// The records with the complete ones first, each kind in the order of the run.
pub open spec fn complete_first(records: Seq<Record>, complete: Seq<bool>) -> Seq<Record> {
    picked(records, complete, true, 0) + picked(records, complete, false, 0)
}

/// The first records, no more than the limit.
pub open spec fn limited(records: Seq<Record>, limit: Option<u64>) -> Seq<Record> {
    match limit {
        Some(n) => if n < records.len() {
            records.take(n as int)
        } else {
            records
        },
        None => records,
    }
}

/// How many of the first `n` records are complete.
pub open spec fn complete_among(complete: Seq<bool>, n: int) -> nat
    decreases n,
{
    if n <= 0 {
        0
    } else {
        complete_among(complete, n - 1) + (if complete[n - 1] {
            1nat
        } else {
            0nat
        })
    }
}

proof fn lemma_reverse_push<T>(s: Seq<T>, x: T)
    ensures
        s.push(x).reverse() == seq![x] + s.reverse(),
{
    assert(s.push(x).reverse() =~= seq![x] + s.reverse());
}

fn pour(out: &mut Vec<Record>, reversed: &mut Vec<Record>)
    ensures
        final(out)@ == old(out)@ + old(reversed)@.reverse(),
{
    let ghost all = old(out)@ + old(reversed)@.reverse();
    while reversed.len() > 0
        invariant
            out@ + reversed@.reverse() == all,
        decreases reversed@.len(),
    {
        let ghost before = reversed@;
        match reversed.pop() {
            Some(x) => {
                proof {
                    assert(before =~= reversed@.push(x));
                    lemma_reverse_push(reversed@, x);
                    assert(out@ + (seq![x] + reversed@.reverse()) =~= out@.push(x)
                        + reversed@.reverse());
                }
                out.push(x);
            },
            None => {},
        }
    }
    assert(reversed@.reverse() =~= Seq::<Record>::empty());
    assert(out@ =~= all);
}

fn reorder(records: Vec<Record>, complete: &Vec<bool>) -> (r: Vec<Record>)
    requires
        complete@.len() == records@.len(),
    ensures
        r@ == complete_first(records@, complete@),
{
    let ghost given = records@;
    let mut left = records;
    let mut a: Vec<Record> = Vec::new();
    let mut b: Vec<Record> = Vec::new();
    let mut i: usize = left.len();
    assert(given.take(i as int) =~= given);
    assert(a@.reverse() =~= picked(given, complete@, true, i as int));
    assert(b@.reverse() =~= picked(given, complete@, false, i as int));
    while i > 0
        invariant
            i <= given.len(),
            complete@.len() == given.len(),
            left@ == given.take(i as int),
            a@.reverse() == picked(given, complete@, true, i as int),
            b@.reverse() == picked(given, complete@, false, i as int),
        decreases i,
    {
        let ghost before = left@;
        i -= 1;
        match left.pop() {
            Some(x) => {
                assert(x == given[i as int]);
                assert(left@ =~= given.take(i as int));
                proof {
                    lemma_reverse_push(a@, x);
                    lemma_reverse_push(b@, x);
                }
                if complete[i] {
                    a.push(x);
                } else {
                    b.push(x);
                }
            },
            None => {},
        }
    }
    let mut out: Vec<Record> = Vec::new();
    pour(&mut out, &mut a);
    pour(&mut out, &mut b);
    assert(out@ =~= complete_first(given, complete@));
    out
}

/// Which records are complete.
pub open spec fn completeness(records: Seq<Record>, mission: Mission) -> Seq<bool> {
    Seq::new(records.len(), |i: int| records[i].completes(mission))
}

fn complete_flags(report: &ScoutReport) -> (r: Vec<bool>)
    ensures
        r@ == completeness(report.records@, report.mission),
{
    let mut out: Vec<bool> = Vec::new();
    let mut i: usize = 0;
    while i < report.records.len()
        invariant
            i <= report.records@.len(),
            out@ == completeness(report.records@, report.mission).take(i as int),
        decreases report.records@.len() - i,
    {
        out.push(report.records[i].is_complete(&report.mission));
        i += 1;
        assert(out@ =~= completeness(report.records@, report.mission).take(i as int));
    }
    assert(out@ =~= completeness(report.records@, report.mission));
    out
}

/// Complete records first (every requested field found, constraints supported), in the
/// run's own order within each kind, then cut to `limit`.
pub fn shape(report: ScoutReport, limit: Option<u64>) -> (r: Shown)
    ensures
        r.total == report.records@.len(),
        r.complete == complete_among(
            completeness(report.records@, report.mission),
            report.records@.len() as int,
        ),
        r.report.records@ == limited(
            complete_first(report.records@, completeness(report.records@, report.mission)),
            limit,
        ),
        r.report.query == report.query,
        r.report.mission == report.mission,
        r.report.outcome == report.outcome,
        r.report.answer == report.answer,
        r.report.evidence == report.evidence,
        r.report.sources == report.sources,
        r.report.quarantined_sources == report.quarantined_sources,
        r.report.notes == report.notes,
        r.report.stats == report.stats,
{
    let complete = complete_flags(&report);
    let total: usize = report.records.len();
    let mut count: usize = 0;
    let mut i: usize = 0;
    while i < total
        invariant
            i <= total,
            total == complete@.len(),
            count == complete_among(complete@, i as int),
            count <= i,
        decreases total - i,
    {
        if complete[i] {
            count += 1;
        }
        i += 1;
    }
    let mut report = report;
    let mut records: Vec<Record> = Vec::new();
    std::mem::swap(&mut records, &mut report.records);
    let mut records = reorder(records, &complete);
    if let Some(n) = limit {
        if n < records.len() as u64 {
            records.truncate(n as usize);
        }
    }
    report.records = records;
    Shown { report, total, complete: count }
}

proof fn lemma_picked(records: Seq<Record>, complete: Seq<bool>, i: int)
    requires
        0 <= i <= records.len(),
        complete.len() == records.len(),
    ensures
        picked(records, complete, true, i).len() + picked(records, complete, false, i).len()
            == records.len() - i,
        picked(records, complete, true, i).to_multiset().add(
            picked(records, complete, false, i).to_multiset(),
        ) =~= records.skip(i).to_multiset(),
    decreases records.len() - i,
{
    let a = picked(records, complete, true, i);
    let b = picked(records, complete, false, i);
    if i < records.len() {
        lemma_picked(records, complete, i + 1);
        let rest = records.skip(i + 1);
        assert(records.skip(i) =~= seq![records[i]] + rest);
        vstd::seq_lib::lemma_multiset_commutative(seq![records[i]], rest);
        let t = picked(records, complete, complete[i], i + 1);
        vstd::seq_lib::lemma_multiset_commutative(seq![records[i]], t);
        vstd::seq_lib::lemma_multiset_commutative(seq![records[i]], rest);
    } else {
        assert(records.skip(i) =~= Seq::<Record>::empty());
        Seq::<Record>::empty().to_multiset_ensures();
    }
}

/// Showing a report loses no record before the limit cuts: the complete and the other
/// records together are those the search found.
pub proof fn law_showing_keeps_every_record(records: Seq<Record>, complete: Seq<bool>)
    requires
        complete.len() == records.len(),
    ensures
        complete_first(records, complete).len() == records.len(),
        complete_first(records, complete).to_multiset() =~= records.to_multiset(),
{
    lemma_picked(records, complete, 0);
    assert(records.skip(0) =~= records);
    vstd::seq_lib::lemma_multiset_commutative(
        picked(records, complete, true, 0),
        picked(records, complete, false, 0),
    );
}

/// A text whose first letter is upper case.
pub open spec fn upper(c: char) -> char {
    if 'a' <= c <= 'z' {
        ((c as u32 - 32) as u32) as char
    } else {
        c
    }
}

/// What is said when there is nothing to show: what the outcome means.
pub open spec fn sentence(g: Seq<char>) -> Seq<char> {
    if g.len() == 0 {
        Seq::empty()
    } else {
        seq![upper(g[0])] + g.skip(1) + "."@
    }
}

pub open spec fn cut_notice(shown: nat, total: nat, complete: nat) -> Seq<char> {
    "\nShowing "@ + decimal(shown) + " of "@ + decimal(total) + " items found ("@ + decimal(complete)
        + " complete, with every requested detail; complete ones first). Call get_search_result with limit 0 for all of them, or format \"csv\" for a spreadsheet.\n"@
}

/// The result text alone: the body, a notice when a list was cut, and the meaning of
/// the outcome when there is nothing else to read.
pub open spec fn simple_form(shown: Shown) -> Seq<char> {
    let body = md_body(shown.report);
    let n = shown.report.records@.len();
    let text = if n < shown.total {
        body + cut_notice(n, shown.total as nat, shown.complete as nat)
    } else {
        body
    };
    if blank(text) {
        sentence(meaning(shown.report))
    } else {
        text
    }
}

fn upper_case(c: char) -> (r: char)
    ensures
        r == upper(c),
{
    if 'a' <= c && c <= 'z' {
        ((c as u8) - 32) as char
    } else {
        c
    }
}

fn say(g: &str) -> (r: String)
    ensures
        r@ == sentence(g@),
{
    let v = to_chars(g);
    let mut out: Vec<char> = Vec::new();
    if v.len() > 0 {
        out.push(upper_case(v[0]));
        crate::text::push_range(&mut out, &v, 1, v.len());
        assert(v@.subrange(1, v@.len() as int) =~= v@.skip(1));
        crate::text::push_str(&mut out, ".");
    }
    assert(out@ =~= sentence(g@));
    crate::text::from_chars(&out)
}

/// The result text alone.
pub fn simple_text(shown: &Shown) -> (r: String)
    ensures
        r@ == simple_form(*shown),
{
    let mut text = markdown_body(&shown.report);
    let n: usize = shown.report.records.len();
    if n < shown.total {
        let mut s = "\nShowing ".to_owned();
        let a = show_usize(n);
        s.append(a.as_str());
        s.append(" of ");
        let b = show_usize(shown.total);
        s.append(b.as_str());
        s.append(" items found (");
        let c = show_usize(shown.complete);
        s.append(c.as_str());
        s.append(
            " complete, with every requested detail; complete ones first). Call get_search_result with limit 0 for all of them, or format \"csv\" for a spreadsheet.\n",
        );
        text.append(s.as_str());
    }
    if is_blank_str(text.as_str()) {
        let g = gloss(&shown.report);
        return say(g.as_str());
    }
    text
}

// ---------------------------------------------------------------- in full --

/// The parts of a full result that are written elsewhere.
#[derive(Debug)]
pub struct FullParts {
    pub cost: Json,
    pub mission: Json,
    pub stats: Json,
    pub records: Json,
    pub elapsed: Figure,
    /// The support of each passage, in the order of the evidence.
    pub supports: Vec<Figure>,
}

pub open spec fn source_shape(n: nat, p: Passage, supports: Figure) -> Shape {
    Shape::Object(
        seq![
            ("n"@, Shape::Int(n as int)),
            ("supports"@, Shape::Real(supports.bits, supports.text@)),
            ("title"@, Shape::Text(p.title@)),
            ("url"@, Shape::Text(p.url@)),
        ],
    )
}

pub open spec fn source_shapes(evidence: Seq<Passage>, supports: Seq<Figure>) -> Seq<Shape> {
    Seq::new(
        evidence.len(),
        |i: int| source_shape((i + 1) as nat, evidence[i], supports[i]),
    )
}

fn source_list(evidence: &Vec<Passage>, supports: &Vec<Figure>) -> (r: Json)
    requires
        supports@.len() == evidence@.len(),
    ensures
        r.shape() == Shape::List(source_shapes(evidence@, supports@)),
{
    let mut items = no_items();
    let mut i: usize = 0;
    let ghost all = source_shapes(evidence@, supports@);
    assert(all.take(0) =~= Seq::<Shape>::empty());
    while i < evidence.len()
        invariant
            i <= evidence@.len(),
            supports@.len() == evidence@.len(),
            all == source_shapes(evidence@, supports@),
            item_shapes(items@) == all.take(i as int),
        decreases evidence@.len() - i,
    {
        let mut m = no_members();
        add_member(&mut m, "n", number(i as u64 + 1));
        add_member(&mut m, "supports", Json::Real(supports[i].clone()));
        add_member(&mut m, "title", string(evidence[i].title.as_str()));
        add_member(&mut m, "url", string(evidence[i].url.as_str()));
        assert(member_shapes(m@) =~= source_shape(
            (i + 1) as nat,
            evidence@[i as int],
            supports@[i as int],
        )->Object_0);
        add_item(&mut items, object(m));
        assert(all.take(i + 1) =~= all.take(i as int).push(all[i as int]));
        i += 1;
    }
    assert(all.take(i as int) =~= all);
    list(items)
}

fn text_list(v: &Vec<String>) -> (r: Json)
    ensures
        r.shape() == Shape::List(text_shapes(views(v@))),
{
    let mut out = no_items();
    let mut i: usize = 0;
    assert(text_shapes(views(v@)).take(0) =~= Seq::<Shape>::empty());
    while i < v.len()
        invariant
            i <= v@.len(),
            item_shapes(out@) == text_shapes(views(v@)).take(i as int),
        decreases v@.len() - i,
    {
        add_item(&mut out, string(v[i].as_str()));
        assert(text_shapes(views(v@)).take(i + 1) =~= text_shapes(views(v@)).take(i as int).push(
            Shape::Text(v@[i as int]@),
        ));
        i += 1;
    }
    assert(text_shapes(views(v@)).take(i as int) =~= text_shapes(views(v@)));
    list(out)
}

pub open spec fn download_path(id: Seq<char>, format: Seq<char>) -> Seq<char> {
    "/api/runs/"@ + id + "/download?format="@ + format
}

/// Where each export of a run can be fetched.
pub open spec fn downloads(id: Seq<char>) -> Seq<(Seq<char>, Shape)> {
    seq![
        ("csv"@, Shape::Text(download_path(id, "csv"@))),
        ("json"@, Shape::Text(download_path(id, "json"@))),
        ("jsonl"@, Shape::Text(download_path(id, "jsonl"@))),
        ("markdown"@, Shape::Text(download_path(id, "markdown"@))),
    ]
}

fn path_to(id: &str, format: &str) -> (r: Json)
    ensures
        r.shape() == Shape::Text(download_path(id@, format@)),
{
    let mut s = "/api/runs/".to_owned();
    s.append(id);
    s.append("/download?format=");
    s.append(format);
    string(s.as_str())
}

fn download_list(id: &str) -> (r: Json)
    ensures
        r.shape() == Shape::Object(downloads(id@)),
{
    let mut m = no_members();
    add_member(&mut m, "csv", path_to(id, "csv"));
    add_member(&mut m, "json", path_to(id, "json"));
    add_member(&mut m, "jsonl", path_to(id, "jsonl"));
    add_member(&mut m, "markdown", path_to(id, "markdown"));
    assert(member_shapes(m@) =~= downloads(id@));
    object(m)
}

/// Every export that is offered can be fetched, and nothing else.
pub proof fn law_downloads_are_the_formats(id: Seq<char>, f: Seq<char>)
    ensures
        formats().contains(f) <==> crate::tools::names_it(downloads(id), f),
        formats().contains(f) ==> member_from(downloads(id), f, 0) == Some(
            Shape::Text(download_path(id, f)),
        ),
{
    reveal_strlit("markdown");
    reveal_strlit("json");
    reveal_strlit("csv");
    reveal_strlit("jsonl");
    assert("json"@.len() == 4 && "jsonl"@.len() == 5 && "csv"@.len() == 3 && "markdown"@.len()
        == 8);
    let d = downloads(id);
    assert(d[0].0 == "csv"@ && d[1].0 == "json"@ && d[2].0 == "jsonl"@ && d[3].0 == "markdown"@);
    let n = formats();
    assert(n[0] == "markdown"@ && n[1] == "json"@ && n[2] == "csv"@ && n[3] == "jsonl"@);
    reveal_with_fuel(member_from, 5);
}

pub open spec fn kind_name(k: MissionKind) -> Seq<char> {
    match k {
        MissionKind::Answer => "answer"@,
        MissionKind::Harvest => "harvest"@,
    }
}

/// A list is worth its records even when there are none.
pub open spec fn has_records(report: ScoutReport) -> bool {
    report.records@.len() > 0 || report.mission.kind == MissionKind::Harvest
}

/// The first part of a full result, in the order of the names.
pub open spec fn full_head(id: Seq<char>, shown: Shown, parts: FullParts) -> Seq<
    (Seq<char>, Shape),
> {
    let report = shown.report;
    (match report.answer {
        Some(a) => seq![("answer"@, Shape::Text(a@))],
        None => Seq::empty(),
    }) + seq![
        ("cost"@, parts.cost.shape()),
        ("downloads"@, Shape::Object(downloads(id))),
        ("elapsed_seconds"@, Shape::Real(parts.elapsed.bits, parts.elapsed.text@)),
        ("kind"@, Shape::Text(kind_name(report.mission.kind))),
        ("mission"@, parts.mission.shape()),
        ("notes"@, Shape::List(text_shapes(views(report.notes@)))),
        ("outcome"@, Shape::Text(report.outcome.label())),
        ("quarantined_sources"@, Shape::List(text_shapes(views(report.quarantined_sources@)))),
        ("query"@, Shape::Text(report.query@)),
    ]
}

/// The second part.
pub open spec fn full_tail(id: Seq<char>, shown: Shown, parts: FullParts) -> Seq<
    (Seq<char>, Shape),
> {
    let report = shown.report;
    (if has_records(report) {
        seq![
            ("records"@, parts.records.shape()),
            ("records_complete"@, Shape::Int(shown.complete as int)),
            ("records_shown"@, Shape::Int(report.records@.len() as int)),
            ("records_total"@, Shape::Int(shown.total as int)),
        ]
    } else {
        Seq::empty()
    }) + seq![
        ("request_id"@, Shape::Text(id)),
        ("sources"@, Shape::List(source_shapes(report.evidence@, parts.supports@))),
        ("stats"@, parts.stats.shape()),
        ("status"@, Shape::Text("finished"@)),
        ("summary"@, Shape::Text(meaning(report))),
        ("text"@, Shape::Text(md_body(report))),
    ]
}

fn add_full_head(m: &mut Vec<(String, Json)>, id: &str, shown: &Shown, parts: &FullParts)
    ensures
        member_shapes(final(m)@) == member_shapes(old(m)@) + full_head(id@, *shown, *parts),
{
    let report = &shown.report;
    if let Some(a) = &report.answer {
        add_member(m, "answer", string(a.as_str()));
    }
    add_member(m, "cost", parts.cost.copy());
    add_member(m, "downloads", download_list(id));
    add_member(m, "elapsed_seconds", Json::Real(parts.elapsed.clone()));
    let kind = match report.mission.kind {
        MissionKind::Answer => "answer",
        MissionKind::Harvest => "harvest",
    };
    add_member(m, "kind", string(kind));
    add_member(m, "mission", parts.mission.copy());
    add_member(m, "notes", text_list(&report.notes));
    add_member(m, "outcome", string(report.outcome.as_str()));
    add_member(m, "quarantined_sources", text_list(&report.quarantined_sources));
    add_member(m, "query", string(report.query.as_str()));
    assert(member_shapes(m@) =~= member_shapes(old(m)@) + full_head(id@, *shown, *parts));
}

fn add_full_tail(m: &mut Vec<(String, Json)>, id: &str, shown: &Shown, parts: &FullParts)
    requires
        parts.supports@.len() == shown.report.evidence@.len(),
    ensures
        member_shapes(final(m)@) == member_shapes(old(m)@) + full_tail(id@, *shown, *parts),
{
    let report = &shown.report;
    if report.records.len() > 0 || report.mission.kind == MissionKind::Harvest {
        add_member(m, "records", parts.records.copy());
        add_member(m, "records_complete", number(shown.complete as u64));
        add_member(m, "records_shown", number(report.records.len() as u64));
        add_member(m, "records_total", number(shown.total as u64));
    }
    add_member(m, "request_id", string(id));
    add_member(m, "sources", source_list(&report.evidence, &parts.supports));
    add_member(m, "stats", parts.stats.copy());
    add_member(m, "status", string("finished"));
    let g = gloss(report);
    add_member(m, "summary", string(g.as_str()));
    let text = markdown_body(report);
    add_member(m, "text", string(text.as_str()));
    assert(member_shapes(m@) =~= member_shapes(old(m)@) + full_tail(id@, *shown, *parts));
}

/// Everything there is to say of a search that finished.
pub fn full_json(id: &str, shown: &Shown, parts: &FullParts) -> (r: Json)
    requires
        parts.supports@.len() == shown.report.evidence@.len(),
    ensures
        r.shape() == Shape::Object(full_head(id@, *shown, *parts) + full_tail(id@, *shown, *parts)),
{
    let mut m = no_members();
    add_full_head(&mut m, id, shown, parts);
    add_full_tail(&mut m, id, shown, parts);
    assert(member_shapes(m@) =~= full_head(id@, *shown, *parts) + full_tail(id@, *shown, *parts));
    object(m)
}

// -------------------------------------------------------------------- laws --

/// A limit keeps the first records, as many as it says or all of them; without one all are
/// kept.
pub proof fn law_a_limit_only_cuts(records: Seq<Record>, limit: Option<u64>)
    ensures
        limited(records, None) == records,
        limited(records, limit).is_prefix_of(records),
        limit matches Some(n) ==> limited(records, limit).len() == (if n < records.len() {
            n as nat
        } else {
            records.len()
        }),
{
}

/// The places of the records that are complete, or of those that are not.
proof fn lemma_places(records: Seq<Record>, complete: Seq<bool>, want: bool, i: int) -> (places: Seq<
    int,
>)
    requires
        0 <= i <= records.len(),
        complete.len() == records.len(),
    ensures
        places.len() == picked(records, complete, want, i).len(),
        forall|k: int|
            0 <= k < places.len() ==> i <= #[trigger] places[k] < records.len()
                && complete[places[k]] == want && picked(records, complete, want, i)[k]
                == records[places[k]],
        forall|j: int, k: int|
            0 <= j < k < places.len() ==> #[trigger] places[j] < #[trigger] places[k],
        forall|j: int|
            i <= j < records.len() && #[trigger] complete[j] == want ==> places.contains(j),
    decreases records.len() - i,
{
    if i == records.len() {
        Seq::empty()
    } else {
        let rest = lemma_places(records, complete, want, i + 1);
        if complete[i] == want {
            let places = seq![i] + rest;
            let p = picked(records, complete, want, i);
            let q = picked(records, complete, want, i + 1);
            assert(p =~= seq![records[i]] + q);
            assert forall|k: int| 0 <= k < places.len() implies i <= #[trigger] places[k]
                < records.len() && complete[places[k]] == want && p[k] == records[places[k]] by {
                if k > 0 {
                    assert(places[k] == rest[k - 1]);
                    assert(p[k] == q[k - 1]);
                }
            }
            assert forall|j: int, k: int| 0 <= j < k < places.len() implies #[trigger] places[j]
                < #[trigger] places[k] by {
                assert(places[k] == rest[k - 1]);
                if j > 0 {
                    assert(places[j] == rest[j - 1]);
                }
            }
            assert forall|j: int|
                i <= j < records.len() && #[trigger] complete[j] == want implies places.contains(
                j,
            ) by {
                if j == i {
                    assert(places[0] == i);
                } else {
                    let k = rest.index_of(j);
                    assert(places[k + 1] == j);
                }
            }
            places
        } else {
            rest
        }
    }
}

/// Records are shown with the complete ones first, and each kind in the order of the run.
pub proof fn law_complete_records_come_first(records: Seq<Record>, complete: Seq<bool>) -> (places:
    Seq<int>)
    requires
        complete.len() == records.len(),
    ensures
        places.len() == complete_first(records, complete).len(),
        forall|k: int|
            0 <= k < places.len() ==> 0 <= #[trigger] places[k] < records.len() && complete_first(
                records,
                complete,
            )[k] == records[places[k]],
        forall|j: int, k: int|
            0 <= j < k < places.len() ==> (complete[#[trigger] places[j]] == complete[
            #[trigger] places[k]] && places[j] < places[k]) || (complete[places[j]]
                && !complete[places[k]]),
        forall|j: int| 0 <= j < records.len() && #[trigger] complete[j] ==> places.contains(j),
        forall|j: int| 0 <= j < records.len() && !#[trigger] complete[j] ==> places.contains(j),
{
    let a = lemma_places(records, complete, true, 0);
    let b = lemma_places(records, complete, false, 0);
    let places = a + b;
    assert forall|k: int| 0 <= k < places.len() implies 0 <= #[trigger] places[k] < records.len()
        && complete_first(records, complete)[k] == records[places[k]] by {
        if k < a.len() {
            assert(places[k] == a[k]);
        } else {
            assert(places[k] == b[k - a.len()]);
        }
    }
    assert forall|j: int, k: int| 0 <= j < k < places.len() implies (complete[
    #[trigger] places[j]] == complete[#[trigger] places[k]] && places[j] < places[k]) || (
    complete[places[j]] && !complete[places[k]]) by {
        if k < a.len() {
            assert(places[j] == a[j] && places[k] == a[k]);
        } else if j < a.len() {
            assert(places[j] == a[j] && places[k] == b[k - a.len()]);
        } else {
            assert(places[j] == b[j - a.len()] && places[k] == b[k - a.len()]);
        }
    }
    assert forall|j: int| 0 <= j < records.len() && #[trigger] complete[j] implies places.contains(
        j,
    ) by {
        let k = a.index_of(j);
        assert(places[k] == j);
    }
    assert forall|j: int| 0 <= j < records.len() && !#[trigger] complete[j] implies places.contains(
        j,
    ) by {
        let k = b.index_of(j);
        assert(places[a.len() + k] == j);
    }
    places
}

/// How many records are returned is what the caller says, where 0 is all of them, and else what
/// the request asked for.
pub proof fn law_the_caller_sets_the_limit(args: Shape, target: Option<usize>, n: int)
    ensures
        args.get("limit"@) == Some(Shape::Int(n)) && n > 0 ==> rows(args, target) == Some(n),
        args.get("limit"@) == Some(Shape::Int(0)) ==> rows(args, target) is None,
        args.get("limit"@) is None ==> (target matches Some(t) ==> t > 0 ==> rows(args, target)
            == Some(t as int)),
        args.get("limit"@) is None ==> rows(args, target) is Some,
{
}

/// The searches are listed newest first, each with its own query, id and status.
pub proof fn law_searches_are_listed_newest_first(
    jobs: Seq<Job>,
    elapsed: Seq<Figure>,
    n: int,
    i: int,
)
    requires
        0 <= i < n <= jobs.len(),
    ensures
        newest_jobs(jobs, elapsed, n).len() == n,
        ({
            let job = jobs[jobs.len() - 1 - i];
            let shown = newest_jobs(jobs, elapsed, n)[i];
            &&& shown.says("query"@, Shape::Text(job.query@))
            &&& shown.says("request_id"@, Shape::Text(job.id@))
            &&& shown.says("status"@, Shape::Text(job.status.label()))
            &&& shown.says("started_at"@, Shape::Text(job.started_at@))
            &&& job.report matches Some(r) ==> shown.says("outcome"@, Shape::Text(r.outcome.label()))
        }),
    decreases n,
{
    lemma_newest_len(jobs, elapsed, n - 1);
    if i < n - 1 {
        law_searches_are_listed_newest_first(jobs, elapsed, n - 1, i);
    } else {
        let job = jobs[jobs.len() - n];
        let v = listed(job, elapsed[jobs.len() - n])->Object_0;
        assert(v[1] == ("outcome"@, outcome_shape(job)));
        assert(v[2] == ("query"@, Shape::Text(job.query@)));
        assert(v[3] == ("request_id"@, Shape::Text(job.id@)));
        assert(v[4] == ("started_at"@, Shape::Text(job.started_at@)));
        assert(v[5] == ("status"@, Shape::Text(job.status.label())));
    }
}

proof fn lemma_newest_len(jobs: Seq<Job>, elapsed: Seq<Figure>, n: int)
    ensures
        newest_jobs(jobs, elapsed, n).len() == (if n <= 0 {
            0
        } else {
            n
        }),
    decreases n,
{
    if n > 0 {
        lemma_newest_len(jobs, elapsed, n - 1);
    }
}

proof fn lemma_folded_argument(
    bag: Seq<(Seq<char>, Shape)>,
    args: Seq<(Seq<char>, Shape)>,
    n: int,
    k: int,
)
    requires
        0 <= k < n <= args.len(),
        args[k].0 != "query"@,
        args[k].0 != "options"@,
        !(args[k].1 is Null),
        forall|j: int| k < j < n ==> (#[trigger] args[j]).0 != args[k].0,
    ensures
        folded(bag, args, n).contains(args[k]),
    decreases n,
{
    let before = folded(bag, args, n - 1);
    law_setting_a_member_keeps_the_others(before, args[n - 1].0, args[n - 1].1);
    if k < n - 1 {
        assert(args[n - 1].0 != args[k].0);
        lemma_folded_argument(bag, args, n - 1, k);
        assert(before.contains(args[k]));
    } else {
        assert((args[k].0, args[k].1) == args[k]);
    }
}

proof fn lemma_folded_bag(
    bag: Seq<(Seq<char>, Shape)>,
    args: Seq<(Seq<char>, Shape)>,
    n: int,
    m: (Seq<char>, Shape),
)
    requires
        0 <= n <= args.len(),
        bag.contains(m),
        forall|j: int| 0 <= j < n ==> (#[trigger] args[j]).0 != m.0,
    ensures
        folded(bag, args, n).contains(m),
    decreases n,
{
    if n > 0 {
        let before = folded(bag, args, n - 1);
        lemma_folded_bag(bag, args, n - 1, m);
        law_setting_a_member_keeps_the_others(before, args[n - 1].0, args[n - 1].1);
        assert(args[n - 1].0 != m.0);
        assert(before.contains(m));
    }
}

/// A search is launched with its query and with every option that it is given: those among the
/// arguments, which win, and those of the bag that no argument names.
pub proof fn law_a_launch_keeps_every_option(
    args: Seq<(Seq<char>, Shape)>,
    k: int,
    m: (Seq<char>, Shape),
)
    requires
        launching(Shape::Object(args)) is Ready,
    ensures
        ({
            let opts = launching(Shape::Object(args))->Ready_1;
            &&& 0 <= k < args.len() && args[k].0 != "query"@ && args[k].0 != "options"@
                && args[k].0 != "max_rounds"@ && !(args[k].1 is Null) && (forall|j: int|
                k < j < args.len() ==> (#[trigger] args[j]).0 != args[k].0) ==> opts.contains(args[k])
            &&& bag_of(Shape::Object(args)) matches Some(bag) ==> bag.contains(m) && m.0
                != "max_rounds"@ && (forall|j: int|
                0 <= j < args.len() ==> (#[trigger] args[j]).0 != m.0) ==> opts.contains(m)
        }),
        text_arg_of(Shape::Object(args), "query"@) == Some(
            launching(Shape::Object(args))->Ready_0,
        ),
        launching(Shape::Object(args))->Ready_0.len() > 0,
{
    let bag = bag_of(Shape::Object(args))->0;
    let n = args.len() as int;
    let f = folded(bag, args, n);
    match member_from(f, "max_rounds"@, 0) {
        Some(Shape::Text(t)) => match parsed(trim(t), u64::MAX as nat) {
            Some(x) => {
                law_setting_a_member_keeps_the_others(f, "max_rounds"@, Shape::Int(x as int));
            },
            None => {},
        },
        _ => {},
    }
    if 0 <= k < args.len() && args[k].0 != "query"@ && args[k].0 != "options"@ && !(
    args[k].1 is Null) && (forall|j: int|
        k < j < args.len() ==> (#[trigger] args[j]).0 != args[k].0) {
        lemma_folded_argument(bag, args, n, k);
        assert(f.contains(args[k]));
    }
    if bag.contains(m) && (forall|j: int| 0 <= j < args.len() ==> (#[trigger] args[j]).0 != m.0) {
        lemma_folded_bag(bag, args, n, m);
        assert(f.contains(m));
    }
}

/// A full result says whose it is, how it ended, and how many records there are, are complete
/// and are shown.
pub proof fn law_a_full_result_counts_its_records(id: Seq<char>, shown: Shown, parts: FullParts)
    ensures
        ({
            let t = Shape::Object(full_tail(id, shown, parts));
            &&& t.says("request_id"@, Shape::Text(id))
            &&& t.says("status"@, Shape::Text("finished"@))
            &&& t.says("summary"@, Shape::Text(meaning(shown.report)))
            &&& t.says("text"@, Shape::Text(md_body(shown.report)))
            &&& shown.report.records@.len() > 0 || shown.report.mission.kind == MissionKind::Harvest
                ==> t.says("records_total"@, Shape::Int(shown.total as int)) && t.says(
                "records_complete"@,
                Shape::Int(shown.complete as int),
            ) && t.says("records_shown"@, Shape::Int(shown.report.records@.len() as int)) && t.says(
                "records"@,
                parts.records.shape(),
            )
        }),
        ({
            let h = Shape::Object(full_head(id, shown, parts));
            &&& h.says("query"@, Shape::Text(shown.report.query@))
            &&& h.says("outcome"@, Shape::Text(shown.report.outcome.label()))
            &&& shown.report.answer matches Some(a) ==> h.says("answer"@, Shape::Text(a@))
        }),
{
    let t = full_tail(id, shown, parts);
    let k: int = if has_records(shown.report) {
        4
    } else {
        0
    };
    if has_records(shown.report) {
        assert(t[0] == ("records"@, parts.records.shape()));
        assert(t[1] == ("records_complete"@, Shape::Int(shown.complete as int)));
        assert(t[2] == ("records_shown"@, Shape::Int(shown.report.records@.len() as int)));
        assert(t[3] == ("records_total"@, Shape::Int(shown.total as int)));
    }
    assert(t[k] == ("request_id"@, Shape::Text(id)));
    assert(t[k + 3] == ("status"@, Shape::Text("finished"@)));
    assert(t[k + 4] == ("summary"@, Shape::Text(meaning(shown.report))));
    assert(t[k + 5] == ("text"@, Shape::Text(md_body(shown.report))));
    let h = full_head(id, shown, parts);
    let a: int = if shown.report.answer is Some {
        1
    } else {
        0
    };
    if shown.report.answer is Some {
        assert(h[0] == ("answer"@, Shape::Text(shown.report.answer->0@)));
    }
    assert(h[a + 6] == ("outcome"@, Shape::Text(shown.report.outcome.label())));
    assert(h[a + 8] == ("query"@, Shape::Text(shown.report.query@)));
}

} // verus!
