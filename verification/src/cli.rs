//! The command line's rules: what its arguments mean, which settings they change,
//! and what a run reports about its own cost.
use vstd::prelude::*;
use vstd::string::*;
use crate::config::{SearchEngines, Tunables};
use crate::llm::ThinkingControl;
use crate::numeral::{
    decimal, decimal_chars, grouped, left_padded, pad_left, pad_right, parse_u64, parsed,
    right_padded, show_usize,
};
use crate::output::{lemma_grown, lemma_holds_itself, lemma_labelled};
use crate::scan::{holds, str_contains, trim, trim_str};
use crate::text::{from_chars, lower_all, push_range, str_eq, to_ascii_lower, to_chars};
use crate::types::{Figure, Outcome, Real, ScoutReport, StageTime, Stats};

verus! {

// --------------------------------------------------------------- arguments --

/// What a limit on the rounds may be.
#[derive(Debug, Clone, Copy, PartialEq, Eq, Structural)]
pub enum RoundLimit {
    Auto,
    Fixed(usize),
}

/// `auto` in any case, or a whole number of rounds of at least one. Zero is not a
/// way to ask for no limit.
pub open spec fn round_limit(t: Seq<char>) -> Result<RoundLimit, Seq<char>> {
    if lower_all(t) == "auto"@ {
        Ok(RoundLimit::Auto)
    } else {
        match parsed(t, usize::MAX as nat) {
            Some(n) => if n == 0 {
                Err("must be at least 1, or `auto`"@)
            } else {
                Ok(RoundLimit::Fixed(n as usize))
            },
            None => Err("`"@ + t + "` is not a number of rounds or `auto`"@),
        }
    }
}

fn parse_usize(v: &[char]) -> (r: Option<usize>)
    ensures
        match r {
            Some(n) => parsed(v@, usize::MAX as nat) == Some(n as nat),
            None => parsed(v@, usize::MAX as nat) is None,
        },
{
    match parse_u64(v) {
        Some(n) => if n <= usize::MAX as u64 {
            Some(n as usize)
        } else {
            None
        },
        None => None,
    }
}

/// Read the limit on the rounds.
pub fn parse_round_limit(raw: &str) -> (r: Result<RoundLimit, String>)
    ensures
        match r {
            Ok(limit) => round_limit(trim(raw@)) == Ok::<RoundLimit, Seq<char>>(limit),
            Err(e) => round_limit(trim(raw@)) == Err::<RoundLimit, Seq<char>>(e@),
        },
{
    let t = trim_str(raw);
    let v = to_chars(t);
    let low = to_ascii_lower(&v);
    let low = from_chars(&low);
    if str_eq(low.as_str(), "auto") {
        return Ok(RoundLimit::Auto);
    }
    match parse_usize(&v) {
        Some(n) => if n == 0 {
            Err("must be at least 1, or `auto`".to_owned())
        } else {
            Ok(RoundLimit::Fixed(n))
        },
        None => {
            let mut s = "`".to_owned();
            s.append(t);
            s.append("` is not a number of rounds or `auto`");
            Err(s)
        },
    }
}

/// Why a query and the serving mode cannot go together, or be missing together.
pub open spec fn query_args_error(api: bool, words: nat) -> Option<Seq<char>> {
    if api && words > 0 {
        Some(
            "--api conflicts with a query argument: in API mode queries arrive over HTTP. Drop the query, or drop --api to run it once here."@,
        )
    } else if !api && words == 0 {
        Some(
            "no query given. Pass what to search for, or pass --api to serve the HTTP API."@,
        )
    } else {
        None
    }
}

/// Reject the two argument shapes that cannot mean anything.
pub fn check_query_args(api: bool, query: &[String]) -> (r: Result<(), String>)
    ensures
        match r {
            Ok(_) => query_args_error(api, query@.len()) is None,
            Err(e) => query_args_error(api, query@.len()) == Some(e@),
        },
{
    if api && query.len() > 0 {
        Err(
            "--api conflicts with a query argument: in API mode queries arrive over HTTP. Drop the query, or drop --api to run it once here.".to_owned(),
        )
    } else if !api && query.len() == 0 {
        Err(
            "no query given. Pass what to search for, or pass --api to serve the HTTP API.".to_owned(),
        )
    } else {
        Ok(())
    }
}

/// What the command line changes about the settings.
#[derive(Debug)]
pub struct Overrides {
    pub thorough: bool,
    pub quick: bool,
    pub max_rounds: Option<RoundLimit>,
    pub max_barren_rounds: Option<usize>,
    pub queries_per_round: Option<usize>,
    pub results_per_query: Option<usize>,
    pub read_per_query: Option<usize>,
    pub concurrency: Option<usize>,
    pub max_questions_per_request: Option<usize>,
    pub grounding_floor: Option<Real>,
    pub enrich_batch: Option<usize>,
    pub no_plan: bool,
    pub no_search_cache: bool,
    /// In seconds.
    pub search_cache_ttl: Option<u64>,
}

/// `given`, or `standing` where nothing is given.
pub open spec fn or_else<T>(given: Option<T>, standing: T) -> T {
    match given {
        Some(v) => v,
        None => standing,
    }
}

fn overridden(given: Option<usize>, standing: usize) -> (r: usize)
    ensures
        r == or_else(given, standing),
{
    match given {
        Some(v) => v,
        None => standing,
    }
}

impl Overrides {
    /// The settings the flags start from.
    pub open spec fn preset(self) -> Tunables {
        if self.thorough {
            Tunables::wide()
        } else if self.quick {
            Tunables::narrow()
        } else {
            Tunables::standard()
        }
    }

    /// The settings of the run. A fixed number of rounds is honoured exactly and
    /// switches off the run's own judgement of when to stop; `auto` keeps the
    /// preset's ceiling as a safety net.
    pub open spec fn applied(self) -> Tunables {
        let base = self.preset();
        Tunables {
            max_rounds: (match self.max_rounds {
                Some(RoundLimit::Fixed(v)) => v,
                _ => base.max_rounds,
            }),
            auto_rounds: !(self.max_rounds matches Some(RoundLimit::Fixed(_))),
            max_barren_rounds: or_else(self.max_barren_rounds, base.max_barren_rounds),
            queries_per_round: or_else(self.queries_per_round, base.queries_per_round),
            results_per_query: or_else(self.results_per_query, base.results_per_query),
            read_per_query: or_else(self.read_per_query, base.read_per_query),
            concurrency: or_else(self.concurrency, base.concurrency),
            max_questions_per_request: or_else(
                self.max_questions_per_request,
                base.max_questions_per_request,
            ),
            grounding_floor: or_else(self.grounding_floor, base.grounding_floor),
            enrich_batch: or_else(self.enrich_batch, base.enrich_batch),
            research_plan: base.research_plan && !self.no_plan,
            search_cache: base.search_cache && !self.no_search_cache,
            search_cache_ttl: or_else(self.search_cache_ttl, base.search_cache_ttl),
            ..base
        }
    }

    /// The settings of the run these flags ask for.
    pub fn tunables(&self) -> (r: Tunables)
        ensures
            r == self.applied(),
    {
        let mut tune = if self.thorough {
            Tunables::thorough()
        } else if self.quick {
            Tunables::quick()
        } else {
            Tunables::default()
        };
        match self.max_rounds {
            Some(RoundLimit::Fixed(v)) => {
                tune.max_rounds = v;
                tune.auto_rounds = false;
            },
            _ => {
                tune.auto_rounds = true;
            },
        }
        tune.max_barren_rounds = overridden(self.max_barren_rounds, tune.max_barren_rounds);
        tune.queries_per_round = overridden(self.queries_per_round, tune.queries_per_round);
        tune.results_per_query = overridden(self.results_per_query, tune.results_per_query);
        tune.read_per_query = overridden(self.read_per_query, tune.read_per_query);
        tune.concurrency = overridden(self.concurrency, tune.concurrency);
        tune.max_questions_per_request =
        overridden(self.max_questions_per_request, tune.max_questions_per_request);
        if let Some(v) = self.grounding_floor {
            tune.grounding_floor = v;
        }
        tune.enrich_batch = overridden(self.enrich_batch, tune.enrich_batch);
        if self.no_plan {
            tune.research_plan = false;
        }
        if self.no_search_cache {
            tune.search_cache = false;
        }
        if let Some(v) = self.search_cache_ttl {
            tune.search_cache_ttl = v;
        }
        tune
    }
}

/// A fixed number of rounds is a ceiling honoured exactly; without one the run
/// decides when to stop, and the preset's ceiling stays.
pub proof fn law_round_limits(o: Overrides)
    ensures
        o.max_rounds matches Some(RoundLimit::Fixed(n)) ==> o.applied().max_rounds == n
            && !o.applied().auto_rounds,
        !(o.max_rounds matches Some(RoundLimit::Fixed(_))) ==> o.applied().max_rounds
            == o.preset().max_rounds && o.applied().auto_rounds,
{
}

/// Settings that no flag names are those of the preset.
pub proof fn law_silence_is_the_preset(o: Overrides)
    requires
        o.max_rounds is None,
        o.max_barren_rounds is None,
        o.queries_per_round is None,
        o.results_per_query is None,
        o.read_per_query is None,
        o.concurrency is None,
        o.max_questions_per_request is None,
        o.grounding_floor is None,
        o.enrich_batch is None,
        !o.no_plan,
        !o.no_search_cache,
        o.search_cache_ttl is None,
    ensures
        o.applied() == o.preset(),
{
}

/// Every flag sets the setting that it names, and a setting without its flag is that of the
/// preset, which is the thorough one before the quick one.
pub proof fn law_every_flag_sets_its_own_setting(o: Overrides)
    ensures
        o.applied().max_barren_rounds == (match o.max_barren_rounds {
            Some(n) => n,
            None => o.preset().max_barren_rounds,
        }),
        o.applied().queries_per_round == (match o.queries_per_round {
            Some(n) => n,
            None => o.preset().queries_per_round,
        }),
        o.applied().results_per_query == (match o.results_per_query {
            Some(n) => n,
            None => o.preset().results_per_query,
        }),
        o.applied().read_per_query == (match o.read_per_query {
            Some(n) => n,
            None => o.preset().read_per_query,
        }),
        o.applied().concurrency == (match o.concurrency {
            Some(n) => n,
            None => o.preset().concurrency,
        }),
        o.applied().max_questions_per_request == (match o.max_questions_per_request {
            Some(n) => n,
            None => o.preset().max_questions_per_request,
        }),
        o.applied().grounding_floor == (match o.grounding_floor {
            Some(n) => n,
            None => o.preset().grounding_floor,
        }),
        o.applied().enrich_batch == (match o.enrich_batch {
            Some(n) => n,
            None => o.preset().enrich_batch,
        }),
        o.applied().search_cache_ttl == (match o.search_cache_ttl {
            Some(n) => n,
            None => o.preset().search_cache_ttl,
        }),
        o.no_plan ==> !o.applied().research_plan,
        !o.no_plan ==> o.applied().research_plan == o.preset().research_plan,
        o.no_search_cache ==> !o.applied().search_cache,
        !o.no_search_cache ==> o.applied().search_cache == o.preset().search_cache,
        o.applied().follow_floor == o.preset().follow_floor,
        o.applied().claim_floor == o.preset().claim_floor,
        o.applied().enrich_read == o.preset().enrich_read,
        o.applied().max_follow_per_page == o.preset().max_follow_per_page,
        o.thorough ==> o.preset() == Tunables::wide(),
        !o.thorough && o.quick ==> o.preset() == Tunables::narrow(),
        !o.thorough && !o.quick ==> o.preset() == Tunables::standard(),
{
}

// ----------------------------------------------------------------- startup --

/// What a run has of the browser at startup.
#[derive(Debug, Clone, Copy, PartialEq, Eq, Structural)]
pub enum BrowserNeed {
    /// Nothing uses it: there is no reason to look for it.
    Unused,
    /// One search engine uses it: without it that engine is off.
    Optional,
    /// Pages cannot be fetched without it.
    Required,
}

/// The browser fetches when there is no key for the hosted reader, and it drives the
/// DuckDuckGo engine.
pub open spec fn browser_role(has_jina: bool, engines: SearchEngines) -> BrowserNeed {
    if !has_jina {
        BrowserNeed::Required
    } else if engines != SearchEngines::Jina {
        BrowserNeed::Optional
    } else {
        BrowserNeed::Unused
    }
}

/// What the run needs the browser for.
pub fn browser_need(has_jina: bool, engines: SearchEngines) -> (r: BrowserNeed)
    ensures
        r == browser_role(has_jina, engines),
{
    if !has_jina {
        BrowserNeed::Required
    } else if engines != SearchEngines::Jina {
        BrowserNeed::Optional
    } else {
        BrowserNeed::Unused
    }
}

/// The control of the planner's reasoning: its own where given, else the writer's.
pub fn planner_thinking(own: Option<ThinkingControl>, writer: ThinkingControl) -> (r:
    ThinkingControl)
    ensures
        r == or_else(own, writer),
{
    match own {
        Some(t) => t,
        None => writer,
    }
}

/// The exit code describes the run, not the findings: finding nothing is a result.
pub fn exit_code(outcome: Outcome) -> (r: i32)
    ensures
        r == 0,
{
    match outcome {
        Outcome::Complete | Outcome::Partial | Outcome::Truncated | Outcome::Empty => 0,
    }
}

/// A server starts at `info`, a single run at `warn`; each `-v` raises it.
pub open spec fn log_level_of(api: bool, verbose: u8) -> Seq<char> {
    if verbose == 0 {
        if api {
            "info"@
        } else {
            "warn"@
        }
    } else if verbose == 1 {
        "info"@
    } else if verbose == 2 {
        "debug"@
    } else {
        "trace"@
    }
}

/// The log level a run gets when nothing sets one.
pub fn default_log_level(api: bool, verbose: u8) -> (r: &'static str)
    ensures
        r@ == log_level_of(api, verbose),
{
    if verbose == 0 {
        if api {
            "info"
        } else {
            "warn"
        }
    } else if verbose == 1 {
        "info"
    } else if verbose == 2 {
        "debug"
    } else {
        "trace"
    }
}

/// The level logs are written at.
pub open spec fn chosen_level(given: Option<Seq<char>>, api: bool, verbose: u8) -> Seq<char> {
    match given {
        Some(l) => l,
        None => log_level_of(api, verbose),
    }
}

/// The filter of the logs: this program at its level, and the browser with it only
/// when everything is traced.
pub fn log_filter(given: Option<&str>, api: bool, verbose: u8) -> (r: String)
    ensures
        ({
            let level = chosen_level(
                match given {
                    Some(l) => Some(l@),
                    None => None,
                },
                api,
                verbose,
            );
            r@ == "webscout="@ + level + (if level == "trace"@ {
                ",obscura=debug"@
            } else {
                ""@
            })
        }),
{
    let level = match given {
        Some(l) => l,
        None => default_log_level(api, verbose),
    };
    let mut s = "webscout=".to_owned();
    s.append(level);
    if str_eq(level, "trace") {
        s.append(",obscura=debug");
    } else {
        s.append("");
    }
    s
}

/// A run that was asked to say more than warnings.
pub open spec fn talks(verbose: u8, given: Option<Seq<char>>) -> bool {
    verbose > 0 || match given {
        Some(l) => l != "off"@ && l != "error"@ && l != "warn"@,
        None => false,
    }
}

/// Should the run say what it cost?
pub fn wants_summary(verbose: u8, given: Option<&str>) -> (r: bool)
    ensures
        r == talks(
            verbose,
            match given {
                Some(l) => Some(l@),
                None => None,
            },
        ),
{
    if verbose > 0 {
        return true;
    }
    match given {
        Some(l) => !str_eq(l, "off") && !str_eq(l, "error") && !str_eq(l, "warn"),
        None => false,
    }
}

// ----------------------------------------------------------------- summary --

/// Which part of the program a stage's time belongs to, by what its name holds.
pub open spec fn component(stage: Seq<char>) -> Seq<char> {
    if holds(stage, "search"@) || holds(stage, "fetch"@) {
        "browser"@
    } else if holds(stage, "classify (LLM)"@) || holds(stage, "plan"@) || holds(stage, "extract"@)
        || holds(stage, "synthesize"@) {
        "llm"@
    } else if holds(stage, "audit"@) || holds(stage, "triage"@) || holds(stage, "screen"@) || holds(
        stage,
        "ground"@,
    ) || holds(stage, "assess"@) || holds(stage, "verify"@) {
        "jev"@
    } else {
        "other"@
    }
}

/// Which part of the program a stage's time belongs to.
pub fn component_of(stage: &str) -> (r: &'static str)
    ensures
        r@ == component(stage@),
{
    if str_contains(stage, "search") || str_contains(stage, "fetch") {
        "browser"
    } else if str_contains(stage, "classify (LLM)") || str_contains(stage, "plan") || str_contains(
        stage,
        "extract",
    ) || str_contains(stage, "synthesize") {
        "llm"
    } else if str_contains(stage, "audit") || str_contains(stage, "triage") || str_contains(
        stage,
        "screen",
    ) || str_contains(stage, "ground") || str_contains(stage, "assess") || str_contains(
        stage,
        "verify",
    ) {
        "jev"
    } else {
        "other"
    }
}

/// The milliseconds of the first `n` stages that belong to one part of the program.
pub open spec fn ms_of(stages: Seq<(String, StageTime)>, part: Seq<char>, n: int) -> nat
    decreases n,
{
    if n <= 0 {
        0
    } else {
        ms_of(stages, part, n - 1) + (if component(stages[n - 1].0@) == part {
            stages[n - 1].1.ms as nat
        } else {
            0
        })
    }
}

/// The milliseconds of the stages that belong to one part of the program.
pub fn component_ms(stages: &Vec<(String, StageTime)>, part: &str) -> (r: u128)
    ensures
        r == ms_of(stages@, part@, stages@.len() as int),
{
    let n: usize = stages.len();
    let mut sum: u128 = 0;
    let mut i: usize = 0;
    while i < n
        invariant
            i <= n,
            n == stages@.len(),
            sum == ms_of(stages@, part@, i as int),
            sum <= i * u64::MAX,
        decreases n - i,
    {
        assert(i * u64::MAX <= usize::MAX * u64::MAX) by (nonlinear_arith)
            requires
                i <= usize::MAX,
        ;
        assert((i + 1) * u64::MAX == i * u64::MAX + u64::MAX) by (nonlinear_arith);
        assert(usize::MAX * u64::MAX + u64::MAX <= u128::MAX);
        let name = component_of(stages[i].0.as_str());
        if str_eq(name, part) {
            sum = sum + stages[i].1.ms as u128;
        }
        i += 1;
    }
    sum
}

proof fn lemma_parts_add_up(stages: Seq<(String, StageTime)>, n: int)
    requires
        0 <= n <= stages.len(),
    ensures
        ms_of(stages, "browser"@, n) + ms_of(stages, "llm"@, n) + ms_of(stages, "jev"@, n) + ms_of(
            stages,
            "other"@,
            n,
        ) == all_ms(stages, n),
    decreases n,
{
    reveal_strlit("browser");
    reveal_strlit("llm");
    reveal_strlit("jev");
    reveal_strlit("other");
    assert("llm"@[0] != "jev"@[0]);
    assert("llm"@.len() != "browser"@.len() && "llm"@.len() != "other"@.len() && "other"@.len()
        != "browser"@.len());
    if n > 0 {
        lemma_parts_add_up(stages, n - 1);
    }
}

/// The milliseconds of the first `n` stages.
pub open spec fn all_ms(stages: Seq<(String, StageTime)>, n: int) -> nat
    decreases n,
{
    if n <= 0 {
        0
    } else {
        all_ms(stages, n - 1) + stages[n - 1].1.ms as nat
    }
}

/// No stage's time is counted twice or lost: the parts of the program together have
/// the time of all stages.
pub proof fn law_every_stage_has_one_component(stages: Seq<(String, StageTime)>)
    ensures
        ({
            let n = stages.len() as int;
            ms_of(stages, "browser"@, n) + ms_of(stages, "llm"@, n) + ms_of(stages, "jev"@, n)
                + ms_of(stages, "other"@, n) == all_ms(stages, n)
        }),
{
    lemma_parts_add_up(stages, stages.len() as int);
}

/// `n` in base ten with a comma before every third digit from the right.
pub open spec fn thousands(n: nat) -> Seq<char> {
    grouped(decimal(n))
}

/// Thousands separators, because six-digit counts are unreadable without them.
pub fn commas(n: usize) -> (r: String)
    ensures
        r@ == thousands(n as nat),
{
    let v = decimal_chars(n as u128);
    let mut out: Vec<char> = Vec::new();
    let len: usize = v.len();
    let mut i: usize = 0;
    assert(v@.take(0) =~= Seq::<char>::empty());
    let first: usize = if len == 0 {
        0
    } else if len % 3 == 0 {
        3
    } else {
        len % 3
    };
    push_range(&mut out, &v, 0, first);
    i = first;
    assert(out@ =~= v@.take(first as int));
    assert(grouped(v@.take(first as int)) == v@.take(first as int));
    while i < len
        invariant
            i <= len,
            len == v@.len(),
            (len - i) % 3 == 0,
            i > 0 || len == 0,
            out@ == grouped(v@.take(i as int)),
        decreases len - i,
    {
        out.push(',');
        push_range(&mut out, &v, i, i + 3);
        proof {
            let t = v@.take(i + 3);
            assert(t.take(t.len() - 3) =~= v@.take(i as int));
            assert(t.subrange(t.len() - 3, t.len() as int) =~= v@.subrange(i as int, i + 3));
            assert(out@ =~= grouped(v@.take(i as int)) + seq![','] + v@.subrange(i as int, i + 3));
        }
        i += 3;
    }
    assert(v@.take(len as int) =~= v@);
    from_chars(&out)
}

/// The tail of a model's line: its reported cost and its reasoning tokens, each only
/// where there is something to report.
pub open spec fn extras(cost: Option<Figure>, reasoning: nat) -> Seq<char> {
    (match cost {
        Some(c) => "   $"@ + c.text@,
        None => Seq::empty(),
    }) + (if reasoning > 0 {
        "   ("@ + thousands(reasoning) + " reasoning)"@
    } else {
        Seq::empty()
    })
}

/// The tail of a model's summary line. A cost is shown by its text.
pub fn llm_extras(cost_usd: &Option<Figure>, reasoning_tokens: usize) -> (r: String)
    ensures
        r@ == extras(*cost_usd, reasoning_tokens as nat),
{
    let mut out = String::new();
    assert(out@ =~= Seq::<char>::empty());
    if let Some(c) = cost_usd {
        out.append("   $");
        out.append(c.text.as_str());
    }
    let ghost cost = match cost_usd {
        Some(c) => "   $"@ + c.text@,
        None => Seq::empty(),
    };
    assert(out@ =~= cost);
    if reasoning_tokens > 0 {
        out.append("   (");
        let n = commas(reasoning_tokens);
        out.append(n.as_str());
        out.append(" reasoning)");
    }
    assert(out@ =~= extras(*cost_usd, reasoning_tokens as nat));
    out
}

/// What an endpoint contributes to the cost of a run: nothing when it made no
/// request, what it reported otherwise, and unknown when it reported nothing.
pub open spec fn contribution(requests: usize, cost: Option<Figure>) -> Option<Real> {
    if requests == 0 {
        Some(Real { bits: 0 })
    } else {
        match cost {
            Some(c) => Some(Real { bits: c.bits }),
            None => None,
        }
    }
}

fn contributes(requests: usize, cost: &Option<Figure>) -> (r: Option<Real>)
    ensures
        r == contribution(requests, *cost),
{
    if requests == 0 {
        Some(Real { bits: 0 })
    } else {
        match cost {
            Some(c) => Some(Real { bits: c.bits }),
            None => None,
        }
    }
}

/// The three costs that add up to what a run cost, in the order they are added.
pub open spec fn cost_parts(st: Stats) -> Option<(Real, Real, Real)> {
    match (
        contribution(st.llm_requests, st.llm_cost_usd),
        contribution(st.planner_requests, st.planner_cost_usd),
    ) {
        (Some(llm), Some(planner)) => Some((Real { bits: st.jev_cost_usd.bits }, llm, planner)),
        _ => None,
    }
}

/// What the whole run cost, as the three costs to add, or `None` if the endpoint of
/// any component that ran stayed quiet: a partial total would be read as a total.
pub fn total_cost_usd(st: &Stats) -> (r: Option<(Real, Real, Real)>)
    ensures
        r == cost_parts(*st),
{
    match contributes(st.llm_requests, &st.llm_cost_usd) {
        Some(llm) => match contributes(st.planner_requests, &st.planner_cost_usd) {
            Some(planner) => Some((Real { bits: st.jev_cost_usd.bits }, llm, planner)),
            None => None,
        },
        None => None,
    }
}

/// A total is unknown exactly when an endpoint that was asked reported no cost.
pub proof fn law_totals_are_whole(st: Stats)
    ensures
        cost_parts(st) is None <==> (st.llm_requests > 0 && st.llm_cost_usd is None) || (
        st.planner_requests > 0 && st.planner_cost_usd is None),
{
}

/// The numbers of a summary that are shown with decimals, as texts.
#[derive(Debug)]
pub struct SummaryTexts {
    /// The total cost, shown where it is known.
    pub total: String,
    /// The seconds of each part of the program.
    pub browser: String,
    pub jev: String,
    pub llm: String,
    pub other: String,
}

pub open spec fn model_line(
    name: Seq<char>,
    requests: nat,
    prompt: nat,
    completion: nat,
    tail: Seq<char>,
) -> Seq<char> {
    "  "@ + name + pad_left(decimal(requests), 3, ' ') + " requests   "@ + pad_left(
        thousands(prompt),
        9,
        ' ',
    ) + " prompt + "@ + thousands(completion) + " completion"@ + tail + "\n"@
}

/// `text` where `n` is not zero, with `n` in the middle.
pub open spec fn when_any(before: Seq<char>, n: nat, after: Seq<char>) -> Seq<char> {
    if n > 0 {
        before + decimal(n) + after
    } else {
        Seq::empty()
    }
}

pub open spec fn jev_line(st: Stats) -> Seq<char> {
    "  Jev     "@ + pad_left(decimal(st.jev_requests as nat), 3, ' ') + " requests   "@ + pad_left(
        thousands(st.jev_input_tokens as nat),
        9,
        ' ',
    ) + " input tokens   $"@ + st.jev_cost_usd.text@ + "\n"@
}

pub open spec fn writer_line(st: Stats) -> Seq<char> {
    model_line(
        "LLM     "@,
        st.llm_requests as nat,
        st.llm_prompt_tokens as nat,
        st.llm_completion_tokens as nat,
        extras(st.llm_cost_usd, st.llm_reasoning_tokens as nat),
    )
}

pub open spec fn planner_line(st: Stats) -> Seq<char> {
    if st.planner_requests > 0 {
        model_line(
            "Planner "@,
            st.planner_requests as nat,
            st.planner_prompt_tokens as nat,
            st.planner_completion_tokens as nat,
            extras(st.planner_cost_usd, st.planner_reasoning_tokens as nat),
        )
    } else {
        Seq::empty()
    }
}

pub open spec fn cost_line(st: Stats, t: SummaryTexts) -> Seq<char> {
    if cost_parts(st) is Some {
        "  Cost    $"@ + t.total@ + " total\n"@
    } else {
        Seq::empty()
    }
}

/// The wall clock and the parts of the program; more than a twentieth of a second
/// that belongs to none of them has a line of its own.
pub open spec fn time_lines(st: Stats, t: SummaryTexts) -> Seq<char> {
    "  Time    "@ + st.elapsed_secs.text@ + "s wall   (browser "@ + t.browser@ + "s · jev "@ + t.jev@
        + "s · llm "@ + t.llm@ + "s)\n"@ + (if ms_of(
        st.stage_ms@,
        "other"@,
        st.stage_ms@.len() as int,
    ) > 50 {
        "                                         unattributed "@ + t.other@ + "s\n"@
    } else {
        Seq::empty()
    })
}

pub open spec fn work_line(st: Stats) -> Seq<char> {
    "  Work    "@ + decimal(st.rounds as nat) + (if st.rounds == 1 {
        " round · "@
    } else {
        " rounds · "@
    }) + decimal(st.queries_issued as nat) + " queries · "@ + decimal(st.pages_fetched as nat)
        + " pages · "@ + decimal(st.chunks_examined as nat) + " chunks\n"@
}

/// What the guards stopped. A guard that did not fire is not mentioned.
pub open spec fn guard_line(st: Stats) -> Seq<char> {
    if st.quarantined > 0 || st.rejected_ungrounded > 0 || st.unsupported_claims > 0
        || st.excluded_contradicted > 0 || st.constraints_unverified > 0
        || st.wrong_entity_rejected > 0 {
        "  Guards  "@ + decimal(st.quarantined as nat) + " passage(s) quarantined · "@ + decimal(
            st.rejected_ungrounded as nat,
        ) + " ungrounded record(s) rejected"@ + when_any(
            " · "@,
            st.excluded_contradicted as nat,
            " contradicted record(s) excluded"@,
        ) + when_any(
            " · "@,
            st.wrong_entity_rejected as nat,
            " wrong-entity value(s) rejected"@,
        ) + when_any(
            " · "@,
            st.constraints_unverified as nat,
            " constraint(s) unverified"@,
        ) + (if st.unsupported_claims > 0 {
            " · "@ + decimal(st.unsupported_claims as nat) + " of "@ + decimal(
                st.claims_checked as nat,
            ) + " answer claim(s) unsupported"@
        } else {
            Seq::empty()
        }) + "\n"@
    } else {
        Seq::empty()
    }
}

/// What a run cost, in tokens and seconds, split by part of the program.
pub open spec fn summary_text(st: Stats, t: SummaryTexts) -> Seq<char> {
    "\n  ── run summary ──────────────────────────────────────────────\n"@ + jev_line(st)
        + writer_line(st) + planner_line(st) + cost_line(st, t) + time_lines(st, t) + work_line(st)
        + guard_line(st)
        + "  ─────────────────────────────────────────────────────────────\n"@
}

proof fn lemma_model_labels(
    name: Seq<char>,
    requests: nat,
    prompt: nat,
    completion: nat,
    tail: Seq<char>,
)
    ensures
        ({
            let t = model_line(name, requests, prompt, completion, tail);
            &&& holds(t, name + pad_left(decimal(requests), 3, ' ') + " requests   "@)
            &&& holds(t, pad_left(thousands(prompt), 9, ' ') + " prompt + "@)
            &&& holds(t, thousands(completion) + " completion"@ + tail)
        }),
{
    let shown = pad_left(decimal(requests), 3, ' ');
    let asked = name + shown + " requests   "@;
    let a = "  "@ + name + shown + " requests   "@;
    assert(a =~= "  "@ + asked);
    lemma_holds_itself(asked);
    lemma_grown("  "@, asked);
    let b = a + pad_left(thousands(prompt), 9, ' ') + " prompt + "@;
    lemma_labelled(a, pad_left(thousands(prompt), 9, ' '), " prompt + "@);
    let given = thousands(completion) + " completion"@ + tail;
    let c = b + thousands(completion) + " completion"@ + tail;
    assert(c =~= b + given);
    lemma_holds_itself(given);
    lemma_grown(b, given);
    lemma_grown(c, "\n"@);
}

proof fn lemma_jev_labels(st: Stats)
    ensures
        holds(
            jev_line(st),
            "Jev     "@ + pad_left(decimal(st.jev_requests as nat), 3, ' ') + " requests   "@,
        ),
        holds(
            jev_line(st),
            pad_left(thousands(st.jev_input_tokens as nat), 9, ' ') + " input tokens   $"@,
        ),
        holds(jev_line(st), "$"@ + st.jev_cost_usd.text@ + "\n"@),
{
    let shown = pad_left(decimal(st.jev_requests as nat), 3, ' ');
    let tokens = pad_left(thousands(st.jev_input_tokens as nat), 9, ' ');
    let asked = "Jev     "@ + shown + " requests   "@;
    let a = "  Jev     "@ + shown + " requests   "@;
    reveal_strlit("  Jev     ");
    reveal_strlit("  ");
    reveal_strlit("Jev     ");
    assert("  Jev     "@ =~= "  "@ + "Jev     "@);
    assert(a =~= "  "@ + asked);
    lemma_holds_itself(asked);
    lemma_grown("  "@, asked);
    let b = a + tokens + " input tokens   $"@;
    lemma_labelled(a, tokens, " input tokens   $"@);
    let cost = "$"@ + st.jev_cost_usd.text@ + "\n"@;
    reveal_strlit(" input tokens   $");
    reveal_strlit(" input tokens   ");
    reveal_strlit("$");
    assert(" input tokens   $"@ =~= " input tokens   "@ + "$"@);
    assert(b + st.jev_cost_usd.text@ + "\n"@ =~= (a + tokens + " input tokens   "@) + cost);
    lemma_holds_itself(cost);
    lemma_grown(a + tokens + " input tokens   "@, cost);
    lemma_grown(b, st.jev_cost_usd.text@);
    lemma_grown(b + st.jev_cost_usd.text@, "\n"@);
}

proof fn lemma_time_labels(st: Stats, t: SummaryTexts)
    ensures
        holds(time_lines(st, t), st.elapsed_secs.text@ + "s wall   (browser "@),
        holds(time_lines(st, t), t.browser@ + "s · jev "@),
        holds(time_lines(st, t), t.jev@ + "s · llm "@),
        holds(time_lines(st, t), t.llm@ + "s)\n"@),
{
    let a = "  Time    "@ + st.elapsed_secs.text@ + "s wall   (browser "@;
    lemma_labelled("  Time    "@, st.elapsed_secs.text@, "s wall   (browser "@);
    let b = a + t.browser@ + "s · jev "@;
    lemma_labelled(a, t.browser@, "s · jev "@);
    let c = b + t.jev@ + "s · llm "@;
    lemma_labelled(b, t.jev@, "s · llm "@);
    let d = c + t.llm@ + "s)\n"@;
    lemma_labelled(c, t.llm@, "s)\n"@);
    let rest = if ms_of(st.stage_ms@, "other"@, st.stage_ms@.len() as int) > 50 {
        "                                         unattributed "@ + t.other@ + "s\n"@
    } else {
        Seq::empty()
    };
    lemma_grown(d, rest);
}

proof fn lemma_work_labels(st: Stats)
    ensures
        holds(
            work_line(st),
            decimal(st.rounds as nat) + (if st.rounds == 1 {
                " round · "@
            } else {
                " rounds · "@
            }),
        ),
        holds(work_line(st), decimal(st.queries_issued as nat) + " queries · "@),
        holds(work_line(st), decimal(st.pages_fetched as nat) + " pages · "@),
        holds(work_line(st), decimal(st.chunks_examined as nat) + " chunks\n"@),
{
    let rounds = if st.rounds == 1 {
        " round · "@
    } else {
        " rounds · "@
    };
    let a = "  Work    "@ + decimal(st.rounds as nat) + rounds;
    lemma_labelled("  Work    "@, decimal(st.rounds as nat), rounds);
    let b = a + decimal(st.queries_issued as nat) + " queries · "@;
    lemma_labelled(a, decimal(st.queries_issued as nat), " queries · "@);
    let c = b + decimal(st.pages_fetched as nat) + " pages · "@;
    lemma_labelled(b, decimal(st.pages_fetched as nat), " pages · "@);
    lemma_labelled(c, decimal(st.chunks_examined as nat), " chunks\n"@);
}

proof fn lemma_guard_labels(st: Stats)
    ensures
        st.quarantined > 0 ==> holds(
            guard_line(st),
            decimal(st.quarantined as nat) + " passage(s) quarantined · "@,
        ),
        st.rejected_ungrounded > 0 ==> holds(
            guard_line(st),
            decimal(st.rejected_ungrounded as nat) + " ungrounded record(s) rejected"@,
        ),
        st.excluded_contradicted > 0 ==> holds(
            guard_line(st),
            decimal(st.excluded_contradicted as nat) + " contradicted record(s) excluded"@,
        ),
        st.wrong_entity_rejected > 0 ==> holds(
            guard_line(st),
            decimal(st.wrong_entity_rejected as nat) + " wrong-entity value(s) rejected"@,
        ),
        st.constraints_unverified > 0 ==> holds(
            guard_line(st),
            decimal(st.constraints_unverified as nat) + " constraint(s) unverified"@,
        ),
        st.unsupported_claims > 0 ==> holds(
            guard_line(st),
            decimal(st.unsupported_claims as nat) + " of "@,
        ) && holds(
            guard_line(st),
            decimal(st.claims_checked as nat) + " answer claim(s) unsupported"@,
        ),
{
    let a = "  Guards  "@ + decimal(st.quarantined as nat) + " passage(s) quarantined · "@;
    lemma_labelled("  Guards  "@, decimal(st.quarantined as nat), " passage(s) quarantined · "@);
    let b = a + decimal(st.rejected_ungrounded as nat) + " ungrounded record(s) rejected"@;
    lemma_labelled(a, decimal(st.rejected_ungrounded as nat), " ungrounded record(s) rejected"@);
    let x = when_any(
        " · "@,
        st.excluded_contradicted as nat,
        " contradicted record(s) excluded"@,
    );
    lemma_labelled(
        " · "@,
        decimal(st.excluded_contradicted as nat),
        " contradicted record(s) excluded"@,
    );
    lemma_grown(b, x);
    let y = when_any(" · "@, st.wrong_entity_rejected as nat, " wrong-entity value(s) rejected"@);
    lemma_labelled(
        " · "@,
        decimal(st.wrong_entity_rejected as nat),
        " wrong-entity value(s) rejected"@,
    );
    lemma_grown(b + x, y);
    let z = when_any(" · "@, st.constraints_unverified as nat, " constraint(s) unverified"@);
    lemma_labelled(
        " · "@,
        decimal(st.constraints_unverified as nat),
        " constraint(s) unverified"@,
    );
    lemma_grown(b + x + y, z);
    let part = " · "@ + decimal(st.unsupported_claims as nat) + " of "@;
    lemma_labelled(" · "@, decimal(st.unsupported_claims as nat), " of "@);
    lemma_labelled(part, decimal(st.claims_checked as nat), " answer claim(s) unsupported"@);
    let w = if st.unsupported_claims > 0 {
        part + decimal(st.claims_checked as nat) + " answer claim(s) unsupported"@
    } else {
        Seq::empty()
    };
    lemma_grown(b + x + y + z, w);
    lemma_grown(b + x + y + z + w, "\n"@);
}

/// The lines of the summary stand in it, in whatever they hold.
proof fn lemma_summary_lines(st: Stats, t: SummaryTexts)
    ensures
        forall|p: Seq<char>| #[trigger]
            holds(summary_text(st, t), p) <== holds(jev_line(st), p) || holds(writer_line(st), p)
                || holds(planner_line(st), p) || holds(cost_line(st, t), p) || holds(
                time_lines(st, t),
                p,
            ) || holds(work_line(st), p) || holds(guard_line(st), p),
{
    let head = "\n  ── run summary ──────────────────────────────────────────────\n"@;
    let a = head + jev_line(st);
    lemma_grown(head, jev_line(st));
    let b = a + writer_line(st);
    lemma_grown(a, writer_line(st));
    let c = b + planner_line(st);
    lemma_grown(b, planner_line(st));
    let d = c + cost_line(st, t);
    lemma_grown(c, cost_line(st, t));
    let e = d + time_lines(st, t);
    lemma_grown(d, time_lines(st, t));
    let f = e + work_line(st);
    lemma_grown(e, work_line(st));
    let g = f + guard_line(st);
    lemma_grown(f, guard_line(st));
    let foot = "  ─────────────────────────────────────────────────────────────\n"@;
    lemma_grown(g, foot);
    assert(summary_text(st, t) == g + foot);
    assert forall|p: Seq<char>|
        holds(jev_line(st), p) || holds(writer_line(st), p) || holds(planner_line(st), p) || holds(
            cost_line(st, t),
            p,
        ) || holds(time_lines(st, t), p) || holds(work_line(st), p) || holds(
            guard_line(st),
            p,
        ) implies #[trigger] holds(summary_text(st, t), p) by {
        assert(holds(jev_line(st), p) ==> holds(a, p));
        assert(holds(a, p) || holds(writer_line(st), p) ==> holds(b, p));
        assert(holds(b, p) || holds(planner_line(st), p) ==> holds(c, p));
        assert(holds(c, p) || holds(cost_line(st, t), p) ==> holds(d, p));
        assert(holds(d, p) || holds(time_lines(st, t), p) ==> holds(e, p));
        assert(holds(e, p) || holds(work_line(st), p) ==> holds(f, p));
        assert(holds(f, p) || holds(guard_line(st), p) ==> holds(g, p));
        assert(holds(g, p) ==> holds(g + foot, p));
    }
}

/// The summary of a run gives every figure under the part of the program that it belongs
/// to: the checks, the writer, and the planner where it was asked at all.
pub proof fn law_the_summary_names_every_model(st: Stats, t: SummaryTexts)
    ensures
        ({
            let s = summary_text(st, t);
            &&& holds(
                s,
                "Jev     "@ + pad_left(decimal(st.jev_requests as nat), 3, ' ')
                    + " requests   "@,
            )
            &&& holds(
                s,
                pad_left(thousands(st.jev_input_tokens as nat), 9, ' ') + " input tokens   $"@,
            )
            &&& holds(s, "$"@ + st.jev_cost_usd.text@ + "\n"@)
            &&& holds(
                s,
                "LLM     "@ + pad_left(decimal(st.llm_requests as nat), 3, ' ')
                    + " requests   "@,
            )
            &&& holds(s, pad_left(thousands(st.llm_prompt_tokens as nat), 9, ' ') + " prompt + "@)
            &&& holds(
                s,
                thousands(st.llm_completion_tokens as nat) + " completion"@ + extras(
                    st.llm_cost_usd,
                    st.llm_reasoning_tokens as nat,
                ),
            )
        }),
        st.planner_requests > 0 ==> ({
            let s = summary_text(st, t);
            &&& holds(
                s,
                "Planner "@ + pad_left(decimal(st.planner_requests as nat), 3, ' ')
                    + " requests   "@,
            )
            &&& holds(
                s,
                pad_left(thousands(st.planner_prompt_tokens as nat), 9, ' ') + " prompt + "@,
            )
            &&& holds(
                s,
                thousands(st.planner_completion_tokens as nat) + " completion"@ + extras(
                    st.planner_cost_usd,
                    st.planner_reasoning_tokens as nat,
                ),
            )
        }),
{
    lemma_summary_lines(st, t);
    lemma_jev_labels(st);
    lemma_model_labels(
        "LLM     "@,
        st.llm_requests as nat,
        st.llm_prompt_tokens as nat,
        st.llm_completion_tokens as nat,
        extras(st.llm_cost_usd, st.llm_reasoning_tokens as nat),
    );
    lemma_model_labels(
        "Planner "@,
        st.planner_requests as nat,
        st.planner_prompt_tokens as nat,
        st.planner_completion_tokens as nat,
        extras(st.planner_cost_usd, st.planner_reasoning_tokens as nat),
    );
}

/// The summary of a run names what was done and where the time went, and what each guard
/// stopped as soon as it stopped anything.
pub proof fn law_the_summary_names_the_work(st: Stats, t: SummaryTexts)
    ensures
        ({
            let s = summary_text(st, t);
            &&& holds(s, st.elapsed_secs.text@ + "s wall   (browser "@)
            &&& holds(s, t.browser@ + "s · jev "@)
            &&& holds(s, t.jev@ + "s · llm "@)
            &&& holds(s, t.llm@ + "s)\n"@)
            &&& holds(
                s,
                decimal(st.rounds as nat) + (if st.rounds == 1 {
                    " round · "@
                } else {
                    " rounds · "@
                }),
            )
            &&& holds(s, decimal(st.queries_issued as nat) + " queries · "@)
            &&& holds(s, decimal(st.pages_fetched as nat) + " pages · "@)
            &&& holds(s, decimal(st.chunks_examined as nat) + " chunks\n"@)
        }),
        st.quarantined > 0 ==> holds(
            summary_text(st, t),
            decimal(st.quarantined as nat) + " passage(s) quarantined · "@,
        ),
        st.rejected_ungrounded > 0 ==> holds(
            summary_text(st, t),
            decimal(st.rejected_ungrounded as nat) + " ungrounded record(s) rejected"@,
        ),
        st.excluded_contradicted > 0 ==> holds(
            summary_text(st, t),
            decimal(st.excluded_contradicted as nat) + " contradicted record(s) excluded"@,
        ),
        st.wrong_entity_rejected > 0 ==> holds(
            summary_text(st, t),
            decimal(st.wrong_entity_rejected as nat) + " wrong-entity value(s) rejected"@,
        ),
        st.constraints_unverified > 0 ==> holds(
            summary_text(st, t),
            decimal(st.constraints_unverified as nat) + " constraint(s) unverified"@,
        ),
        st.unsupported_claims > 0 ==> holds(
            summary_text(st, t),
            decimal(st.unsupported_claims as nat) + " of "@,
        ) && holds(
            summary_text(st, t),
            decimal(st.claims_checked as nat) + " answer claim(s) unsupported"@,
        ),
{
    lemma_summary_lines(st, t);
    lemma_time_labels(st, t);
    lemma_work_labels(st);
    lemma_guard_labels(st);
}

fn add_number(s: &mut String, n: usize)
    ensures
        final(s)@ == old(s)@ + decimal(n as nat),
{
    let t = show_usize(n);
    s.append(t.as_str());
}

fn add_padded(s: &mut String, n: usize, width: usize)
    ensures
        final(s)@ == old(s)@ + pad_left(decimal(n as nat), width as nat, ' '),
{
    let v = decimal_chars(n as u128);
    let p = left_padded(&v, width, ' ');
    let t = from_chars(&p);
    s.append(t.as_str());
}

fn add_thousands(s: &mut String, n: usize, width: usize)
    ensures
        final(s)@ == old(s)@ + pad_left(thousands(n as nat), width as nat, ' '),
{
    let c = commas(n);
    let v = to_chars(c.as_str());
    let p = left_padded(&v, width, ' ');
    let t = from_chars(&p);
    s.append(t.as_str());
}

fn write_model(name: &str, requests: usize, prompt: usize, completion: usize, tail: &str) -> (r:
    String)
    ensures
        r@ == model_line(name@, requests as nat, prompt as nat, completion as nat, tail@),
{
    let mut s = "  ".to_owned();
    s.append(name);
    add_padded(&mut s, requests, 3);
    s.append(" requests   ");
    add_thousands(&mut s, prompt, 9);
    s.append(" prompt + ");
    let c = commas(completion);
    s.append(c.as_str());
    s.append(" completion");
    s.append(tail);
    s.append("\n");
    s
}

fn add_when_any(s: &mut String, before: &str, n: usize, after: &str)
    ensures
        final(s)@ == old(s)@ + when_any(before@, n as nat, after@),
{
    if n > 0 {
        s.append(before);
        add_number(s, n);
        s.append(after);
    }
    assert(s@ =~= old(s)@ + when_any(before@, n as nat, after@));
}

fn write_jev(st: &Stats) -> (s: String)
    ensures
        s@ == jev_line(*st),
{
    let mut s = "  Jev     ".to_owned();
    add_padded(&mut s, st.jev_requests, 3);
    s.append(" requests   ");
    add_thousands(&mut s, st.jev_input_tokens, 9);
    s.append(" input tokens   $");
    s.append(st.jev_cost_usd.text.as_str());
    s.append("\n");
    s
}

fn write_time(st: &Stats, t: &SummaryTexts) -> (s: String)
    ensures
        s@ == time_lines(*st, *t),
{
    let mut s = "  Time    ".to_owned();
    s.append(st.elapsed_secs.text.as_str());
    s.append("s wall   (browser ");
    s.append(t.browser.as_str());
    s.append("s · jev ");
    s.append(t.jev.as_str());
    s.append("s · llm ");
    s.append(t.llm.as_str());
    s.append("s)\n");
    let other: u128 = component_ms(&st.stage_ms, "other");
    let ghost before = s@;
    if other > 50 {
        let mut tail = "                                         unattributed ".to_owned();
        tail.append(t.other.as_str());
        tail.append("s\n");
        s.append(tail.as_str());
    } else {
        assert(before + Seq::<char>::empty() =~= before);
    }
    s
}

fn write_work(st: &Stats) -> (s: String)
    ensures
        s@ == work_line(*st),
{
    let mut s = "  Work    ".to_owned();
    add_number(&mut s, st.rounds);
    if st.rounds == 1 {
        s.append(" round · ");
    } else {
        s.append(" rounds · ");
    }
    add_number(&mut s, st.queries_issued);
    s.append(" queries · ");
    add_number(&mut s, st.pages_fetched);
    s.append(" pages · ");
    add_number(&mut s, st.chunks_examined);
    s.append(" chunks\n");
    s
}

fn write_guards(st: &Stats) -> (s: String)
    ensures
        s@ == guard_line(*st),
{
    let mut s = String::new();
    assert(s@ =~= Seq::<char>::empty());
    if st.quarantined > 0 || st.rejected_ungrounded > 0 || st.unsupported_claims > 0
        || st.excluded_contradicted > 0 || st.constraints_unverified > 0
        || st.wrong_entity_rejected > 0 {
        s = "  Guards  ".to_owned();
        add_number(&mut s, st.quarantined);
        s.append(" passage(s) quarantined · ");
        add_number(&mut s, st.rejected_ungrounded);
        s.append(" ungrounded record(s) rejected");
        add_when_any(&mut s, " · ", st.excluded_contradicted, " contradicted record(s) excluded");
        add_when_any(&mut s, " · ", st.wrong_entity_rejected, " wrong-entity value(s) rejected");
        add_when_any(&mut s, " · ", st.constraints_unverified, " constraint(s) unverified");
        let ghost before = s@;
        if st.unsupported_claims > 0 {
            let mut tail = " · ".to_owned();
            add_number(&mut tail, st.unsupported_claims);
            tail.append(" of ");
            add_number(&mut tail, st.claims_checked);
            tail.append(" answer claim(s) unsupported");
            s.append(tail.as_str());
        } else {
            assert(before + Seq::<char>::empty() =~= before);
        }
        s.append("\n");
    }
    s
}

/// What a run cost, in tokens and seconds, split by part of the program.
pub fn run_summary(report: &ScoutReport, t: &SummaryTexts) -> (r: String)
    ensures
        r@ == summary_text(report.stats, *t),
{
    let st = &report.stats;
    let mut s =
        "\n  ── run summary ──────────────────────────────────────────────\n".to_owned();
    let jev = write_jev(st);
    s.append(jev.as_str());
    let tail = llm_extras(&st.llm_cost_usd, st.llm_reasoning_tokens);
    let writer = write_model(
        "LLM     ",
        st.llm_requests,
        st.llm_prompt_tokens,
        st.llm_completion_tokens,
        tail.as_str(),
    );
    s.append(writer.as_str());
    let ghost a = s@;
    if st.planner_requests > 0 {
        let tail = llm_extras(&st.planner_cost_usd, st.planner_reasoning_tokens);
        let planner = write_model(
            "Planner ",
            st.planner_requests,
            st.planner_prompt_tokens,
            st.planner_completion_tokens,
            tail.as_str(),
        );
        s.append(planner.as_str());
    }
    assert(s@ =~= a + planner_line(*st));
    let ghost b = s@;
    if total_cost_usd(st).is_some() {
        let mut cost = "  Cost    $".to_owned();
        cost.append(t.total.as_str());
        cost.append(" total\n");
        s.append(cost.as_str());
    }
    assert(s@ =~= b + cost_line(*st, *t));
    let time = write_time(st, t);
    s.append(time.as_str());
    let work = write_work(st);
    s.append(work.as_str());
    let guards = write_guards(st);
    s.append(guards.as_str());
    s.append("  ─────────────────────────────────────────────────────────────\n");
    s
}

// ----------------------------------------------------------------- profile --

/// Stage `x` among stages in order of their time, behind those that took as long.
pub open spec fn rank_in(stages: Seq<(String, StageTime)>, order: Seq<int>, x: int) -> Seq<int>
    decreases order.len(),
{
    if order.len() == 0 || stages[order.last()].1.ms >= stages[x].1.ms {
        order.push(x)
    } else {
        rank_in(stages, order.drop_last(), x).push(order.last())
    }
}

/// The first `n` stages by the time spent in them, the longest first; stages that
/// took as long stay in the order they came in.
pub open spec fn ranking(stages: Seq<(String, StageTime)>, n: int) -> Seq<int>
    decreases n,
{
    if n <= 0 {
        Seq::empty()
    } else {
        rank_in(stages, ranking(stages, n - 1), n - 1)
    }
}

pub open spec fn positions(v: Seq<usize>) -> Seq<int> {
    v.map_values(|i: usize| i as int)
}

/// `a` comes before `b`: more time was spent in it, or as much and it came first.
pub open spec fn ahead(stages: Seq<(String, StageTime)>, a: int, b: int) -> bool {
    stages[a].1.ms > stages[b].1.ms || (stages[a].1.ms == stages[b].1.ms && a < b)
}

proof fn lemma_rank_in(stages: Seq<(String, StageTime)>, order: Seq<int>, x: int)
    requires
        forall|i: int, j: int| 0 <= i < j < order.len() ==> ahead(stages, order[i], order[j]),
        forall|i: int| 0 <= i < order.len() ==> 0 <= #[trigger] order[i] < x,
    ensures
        ({
            let r = rank_in(stages, order, x);
            &&& r.len() == order.len() + 1
            &&& forall|i: int, j: int| 0 <= i < j < r.len() ==> ahead(stages, r[i], r[j])
            &&& forall|i: int| 0 <= i < r.len() ==> 0 <= #[trigger] r[i] <= x || r[i] == x
            &&& forall|k: int| r.contains(k) <==> order.contains(k) || k == x
        }),
    decreases order.len(),
{
    let r = rank_in(stages, order, x);
    if order.len() == 0 || stages[order.last()].1.ms >= stages[x].1.ms {
        assert forall|i: int, j: int| 0 <= i < j < r.len() implies ahead(stages, r[i], r[j]) by {
            if j == order.len() && i < order.len() - 1 {
                assert(ahead(stages, order[i], order[order.len() - 1]));
            }
        }
        assert forall|k: int| r.contains(k) <==> order.contains(k) || k == x by {
            if order.contains(k) {
                let i = order.index_of(k);
                assert(r[i] == k);
            }
            assert(r[order.len() as int] == x);
            if r.contains(k) {
                let i = r.index_of(k);
                if i < order.len() {
                    assert(order[i] == k);
                }
            }
        }
    } else {
        let front = order.drop_last();
        let b = order.last();
        assert forall|i: int| 0 <= i < front.len() implies 0 <= #[trigger] front[i] < x by {
            assert(front[i] == order[i]);
        }
        assert forall|i: int, j: int| 0 <= i < j < front.len() implies ahead(
            stages,
            front[i],
            front[j],
        ) by {
            assert(front[i] == order[i] && front[j] == order[j]);
        }
        lemma_rank_in(stages, front, x);
        let t = rank_in(stages, front, x);
        assert forall|i: int, j: int| 0 <= i < j < r.len() implies ahead(stages, r[i], r[j]) by {
            if j == t.len() {
                assert(t.contains(t[i]));
                if t[i] != x {
                    let k = front.index_of(t[i]);
                    assert(order[k] == t[i]);
                    assert(ahead(stages, order[k], order[order.len() - 1]));
                }
            }
        }
        assert forall|k: int| r.contains(k) <==> order.contains(k) || k == x by {
            if order.contains(k) && k != b {
                let i = order.index_of(k);
                assert(front[i] == k);
                assert(t.contains(k));
            }
            if t.contains(k) {
                let i = t.index_of(k);
                assert(r[i] == k);
            }
            assert(r[t.len() as int] == b);
            if r.contains(k) {
                let i = r.index_of(k);
                if i < t.len() {
                    assert(t[i] == k);
                    assert(t.contains(k));
                    if k != x {
                        let j = front.index_of(k);
                        assert(order[j] == k);
                    }
                } else {
                    assert(order[order.len() - 1] == b);
                }
            }
        }
        assert forall|i: int| 0 <= i < r.len() implies 0 <= #[trigger] r[i] <= x || r[i] == x by {
            if i < t.len() {
                assert(r[i] == t[i]);
            }
        }
    }
}

proof fn lemma_ranking(stages: Seq<(String, StageTime)>, n: int)
    requires
        0 <= n <= stages.len(),
    ensures
        ({
            let r = ranking(stages, n);
            &&& r.len() == n
            &&& forall|i: int, j: int| 0 <= i < j < n ==> ahead(stages, r[i], r[j])
            &&& forall|i: int| 0 <= i < n ==> 0 <= #[trigger] r[i] < n
            &&& forall|k: int| 0 <= k < n ==> #[trigger] r.contains(k)
        }),
    decreases n,
{
    if n > 0 {
        lemma_ranking(stages, n - 1);
        let before = ranking(stages, n - 1);
        lemma_rank_in(stages, before, n - 1);
        let r = ranking(stages, n);
        assert forall|k: int| 0 <= k < n implies #[trigger] r.contains(k) by {
            if k < n - 1 {
                assert(before.contains(k));
            }
        }
    }
}

/// The profile lists every stage once, the longest first.
pub proof fn law_the_profile_ranks_every_stage(stages: Seq<(String, StageTime)>)
    ensures
        ({
            let r = ranking(stages, stages.len() as int);
            &&& r.len() == stages.len()
            &&& forall|k: int| 0 <= k < stages.len() ==> #[trigger] r.contains(k)
            &&& forall|i: int, j: int|
                0 <= i < j < r.len() ==> stages[#[trigger] r[i]].1.ms
                    >= stages[#[trigger] r[j]].1.ms
        }),
{
    lemma_ranking(stages, stages.len() as int);
    let r = ranking(stages, stages.len() as int);
    assert forall|i: int, j: int| 0 <= i < j < r.len() implies stages[#[trigger] r[i]].1.ms
        >= stages[#[trigger] r[j]].1.ms by {
        assert(ahead(stages, r[i], r[j]));
    }
}

fn put_in_rank(stages: &Vec<(String, StageTime)>, order: &mut Vec<usize>, x: usize)
    requires
        x < stages@.len(),
        forall|i: int| 0 <= i < old(order)@.len() ==> #[trigger] old(order)@[i] < stages@.len(),
    ensures
        positions(final(order)@) == rank_in(stages@, positions(old(order)@), x as int),
        forall|i: int| 0 <= i < final(order)@.len() ==> #[trigger] final(order)@[i] < stages@.len(),
{
    let ghost given = order@;
    let mut at: usize = order.len();
    assert(positions(given).take(at as int) =~= positions(given));
    assert(positions(given).skip(at as int) =~= Seq::<int>::empty());
    assert(rank_in(stages@, positions(given), x as int) =~= rank_in(
        stages@,
        positions(given).take(at as int),
        x as int,
    ) + positions(given).skip(at as int));
    while at > 0 && stages[order[at - 1]].1.ms < stages[x].1.ms
        invariant
            at <= order@.len(),
            order@ == given,
            x < stages@.len(),
            forall|i: int| 0 <= i < given.len() ==> #[trigger] given[i] < stages@.len(),
            rank_in(stages@, positions(given), x as int) == rank_in(
                stages@,
                positions(given).take(at as int),
                x as int,
            ) + positions(given).skip(at as int),
        decreases at,
    {
        proof {
            let t = positions(given).take(at as int);
            assert(t.last() == given[at - 1] as int);
            assert(t.drop_last() =~= positions(given).take(at - 1));
            assert(rank_in(stages@, t, x as int) =~= rank_in(stages@, t.drop_last(), x as int).push(
                t.last(),
            ));
            assert(positions(given).skip(at - 1) =~= seq![t.last()] + positions(given).skip(
                at as int,
            ));
            assert(rank_in(stages@, t, x as int) + positions(given).skip(at as int) =~= rank_in(
                stages@,
                t.drop_last(),
                x as int,
            ) + positions(given).skip(at - 1));
        }
        at -= 1;
    }
    proof {
        let t = positions(given).take(at as int);
        if at > 0 {
            assert(t.last() == given[at - 1] as int);
        }
        assert(rank_in(stages@, t, x as int) == t.push(x as int));
    }
    order.insert(at, x);
    assert(positions(order@) =~= positions(given).take(at as int).push(x as int) + positions(
        given,
    ).skip(at as int));
}

/// The stages by the time spent in them, the longest first.
pub fn rank_stages(stages: &Vec<(String, StageTime)>) -> (r: Vec<usize>)
    ensures
        positions(r@) == ranking(stages@, stages@.len() as int),
        forall|i: int| 0 <= i < r@.len() ==> #[trigger] r@[i] < stages@.len(),
{
    let mut order: Vec<usize> = Vec::new();
    let mut i: usize = 0;
    assert(positions(order@) =~= Seq::<int>::empty());
    while i < stages.len()
        invariant
            i <= stages@.len(),
            positions(order@) == ranking(stages@, i as int),
            forall|k: int| 0 <= k < order@.len() ==> #[trigger] order@[k] < stages@.len(),
        decreases stages@.len() - i,
    {
        put_in_rank(stages, &mut order, i);
        i += 1;
    }
    order
}

/// The milliseconds of all stages.
pub fn summed_ms(stages: &Vec<(String, StageTime)>) -> (r: u128)
    ensures
        r == all_ms(stages@, stages@.len() as int),
{
    let n: usize = stages.len();
    let mut sum: u128 = 0;
    let mut i: usize = 0;
    while i < n
        invariant
            i <= n,
            n == stages@.len(),
            sum == all_ms(stages@, i as int),
            sum <= i * u64::MAX,
        decreases n - i,
    {
        assert(i * u64::MAX <= usize::MAX * u64::MAX) by (nonlinear_arith)
            requires
                i <= usize::MAX,
        ;
        assert((i + 1) * u64::MAX == i * u64::MAX + u64::MAX) by (nonlinear_arith);
        assert(usize::MAX * u64::MAX + u64::MAX <= u128::MAX);
        sum = sum + stages[i].1.ms as u128;
        i += 1;
    }
    sum
}

/// The milliseconds of one call of a stage, rounded down; 0 where there was none.
pub fn per_call_ms(t: &StageTime) -> (r: u64)
    ensures
        r == (if t.calls > 0 {
            t.ms as int / t.calls as int
        } else {
            0
        }),
{
    if t.calls > 0 {
        t.ms / t.calls as u64
    } else {
        0
    }
}

/// The numbers of one row of the profile that are shown with decimals, as texts.
#[derive(Debug)]
pub struct RowTexts {
    pub seconds: String,
    pub percent: String,
    pub per_call: String,
}

pub open spec fn profile_row(stage: (String, StageTime), t: RowTexts) -> Seq<char> {
    "  "@ + pad_right(stage.0@, 22, ' ') + " "@ + pad_left(t.seconds@, 7, ' ') + "s  "@ + pad_left(
        t.percent@,
        5,
        ' ',
    ) + "%  "@ + pad_left(decimal(stage.1.calls as nat), 6, ' ') + "  "@ + pad_left(
        t.per_call@,
        7,
        ' ',
    ) + "s\n"@
}

pub open spec fn profile_rows(
    stages: Seq<(String, StageTime)>,
    texts: Seq<RowTexts>,
    order: Seq<int>,
    n: int,
) -> Seq<char>
    decreases n,
{
    if n <= 0 {
        Seq::empty()
    } else {
        profile_rows(stages, texts, order, n - 1) + profile_row(
            stages[order[n - 1]],
            texts[order[n - 1]],
        )
    }
}

/// The table of stages, by time spent, with the sum of the stages and the wall clock
/// below it.
pub open spec fn profile_text(
    stages: Seq<(String, StageTime)>,
    texts: Seq<RowTexts>,
    summed: Seq<char>,
    wall: Seq<char>,
) -> Seq<char> {
    "\n  stage                    time      share   calls   per call\n  ────────────────────────────────────────────────────────────\n"@
        + profile_rows(
        stages,
        texts,
        ranking(stages, stages.len() as int),
        stages.len() as int,
    )
        + "  ────────────────────────────────────────────────────────────\n  overlapped work        "@
        + pad_left(summed, 7, ' ') + "s          (sum of stages)\n  wall clock             "@
        + pad_left(wall, 7, ' ')
        + "s\n  note: concurrent stages sum above wall clock; a stage total\n  above wall clock is overlap, not dominance.\n\n"@
}

fn add_left(s: &mut String, t: &str, width: usize)
    ensures
        final(s)@ == old(s)@ + pad_left(t@, width as nat, ' '),
{
    let v = to_chars(t);
    let p = left_padded(&v, width, ' ');
    let t = from_chars(&p);
    s.append(t.as_str());
}

fn add_right(s: &mut String, t: &str, width: usize)
    ensures
        final(s)@ == old(s)@ + pad_right(t@, width as nat, ' '),
{
    let v = to_chars(t);
    let p = right_padded(&v, width, ' ');
    let t = from_chars(&p);
    s.append(t.as_str());
}

fn write_row(stage: &(String, StageTime), t: &RowTexts) -> (s: String)
    ensures
        s@ == profile_row(*stage, *t),
{
    let mut s = "  ".to_owned();
    add_right(&mut s, stage.0.as_str(), 22);
    s.append(" ");
    add_left(&mut s, t.seconds.as_str(), 7);
    s.append("s  ");
    add_left(&mut s, t.percent.as_str(), 5);
    s.append("%  ");
    let calls = crate::numeral::show(stage.1.calls as u128);
    add_left(&mut s, calls.as_str(), 6);
    s.append("  ");
    add_left(&mut s, t.per_call.as_str(), 7);
    s.append("s\n");
    s
}

/// Render the per-stage timing table. `texts` holds the numbers of each stage, in
/// the order of the stages.
pub fn profile_table(report: &ScoutReport, texts: &Vec<RowTexts>, summed: &str, wall: &str) -> (r:
    String)
    requires
        texts@.len() == report.stats.stage_ms@.len(),
    ensures
        r@ == profile_text(report.stats.stage_ms@, texts@, summed@, wall@),
{
    let stages = &report.stats.stage_ms;
    let order = rank_stages(stages);
    let mut rows = String::new();
    let mut i: usize = 0;
    proof {
        lemma_ranking(stages@, stages@.len() as int);
        assert(positions(order@).len() == order@.len());
    }
    assert(rows@ =~= Seq::<char>::empty());
    while i < order.len()
        invariant
            i <= order@.len(),
            stages == &report.stats.stage_ms,
            texts@.len() == stages@.len(),
            forall|k: int| 0 <= k < order@.len() ==> #[trigger] order@[k] < stages@.len(),
            rows@ == profile_rows(stages@, texts@, positions(order@), i as int),
        decreases order@.len() - i,
    {
        let k: usize = order[i];
        let row = write_row(&stages[k], &texts[k]);
        assert(positions(order@)[i as int] == k as int);
        rows.append(row.as_str());
        i += 1;
    }
    let mut s =
        "\n  stage                    time      share   calls   per call\n  ────────────────────────────────────────────────────────────\n".to_owned();
    s.append(rows.as_str());
    s.append(
        "  ────────────────────────────────────────────────────────────\n  overlapped work        ",
    );
    add_left(&mut s, summed, 7);
    s.append("s          (sum of stages)\n  wall clock             ");
    add_left(&mut s, wall, 7);
    s.append(
        "s\n  note: concurrent stages sum above wall clock; a stage total\n  above wall clock is overlap, not dominance.\n\n",
    );
    s
}

} // verus!
