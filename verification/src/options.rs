//! The parameters that a request may set, and folding a request onto a preset.
//!
//! The catalogue is the contract: what a form shows and what is accepted come from
//! the same table. No key, endpoint or binary path is in it.
use vstd::prelude::*;
use vstd::string::*;
use crate::config::{SearchEngines, Tunables};
use crate::llm::{parse_thinking, thinking_named, ThinkingControl};
use crate::numeral::{decimal, show};
use crate::order::{place_name, placed, str_le, text_le};
use crate::output::{format_named, parse_format, Format};
use crate::scan::{blank, is_blank_str, join, join_strings};
use crate::text::{str_eq, str_views, views};
use crate::types::{Figure, Real};

verus! {

// ----------------------------------------------------------------- presets --

/// Which settings a run starts from, before what the request changes.
#[derive(Debug, Clone, Copy, PartialEq, Eq, Structural)]
pub enum Preset {
    Quick,
    Standard,
    Thorough,
}

impl Preset {
    pub open spec fn label(self) -> Seq<char> {
        match self {
            Preset::Quick => "quick"@,
            Preset::Standard => "standard"@,
            Preset::Thorough => "thorough"@,
        }
    }

    pub open spec fn named(s: Seq<char>) -> Option<Preset> {
        if s == "quick"@ {
            Some(Preset::Quick)
        } else if s == "standard"@ {
            Some(Preset::Standard)
        } else if s == "thorough"@ {
            Some(Preset::Thorough)
        } else {
            None
        }
    }

    pub open spec fn settings(self) -> Tunables {
        match self {
            Preset::Quick => Tunables::narrow(),
            Preset::Standard => Tunables::standard(),
            Preset::Thorough => Tunables::wide(),
        }
    }

    pub fn as_str(self) -> (r: &'static str)
        ensures
            r@ == self.label(),
    {
        match self {
            Preset::Quick => "quick",
            Preset::Standard => "standard",
            Preset::Thorough => "thorough",
        }
    }

    pub fn parse(s: &str) -> (r: Option<Self>)
        ensures
            r == Preset::named(s@),
    {
        if str_eq(s, "quick") {
            Some(Preset::Quick)
        } else if str_eq(s, "standard") {
            Some(Preset::Standard)
        } else if str_eq(s, "thorough") {
            Some(Preset::Thorough)
        } else {
            None
        }
    }

    /// The preset's settings: the same as on the command line.
    pub fn tunables(self) -> (r: Tunables)
        ensures
            r == self.settings(),
    {
        match self {
            Preset::Quick => Tunables::quick(),
            Preset::Standard => Tunables::default(),
            Preset::Thorough => Tunables::thorough(),
        }
    }
}

/// A preset's name reads back as the preset.
pub proof fn law_preset_names_read_back(p: Preset)
    ensures
        Preset::named(p.label()) == Some(p),
{
    reveal_strlit("quick");
    reveal_strlit("standard");
    reveal_strlit("thorough");
    assert("quick"@[0] == 'q' && "standard"@[0] == 's' && "thorough"@[0] == 't');
}

// --------------------------------------------------------------- catalogue --

/// The JSON type of an option.
#[derive(Debug, Clone, Copy, PartialEq, Eq, Structural)]
pub enum OptionType {
    Integer,
    Number,
    Boolean,
    Enum,
    String,
}

impl OptionType {
    pub open spec fn name(self) -> Seq<char> {
        match self {
            OptionType::Integer => "whole number"@,
            OptionType::Number => "number"@,
            OptionType::Boolean => "boolean"@,
            OptionType::Enum => "one of the listed values"@,
            OptionType::String => "string"@,
        }
    }

    /// What a complaint calls the type.
    pub fn noun(self) -> (r: &'static str)
        ensures
            r@ == self.name(),
    {
        match self {
            OptionType::Integer => "whole number",
            OptionType::Number => "number",
            OptionType::Boolean => "boolean",
            OptionType::Enum => "one of the listed values",
            OptionType::String => "string",
        }
    }
}

/// An option's default.
#[derive(Debug, Clone, Copy)]
pub enum Setting {
    Whole(u64),
    Number(Real),
    Flag(bool),
    Text(&'static str),
}

/// An end of an option's range: a count, or a number and how it is shown.
#[derive(Debug, Clone, Copy)]
pub enum Bound {
    Whole(u64),
    Number(Real, &'static str),
}

/// One settable parameter, described well enough for a form to show it blind.
#[derive(Debug)]
pub struct OptionSpec {
    pub name: &'static str,
    pub label: &'static str,
    pub kind: OptionType,
    pub default: Setting,
    pub min: Option<Bound>,
    pub max: Option<Bound>,
    pub values: Option<Vec<&'static str>>,
    pub help: &'static str,
}

/// A group of options.
#[derive(Debug)]
pub struct OptionGroup {
    pub id: &'static str,
    pub label: &'static str,
    pub options: Vec<OptionSpec>,
}

/// What a default says.
pub ghost enum SettingView {
    Whole(int),
    Number(Real),
    Flag(bool),
    Text(Seq<char>),
}

/// What an end of a range says.
pub ghost enum BoundView {
    Whole(int),
    Number(Real, Seq<char>),
}

impl View for Setting {
    type V = SettingView;

    open spec fn view(&self) -> SettingView {
        match *self {
            Setting::Whole(n) => SettingView::Whole(n as int),
            Setting::Number(x) => SettingView::Number(x),
            Setting::Flag(b) => SettingView::Flag(b),
            Setting::Text(t) => SettingView::Text(t@),
        }
    }
}

impl View for Bound {
    type V = BoundView;

    open spec fn view(&self) -> BoundView {
        match *self {
            Bound::Whole(n) => BoundView::Whole(n as int),
            Bound::Number(x, t) => BoundView::Number(x, t@),
        }
    }
}

/// What a parameter's description says.
#[verifier::ext_equal]
pub struct SpecView {
    pub name: Seq<char>,
    pub label: Seq<char>,
    pub kind: OptionType,
    pub default: SettingView,
    pub min: Option<BoundView>,
    pub max: Option<BoundView>,
    pub values: Option<Seq<Seq<char>>>,
    pub help: Seq<char>,
}

pub open spec fn opt_bound(b: Option<Bound>) -> Option<BoundView> {
    match b {
        Some(x) => Some(x@),
        None => None,
    }
}

impl View for OptionSpec {
    type V = SpecView;

    open spec fn view(&self) -> SpecView {
        SpecView {
            name: self.name@,
            label: self.label@,
            kind: self.kind,
            default: self.default@,
            min: opt_bound(self.min),
            max: opt_bound(self.max),
            values: match self.values {
                Some(v) => Some(str_views(v@)),
                None => None,
            },
            help: self.help@,
        }
    }
}

pub open spec fn spec_views(v: Seq<OptionSpec>) -> Seq<SpecView> {
    v.map_values(|o: OptionSpec| o@)
}

/// An option that takes a count in a range.
pub open spec fn whole(
    name: Seq<char>,
    label: Seq<char>,
    default: int,
    min: int,
    max: int,
    help: Seq<char>,
) -> SpecView {
    SpecView {
        name,
        label,
        kind: OptionType::Integer,
        default: SettingView::Whole(default),
        min: Some(BoundView::Whole(min)),
        max: Some(BoundView::Whole(max)),
        values: None,
        help,
    }
}

/// The bit pattern of 1.0.
pub const ONE: u64 = 0x3FF0_0000_0000_0000;

/// An option that takes a number from 0 to 1.
pub open spec fn share(
    name: Seq<char>,
    label: Seq<char>,
    default: Real,
    help: Seq<char>,
) -> SpecView {
    SpecView {
        name,
        label,
        kind: OptionType::Number,
        default: SettingView::Number(default),
        min: Some(BoundView::Number(Real { bits: 0 }, "0"@)),
        max: Some(BoundView::Number(Real { bits: ONE }, "1"@)),
        values: None,
        help,
    }
}

/// An option that is off unless it is set.
pub open spec fn switch(name: Seq<char>, label: Seq<char>, help: Seq<char>) -> SpecView {
    SpecView {
        name,
        label,
        kind: OptionType::Boolean,
        default: SettingView::Flag(false),
        min: None,
        max: None,
        values: None,
        help,
    }
}

/// An option that takes one of the listed values.
pub open spec fn pick_one(
    name: Seq<char>,
    label: Seq<char>,
    default: Seq<char>,
    values: Seq<Seq<char>>,
    help: Seq<char>,
) -> SpecView {
    SpecView {
        name,
        label,
        kind: OptionType::Enum,
        default: SettingView::Text(default),
        min: None,
        max: None,
        values: Some(values),
        help,
    }
}

/// An option that takes any text; blank means what the server was started with.
pub open spec fn free(name: Seq<char>, label: Seq<char>, help: Seq<char>) -> SpecView {
    SpecView {
        name,
        label,
        kind: OptionType::String,
        default: SettingView::Text(""@),
        min: None,
        max: None,
        values: None,
        help,
    }
}

fn int_opt(
    name: &'static str,
    label: &'static str,
    default: u64,
    min: u64,
    max: u64,
    help: &'static str,
) -> (r: OptionSpec)
    ensures
        r@ == whole(name@, label@, default as int, min as int, max as int, help@),
{
    OptionSpec {
        name,
        label,
        kind: OptionType::Integer,
        default: Setting::Whole(default),
        min: Some(Bound::Whole(min)),
        max: Some(Bound::Whole(max)),
        values: None,
        help,
    }
}

fn num_opt(
    name: &'static str,
    label: &'static str,
    default: Real,
    help: &'static str,
) -> (r: OptionSpec)
    ensures
        r@ == share(name@, label@, default, help@),
{
    OptionSpec {
        name,
        label,
        kind: OptionType::Number,
        default: Setting::Number(default),
        min: Some(Bound::Number(Real { bits: 0 }, "0")),
        max: Some(Bound::Number(Real { bits: ONE }, "1")),
        values: None,
        help,
    }
}

fn bool_opt(name: &'static str, label: &'static str, help: &'static str) -> (r: OptionSpec)
    ensures
        r@ == switch(name@, label@, help@),
{
    OptionSpec {
        name,
        label,
        kind: OptionType::Boolean,
        default: Setting::Flag(false),
        min: None,
        max: None,
        values: None,
        help,
    }
}

fn enum_opt(
    name: &'static str,
    label: &'static str,
    default: &'static str,
    values: Vec<&'static str>,
    help: &'static str,
) -> (r: OptionSpec)
    ensures
        r@ == pick_one(name@, label@, default@, str_views(values@), help@),
{
    OptionSpec {
        name,
        label,
        kind: OptionType::Enum,
        default: Setting::Text(default),
        min: None,
        max: None,
        values: Some(values),
        help,
    }
}

fn string_opt(name: &'static str, label: &'static str, help: &'static str) -> (r: OptionSpec)
    ensures
        r@ == free(name@, label@, help@),
{
    OptionSpec {
        name,
        label,
        kind: OptionType::String,
        default: Setting::Text(""),
        min: None,
        max: None,
        values: None,
        help,
    }
}

/// Formats that are offered. A terminal rendering is for a person in front of one,
/// and is not.
pub open spec fn formats() -> Seq<Seq<char>> {
    seq!["markdown"@, "json"@, "csv"@, "jsonl"@]
}

pub open spec fn presets() -> Seq<Seq<char>> {
    seq!["quick"@, "standard"@, "thorough"@]
}

pub open spec fn engines() -> Seq<Seq<char>> {
    seq!["auto"@, "ddg"@, "jina"@]
}

pub open spec fn thinkings() -> Seq<Seq<char>> {
    seq!["auto"@, "openrouter"@, "vllm"@, "effort"@, "off"@]
}

/// Formats that are offered, rendered and served.
pub fn format_names() -> (r: Vec<&'static str>)
    ensures
        str_views(r@) == formats(),
{
    let r = vec!["markdown", "json", "csv", "jsonl"];
    assert(str_views(r@) =~= formats());
    r
}

pub fn preset_names() -> (r: Vec<&'static str>)
    ensures
        str_views(r@) == presets(),
{
    let r = vec!["quick", "standard", "thorough"];
    assert(str_views(r@) =~= presets());
    r
}

pub fn engine_names() -> (r: Vec<&'static str>)
    ensures
        str_views(r@) == engines(),
{
    let r = vec!["auto", "ddg", "jina"];
    assert(str_views(r@) =~= engines());
    r
}

pub fn thinking_names() -> (r: Vec<&'static str>)
    ensures
        str_views(r@) == thinkings(),
{
    let r = vec!["auto", "openrouter", "vllm", "effort", "off"];
    assert(str_views(r@) =~= thinkings());
    r
}

/// The options of a plain search form.
pub open spec fn basic_specs() -> Seq<SpecView> {
    seq![
        pick_one("preset"@, "Preset"@, "standard"@, presets(), "Starting point for every other setting: quick looks, standard digs, thorough leaves no stone unturned."@),
        whole("max_rounds"@, "Max rounds"@, Tunables::standard().max_rounds as int, 1, 200, "Hard ceiling on research rounds. There is no time limit; this is what bounds the work."@),
        pick_one("format"@, "Format"@, "markdown"@, formats(), "How the finished result is rendered."@),
        pick_one("search_engines"@, "Search engines"@, "auto"@, engines(), "Which search lanes to run: auto uses every lane available, or pin a single engine."@),
    ]
}

/// The options behind it, on a machine that fetches `fetch` pages at once.
pub open spec fn advanced_specs(fetch: usize) -> Seq<SpecView> {
    seq![
        whole("queries_per_round"@, "Queries per round"@, Tunables::standard().queries_per_round as int, 1, 50, "How many search queries each round issues."@),
        whole("results_per_query"@, "Results per query"@, Tunables::standard().results_per_query as int, 1, 100, "How many results each search asks the engine for."@),
        whole("read_per_query"@, "Pages read per query"@, Tunables::standard().read_per_query as int, 1, 50, "How many pages are actually fetched per query, after triage ranks them."@),
        whole("max_barren_rounds"@, "Max barren rounds"@, Tunables::standard().max_barren_rounds as int, 1, 20, "Stop after this many consecutive rounds that find nothing new."@),
        whole("fetch_concurrency"@, "Fetch concurrency"@, fetch as int, 1, 64, "Pages rendered in parallel within one batch; also the politeness knob."@),
        whole("concurrency"@, "Verification concurrency"@, Tunables::standard().concurrency as int, 1, 64, "Concurrent verification requests. Throughput plateaus near 8; fatter requests help more."@),
        whole("max_questions_per_request"@, "Questions per request"@, Tunables::standard().max_questions_per_request as int, 1, 512, "Questions packed into one verification request. The token budget still caps an oversized batch."@),
        share("grounding_floor"@, "Grounding floor"@, Tunables::standard().grounding_floor, "Minimum confidence that an extracted value really appears in its source before it is kept."@),
        share("constraint_floor"@, "Constraint floor"@, Tunables::standard().constraint_floor, "Minimum confidence that a record satisfies the request's constraints."@),
        share("claim_floor"@, "Claim floor"@, Tunables::standard().claim_floor, "Minimum support for a sentence of the written answer before it is left unmarked."@),
        share("currency_floor"@, "Currency floor"@, Tunables::standard().currency_floor, "Minimum currency for a passage to survive on a time-sensitive question."@),
        share("query_gate_floor"@, "Query gate floor"@, Tunables::standard().query_gate_floor, "Generated queries scoring below this are dropped before they are searched."@),
        share("follow_floor"@, "Follow floor"@, Tunables::standard().follow_floor, "Minimum confidence that following a link would reach more entities."@),
        share("select_confidence"@, "Select confidence"@, Tunables::standard().select_confidence, "Minimum confidence for accepting a detected candidate as an entity's field value."@),
        whole("enrich_batch"@, "Enrich batch"@, Tunables::standard().enrich_batch as int, 1, 500, "Entities whose missing fields are chased per round."@),
        whole("enrich_read"@, "Enrich pages read"@, Tunables::standard().enrich_read as int, 1, 20, "Pages fetched per enrichment search."@),
        whole("max_follow_per_page"@, "Max links followed per page"@, Tunables::standard().max_follow_per_page as int, 0, 100, "How many outbound links one listing page may contribute to the next round."@),
        switch("no_plan"@, "Disable research plan"@, "Skip the one-off research plan and rely on the round-by-round planner instead."@),
        switch("no_enrich"@, "Disable enrichment"@, "Keep only what listing pages already stated; do not chase missing fields."@),
        switch("no_follow"@, "Disable link following"@, "Do not queue outbound links from productive listing pages."@),
        switch("no_auto"@, "Disable auto steering"@, "Use the fixed stopping rules instead of letting the judge steer depth."@),
        switch("no_search_cache"@, "Disable search cache"@, "Do not read or write the on-disk cache of search responses."@),
        whole("search_cache_ttl"@, "Search cache TTL (seconds)"@, Tunables::standard().search_cache_ttl as int, 0, 604_800, "How long a cached search response stays usable, in seconds."@),
        free("llm_model"@, "Writer model"@, "Model name for extraction and prose. Blank uses the server's configured model."@),
        free("planner_model"@, "Planner model"@, "Model name for mission parsing and planning. Blank uses the server's configured model."@),
        pick_one("thinking_control"@, "Thinking control"@, "auto"@, thinkings(), "How reasoning is switched on for the writer endpoint; the wrong form can burn the whole budget."@),
        pick_one("planner_thinking_control"@, "Planner thinking control"@, "auto"@, thinkings(), "How reasoning is switched on for the planner endpoint."@),
    ]
}

fn add_option(v: &mut Vec<OptionSpec>, o: OptionSpec)
    ensures
        spec_views(final(v)@) == spec_views(old(v)@).push(o@),
{
    v.push(o);
    assert(spec_views(v@) =~= spec_views(old(v)@).push(o@));
}

fn no_options() -> (r: Vec<OptionSpec>)
    ensures
        spec_views(r@) == Seq::<SpecView>::empty(),
{
    let r: Vec<OptionSpec> = Vec::new();
    assert(spec_views(r@) =~= Seq::<SpecView>::empty());
    r
}

fn basic_options() -> (v: Vec<OptionSpec>)
    ensures
        spec_views(v@) == basic_specs(),
{
    let d = Tunables::default();
    let mut v = no_options();
    add_option(&mut v, enum_opt("preset", "Preset", Preset::Standard.as_str(), preset_names(), "Starting point for every other setting: quick looks, standard digs, thorough leaves no stone unturned."));
    add_option(&mut v, int_opt("max_rounds", "Max rounds", d.max_rounds as u64, 1, 200, "Hard ceiling on research rounds. There is no time limit; this is what bounds the work."));
    add_option(&mut v, enum_opt("format", "Format", "markdown", format_names(), "How the finished result is rendered."));
    add_option(&mut v, enum_opt("search_engines", "Search engines", "auto", engine_names(), "Which search lanes to run: auto uses every lane available, or pin a single engine."));
    assert(spec_views(v@) =~= basic_specs());
    v
}

fn advanced_options(fetch: usize) -> (v: Vec<OptionSpec>)
    ensures
        spec_views(v@) == advanced_specs(fetch),
{
    let d = Tunables::default();
    let mut v = no_options();
    add_option(&mut v, int_opt("queries_per_round", "Queries per round", d.queries_per_round as u64, 1, 50, "How many search queries each round issues."));
    add_option(&mut v, int_opt("results_per_query", "Results per query", d.results_per_query as u64, 1, 100, "How many results each search asks the engine for."));
    add_option(&mut v, int_opt("read_per_query", "Pages read per query", d.read_per_query as u64, 1, 50, "How many pages are actually fetched per query, after triage ranks them."));
    add_option(&mut v, int_opt("max_barren_rounds", "Max barren rounds", d.max_barren_rounds as u64, 1, 20, "Stop after this many consecutive rounds that find nothing new."));
    add_option(&mut v, int_opt("fetch_concurrency", "Fetch concurrency", fetch as u64, 1, 64, "Pages rendered in parallel within one batch; also the politeness knob."));
    add_option(&mut v, int_opt("concurrency", "Verification concurrency", d.concurrency as u64, 1, 64, "Concurrent verification requests. Throughput plateaus near 8; fatter requests help more."));
    add_option(&mut v, int_opt("max_questions_per_request", "Questions per request", d.max_questions_per_request as u64, 1, 512, "Questions packed into one verification request. The token budget still caps an oversized batch."));
    add_option(&mut v, num_opt("grounding_floor", "Grounding floor", d.grounding_floor, "Minimum confidence that an extracted value really appears in its source before it is kept."));
    add_option(&mut v, num_opt("constraint_floor", "Constraint floor", d.constraint_floor, "Minimum confidence that a record satisfies the request's constraints."));
    add_option(&mut v, num_opt("claim_floor", "Claim floor", d.claim_floor, "Minimum support for a sentence of the written answer before it is left unmarked."));
    add_option(&mut v, num_opt("currency_floor", "Currency floor", d.currency_floor, "Minimum currency for a passage to survive on a time-sensitive question."));
    add_option(&mut v, num_opt("query_gate_floor", "Query gate floor", d.query_gate_floor, "Generated queries scoring below this are dropped before they are searched."));
    add_option(&mut v, num_opt("follow_floor", "Follow floor", d.follow_floor, "Minimum confidence that following a link would reach more entities."));
    add_option(&mut v, num_opt("select_confidence", "Select confidence", d.select_confidence, "Minimum confidence for accepting a detected candidate as an entity's field value."));
    add_option(&mut v, int_opt("enrich_batch", "Enrich batch", d.enrich_batch as u64, 1, 500, "Entities whose missing fields are chased per round."));
    add_option(&mut v, int_opt("enrich_read", "Enrich pages read", d.enrich_read as u64, 1, 20, "Pages fetched per enrichment search."));
    add_option(&mut v, int_opt("max_follow_per_page", "Max links followed per page", d.max_follow_per_page as u64, 0, 100, "How many outbound links one listing page may contribute to the next round."));
    add_option(&mut v, bool_opt("no_plan", "Disable research plan", "Skip the one-off research plan and rely on the round-by-round planner instead."));
    add_option(&mut v, bool_opt("no_enrich", "Disable enrichment", "Keep only what listing pages already stated; do not chase missing fields."));
    add_option(&mut v, bool_opt("no_follow", "Disable link following", "Do not queue outbound links from productive listing pages."));
    add_option(&mut v, bool_opt("no_auto", "Disable auto steering", "Use the fixed stopping rules instead of letting the judge steer depth."));
    add_option(&mut v, bool_opt("no_search_cache", "Disable search cache", "Do not read or write the on-disk cache of search responses."));
    add_option(&mut v, int_opt("search_cache_ttl", "Search cache TTL (seconds)", d.search_cache_ttl, 0, 604_800, "How long a cached search response stays usable, in seconds."));
    add_option(&mut v, string_opt("llm_model", "Writer model", "Model name for extraction and prose. Blank uses the server's configured model."));
    add_option(&mut v, string_opt("planner_model", "Planner model", "Model name for mission parsing and planning. Blank uses the server's configured model."));
    add_option(&mut v, enum_opt("thinking_control", "Thinking control", "auto", thinking_names(), "How reasoning is switched on for the writer endpoint; the wrong form can burn the whole budget."));
    add_option(&mut v, enum_opt("planner_thinking_control", "Planner thinking control", "auto", thinking_names(), "How reasoning is switched on for the planner endpoint."));
    assert(spec_views(v@) =~= advanced_specs(fetch));
    v
}

/// The whole settable surface in its two groups. Every number is read out of the
/// standard settings; `fetch` is how many pages this process renders at once.
pub fn catalogue(fetch: usize) -> (r: Vec<OptionGroup>)
    ensures
        r@.len() == 2,
        r@[0].id@ == "basic"@,
        r@[0].label@ == "Search"@,
        spec_views(r@[0].options@) == basic_specs(),
        r@[1].id@ == "advanced"@,
        r@[1].label@ == "Advanced"@,
        spec_views(r@[1].options@) == advanced_specs(fetch),
{
    let mut r: Vec<OptionGroup> = Vec::new();
    r.push(OptionGroup { id: "basic", label: "Search", options: basic_options() });
    r.push(OptionGroup { id: "advanced", label: "Advanced", options: advanced_options(fetch) });
    r
}

// ------------------------------------------------------------------- index --

/// A description in its place among others that are in order of name; one of the
/// same name gives way.
pub open spec fn indexed_with(s: Seq<SpecView>, o: SpecView) -> Seq<SpecView>
    decreases s.len(),
{
    if s.len() == 0 {
        seq![o]
    } else if s[0].name == o.name {
        seq![o] + s.drop_first()
    } else if text_le(o.name, s[0].name) {
        seq![o] + s
    } else {
        seq![s[0]] + indexed_with(s.drop_first(), o)
    }
}

/// The first `n` descriptions in order of name.
pub open spec fn indexed(specs: Seq<SpecView>, n: int) -> Seq<SpecView>
    decreases n,
{
    if n <= 0 {
        Seq::empty()
    } else {
        indexed_with(indexed(specs, n - 1), specs[n - 1])
    }
}

/// Every option in order of name.
pub open spec fn index_of_options(fetch: usize) -> Seq<SpecView> {
    let all = basic_specs() + advanced_specs(fetch);
    indexed(all, all.len() as int)
}

fn put_spec(v: &mut Vec<OptionSpec>, o: OptionSpec)
    ensures
        spec_views(final(v)@) == indexed_with(spec_views(old(v)@), o@),
{
    let ghost all = spec_views(v@);
    let ghost item = o@;
    let n: usize = v.len();
    let mut i: usize = 0;
    assert(all.skip(0) =~= all);
    assert(all.take(0) + indexed_with(all.skip(0), item) =~= indexed_with(all, item));
    while i < n
        invariant
            i <= n == v@.len(),
            *v == *old(v),
            item == o@,
            all == spec_views(v@),
            all.take(i as int) + indexed_with(all.skip(i as int), item) == indexed_with(all, item),
        decreases n - i,
    {
        let ghost rest = all.skip(i as int);
        assert(rest[0] == all[i as int]);
        assert(rest.drop_first() =~= all.skip(i + 1));
        if str_eq(v[i].name, o.name) {
            v.set(i, o);
            assert(spec_views(v@) =~= all.take(i as int) + (seq![item] + rest.drop_first()));
            return;
        }
        if str_le(o.name, v[i].name) {
            v.insert(i, o);
            assert(spec_views(v@) =~= all.take(i as int) + (seq![item] + rest));
            return;
        }
        assert(all.take(i as int) + (seq![rest[0]] + indexed_with(rest.drop_first(), item))
            =~= all.take(i + 1) + indexed_with(all.skip(i + 1), item));
        i += 1;
    }
    v.push(o);
    assert(all.skip(i as int).len() == 0);
    assert(spec_views(v@) =~= all.take(i as int) + seq![item]);
}

/// Put the descriptions of a list into the index, from the last call's end on.
fn put_all(v: &mut Vec<OptionSpec>, from: Vec<OptionSpec>, Ghost(all): Ghost<Seq<SpecView>>, Ghost(
    done,
): Ghost<int>)
    requires
        0 <= done,
        done + from@.len() <= all.len(),
        spec_views(old(v)@) == indexed(all, done),
        all.subrange(done, done + from@.len()) == spec_views(from@),
    ensures
        spec_views(final(v)@) == indexed(all, done + from@.len()),
{
    let mut rest = from;
    let n: usize = rest.len();
    let ghost specs = spec_views(from@);
    let mut i: usize = 0;
    while i < n
        invariant
            0 <= done,
            i <= n == from@.len(),
            done + n <= all.len(),
            rest@ == from@.skip(i as int),
            specs == spec_views(from@),
            all.subrange(done, done + n) == specs,
            spec_views(v@) == indexed(all, done + i),
        decreases n - i,
    {
        assert(rest@[0] == from@[i as int]);
        let o = rest.remove(0);
        assert(rest@ =~= from@.skip(i + 1));
        assert(all.subrange(done, done + n)[i as int] == all[done + i]);
        assert(specs[i as int] == o@);
        put_spec(v, o);
        i += 1;
    }
}

/// Flatten the catalogue into descriptions in order of name.
pub fn spec_index(fetch: usize) -> (r: Vec<OptionSpec>)
    ensures
        spec_views(r@) == index_of_options(fetch),
{
    let basic = basic_options();
    let advanced = advanced_options(fetch);
    let ghost all = basic_specs() + advanced_specs(fetch);
    let ghost n = basic@.len() as int;
    proof {
        assert(spec_views(basic@).len() == basic@.len());
        assert(spec_views(advanced@).len() == advanced@.len());
        assert(all.subrange(0, n) =~= basic_specs());
        assert(all.subrange(n, n + advanced@.len()) =~= advanced_specs(fetch));
    }
    let mut r = no_options();
    put_all(&mut r, basic, Ghost(all), Ghost(0));
    put_all(&mut r, advanced, Ghost(all), Ghost(n));
    r
}

// ------------------------------------------------------------------ values --

/// A value that a request gives, by each way of reading it.
#[derive(Debug)]
pub struct OptionValue {
    /// The value as JSON.
    pub json: String,
    /// As a whole number that is not negative.
    pub whole: Option<u64>,
    /// As a number, and how it is shown.
    pub number: Option<Figure>,
    pub flag: Option<bool>,
    pub text: Option<String>,
}

/// What a value says.
#[verifier::ext_equal]
pub struct ValueView {
    pub json: Seq<char>,
    pub whole: Option<u64>,
    pub number: Option<(Real, Seq<char>)>,
    pub flag: Option<bool>,
    pub text: Option<Seq<char>>,
}

impl View for OptionValue {
    type V = ValueView;

    open spec fn view(&self) -> ValueView {
        ValueView {
            json: self.json@,
            whole: self.whole,
            number: match self.number {
                Some(f) => Some((Real { bits: f.bits }, f.text@)),
                None => None,
            },
            flag: self.flag,
            text: match self.text {
                Some(t) => Some(t@),
                None => None,
            },
        }
    }
}

/// The complaint about a value of the wrong type.
pub open spec fn type_complaint(spec: SpecView, v: ValueView) -> Seq<char> {
    "option \""@ + spec.name + "\" must be a "@ + spec.kind.name() + "; got "@ + v.json
}

/// The complaint about a value out of range.
pub open spec fn range_complaint(
    name: Seq<char>,
    min: Seq<char>,
    max: Seq<char>,
    got: Seq<char>,
) -> Seq<char> {
    "option \""@ + name + "\" must be between "@ + min + " and "@ + max + "; got "@ + got
}

fn type_error(spec: &OptionSpec, got: &OptionValue) -> (r: String)
    ensures
        r@ == type_complaint(spec@, got@),
{
    let mut e = "option \"".to_owned();
    e.append(spec.name);
    e.append("\" must be a ");
    e.append(spec.kind.noun());
    e.append("; got ");
    e.append(got.json.as_str());
    e
}

fn range_error(name: &str, min: &str, max: &str, got: &str) -> (r: String)
    ensures
        r@ == range_complaint(name@, min@, max@, got@),
{
    let mut e = "option \"".to_owned();
    e.append(name);
    e.append("\" must be between ");
    e.append(min);
    e.append(" and ");
    e.append(max);
    e.append("; got ");
    e.append(got);
    e
}

pub open spec fn whole_min(spec: SpecView) -> int {
    match spec.min {
        Some(BoundView::Whole(n)) => n,
        _ => 0,
    }
}

pub open spec fn whole_max(spec: SpecView) -> int {
    match spec.max {
        Some(BoundView::Whole(n)) => n,
        _ => u64::MAX as int,
    }
}

/// The count that a value gives: a whole number in the option's range. Nothing is
/// clamped.
pub open spec fn wanted_count(spec: SpecView, v: ValueView) -> Result<u64, Seq<char>> {
    match v.whole {
        None => Err(type_complaint(spec, v)),
        Some(n) => if n < whole_min(spec) || n > whole_max(spec) {
            Err(
                range_complaint(
                    spec.name,
                    decimal(whole_min(spec) as nat),
                    decimal(whole_max(spec) as nat),
                    decimal(n as nat),
                ),
            )
        } else {
            Ok(n)
        },
    }
}

pub fn want_u64(spec: &OptionSpec, v: &OptionValue) -> (r: Result<u64, String>)
    ensures
        match r {
            Ok(n) => wanted_count(spec@, v@) == Ok::<u64, Seq<char>>(n),
            Err(e) => wanted_count(spec@, v@) == Err::<u64, Seq<char>>(e@),
        },
{
    let n: u64 = match v.whole {
        Some(n) => n,
        None => {
            return Err(type_error(spec, v));
        },
    };
    let min: u64 = match spec.min {
        Some(Bound::Whole(m)) => m,
        _ => 0,
    };
    let max: u64 = match spec.max {
        Some(Bound::Whole(m)) => m,
        _ => u64::MAX,
    };
    if n < min || n > max {
        let a = show(min as u128);
        let b = show(max as u128);
        let c = show(n as u128);
        return Err(range_error(spec.name, a.as_str(), b.as_str(), c.as_str()));
    }
    Ok(n)
}

/// The bit patterns of the least and the greatest finite number, and how they are
/// shown.
pub const LEAST: u64 = 0xFFEF_FFFF_FFFF_FFFF;

pub const GREATEST: u64 = 0x7FEF_FFFF_FFFF_FFFF;

pub const LEAST_SHOWN: &'static str = "-179769313486231570000000000000000000000000000000000000000000000000000000000000000000000000000000000000000000000000000000000000000000000000000000000000000000000000000000000000000000000000000000000000000000000000000000000000000000000000000000000000000000000000000000000000000000000000000000000000000000000000000";

pub const GREATEST_SHOWN: &'static str = "179769313486231570000000000000000000000000000000000000000000000000000000000000000000000000000000000000000000000000000000000000000000000000000000000000000000000000000000000000000000000000000000000000000000000000000000000000000000000000000000000000000000000000000000000000000000000000000000000000000000000000000";

pub open spec fn number_min(spec: SpecView) -> (Real, Seq<char>) {
    match spec.min {
        Some(BoundView::Number(x, t)) => (x, t),
        _ => (Real { bits: LEAST }, LEAST_SHOWN@),
    }
}

pub open spec fn number_max(spec: SpecView) -> (Real, Seq<char>) {
    match spec.max {
        Some(BoundView::Number(x, t)) => (x, t),
        _ => (Real { bits: GREATEST }, GREATEST_SHOWN@),
    }
}

/// The number that a value gives, in the option's range.
pub open spec fn wanted_number(spec: SpecView, v: ValueView) -> Result<Real, Seq<char>> {
    match v.number {
        None => Err(type_complaint(spec, v)),
        Some((x, shown)) => if v.flag is Some {
            Err(type_complaint(spec, v))
        } else if x.rank() < number_min(spec).0.rank() || number_max(spec).0.rank() < x.rank() {
            Err(range_complaint(spec.name, number_min(spec).1, number_max(spec).1, shown))
        } else {
            Ok(x)
        },
    }
}

pub fn want_f64(spec: &OptionSpec, v: &OptionValue) -> (r: Result<Real, String>)
    ensures
        match r {
            Ok(x) => wanted_number(spec@, v@) == Ok::<Real, Seq<char>>(x),
            Err(e) => wanted_number(spec@, v@) == Err::<Real, Seq<char>>(e@),
        },
{
    if v.flag.is_some() {
        return Err(type_error(spec, v));
    }
    match &v.number {
        None => Err(type_error(spec, v)),
        Some(f) => {
            let x = Real { bits: f.bits };
            let (min, min_shown) = match spec.min {
                Some(Bound::Number(m, t)) => (m, t),
                _ => (Real { bits: LEAST }, LEAST_SHOWN),
            };
            let (max, max_shown) = match spec.max {
                Some(Bound::Number(m, t)) => (m, t),
                _ => (Real { bits: GREATEST }, GREATEST_SHOWN),
            };
            if x.below(min) || max.below(x) {
                return Err(range_error(spec.name, min_shown, max_shown, f.text.as_str()));
            }
            Ok(x)
        },
    }
}

pub open spec fn wanted_flag(spec: SpecView, v: ValueView) -> Result<bool, Seq<char>> {
    match v.flag {
        Some(b) => Ok(b),
        None => Err(type_complaint(spec, v)),
    }
}

pub fn want_bool(spec: &OptionSpec, v: &OptionValue) -> (r: Result<bool, String>)
    ensures
        match r {
            Ok(b) => wanted_flag(spec@, v@) == Ok::<bool, Seq<char>>(b),
            Err(e) => wanted_flag(spec@, v@) == Err::<bool, Seq<char>>(e@),
        },
{
    match v.flag {
        Some(b) => Ok(b),
        None => Err(type_error(spec, v)),
    }
}

/// The values that an option lists.
pub open spec fn listed(spec: SpecView) -> Seq<Seq<char>> {
    match spec.values {
        Some(v) => v,
        None => Seq::empty(),
    }
}

/// The text that a value gives, one of those listed.
pub open spec fn wanted_choice(spec: SpecView, v: ValueView) -> Result<Seq<char>, Seq<char>> {
    match v.text {
        None => Err(type_complaint(spec, v)),
        Some(s) => if listed(spec).contains(s) {
            Ok(s)
        } else {
            Err(
                "option \""@ + spec.name + "\" must be one of "@ + join(listed(spec), ", "@)
                    + "; got \""@ + s + "\""@,
            )
        },
    }
}

pub fn want_enum(spec: &OptionSpec, v: &OptionValue) -> (r: Result<String, String>)
    ensures
        match r {
            Ok(s) => wanted_choice(spec@, v@) == Ok::<Seq<char>, Seq<char>>(s@),
            Err(e) => wanted_choice(spec@, v@) == Err::<Seq<char>, Seq<char>>(e@),
        },
{
    let s = match &v.text {
        Some(t) => t.as_str(),
        None => {
            return Err(type_error(spec, v));
        },
    };
    let mut allowed: Vec<String> = Vec::new();
    let mut found: bool = false;
    assert(views(allowed@) =~= Seq::<Seq<char>>::empty());
    match &spec.values {
        Some(list) => {
            let ghost all = str_views(list@);
            let mut i: usize = 0;
            assert(views(allowed@) =~= all.take(0));
            while i < list.len()
                invariant
                    i <= list@.len(),
                    all == str_views(list@),
                    views(allowed@) == all.take(i as int),
                    found == all.take(i as int).contains(s@),
                decreases list@.len() - i,
            {
                let ghost before = allowed@;
                let t = list[i].to_owned();
                assert(t@ == all[i as int]);
                if str_eq(list[i], s) {
                    found = true;
                }
                allowed.push(t);
                assert(views(allowed@) =~= views(before).push(t@));
                assert(all.take(i + 1) =~= all.take(i as int).push(t@));
                proof {
                    lemma_contains_push(all.take(i as int), t@, s@);
                }
                i += 1;
            }
            assert(all.take(i as int) =~= all);
        },
        None => {},
    }
    if found {
        return Ok(s.to_owned());
    }
    let names = join_strings(&allowed, ", ");
    let mut e = "option \"".to_owned();
    e.append(spec.name);
    e.append("\" must be one of ");
    e.append(names.as_str());
    e.append("; got \"");
    e.append(s);
    e.append("\"");
    Err(e)
}

proof fn lemma_contains_push(v: Seq<Seq<char>>, t: Seq<char>, s: Seq<char>)
    ensures
        v.push(t).contains(s) <==> v.contains(s) || t == s,
{
    let w = v.push(t);
    if v.contains(s) {
        let k = choose|k: int| 0 <= k < v.len() && v[k] == s;
        assert(w[k] == s);
    }
    if t == s {
        assert(w[v.len() as int] == s);
    }
    if w.contains(s) && t != s {
        let k = choose|k: int| 0 <= k < w.len() && w[k] == s;
        assert(v[k] == s);
    }
}

pub open spec fn wanted_text(spec: SpecView, v: ValueView) -> Result<Seq<char>, Seq<char>> {
    match v.text {
        Some(s) => Ok(s),
        None => Err(type_complaint(spec, v)),
    }
}

pub fn want_string(spec: &OptionSpec, v: &OptionValue) -> (r: Result<String, String>)
    ensures
        match r {
            Ok(s) => wanted_text(spec@, v@) == Ok::<Seq<char>, Seq<char>>(s@),
            Err(e) => wanted_text(spec@, v@) == Err::<Seq<char>, Seq<char>>(e@),
        },
{
    match &v.text {
        Some(t) => Ok(t.as_str().to_owned()),
        None => Err(type_error(spec, v)),
    }
}

/// The engines of that name, if there are any.
pub open spec fn engines_named(s: Seq<char>) -> Option<SearchEngines> {
    if s == "auto"@ {
        Some(SearchEngines::Auto)
    } else if s == "ddg"@ {
        Some(SearchEngines::Ddg)
    } else if s == "jina"@ {
        Some(SearchEngines::Jina)
    } else {
        None
    }
}

pub fn parse_engines(s: &str) -> (r: Option<SearchEngines>)
    ensures
        r == engines_named(s@),
{
    if str_eq(s, "auto") {
        Some(SearchEngines::Auto)
    } else if str_eq(s, "ddg") {
        Some(SearchEngines::Ddg)
    } else if str_eq(s, "jina") {
        Some(SearchEngines::Jina)
    } else {
        None
    }
}

// ------------------------------------------------------------- run options --

/// Everything one request may change about a run.
#[derive(Debug, Clone)]
pub struct RunOptions {
    pub preset: Preset,
    pub format: Format,
    /// `Auto` means what the server was started with.
    pub engines: SearchEngines,
    pub tune: Tunables,
    /// `None` means what the process was started with.
    pub fetch_concurrency: Option<usize>,
    pub auto: bool,
    pub follow: bool,
    pub enrich: bool,
    pub llm_model: Option<String>,
    pub planner_model: Option<String>,
    pub thinking_control: Option<ThinkingControl>,
    pub planner_thinking_control: Option<ThinkingControl>,
}

/// What run options say.
#[verifier::ext_equal]
pub struct RunOptionsView {
    pub preset: Preset,
    pub format: Format,
    pub engines: SearchEngines,
    pub tune: Tunables,
    pub fetch_concurrency: Option<usize>,
    pub auto: bool,
    pub follow: bool,
    pub enrich: bool,
    pub llm_model: Option<Seq<char>>,
    pub planner_model: Option<Seq<char>>,
    pub thinking_control: Option<ThinkingControl>,
    pub planner_thinking_control: Option<ThinkingControl>,
}

pub open spec fn opt_text(s: Option<String>) -> Option<Seq<char>> {
    match s {
        Some(t) => Some(t@),
        None => None,
    }
}

impl View for RunOptions {
    type V = RunOptionsView;

    open spec fn view(&self) -> RunOptionsView {
        RunOptionsView {
            preset: self.preset,
            format: self.format,
            engines: self.engines,
            tune: self.tune,
            fetch_concurrency: self.fetch_concurrency,
            auto: self.auto,
            follow: self.follow,
            enrich: self.enrich,
            llm_model: opt_text(self.llm_model),
            planner_model: opt_text(self.planner_model),
            thinking_control: self.thinking_control,
            planner_thinking_control: self.planner_thinking_control,
        }
    }
}

impl RunOptionsView {
    /// A preset and nothing else.
    pub open spec fn of_preset(p: Preset) -> RunOptionsView {
        RunOptionsView {
            preset: p,
            format: Format::Markdown,
            engines: SearchEngines::Auto,
            tune: p.settings(),
            fetch_concurrency: None,
            auto: true,
            follow: true,
            enrich: true,
            llm_model: None,
            planner_model: None,
            thinking_control: None,
            planner_thinking_control: None,
        }
    }
}

impl Default for RunOptions {
    fn default() -> (r: Self)
        ensures
            r@ == RunOptionsView::of_preset(Preset::Standard),
    {
        RunOptions {
            preset: Preset::Standard,
            format: Format::Markdown,
            engines: SearchEngines::Auto,
            tune: Tunables::default(),
            fetch_concurrency: None,
            auto: true,
            follow: true,
            enrich: true,
            llm_model: None,
            planner_model: None,
            thinking_control: None,
            planner_thinking_control: None,
        }
    }
}

/// The settings with a count changed, for the options that are counts.
pub open spec fn with_count(t: Tunables, name: Seq<char>, n: usize) -> Option<Tunables> {
    if name == "max_rounds"@ {
        Some(Tunables { max_rounds: n, ..t })
    } else if name == "max_barren_rounds"@ {
        Some(Tunables { max_barren_rounds: n, ..t })
    } else if name == "queries_per_round"@ {
        Some(Tunables { queries_per_round: n, ..t })
    } else if name == "results_per_query"@ {
        Some(Tunables { results_per_query: n, ..t })
    } else if name == "read_per_query"@ {
        Some(Tunables { read_per_query: n, ..t })
    } else if name == "concurrency"@ {
        Some(Tunables { concurrency: n, ..t })
    } else if name == "max_questions_per_request"@ {
        Some(Tunables { max_questions_per_request: n, ..t })
    } else if name == "enrich_batch"@ {
        Some(Tunables { enrich_batch: n, ..t })
    } else if name == "enrich_read"@ {
        Some(Tunables { enrich_read: n, ..t })
    } else if name == "max_follow_per_page"@ {
        Some(Tunables { max_follow_per_page: n, ..t })
    } else {
        None
    }
}

fn set_count(t: Tunables, name: &str, n: usize) -> (r: Option<Tunables>)
    ensures
        r == with_count(t, name@, n),
{
    if str_eq(name, "max_rounds") {
        Some(Tunables { max_rounds: n, ..t })
    } else if str_eq(name, "max_barren_rounds") {
        Some(Tunables { max_barren_rounds: n, ..t })
    } else if str_eq(name, "queries_per_round") {
        Some(Tunables { queries_per_round: n, ..t })
    } else if str_eq(name, "results_per_query") {
        Some(Tunables { results_per_query: n, ..t })
    } else if str_eq(name, "read_per_query") {
        Some(Tunables { read_per_query: n, ..t })
    } else if str_eq(name, "concurrency") {
        Some(Tunables { concurrency: n, ..t })
    } else if str_eq(name, "max_questions_per_request") {
        Some(Tunables { max_questions_per_request: n, ..t })
    } else if str_eq(name, "enrich_batch") {
        Some(Tunables { enrich_batch: n, ..t })
    } else if str_eq(name, "enrich_read") {
        Some(Tunables { enrich_read: n, ..t })
    } else if str_eq(name, "max_follow_per_page") {
        Some(Tunables { max_follow_per_page: n, ..t })
    } else {
        None
    }
}

/// The settings with a share changed, for the options that are numbers.
pub open spec fn with_share(t: Tunables, name: Seq<char>, x: Real) -> Option<Tunables> {
    if name == "grounding_floor"@ {
        Some(Tunables { grounding_floor: x, ..t })
    } else if name == "constraint_floor"@ {
        Some(Tunables { constraint_floor: x, ..t })
    } else if name == "claim_floor"@ {
        Some(Tunables { claim_floor: x, ..t })
    } else if name == "currency_floor"@ {
        Some(Tunables { currency_floor: x, ..t })
    } else if name == "query_gate_floor"@ {
        Some(Tunables { query_gate_floor: x, ..t })
    } else if name == "follow_floor"@ {
        Some(Tunables { follow_floor: x, ..t })
    } else if name == "select_confidence"@ {
        Some(Tunables { select_confidence: x, ..t })
    } else {
        None
    }
}

fn set_share(t: Tunables, name: &str, x: Real) -> (r: Option<Tunables>)
    ensures
        r == with_share(t, name@, x),
{
    if str_eq(name, "grounding_floor") {
        Some(Tunables { grounding_floor: x, ..t })
    } else if str_eq(name, "constraint_floor") {
        Some(Tunables { constraint_floor: x, ..t })
    } else if str_eq(name, "claim_floor") {
        Some(Tunables { claim_floor: x, ..t })
    } else if str_eq(name, "currency_floor") {
        Some(Tunables { currency_floor: x, ..t })
    } else if str_eq(name, "query_gate_floor") {
        Some(Tunables { query_gate_floor: x, ..t })
    } else if str_eq(name, "follow_floor") {
        Some(Tunables { follow_floor: x, ..t })
    } else if str_eq(name, "select_confidence") {
        Some(Tunables { select_confidence: x, ..t })
    } else {
        None
    }
}

/// The run with something switched off, for the options that switch.
pub open spec fn with_switch(o: RunOptionsView, name: Seq<char>, off: bool) -> Option<
    RunOptionsView,
> {
    if name == "no_plan"@ {
        Some(RunOptionsView { tune: Tunables { research_plan: !off, ..o.tune }, ..o })
    } else if name == "no_search_cache"@ {
        Some(RunOptionsView { tune: Tunables { search_cache: !off, ..o.tune }, ..o })
    } else if name == "no_follow"@ {
        Some(RunOptionsView { follow: !off, ..o })
    } else if name == "no_enrich"@ {
        Some(RunOptionsView { enrich: !off, ..o })
    } else if name == "no_auto"@ {
        Some(RunOptionsView { auto: !off, ..o })
    } else {
        None
    }
}

/// Switch something off; false where the name is none of the switches.
fn set_switch(o: &mut RunOptions, name: &str, off: bool) -> (r: bool)
    ensures
        match with_switch(old(o)@, name@, off) {
            Some(v) => r && final(o)@ == v,
            None => !r && *final(o) == *old(o),
        },
{
    if str_eq(name, "no_plan") {
        o.tune.research_plan = !off;
    } else if str_eq(name, "no_search_cache") {
        o.tune.search_cache = !off;
    } else if str_eq(name, "no_follow") {
        o.follow = !off;
    } else if str_eq(name, "no_enrich") {
        o.enrich = !off;
    } else if str_eq(name, "no_auto") {
        o.auto = !off;
    } else {
        return false;
    }
    true
}

/// A name that says something.
pub open spec fn unless_blank(s: Seq<char>) -> Option<Seq<char>> {
    if blank(s) {
        None
    } else {
        Some(s)
    }
}

fn filled(s: String) -> (r: Option<String>)
    ensures
        opt_text(r) == unless_blank(s@),
{
    if is_blank_str(s.as_str()) {
        None
    } else {
        Some(s)
    }
}

pub open spec fn no_such(name: Seq<char>, what: Seq<char>, s: Seq<char>) -> Seq<char> {
    "option \""@ + name + "\" has no such "@ + what + ": \""@ + s + "\""@
}

fn no_such_error(name: &str, what: &str, s: &str) -> (r: String)
    ensures
        r@ == no_such(name@, what@, s@),
{
    let mut e = "option \"".to_owned();
    e.append(name);
    e.append("\" has no such ");
    e.append(what);
    e.append(": \"");
    e.append(s);
    e.append("\"");
    e
}

/// The run with a choice applied, for the options that list their values.
pub open spec fn with_choice(o: RunOptionsView, name: Seq<char>, s: Seq<char>) -> Result<
    RunOptionsView,
    Seq<char>,
> {
    if name == "format"@ {
        match format_named(s) {
            Some(f) => Ok(RunOptionsView { format: f, ..o }),
            None => Err(no_such(name, "format"@, s)),
        }
    } else if name == "search_engines"@ {
        match engines_named(s) {
            Some(e) => Ok(RunOptionsView { engines: e, ..o }),
            None => Err(no_such(name, "engine"@, s)),
        }
    } else if name == "thinking_control"@ {
        match thinking_named(s) {
            Some(c) => Ok(RunOptionsView { thinking_control: Some(c), ..o }),
            None => Err(no_such(name, "mode"@, s)),
        }
    } else {
        match thinking_named(s) {
            Some(c) => Ok(RunOptionsView { planner_thinking_control: Some(c), ..o }),
            None => Err(no_such(name, "mode"@, s)),
        }
    }
}

fn set_choice(o: &mut RunOptions, name: &str, s: &str) -> (r: Result<(), String>)
    ensures
        match r {
            Ok(_) => with_choice(old(o)@, name@, s@) == Ok::<RunOptionsView, Seq<char>>(
                final(o)@,
            ),
            Err(e) => with_choice(old(o)@, name@, s@) == Err::<RunOptionsView, Seq<char>>(e@),
        },
{
    if str_eq(name, "format") {
        match parse_format(s) {
            Some(f) => {
                o.format = f;
            },
            None => {
                return Err(no_such_error(name, "format", s));
            },
        }
    } else if str_eq(name, "search_engines") {
        match parse_engines(s) {
            Some(e) => {
                o.engines = e;
            },
            None => {
                return Err(no_such_error(name, "engine", s));
            },
        }
    } else if str_eq(name, "thinking_control") {
        match parse_thinking(s) {
            Some(c) => {
                o.thinking_control = Some(c);
            },
            None => {
                return Err(no_such_error(name, "mode", s));
            },
        }
    } else {
        match parse_thinking(s) {
            Some(c) => {
                o.planner_thinking_control = Some(c);
            },
            None => {
                return Err(no_such_error(name, "mode", s));
            },
        }
    }
    Ok(())
}

pub open spec fn is_choice(name: Seq<char>) -> bool {
    name == "format"@ || name == "search_engines"@ || name == "thinking_control"@ || name
        == "planner_thinking_control"@
}

/// The run with one option applied, or why it is refused.
pub open spec fn with_option(o: RunOptionsView, spec: SpecView, v: ValueView) -> Result<
    RunOptionsView,
    Seq<char>,
> {
    let name = spec.name;
    if name == "preset"@ {
        Ok(o)
    } else if is_choice(name) {
        match wanted_choice(spec, v) {
            Err(e) => Err(e),
            Ok(s) => with_choice(o, name, s),
        }
    } else if with_count(o.tune, name, 0) is Some {
        match wanted_count(spec, v) {
            Err(e) => Err(e),
            Ok(n) => Ok(RunOptionsView { tune: with_count(o.tune, name, n as usize)->0, ..o }),
        }
    } else if name == "fetch_concurrency"@ {
        match wanted_count(spec, v) {
            Err(e) => Err(e),
            Ok(n) => Ok(RunOptionsView { fetch_concurrency: Some(n as usize), ..o }),
        }
    } else if name == "search_cache_ttl"@ {
        match wanted_count(spec, v) {
            Err(e) => Err(e),
            Ok(n) => Ok(RunOptionsView { tune: Tunables { search_cache_ttl: n, ..o.tune }, ..o }),
        }
    } else if with_share(o.tune, name, Real { bits: 0 }) is Some {
        match wanted_number(spec, v) {
            Err(e) => Err(e),
            Ok(x) => Ok(RunOptionsView { tune: with_share(o.tune, name, x)->0, ..o }),
        }
    } else if with_switch(o, name, false) is Some {
        match wanted_flag(spec, v) {
            Err(e) => Err(e),
            Ok(b) => Ok(with_switch(o, name, b)->0),
        }
    } else if name == "llm_model"@ {
        match wanted_text(spec, v) {
            Err(e) => Err(e),
            Ok(s) => Ok(RunOptionsView { llm_model: unless_blank(s), ..o }),
        }
    } else if name == "planner_model"@ {
        match wanted_text(spec, v) {
            Err(e) => Err(e),
            Ok(s) => Ok(RunOptionsView { planner_model: unless_blank(s), ..o }),
        }
    } else {
        Err("option \""@ + name + "\" is not applied by the server"@)
    }
}

/// Apply one option to a run.
fn apply_option(o: &mut RunOptions, spec: &OptionSpec, v: &OptionValue) -> (r: Result<(), String>)
    ensures
        match r {
            Ok(_) => with_option(old(o)@, spec@, v@) == Ok::<RunOptionsView, Seq<char>>(
                final(o)@,
            ),
            Err(e) => with_option(old(o)@, spec@, v@) == Err::<RunOptionsView, Seq<char>>(e@),
        },
{
    let name = spec.name;
    if str_eq(name, "preset") {
        return Ok(());
    }
    if str_eq(name, "format") || str_eq(name, "search_engines") || str_eq(name, "thinking_control")
        || str_eq(name, "planner_thinking_control") {
        return match want_enum(spec, v) {
            Ok(s) => set_choice(o, name, s.as_str()),
            Err(e) => Err(e),
        };
    }
    if set_count(o.tune, name, 0).is_some() {
        return match want_u64(spec, v) {
            Ok(n) => {
                match set_count(o.tune, name, n as usize) {
                    Some(t) => {
                        o.tune = t;
                    },
                    None => {},
                }
                Ok(())
            },
            Err(e) => Err(e),
        };
    }
    if str_eq(name, "fetch_concurrency") {
        return match want_u64(spec, v) {
            Ok(n) => {
                o.fetch_concurrency = Some(n as usize);
                Ok(())
            },
            Err(e) => Err(e),
        };
    }
    if str_eq(name, "search_cache_ttl") {
        return match want_u64(spec, v) {
            Ok(n) => {
                o.tune.search_cache_ttl = n;
                Ok(())
            },
            Err(e) => Err(e),
        };
    }
    if set_share(o.tune, name, Real { bits: 0 }).is_some() {
        return match want_f64(spec, v) {
            Ok(x) => {
                match set_share(o.tune, name, x) {
                    Some(t) => {
                        o.tune = t;
                    },
                    None => {},
                }
                Ok(())
            },
            Err(e) => Err(e),
        };
    }
    if str_eq(name, "no_plan") || str_eq(name, "no_search_cache") || str_eq(name, "no_follow")
        || str_eq(name, "no_enrich") || str_eq(name, "no_auto") {
        return match want_bool(spec, v) {
            Ok(b) => {
                let _ = set_switch(o, name, b);
                Ok(())
            },
            Err(e) => Err(e),
        };
    }
    if str_eq(name, "llm_model") {
        return match want_string(spec, v) {
            Ok(s) => {
                o.llm_model = filled(s);
                Ok(())
            },
            Err(e) => Err(e),
        };
    }
    if str_eq(name, "planner_model") {
        return match want_string(spec, v) {
            Ok(s) => {
                o.planner_model = filled(s);
                Ok(())
            },
            Err(e) => Err(e),
        };
    }
    let mut e = "option \"".to_owned();
    e.append(name);
    e.append("\" is not applied by the server");
    Err(e)
}

// ---------------------------------------------------------------- requests --

/// What a request's options say.
pub open spec fn option_views(v: Seq<(String, OptionValue)>) -> Seq<(Seq<char>, ValueView)> {
    v.map_values(|e: (String, OptionValue)| (e.0@, e.1@))
}

/// The value that a request gives an option, by its first entry.
pub open spec fn given(opts: Seq<(Seq<char>, ValueView)>, name: Seq<char>, i: int) -> Option<
    ValueView,
>
    decreases opts.len() - i,
{
    if i < 0 || i >= opts.len() {
        None
    } else if opts[i].0 == name {
        Some(opts[i].1)
    } else {
        given(opts, name, i + 1)
    }
}

/// The catalogue has an option of that name.
pub open spec fn offered(index: Seq<SpecView>, name: Seq<char>) -> bool {
    exists|i: int| 0 <= i < index.len() && (#[trigger] index[i]).name == name
}

/// The names among the first `n` entries that the catalogue does not have, in
/// order.
pub open spec fn not_offered(
    index: Seq<SpecView>,
    opts: Seq<(Seq<char>, ValueView)>,
    n: int,
) -> Seq<Seq<char>>
    decreases n,
{
    if n <= 0 {
        Seq::empty()
    } else {
        let before = not_offered(index, opts, n - 1);
        if offered(index, opts[n - 1].0) {
            before
        } else {
            placed(before, opts[n - 1].0)
        }
    }
}

/// The names, each in quotes.
pub open spec fn in_quotes(names: Seq<Seq<char>>) -> Seq<Seq<char>> {
    names.map_values(|n: Seq<char>| "\""@ + n + "\""@)
}

/// The complaint about options that the catalogue does not have: all of them at
/// once.
pub open spec fn unknown_complaint(names: Seq<Seq<char>>) -> Seq<char> {
    "unknown option"@ + (if names.len() == 1 {
        ""@
    } else {
        "s"@
    }) + ": "@ + join(in_quotes(names), ", "@)
        + ". Credentials, endpoints and binary paths are server configuration and cannot be set per request."@
}

/// The description of the preset option.
pub open spec fn preset_spec() -> SpecView {
    basic_specs()[0]
}

/// The preset that a request starts from.
pub open spec fn base_preset(opts: Seq<(Seq<char>, ValueView)>) -> Result<Preset, Seq<char>> {
    match given(opts, "preset"@, 0) {
        None => Ok(Preset::Standard),
        Some(v) => match wanted_choice(preset_spec(), v) {
            Err(e) => Err(e),
            Ok(s) => match Preset::named(s) {
                Some(p) => Ok(p),
                None => Err(no_such("preset"@, "preset"@, s)),
            },
        },
    }
}

/// The run with the options from the `i`-th of the index on applied, in the order
/// of the index: two requests with the same options come to the same.
pub open spec fn applied_from(
    index: Seq<SpecView>,
    opts: Seq<(Seq<char>, ValueView)>,
    o: RunOptionsView,
    i: int,
) -> Result<RunOptionsView, Seq<char>>
    decreases index.len() - i,
{
    if i < 0 || i >= index.len() {
        Ok(o)
    } else {
        match given(opts, index[i].name, 0) {
            None => applied_from(index, opts, o, i + 1),
            Some(v) => match with_option(o, index[i], v) {
                Ok(p) => applied_from(index, opts, p, i + 1),
                Err(e) => Err(e),
            },
        }
    }
}

/// What a request's options come to.
pub open spec fn folded(index: Seq<SpecView>, opts: Seq<(Seq<char>, ValueView)>) -> Result<
    RunOptionsView,
    Seq<char>,
> {
    let unknown = not_offered(index, opts, opts.len() as int);
    if unknown.len() > 0 {
        Err(unknown_complaint(unknown))
    } else {
        match base_preset(opts) {
            Err(e) => Err(e),
            Ok(p) => applied_from(index, opts, RunOptionsView::of_preset(p), 0),
        }
    }
}

fn find_given<'a>(opts: &'a Vec<(String, OptionValue)>, name: &str) -> (r: Option<&'a OptionValue>)
    ensures
        match r {
            Some(v) => given(option_views(opts@), name@, 0) == Some(v@),
            None => given(option_views(opts@), name@, 0) is None,
        },
{
    let ghost all = option_views(opts@);
    let mut i: usize = 0;
    while i < opts.len()
        invariant
            i <= opts@.len(),
            all == option_views(opts@),
            given(all, name@, 0) == given(all, name@, i as int),
        decreases opts@.len() - i,
    {
        assert(all[i as int] == (opts@[i as int].0@, opts@[i as int].1@));
        if str_eq(opts[i].0.as_str(), name) {
            return Some(&opts[i].1);
        }
        i += 1;
    }
    None
}

fn is_offered(index: &Vec<OptionSpec>, name: &str) -> (r: bool)
    ensures
        r == offered(spec_views(index@), name@),
{
    let ghost all = spec_views(index@);
    let mut i: usize = 0;
    while i < index.len()
        invariant
            i <= index@.len(),
            all == spec_views(index@),
            forall|k: int| 0 <= k < i ==> (#[trigger] all[k]).name != name@,
        decreases index@.len() - i,
    {
        assert(all[i as int] == index@[i as int]@);
        if str_eq(index[i].name, name) {
            assert(all[i as int].name == name@);
            return true;
        }
        i += 1;
    }
    false
}

fn unknown_error(names: &Vec<String>) -> (r: String)
    ensures
        r@ == unknown_complaint(views(names@)),
{
    let ghost all = in_quotes(views(names@));
    let mut marked: Vec<String> = Vec::new();
    let mut i: usize = 0;
    assert(views(marked@) =~= all.take(0));
    while i < names.len()
        invariant
            i <= names@.len(),
            all == in_quotes(views(names@)),
            views(marked@) == all.take(i as int),
        decreases names@.len() - i,
    {
        let mut t = "\"".to_owned();
        t.append(names[i].as_str());
        t.append("\"");
        assert(t@ == all[i as int]);
        let ghost before = marked@;
        marked.push(t);
        assert(views(marked@) =~= views(before).push(t@));
        assert(all.take(i + 1) =~= all.take(i as int).push(t@));
        i += 1;
    }
    assert(all.take(i as int) =~= all);
    let list = join_strings(&marked, ", ");
    let mut e = "unknown option".to_owned();
    assert(views(names@).len() == names@.len());
    if names.len() == 1 {
        e.append("");
    } else {
        e.append("s");
    }
    e.append(": ");
    e.append(list.as_str());
    e.append(
        ". Credentials, endpoints and binary paths are server configuration and cannot be set per request.",
    );
    e
}

/// The preset that a request starts from.
fn read_preset(opts: &Vec<(String, OptionValue)>) -> (r: Result<Preset, String>)
    ensures
        match r {
            Ok(p) => base_preset(option_views(opts@)) == Ok::<Preset, Seq<char>>(p),
            Err(e) => base_preset(option_views(opts@)) == Err::<Preset, Seq<char>>(e@),
        },
{
    match find_given(opts, "preset") {
        None => Ok(Preset::Standard),
        Some(v) => {
            let specs = basic_options();
            assert(basic_specs().len() == 4);
            assert(spec_views(specs@).len() == specs@.len());
            assert(spec_views(specs@)[0] == specs@[0]@);
            match want_enum(&specs[0], v) {
                Err(e) => Err(e),
                Ok(s) => match Preset::parse(s.as_str()) {
                    Some(p) => Ok(p),
                    None => Err(no_such_error("preset", "preset", s.as_str())),
                },
            }
        },
    }
}

impl RunOptions {
    /// Validate a request's options and fold them onto a preset. Nothing is
    /// clamped, and a name that the catalogue does not have is an error: a typo, or
    /// an attempt to pass a key, fails loudly.
    pub fn from_map(opts: &Vec<(String, OptionValue)>) -> (r: Result<RunOptions, String>)
        ensures
            match r {
                Ok(o) => folded(index_of_options(8), option_views(opts@)) == Ok::<
                    RunOptionsView,
                    Seq<char>,
                >(o@),
                Err(e) => folded(index_of_options(8), option_views(opts@)) == Err::<
                    RunOptionsView,
                    Seq<char>,
                >(e@),
            },
    {
        let index = spec_index(8);
        let ghost specs = index_of_options(8);
        let ghost all = option_views(opts@);
        let mut unknown: Vec<String> = Vec::new();
        let mut i: usize = 0;
        assert(views(unknown@) =~= Seq::<Seq<char>>::empty());
        while i < opts.len()
            invariant
                i <= opts@.len(),
                spec_views(index@) == specs,
                all == option_views(opts@),
                views(unknown@) == not_offered(specs, all, i as int),
            decreases opts@.len() - i,
        {
            assert(all[i as int].0 == opts@[i as int].0@);
            if !is_offered(&index, opts[i].0.as_str()) {
                place_name(&mut unknown, opts[i].0.as_str());
            }
            i += 1;
        }
        assert(all.len() == opts@.len());
        assert(views(unknown@).len() == unknown@.len());
        if unknown.len() > 0 {
            return Err(unknown_error(&unknown));
        }
        let preset = match read_preset(opts) {
            Ok(p) => p,
            Err(e) => {
                return Err(e);
            },
        };
        let mut out = RunOptions::default();
        out.preset = preset;
        out.tune = preset.tunables();
        let ghost base = RunOptionsView::of_preset(preset);
        assert(out@ == base);
        let mut k: usize = 0;
        while k < index.len()
            invariant
                k <= index@.len(),
                spec_views(index@) == specs,
                all == option_views(opts@),
                specs == index_of_options(8),
                folded(specs, all) == applied_from(specs, all, base, 0),
                applied_from(specs, all, base, 0) == applied_from(specs, all, out@, k as int),
            decreases index@.len() - k,
        {
            assert(specs[k as int] == index@[k as int]@);
            match find_given(opts, index[k].name) {
                None => {},
                Some(v) => {
                    match apply_option(&mut out, &index[k], v) {
                        Ok(_) => {},
                        Err(e) => {
                            return Err(e);
                        },
                    }
                },
            }
            k += 1;
        }
        assert(specs.len() == index@.len());
        Ok(out)
    }
}

// -------------------------------------------------------------------- laws --

/// Requests that give every option the same value come to the same run, in whatever
/// order they list them.
pub proof fn law_same_options_same_run(
    index: Seq<SpecView>,
    a: Seq<(Seq<char>, ValueView)>,
    b: Seq<(Seq<char>, ValueView)>,
)
    requires
        not_offered(index, a, a.len() as int).len() == 0,
        not_offered(index, b, b.len() as int).len() == 0,
        forall|name: Seq<char>| #[trigger] given(a, name, 0) == given(b, name, 0),
    ensures
        folded(index, a) == folded(index, b),
{
    assert(given(a, "preset"@, 0) == given(b, "preset"@, 0));
    match base_preset(a) {
        Ok(p) => {
            lemma_applied_same(index, a, b, RunOptionsView::of_preset(p), 0);
        },
        Err(_) => {},
    }
}

proof fn lemma_applied_same(
    index: Seq<SpecView>,
    a: Seq<(Seq<char>, ValueView)>,
    b: Seq<(Seq<char>, ValueView)>,
    o: RunOptionsView,
    i: int,
)
    requires
        0 <= i,
        forall|name: Seq<char>| #[trigger] given(a, name, 0) == given(b, name, 0),
    ensures
        applied_from(index, a, o, i) == applied_from(index, b, o, i),
    decreases index.len() - i,
{
    if i < index.len() {
        assert(given(a, index[i].name, 0) == given(b, index[i].name, 0));
        match given(a, index[i].name, 0) {
            None => {
                lemma_applied_same(index, a, b, o, i + 1);
            },
            Some(v) => match with_option(o, index[i], v) {
                Ok(p) => {
                    lemma_applied_same(index, a, b, p, i + 1);
                },
                Err(_) => {},
            },
        }
    }
}

proof fn lemma_not_offered(index: Seq<SpecView>, opts: Seq<(Seq<char>, ValueView)>, k: int, n: int)
    requires
        0 <= k < n <= opts.len(),
        !offered(index, opts[k].0),
    ensures
        not_offered(index, opts, n).len() > 0,
    decreases n,
{
    let before = not_offered(index, opts, n - 1);
    if k < n - 1 {
        lemma_not_offered(index, opts, k, n - 1);
    }
    if !offered(index, opts[n - 1].0) {
        lemma_placed_some(before, opts[n - 1].0);
    }
}

proof fn lemma_placed_some(s: Seq<Seq<char>>, k: Seq<char>)
    ensures
        placed(s, k).len() > 0,
    decreases s.len(),
{
}

/// A request that names something the catalogue does not have, a credential for
/// one, is refused whatever else it says.
pub proof fn law_unknown_names_are_refused(
    index: Seq<SpecView>,
    opts: Seq<(Seq<char>, ValueView)>,
    k: int,
)
    requires
        0 <= k < opts.len(),
        !offered(index, opts[k].0),
    ensures
        folded(index, opts) is Err,
{
    lemma_not_offered(index, opts, k, opts.len() as int);
}

/// A request without options is the standard preset.
pub proof fn law_no_options_is_standard(index: Seq<SpecView>)
    ensures
        folded(index, Seq::empty()) == Ok::<RunOptionsView, Seq<char>>(
            RunOptionsView::of_preset(Preset::Standard),
        ),
{
    lemma_applied_none(index, RunOptionsView::of_preset(Preset::Standard), 0);
}

proof fn lemma_applied_none(index: Seq<SpecView>, o: RunOptionsView, i: int)
    requires
        0 <= i,
    ensures
        applied_from(index, Seq::empty(), o, i) == Ok::<RunOptionsView, Seq<char>>(o),
    decreases index.len() - i,
{
    if i < index.len() {
        lemma_applied_none(index, o, i + 1);
    }
}

/// There is code behind an option of this name.
pub open spec fn recognised(name: Seq<char>) -> bool {
    let t = Tunables::standard();
    ||| name == "preset"@
    ||| is_choice(name)
    ||| with_count(t, name, 0) is Some
    ||| name == "fetch_concurrency"@
    ||| name == "search_cache_ttl"@
    ||| with_share(t, name, Real { bits: 0 }) is Some
    ||| with_switch(RunOptionsView::of_preset(Preset::Standard), name, false) is Some
    ||| name == "llm_model"@
    ||| name == "planner_model"@
}

/// An option's default is a value that the option takes.
pub open spec fn default_fits(s: SpecView) -> bool {
    match s.default {
        SettingView::Whole(n) => s.kind == OptionType::Integer && whole_min(s) <= n <= whole_max(s),
        SettingView::Number(x) => s.kind == OptionType::Number && number_min(s).0.rank() <= x.rank()
            <= number_max(s).0.rank(),
        SettingView::Flag(_) => s.kind == OptionType::Boolean,
        SettingView::Text(t) => if s.kind == OptionType::Enum {
            listed(s).contains(t)
        } else {
            s.kind == OptionType::String
        },
    }
}

/// Every option of the plain form has code behind it and a default that it takes.
pub proof fn law_basic_options_are_backed(i: int)
    requires
        0 <= i < basic_specs().len(),
    ensures
        recognised(basic_specs()[i].name),
        default_fits(basic_specs()[i]),
{
    assert(presets()[1] == "standard"@);
    assert(formats()[0] == "markdown"@);
    assert(engines()[0] == "auto"@);
}

/// Every option behind the plain form has code behind it and a default that it
/// takes.
pub proof fn law_advanced_options_are_backed(fetch: usize, i: int)
    requires
        1 <= fetch <= 64,
        0 <= i < advanced_specs(fetch).len(),
    ensures
        recognised(advanced_specs(fetch)[i].name),
        default_fits(advanced_specs(fetch)[i]),
{
    assert(thinkings()[0] == "auto"@);
}

} // verus!
