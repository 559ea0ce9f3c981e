//! Talking to an OpenAI-compatible generative endpoint: what is sent, what is made
//! of the reply, and when to try again.
//!
//! The bytes travel elsewhere. Here stand the request, the escalation when
//! reasoning eats the budget, and the reading of a streamed reply.
use vstd::prelude::*;
use vstd::string::*;
use crate::chunk::{truncate, truncated};
use crate::json::{
    add_item, add_member, item_shapes, law_setting_a_member_keeps_the_others, list, member_from,
    member_shapes, no_items, no_members, number, object, set_member, string, with_member, Json,
    Shape,
};
use crate::numeral::{decimal, show};
use crate::repair::{
    extract_first_json_object, first_object, payload, run_after, salvage_truncated_json, salvaged,
    solid_chars, sse_data, stall_progressed, strip_code_fence, unfenced, whitespace_run,
    STALL_OPENING, STALL_WHITESPACE,
};
use crate::scan::{
    blank, ends, ends_with, holds, is_blank, is_blank_str, str_contains, trim_end, trim_end_bound,
};
use crate::text::{
    byte_len, byte_length, from_chars, from_range, lowercase, push_str, str_eq, to_chars, to_lower,
};
use crate::types::Figure;
use crate::urls::{from_utf8_lossy, parse_url, text_of_bytes, url_parts, ParsedUrl, UrlView};

verus! {

// ---------------------------------------------------------------- thinking --

/// How an endpoint's reasoning is switched on and off.
#[derive(Debug, Clone, Copy, PartialEq, Eq, Structural)]
pub enum ThinkingControl {
    /// OpenRouter's form: `reasoning.effort` and `reasoning.enabled`.
    OpenRouter,
    /// vLLM's form: `chat_template_kwargs.enable_thinking`.
    Vllm,
    /// The effort string: `reasoning_effort`.
    Effort,
    /// No reasoning parameter at all.
    Off,
    /// OpenRouter's form for OpenRouter hosts, none everywhere else.
    Auto,
}

impl ThinkingControl {
    pub open spec fn label(self) -> Seq<char> {
        match self {
            ThinkingControl::OpenRouter => "openrouter"@,
            ThinkingControl::Vllm => "vllm"@,
            ThinkingControl::Effort => "effort"@,
            ThinkingControl::Off => "off"@,
            ThinkingControl::Auto => "auto"@,
        }
    }
}

impl Default for ThinkingControl {
    fn default() -> (r: Self)
        ensures
            r == ThinkingControl::Auto,
    {
        ThinkingControl::Auto
    }
}

/// The control of that name, if there is one.
pub open spec fn thinking_named(s: Seq<char>) -> Option<ThinkingControl> {
    if s == "openrouter"@ {
        Some(ThinkingControl::OpenRouter)
    } else if s == "vllm"@ {
        Some(ThinkingControl::Vllm)
    } else if s == "effort"@ {
        Some(ThinkingControl::Effort)
    } else if s == "off"@ {
        Some(ThinkingControl::Off)
    } else if s == "auto"@ {
        Some(ThinkingControl::Auto)
    } else {
        None
    }
}

/// Read a thinking control by its name.
pub fn parse_thinking(s: &str) -> (r: Option<ThinkingControl>)
    ensures
        r == thinking_named(s@),
{
    if str_eq(s, "openrouter") {
        Some(ThinkingControl::OpenRouter)
    } else if str_eq(s, "vllm") {
        Some(ThinkingControl::Vllm)
    } else if str_eq(s, "effort") {
        Some(ThinkingControl::Effort)
    } else if str_eq(s, "off") {
        Some(ThinkingControl::Off)
    } else if str_eq(s, "auto") {
        Some(ThinkingControl::Auto)
    } else {
        None
    }
}

/// A control's name reads back as the control.
pub proof fn law_thinking_names_read_back(c: ThinkingControl)
    ensures
        thinking_named(c.label()) == Some(c),
{
    reveal_strlit("openrouter");
    reveal_strlit("vllm");
    reveal_strlit("effort");
    reveal_strlit("off");
    reveal_strlit("auto");
    assert("openrouter"@.len() == 10 && "vllm"@.len() == 4 && "effort"@.len() == 6);
    assert("off"@.len() == 3 && "auto"@.len() == 4);
    assert("vllm"@[0] == 'v' && "auto"@[0] == 'a');
}

/// The host is OpenRouter's, or one under it.
pub open spec fn openrouter_host(host: Option<Seq<char>>) -> bool {
    host matches Some(h) && (h == "openrouter.ai"@ || ends(h, ".openrouter.ai"@))
}

/// The address of an endpoint parses and its host is OpenRouter's.
pub open spec fn at_openrouter(url: Option<UrlView>) -> bool {
    url matches Some(u) && openrouter_host(u.host)
}

/// Is a parsed endpoint's host OpenRouter's?
pub fn parsed_is_openrouter(url: &Option<ParsedUrl>) -> (r: bool)
    ensures
        r == at_openrouter(
            match *url {
                Some(u) => Some(u@),
                None => None,
            },
        ),
{
    match url {
        Some(u) => match &u.host {
            Some(h) => {
                let v = to_chars(h.as_str());
                str_eq(h.as_str(), "openrouter.ai") || ends_with(&v, ".openrouter.ai")
            },
            None => false,
        },
        None => false,
    }
}

/// Is the endpoint's host OpenRouter? A random endpoint that has never seen the
/// reasoning field is within its rights to refuse it.
pub fn is_openrouter(endpoint: &str) -> (r: bool)
    ensures
        r == at_openrouter(url_parts(endpoint@)),
{
    let url = parse_url(endpoint);
    parsed_is_openrouter(&url)
}

/// The control that `control` comes down to at an endpoint.
pub open spec fn resolved(control: ThinkingControl, openrouter: bool) -> ThinkingControl {
    if control == ThinkingControl::Auto {
        if openrouter {
            ThinkingControl::OpenRouter
        } else {
            ThinkingControl::Off
        }
    } else {
        control
    }
}

/// Resolve `Auto` to a concrete control by the endpoint's host.
pub fn effective_control(control: ThinkingControl, endpoint: &str) -> (r: ThinkingControl)
    ensures
        r == resolved(control, at_openrouter(url_parts(endpoint@))),
{
    if control == ThinkingControl::Auto {
        if is_openrouter(endpoint) {
            ThinkingControl::OpenRouter
        } else {
            ThinkingControl::Off
        }
    } else {
        control
    }
}

/// The request's members with its reasoning parameter set.
pub open spec fn with_thinking(
    control: ThinkingControl,
    thinking: bool,
    body: Seq<(Seq<char>, Shape)>,
) -> Seq<(Seq<char>, Shape)> {
    match control {
        ThinkingControl::OpenRouter => with_member(
            body,
            "reasoning"@,
            Shape::Object(
                if thinking {
                    seq![("effort"@, Shape::Text("medium"@))]
                } else {
                    seq![("enabled"@, Shape::Bool(false))]
                },
            ),
        ),
        ThinkingControl::Vllm => with_member(
            body,
            "chat_template_kwargs"@,
            Shape::Object(seq![("enable_thinking"@, Shape::Bool(thinking))]),
        ),
        ThinkingControl::Effort => with_member(
            body,
            "reasoning_effort"@,
            Shape::Text(
                if thinking {
                    "medium"@
                } else {
                    "none"@
                },
            ),
        ),
        _ => body,
    }
}

/// An object of one member.
fn single(name: &str, value: Json) -> (r: Json)
    ensures
        r.shape() == Shape::Object(seq![(name@, value.shape())]),
{
    let mut v = no_members();
    add_member(&mut v, name, value);
    object(v)
}

/// Apply the reasoning parameter that `control` calls for to the request. `Off`
/// adds nothing, and neither does an `Auto` that was not resolved.
pub fn apply_thinking_to_body(
    control: ThinkingControl,
    thinking: bool,
    body: &mut Vec<(String, Json)>,
)
    ensures
        member_shapes(final(body)@) == with_thinking(control, thinking, member_shapes(old(body)@)),
{
    match control {
        ThinkingControl::OpenRouter => {
            let value = if thinking {
                single("effort", string("medium"))
            } else {
                single("enabled", Json::Bool(false))
            };
            set_member(body, "reasoning", value);
        },
        ThinkingControl::Vllm => {
            let value = single("enable_thinking", Json::Bool(thinking));
            set_member(body, "chat_template_kwargs", value);
        },
        ThinkingControl::Effort => {
            let value = if thinking {
                string("medium")
            } else {
                string("none")
            };
            set_member(body, "reasoning_effort", value);
        },
        _ => {},
    }
}

// ----------------------------------------------------------------- request --

/// How a single call should be run.
#[derive(Debug)]
pub struct Ask {
    pub system: Option<String>,
    pub prompt: String,
    pub max_tokens: usize,
    /// Let the model reason first.
    pub thinking: bool,
    pub temperature: Figure,
    /// A strict JSON schema to constrain decoding.
    pub schema: Option<Json>,
    /// Stream the reply and abort it when it stalls in a white-space loop.
    pub stall_guard: bool,
}

/// What an ask says.
#[verifier::ext_equal]
pub struct AskView {
    pub system: Option<Seq<char>>,
    pub prompt: Seq<char>,
    pub max_tokens: usize,
    pub thinking: bool,
    pub temperature: (u64, Seq<char>),
    pub schema: Option<Shape>,
    pub stall_guard: bool,
}

impl View for Ask {
    type V = AskView;

    open spec fn view(&self) -> AskView {
        AskView {
            system: match self.system {
                Some(s) => Some(s@),
                None => None,
            },
            prompt: self.prompt@,
            max_tokens: self.max_tokens,
            thinking: self.thinking,
            temperature: (self.temperature.bits, self.temperature.text@),
            schema: match self.schema {
                Some(j) => Some(j.shape()),
                None => None,
            },
            stall_guard: self.stall_guard,
        }
    }
}

/// The temperature of prose: 0.3 in single precision.
pub const PROSE_TEMPERATURE: u64 = 0x3FD3_3333_4000_0000;

impl AskView {
    pub open spec fn prose(prompt: Seq<char>) -> AskView {
        AskView {
            system: None,
            prompt,
            max_tokens: 4096,
            thinking: true,
            temperature: (PROSE_TEMPERATURE, "0.30000001192092896"@),
            schema: None,
            stall_guard: false,
        }
    }

    pub open spec fn structured(prompt: Seq<char>, schema: Shape) -> AskView {
        AskView {
            system: None,
            prompt,
            max_tokens: 8192,
            thinking: false,
            temperature: (0, "0.0"@),
            schema: Some(schema),
            stall_guard: false,
        }
    }
}

impl Ask {
    /// A call whose output is prose for a human.
    pub fn prose(prompt: String) -> (r: Self)
        ensures
            r@ == AskView::prose(prompt@),
    {
        Ask {
            system: None,
            prompt,
            max_tokens: 4096,
            thinking: true,
            temperature: Figure {
                bits: PROSE_TEMPERATURE,
                text: "0.30000001192092896".to_owned(),
            },
            schema: None,
            stall_guard: false,
        }
    }

    /// A call whose output is a JSON document matching `schema`. Thinking is off:
    /// extraction is mechanical.
    pub fn structured(prompt: String, schema: Json) -> (r: Self)
        ensures
            r@ == AskView::structured(prompt@, schema.shape()),
    {
        Ask {
            system: None,
            prompt,
            max_tokens: 8192,
            thinking: false,
            temperature: Figure { bits: 0, text: "0.0".to_owned() },
            schema: Some(schema),
            stall_guard: false,
        }
    }

    pub fn thinking(self, on: bool) -> (r: Self)
        ensures
            r@ == (AskView { thinking: on, ..self@ }),
    {
        let mut r = self;
        r.thinking = on;
        r
    }

    pub fn stall_guard(self, on: bool) -> (r: Self)
        ensures
            r@ == (AskView { stall_guard: on, ..self@ }),
    {
        let mut r = self;
        r.stall_guard = on;
        r
    }

    pub fn max_tokens(self, n: usize) -> (r: Self)
        ensures
            r@ == (AskView { max_tokens: n, ..self@ }),
    {
        let mut r = self;
        r.max_tokens = n;
        r
    }
}

/// One chat message.
pub open spec fn message(role: Seq<char>, content: Seq<char>) -> Shape {
    Shape::Object(seq![("content"@, Shape::Text(content)), ("role"@, Shape::Text(role))])
}

/// The messages of a call: the system prompt where there is one, then the prompt.
pub open spec fn messages(ask: AskView) -> Seq<Shape> {
    match ask.system {
        Some(s) => seq![message("system"@, s), message("user"@, ask.prompt)],
        None => seq![message("user"@, ask.prompt)],
    }
}

/// The members of a call's first request, by name.
pub open spec fn request(model: Seq<char>, control: ThinkingControl, ask: AskView) -> Seq<
    (Seq<char>, Shape),
> {
    let base = seq![
        ("max_tokens"@, Shape::Int(ask.max_tokens as int)),
        ("messages"@, Shape::List(messages(ask))),
        ("model"@, Shape::Text(model)),
        ("temperature"@, Shape::Real(ask.temperature.0, ask.temperature.1)),
    ];
    let body = with_thinking(control, ask.thinking, base);
    match ask.schema {
        Some(schema) => with_member(body, "response_format"@, response_format(schema)),
        None => body,
    }
}

/// The member that constrains decoding to a schema.
pub open spec fn response_format(schema: Shape) -> Shape {
    Shape::Object(
        seq![
            (
                "json_schema"@,
                Shape::Object(
                    seq![
                        ("name"@, Shape::Text("output"@)),
                        ("schema"@, schema),
                        ("strict"@, Shape::Bool(true)),
                    ],
                ),
            ),
            ("type"@, Shape::Text("json_schema"@)),
        ],
    )
}

fn chat_message(role: &str, content: &str) -> (r: Json)
    ensures
        r.shape() == message(role@, content@),
{
    let mut v = no_members();
    add_member(&mut v, "content", string(content));
    add_member(&mut v, "role", string(role));
    assert(member_shapes(v@) =~= seq![
        ("content"@, Shape::Text(content@)),
        ("role"@, Shape::Text(role@)),
    ]);
    object(v)
}

/// Build the request of a call.
pub fn request_body(model: &str, control: ThinkingControl, ask: &Ask) -> (r: Vec<(String, Json)>)
    ensures
        member_shapes(r@) == request(model@, control, ask@),
{
    let mut msgs = no_items();
    match &ask.system {
        Some(s) => {
            add_item(&mut msgs, chat_message("system", s.as_str()));
        },
        None => {},
    }
    add_item(&mut msgs, chat_message("user", ask.prompt.as_str()));
    assert(item_shapes(msgs@) =~= messages(ask@));
    let mut body = no_members();
    add_member(&mut body, "max_tokens", number(ask.max_tokens as u64));
    add_member(&mut body, "messages", list(msgs));
    add_member(&mut body, "model", string(model));
    add_member(&mut body, "temperature", Json::Real(ask.temperature.clone()));
    assert(member_shapes(body@) =~= seq![
        ("max_tokens"@, Shape::Int(ask.max_tokens as int)),
        ("messages"@, Shape::List(messages(ask@))),
        ("model"@, Shape::Text(model@)),
        ("temperature"@, Shape::Real(ask@.temperature.0, ask@.temperature.1)),
    ]);
    apply_thinking_to_body(control, ask.thinking, &mut body);
    match &ask.schema {
        Some(schema) => {
            let mut inner = no_members();
            add_member(&mut inner, "name", string("output"));
            add_member(&mut inner, "schema", schema.copy());
            add_member(&mut inner, "strict", Json::Bool(true));
            assert(member_shapes(inner@) =~= seq![
                ("name"@, Shape::Text("output"@)),
                ("schema"@, schema.shape()),
                ("strict"@, Shape::Bool(true)),
            ]);
            let mut format = no_members();
            add_member(&mut format, "json_schema", object(inner));
            add_member(&mut format, "type", string("json_schema"));
            assert(member_shapes(format@) =~= response_format(schema.shape())->Object_0);
            set_member(&mut body, "response_format", object(format));
        },
        None => {},
    }
    body
}

/// The members of a streamed request: it asks for the stream and for its usage.
pub open spec fn streamed(body: Seq<(Seq<char>, Shape)>) -> Seq<(Seq<char>, Shape)> {
    with_member(
        with_member(body, "stream"@, Shape::Bool(true)),
        "stream_options"@,
        Shape::Object(seq![("include_usage"@, Shape::Bool(true))]),
    )
}

/// Turn a request into one for a streamed reply.
pub fn stream_body(body: &mut Vec<(String, Json)>)
    ensures
        member_shapes(final(body)@) == streamed(member_shapes(old(body)@)),
{
    set_member(body, "stream", Json::Bool(true));
    let options = single("include_usage", Json::Bool(true));
    set_member(body, "stream_options", options);
}

// ----------------------------------------------------------------- retries --

/// How long to wait before an attempt, in milliseconds: nothing before the first,
/// then twice as long each time, up to eight seconds.
pub open spec fn backoff(attempt: int) -> int {
    if attempt <= 0 {
        0
    } else if attempt == 1 {
        500
    } else if attempt == 2 {
        1_000
    } else if attempt == 3 {
        2_000
    } else if attempt == 4 {
        4_000
    } else {
        8_000
    }
}

pub fn backoff_ms(attempt: usize) -> (r: u64)
    ensures
        r == backoff(attempt as int),
{
    if attempt == 0 {
        0
    } else if attempt == 1 {
        500
    } else if attempt == 2 {
        1_000
    } else if attempt == 3 {
        2_000
    } else if attempt == 4 {
        4_000
    } else {
        8_000
    }
}

/// The wait doubles from one retry to the next until it reaches its ceiling.
pub proof fn law_backoff_doubles(attempt: int)
    requires
        attempt >= 1,
    ensures
        backoff(attempt + 1) == if 2 * backoff(attempt) < 8_000 { 2 * backoff(attempt) } else {
            8_000
        },
{
}

/// The message says that a call produced no content because reasoning ate the
/// token budget.
pub open spec fn starved(msg: Seq<char>) -> bool {
    holds(msg, "returned no content"@) && holds(msg, "finish_reason"@)
}

/// Did a call produce no content because reasoning ate the token budget?
pub fn is_starved(msg: &str) -> (r: bool)
    ensures
        r == starved(msg@),
{
    str_contains(msg, "returned no content") && str_contains(msg, "finish_reason")
}

/// Most tokens that a starved call is raised to.
pub const TOKEN_CEILING: u64 = 32_000;

/// Where the attempts at one call stand.
#[derive(Debug)]
pub struct Attempts {
    /// The request that is sent next.
    pub body: Vec<(String, Json)>,
    pub control: ThinkingControl,
    pub thinking: bool,
    /// Attempts that failed so far.
    pub failed: usize,
    pub max_retries: usize,
}

/// The token budget of a request.
pub open spec fn budget(body: Seq<(Seq<char>, Shape)>) -> int {
    match member_from(body, "max_tokens"@, 0) {
        Some(v) => match v.as_count() {
            Some(n) => n,
            None => 4096,
        },
        None => 4096,
    }
}

/// Three times the budget, up to the ceiling.
pub open spec fn raised(budget: int) -> int {
    if budget * 3 < TOKEN_CEILING {
        budget * 3
    } else {
        TOKEN_CEILING as int
    }
}

impl Attempts {
    /// The request after a failure: a starved one gets more room, and at the
    /// ceiling loses its thinking.
    pub open spec fn escalated(self, error: Seq<char>) -> (Seq<(Seq<char>, Shape)>, bool) {
        let body = member_shapes(self.body@);
        if !starved(error) {
            (body, self.thinking)
        } else if budget(body) < TOKEN_CEILING {
            (with_member(body, "max_tokens"@, Shape::Int(raised(budget(body)))), self.thinking)
        } else if self.thinking && self.control != ThinkingControl::Off {
            (with_thinking(self.control, false, body), false)
        } else {
            (body, self.thinking)
        }
    }

    /// Start on a call.
    pub fn begin(model: &str, control: ThinkingControl, ask: &Ask, max_retries: usize) -> (r: Self)
        ensures
            member_shapes(r.body@) == request(model@, control, ask@),
            r.control == control,
            r.thinking == ask.thinking,
            r.failed == 0,
            r.max_retries == max_retries,
    {
        Attempts {
            body: request_body(model, control, ask),
            control,
            thinking: ask.thinking,
            failed: 0,
            max_retries,
        }
    }

    /// Take note of a failed attempt. True when there is another to make, with the
    /// request as it now stands.
    pub fn fail(&mut self, error: &str) -> (again: bool)
        requires
            old(self).failed <= old(self).max_retries,
        ensures
            again == (old(self).failed < old(self).max_retries),
            member_shapes(final(self).body@) == old(self).escalated(error@).0,
            final(self).thinking == old(self).escalated(error@).1,
            final(self).failed == if again { old(self).failed + 1 } else { old(self).failed as int },
            final(self).control == old(self).control,
            final(self).max_retries == old(self).max_retries,
    {
        if is_starved(error) {
            let current: u64 = self.budget_of();
            if current < TOKEN_CEILING {
                let more: u64 = if current * 3 < TOKEN_CEILING {
                    current * 3
                } else {
                    TOKEN_CEILING
                };
                set_member(&mut self.body, "max_tokens", number(more));
            } else if self.thinking && self.control != ThinkingControl::Off {
                self.thinking = false;
                apply_thinking_to_body(self.control, false, &mut self.body);
            }
        }
        if self.failed < self.max_retries {
            self.failed = self.failed + 1;
            true
        } else {
            false
        }
    }

    fn budget_of(&self) -> (r: u64)
        ensures
            r == budget(member_shapes(self.body@)),
    {
        let ghost shapes = member_shapes(self.body@);
        let mut i: usize = 0;
        while i < self.body.len()
            invariant
                i <= self.body@.len(),
                shapes == member_shapes(self.body@),
                member_from(shapes, "max_tokens"@, 0) == member_from(
                    shapes,
                    "max_tokens"@,
                    i as int,
                ),
            decreases self.body@.len() - i,
        {
            assert(shapes[i as int] == (self.body@[i as int].0@, self.body@[i as int].1.shape()));
            if str_eq(self.body[i].0.as_str(), "max_tokens") {
                return match self.body[i].1.as_u64() {
                    Some(n) => n,
                    None => 4096,
                };
            }
            i += 1;
        }
        4096
    }
}

/// The message says that the endpoint rejected the schema constraint.
pub open spec fn rejects_format(lower: Seq<char>) -> bool {
    holds(lower, "http 400"@) && (holds(lower, "response_format"@) || holds(lower, "json_schema"@)
        || holds(lower, "json schema"@) || holds(lower, "unsupported"@) || holds(
        lower,
        "does not support"@,
    ))
}

/// Does a lower-cased message say that the endpoint rejected the schema
/// constraint?
pub fn lower_rejects_format(lower: &str) -> (r: bool)
    ensures
        r == rejects_format(lower@),
{
    str_contains(lower, "http 400") && (str_contains(lower, "response_format") || str_contains(
        lower,
        "json_schema",
    ) || str_contains(lower, "json schema") || str_contains(lower, "unsupported")
        || str_contains(lower, "does not support"))
}

/// Does an error look as if the endpoint rejected `response_format`? A genuine bad
/// prompt, refused with the same status, does not.
pub fn is_response_format_unsupported(msg: &str) -> (r: bool)
    ensures
        r == rejects_format(lowercase(msg@)),
{
    let lower = to_lower(msg);
    lower_rejects_format(lower.as_str())
}

// ------------------------------------------------------------------ replies --

/// What a message of a reply holds.
#[derive(Debug)]
pub struct Message {
    pub content: Option<String>,
    /// Chain of thought.
    pub reasoning: Option<String>,
    /// Chain of thought, by the name that some servers use.
    pub reasoning_content: Option<String>,
}

/// One alternative of a reply.
#[derive(Debug)]
pub struct Choice {
    pub message: Message,
    pub finish_reason: Option<String>,
}

pub open spec fn text_or_none(s: Option<String>) -> Seq<char> {
    match s {
        Some(t) => t@,
        None => Seq::empty(),
    }
}

impl Message {
    /// The chain of thought, by either name; the first wins.
    pub open spec fn thought(self) -> Seq<char> {
        match self.reasoning {
            Some(t) => t@,
            None => text_or_none(self.reasoning_content),
        }
    }

    /// The bytes of the chain of thought, by either name.
    pub fn reasoning_bytes(&self) -> (r: u128)
        ensures
            r == byte_len(self.thought()),
    {
        match &self.reasoning {
            Some(t) => byte_length(t.as_str()),
            None => match &self.reasoning_content {
                Some(t) => byte_length(t.as_str()),
                None => 0,
            },
        }
    }
}

/// What `{:?}` shows of an optional text.
pub uninterp spec fn debug_shown(reason: Option<Seq<char>>) -> Seq<char>;

/// `format!("{:?}", ..)` of an optional string: what it shows depends on the
/// string alone.
#[verifier::external_body]
fn debug_text(reason: &Option<String>) -> (r: String)
    ensures
        r@ == debug_shown(
            match *reason {
                Some(t) => Some(t@),
                None => None,
            },
        ),
{
    format!("{:?}", reason)
}

/// The complaint about a reply without content, given how its finish reason is
/// shown.
pub open spec fn no_content(shown: Seq<char>, bytes: nat) -> Seq<char> {
    "generative model returned no content (finish_reason="@ + shown + ", "@ + decimal(bytes)
        + " bytes of reasoning). Raise max_tokens or disable thinking for this call."@
}

/// The complaint about a reply without content.
pub fn no_content_error(shown: &str, bytes: u128) -> (r: String)
    ensures
        r@ == no_content(shown@, bytes as nat),
{
    let mut e = "generative model returned no content (finish_reason=".to_owned();
    e.append(shown);
    e.append(", ");
    let n = show(bytes);
    e.append(n.as_str());
    e.append(" bytes of reasoning). Raise max_tokens or disable thinking for this call.");
    e
}

/// A complaint about missing content is recognised as starvation.
pub proof fn law_no_content_is_starvation(shown: Seq<char>, bytes: nat)
    ensures
        starved(no_content(shown, bytes)),
{
    let head = "generative model returned no content (finish_reason="@;
    let msg = no_content(shown, bytes);
    reveal_strlit("generative model returned no content (finish_reason=");
    reveal_strlit("returned no content");
    reveal_strlit("finish_reason");
    assert(msg.subrange(0, head.len() as int) =~= head);
    assert(msg.subrange(17, 17int + "returned no content"@.len()) =~= "returned no content"@);
    assert(crate::scan::match_at(msg, 17, "returned no content"@));
    assert(msg.subrange(38, 38int + "finish_reason"@.len()) =~= "finish_reason"@);
    assert(crate::scan::match_at(msg, 38, "finish_reason"@));
}

impl Choice {
    pub fn content_text(&self) -> (r: String)
        ensures
            r@ == text_or_none(self.message.content),
    {
        match &self.message.content {
            Some(t) => t.clone(),
            None => {
                let s = String::new();
                assert(s@ =~= Seq::<char>::empty());
                s
            },
        }
    }
}

pub const NO_CHOICES: &'static str = "generative response had no choices";

/// What the first alternative of a reply comes down to.
pub open spec fn reply(choices: Seq<Choice>) -> Result<Seq<char>, Seq<char>> {
    if choices.len() == 0 {
        Err(NO_CHOICES@)
    } else {
        let text = text_or_none(choices[0].message.content);
        if blank(text) {
            Err(
                no_content(
                    debug_shown(
                        match choices[0].finish_reason {
                            Some(t) => Some(t@),
                            None => None,
                        },
                    ),
                    byte_len(choices[0].message.thought()),
                ),
            )
        } else {
            Ok(text)
        }
    }
}

/// The content of a reply, or why there is none: saying that reasoning ate the
/// budget beats returning an empty text.
pub fn reply_text(choices: &Vec<Choice>) -> (r: Result<String, String>)
    ensures
        match r {
            Ok(t) => reply(choices@) == Ok::<Seq<char>, Seq<char>>(t@),
            Err(e) => reply(choices@) == Err::<Seq<char>, Seq<char>>(e@),
        },
{
    if choices.len() == 0 {
        return Err(NO_CHOICES.to_owned());
    }
    let text = choices[0].content_text();
    if is_blank_str(text.as_str()) {
        let shown = debug_text(&choices[0].finish_reason);
        let bytes: u128 = choices[0].message.reasoning_bytes();
        return Err(no_content_error(shown.as_str(), bytes));
    }
    Ok(text)
}

/// The complaint about a status that is no success.
pub open spec fn status_complaint(status: Seq<char>, raw: Seq<char>) -> Seq<char> {
    "generative endpoint returned HTTP "@ + status + ": "@ + truncated(raw, 400)
}

/// The complaint about a status that is no success, with the start of the body.
pub fn status_error(status: &str, raw: &str) -> (r: String)
    ensures
        r@ == status_complaint(status@, raw@),
{
    let mut e = "generative endpoint returned HTTP ".to_owned();
    e.append(status);
    e.append(": ");
    e.append(truncate(raw, 400));
    e
}

// ------------------------------------------------------------------- usage --

/// The usage that one reply reports.
#[derive(Debug, Clone, Copy)]
pub struct Usage {
    pub prompt_tokens: usize,
    pub completion_tokens: usize,
    /// The part of the completion that was reasoning, where it is reported.
    pub reasoning_tokens: Option<usize>,
    /// The price in billionths of a dollar, where a usable one is reported.
    pub cost_nano_usd: Option<u64>,
}

/// Everything a client spent so far. The counters wrap around.
#[derive(Debug, Clone, Copy, PartialEq, Eq, Structural)]
pub struct Counters {
    pub requests: usize,
    pub prompt_tokens: usize,
    pub completion_tokens: usize,
    pub reasoning_tokens: usize,
    pub cost_nano_usd: u64,
    /// Whether any reply carried a price at all: absent is not zero.
    pub cost_reported: bool,
}

impl Counters {
    pub open spec fn zero() -> Counters {
        Counters {
            requests: 0,
            prompt_tokens: 0,
            completion_tokens: 0,
            reasoning_tokens: 0,
            cost_nano_usd: 0,
            cost_reported: false,
        }
    }

    /// The counters after one more reply.
    pub open spec fn with_reply(self, u: Usage) -> Counters {
        Counters {
            requests: self.requests.wrapping_add(1),
            prompt_tokens: self.prompt_tokens.wrapping_add(u.prompt_tokens),
            completion_tokens: self.completion_tokens.wrapping_add(u.completion_tokens),
            reasoning_tokens: match u.reasoning_tokens {
                Some(n) => self.reasoning_tokens.wrapping_add(n),
                None => self.reasoning_tokens,
            },
            cost_nano_usd: match u.cost_nano_usd {
                Some(n) => self.cost_nano_usd.wrapping_add(n),
                None => self.cost_nano_usd,
            },
            cost_reported: self.cost_reported || u.cost_nano_usd is Some,
        }
    }

    /// The counters after an aborted stream: its request and an estimate of its
    /// output are counted, a price is not made up.
    pub open spec fn with_aborted(self, completion: usize) -> Counters {
        Counters {
            requests: self.requests.wrapping_add(1),
            completion_tokens: self.completion_tokens.wrapping_add(completion),
            ..self
        }
    }

    /// Add one reply's usage.
    pub fn record_usage(&mut self, usage: &Usage)
        ensures
            *final(self) == old(self).with_reply(*usage),
    {
        self.requests = self.requests.wrapping_add(1);
        self.prompt_tokens = self.prompt_tokens.wrapping_add(usage.prompt_tokens);
        self.completion_tokens = self.completion_tokens.wrapping_add(usage.completion_tokens);
        match usage.reasoning_tokens {
            Some(n) => {
                self.reasoning_tokens = self.reasoning_tokens.wrapping_add(n);
            },
            None => {},
        }
        match usage.cost_nano_usd {
            Some(n) => {
                self.cost_reported = true;
                self.cost_nano_usd = self.cost_nano_usd.wrapping_add(n);
            },
            None => {},
        }
    }

    /// Add what a stream spent: the usage it reported, or the request and an
    /// estimate of its output when it was cut off before it could.
    pub fn record_stream(&mut self, stream: &Stream)
        ensures
            match stream.usage {
                Some(u) => *final(self) == old(self).with_reply(u),
                None => exists|tokens: usize|
                    tokens == byte_len(stream.content@) / 4 && *final(self) == #[trigger] old(
                        self,
                    ).with_aborted(tokens),
            },
    {
        match stream.usage {
            Some(u) => self.record_usage(&u),
            None => {
                let tokens: usize = stream.estimated_tokens();
                self.requests = self.requests.wrapping_add(1);
                self.completion_tokens = self.completion_tokens.wrapping_add(tokens);
                assert(*self == old(self).with_aborted(tokens));
            },
        }
    }

    /// The price so far in billionths of a dollar, if any reply carried one.
    pub fn cost(&self) -> (r: Option<u64>)
        ensures
            r == if self.cost_reported { Some(self.cost_nano_usd) } else { None },
    {
        if self.cost_reported {
            Some(self.cost_nano_usd)
        } else {
            None
        }
    }
}

impl Default for Counters {
    fn default() -> (r: Self)
        ensures
            r == Counters::zero(),
    {
        Counters {
            requests: 0,
            prompt_tokens: 0,
            completion_tokens: 0,
            reasoning_tokens: 0,
            cost_nano_usd: 0,
            cost_reported: false,
        }
    }
}

/// Once a price was reported it stays reported, and replies without one leave the
/// price alone.
pub proof fn law_absent_cost_is_not_zero(c: Counters, u: Usage)
    ensures
        c.cost_reported ==> c.with_reply(u).cost_reported,
        u.cost_nano_usd is None ==> c.with_reply(u).cost_reported == c.cost_reported && c.with_reply(
            u,
        ).cost_nano_usd == c.cost_nano_usd,
        u.cost_nano_usd is Some ==> c.with_reply(u).cost_reported,
{
}

/// A stream that was cut off is counted as a request, and no price is made up for
/// it.
pub proof fn law_a_cut_stream_is_counted_without_a_price(c: Counters, tokens: usize)
    ensures
        c.with_aborted(tokens).requests == c.requests.wrapping_add(1),
        c.with_aborted(tokens).cost_reported == c.cost_reported,
        c.with_aborted(tokens).cost_nano_usd == c.cost_nano_usd,
        c.with_aborted(tokens).prompt_tokens == c.prompt_tokens,
{
}

// ------------------------------------------------------------------ streams --

/// What one event of a streamed reply says.
#[derive(Debug)]
pub struct StreamChunk {
    /// The texts of its deltas, in order.
    pub pieces: Vec<String>,
    pub usage: Option<Usage>,
    /// The error it carries, as JSON.
    pub error: Option<String>,
}

/// A streamed reply as far as it was read.
#[derive(Debug)]
pub struct Stream {
    /// Bytes that are not a whole line yet.
    pub pending: Vec<u8>,
    pub content: Vec<char>,
    pub usage: Option<Usage>,
    /// White space at the end of the content.
    pub run: usize,
    pub stalled: bool,
}

/// What the lines read so far ask for.
#[derive(Debug)]
pub enum Next {
    /// More bytes.
    More,
    /// The stream said that it is over.
    Done,
    /// The payload of one event.
    Data(String),
}

/// The first line feed from `i` on.
pub open spec fn newline_from(b: Seq<u8>, i: int) -> Option<int>
    decreases b.len() - i,
{
    if i < 0 || i >= b.len() {
        None
    } else if b[i] == 10 {
        Some(i)
    } else {
        newline_from(b, i + 1)
    }
}

proof fn lemma_newline_from(b: Seq<u8>, i: int)
    requires
        0 <= i,
    ensures
        newline_from(b, i) matches Some(k) ==> i <= k < b.len(),
    decreases b.len() - i,
{
    if i < b.len() && b[i] != 10 {
        lemma_newline_from(b, i + 1);
    }
}

/// What the buffered lines say next, and the bytes left behind it: lines without a
/// payload are passed over.
pub open spec fn next_from(pending: Seq<u8>) -> (Option<Seq<char>>, Seq<u8>)
    decreases pending.len(),
    via next_from_moves
{
    match newline_from(pending, 0) {
        None => (None, pending),
        Some(k) => {
            let rest = pending.skip(k + 1);
            match payload(text_of_bytes(pending.take(k + 1))) {
                Some(data) => (Some(data), rest),
                None => next_from(rest),
            }
        },
    }
}

#[via_fn]
proof fn next_from_moves(pending: Seq<u8>) {
    lemma_newline_from(pending, 0);
}

pub open spec fn next_view(n: Next) -> Option<Seq<char>> {
    match n {
        Next::More => None,
        Next::Done => Some("[DONE]"@),
        Next::Data(d) => Some(d@),
    }
}

/// The texts one after the other.
pub open spec fn joined(pieces: Seq<String>, n: int) -> Seq<char>
    decreases n,
{
    if n <= 0 {
        Seq::empty()
    } else {
        joined(pieces, n - 1) + pieces[n - 1]@
    }
}

/// The white-space run behind the first `n` pieces.
pub open spec fn run_of(run: int, pieces: Seq<String>, n: int) -> int
    decreases n,
{
    if n <= 0 {
        run
    } else {
        run_after(run_of(run, pieces, n - 1), pieces[n - 1]@)
    }
}

pub const STALL_ERROR: &'static str = "[stalled] the model stalled in a whitespace loop before writing any output";

pub const EMPTY_STREAM: &'static str = "generative endpoint returned no content (streamed)";

/// The complaint about an error inside a stream.
pub open spec fn stream_complaint(error: Seq<char>) -> Seq<char> {
    "generative endpoint streamed an error: "@ + truncated(error, 400)
}

/// What a stream amounts to once it is over or aborted.
pub open spec fn stream_result(content: Seq<char>, stalled: bool) -> Result<Seq<char>, Seq<char>> {
    if stalled {
        if solid_chars(trim_end(content)) > STALL_OPENING {
            Ok(trim_end(content))
        } else {
            Err(STALL_ERROR@)
        }
    } else if blank(content) {
        Err(EMPTY_STREAM@)
    } else {
        Ok(content)
    }
}

impl Stream {
    /// The run is white space that the content ends with.
    pub open spec fn sound(self) -> bool {
        self.run <= self.content@.len()
    }

    /// Nothing read yet.
    pub fn new() -> (r: Self)
        ensures
            r.sound(),
            r.pending@ == Seq::<u8>::empty(),
            r.content@ == Seq::<char>::empty(),
            r.usage is None,
            r.run == 0,
            !r.stalled,
    {
        Stream {
            pending: Vec::new(),
            content: Vec::new(),
            usage: None,
            run: 0,
            stalled: false,
        }
    }

    /// Take in bytes of the body.
    pub fn feed(&mut self, bytes: &[u8])
        ensures
            final(self).pending@ == old(self).pending@ + bytes@,
            final(self).content == old(self).content,
            final(self).usage == old(self).usage,
            final(self).run == old(self).run,
            final(self).stalled == old(self).stalled,
    {
        let mut i: usize = 0;
        assert(self.pending@ =~= old(self).pending@ + bytes@.take(0));
        while i < bytes.len()
            invariant
                i <= bytes@.len(),
                self.pending@ == old(self).pending@ + bytes@.take(i as int),
                self.content == old(self).content,
                self.usage == old(self).usage,
                self.run == old(self).run,
                self.stalled == old(self).stalled,
            decreases bytes@.len() - i,
        {
            self.pending.push(bytes[i]);
            assert(self.pending@ =~= old(self).pending@ + bytes@.take(i + 1));
            i += 1;
        }
        assert(bytes@.take(i as int) =~= bytes@);
    }

    /// Take the next payload out of the buffered lines.
    pub fn next(&mut self) -> (r: Next)
        ensures
            next_view(r) == next_from(old(self).pending@).0,
            r is Done <==> next_from(old(self).pending@).0 == Some("[DONE]"@),
            final(self).pending@ == next_from(old(self).pending@).1,
            final(self).content == old(self).content,
            final(self).usage == old(self).usage,
            final(self).run == old(self).run,
            final(self).stalled == old(self).stalled,
    {
        loop
            invariant
                next_from(self.pending@) == next_from(old(self).pending@),
                self.content == old(self).content,
                self.usage == old(self).usage,
                self.run == old(self).run,
                self.stalled == old(self).stalled,
            decreases self.pending@.len(),
        {
            let ghost all = self.pending@;
            proof {
                lemma_newline_from(all, 0);
            }
            let n: usize = self.pending.len();
            let mut k: usize = 0;
            while k < n && self.pending[k] != 10
                invariant
                    k <= n == self.pending@.len(),
                    newline_from(self.pending@, 0) == newline_from(self.pending@, k as int),
                decreases n - k,
            {
                k += 1;
            }
            if k >= n {
                return Next::More;
            }
            let mut line: Vec<u8> = Vec::new();
            let mut i: usize = 0;
            while i <= k
                invariant
                    k < n == self.pending@.len(),
                    i <= k + 1,
                    line@ == self.pending@.take(i as int),
                decreases k + 1 - i,
            {
                line.push(self.pending[i]);
                assert(line@ =~= self.pending@.take(i + 1));
                i += 1;
            }
            let mut rest: Vec<u8> = Vec::new();
            while i < n
                invariant
                    k < n == self.pending@.len(),
                    k + 1 <= i <= n,
                    rest@ == self.pending@.subrange(k + 1, i as int),
                decreases n - i,
            {
                rest.push(self.pending[i]);
                assert(rest@ =~= self.pending@.subrange(k + 1, i + 1));
                i += 1;
            }
            assert(rest@ =~= all.skip(k + 1));
            let text = from_utf8_lossy(&line);
            self.pending = rest;
            match sse_data(text.as_str()) {
                Some(data) => {
                    if str_eq(data.as_str(), "[DONE]") {
                        return Next::Done;
                    }
                    return Next::Data(data);
                },
                None => {},
            }
        }
    }

    /// Take in one event. An error in it ends the stream; otherwise the content
    /// grows, and too long a run of white space at its end stalls it.
    pub fn absorb(&mut self, chunk: &StreamChunk) -> (r: Result<(), String>)
        requires
            old(self).sound(),
            old(self).content@.len() + joined(chunk.pieces@, chunk.pieces@.len() as int).len()
                <= usize::MAX,
        ensures
            final(self).sound(),
            final(self).pending == old(self).pending,
            r is Err <==> chunk.error is Some,
            match r {
                Err(e) => e@ == stream_complaint(chunk.error->0@) && *final(self) == *old(self),
                Ok(_) => {
                    &&& final(self).content@ == old(self).content@ + joined(
                        chunk.pieces@,
                        chunk.pieces@.len() as int,
                    )
                    &&& final(self).run == run_of(
                        old(self).run as int,
                        chunk.pieces@,
                        chunk.pieces@.len() as int,
                    )
                    &&& final(self).stalled == (old(self).stalled || final(self).run
                        >= STALL_WHITESPACE)
                    &&& final(self).usage == if chunk.usage is Some {
                        chunk.usage
                    } else {
                        old(self).usage
                    }
                },
            },
    {
        match &chunk.error {
            Some(e) => {
                let mut msg = "generative endpoint streamed an error: ".to_owned();
                msg.append(truncate(e.as_str(), 400));
                return Err(msg);
            },
            None => {},
        }
        match chunk.usage {
            Some(u) => {
                self.usage = Some(u);
            },
            None => {},
        }
        let n: usize = chunk.pieces.len();
        let mut i: usize = 0;
        assert(self.content@ =~= old(self).content@ + joined(chunk.pieces@, 0));
        while i < n
            invariant
                i <= n == chunk.pieces@.len(),
                self.run <= self.content@.len(),
                old(self).content@.len() + joined(chunk.pieces@, n as int).len() <= usize::MAX,
                self.content@ == old(self).content@ + joined(chunk.pieces@, i as int),
                self.run == run_of(old(self).run as int, chunk.pieces@, i as int),
                self.pending == old(self).pending,
                self.stalled == old(self).stalled,
                self.usage == if chunk.usage is Some {
                    chunk.usage
                } else {
                    old(self).usage
                },
            decreases n - i,
        {
            let piece = chunk.pieces[i].as_str();
            proof {
                lemma_joined_grows(chunk.pieces@, i + 1, n as int);
                assert(joined(chunk.pieces@, i + 1) == joined(chunk.pieces@, i as int) + piece@);
            }
            self.run = whitespace_run(self.run, piece);
            let ghost before = self.content@;
            push_str(&mut self.content, piece);
            assert(self.content@ =~= old(self).content@ + joined(chunk.pieces@, i + 1));
            proof {
                lemma_run_fits(piece@);
            }
            i += 1;
        }
        if self.run >= STALL_WHITESPACE {
            self.stalled = true;
        }
        Ok(())
    }

    /// Tokens that an aborted stream is taken to have written: one for four bytes.
    pub fn estimated_tokens(&self) -> (r: usize)
        ensures
            r == byte_len(self.content@) / 4,
    {
        let n: usize = self.content.len();
        let bytes: u128 = crate::text::chars_byte_length(&self.content);
        assert(bytes <= 4 * n);
        (bytes / 4) as usize
    }

    /// What the stream amounts to. A stalled one that got past its opening is kept
    /// as far as it went.
    pub fn result(&self) -> (r: Result<String, String>)
        ensures
            match r {
                Ok(t) => stream_result(self.content@, self.stalled) == Ok::<Seq<char>, Seq<char>>(
                    t@,
                ),
                Err(e) => stream_result(self.content@, self.stalled) == Err::<
                    Seq<char>,
                    Seq<char>,
                >(e@),
            },
    {
        if self.stalled {
            let end: usize = trim_end_bound(&self.content, 0);
            let kept = from_range(&self.content, 0, end);
            assert(self.content@.subrange(0, self.content@.len() as int) =~= self.content@);
            if stall_progressed(kept.as_str()) {
                return Ok(kept);
            }
            return Err(STALL_ERROR.to_owned());
        }
        if is_blank(&self.content) {
            return Err(EMPTY_STREAM.to_owned());
        }
        Ok(from_chars(&self.content))
    }
}

proof fn lemma_joined_grows(pieces: Seq<String>, i: int, n: int)
    requires
        0 <= i <= n,
    ensures
        joined(pieces, i).len() <= joined(pieces, n).len(),
    decreases n - i,
{
    if i < n {
        lemma_joined_grows(pieces, i, n - 1);
    }
}

proof fn lemma_run_fits(piece: Seq<char>)
    ensures
        crate::repair::trailing_spaces(piece) <= piece.len(),
    decreases piece.len(),
{
    if piece.len() > 0 && crate::text::is_space(piece.last()) {
        lemma_run_fits(piece.drop_last());
    }
}

proof fn lemma_newline_prefix(a: Seq<u8>, b: Seq<u8>, i: int)
    requires
        0 <= i <= a.len(),
    ensures
        newline_from(a, i) is Some ==> newline_from(a + b, i) == newline_from(a, i),
    decreases a.len() - i,
{
    if i < a.len() && a[i] != 10 {
        lemma_newline_prefix(a, b, i + 1);
    }
}

/// How the body is cut into chunks does not matter: what a line says is the same
/// when more bytes stand behind it, and those stay behind.
pub proof fn law_chunk_boundaries_do_not_matter(pending: Seq<u8>, more: Seq<u8>)
    ensures
        next_from(pending).0 is Some ==> next_from(pending + more) == (
            next_from(pending).0,
            next_from(pending).1 + more,
        ),
    decreases pending.len(),
{
    lemma_newline_from(pending, 0);
    lemma_newline_prefix(pending, more, 0);
    match newline_from(pending, 0) {
        None => {},
        Some(k) => {
            let rest = pending.skip(k + 1);
            assert((pending + more).take(k + 1) =~= pending.take(k + 1));
            assert((pending + more).skip(k + 1) =~= rest + more);
            law_chunk_boundaries_do_not_matter(rest, more);
        },
    }
}

// --------------------------------------------------------------- structured --

/// The prompt that carries its schema, for an endpoint that takes no constraint.
pub open spec fn framed(schema: Seq<char>, prompt: Seq<char>) -> Seq<char> {
    "Return ONLY a JSON object matching this schema, no prose, no code fence:\n"@ + schema
        + "\n\n"@ + prompt
}

/// The call to make when an endpoint rejects the schema constraint: the schema goes
/// into the prompt.
pub fn schema_in_prompt(schema: &Json, prompt: &str, guard: bool) -> (r: Ask)
    ensures
        r@ == (AskView {
            thinking: false,
            stall_guard: guard,
            ..AskView::prose(framed(schema.shape().text(), prompt@))
        }),
{
    let text = schema.to_text();
    let mut p =
        "Return ONLY a JSON object matching this schema, no prose, no code fence:\n".to_owned();
    p.append(text.as_str());
    p.append("\n\n");
    p.append(prompt);
    Ask::prose(p).thinking(false).stall_guard(guard)
}

/// What to ask after a call with a schema failed: the same again with the schema in
/// the prompt if the endpoint rejected the constraint, and nothing after any other
/// failure.
pub fn fallback_ask(error: &str, schema: &Json, prompt: &str, guard: bool) -> (r: Option<Ask>)
    ensures
        r is Some <==> rejects_format(lowercase(error@)),
        r matches Some(ask) ==> ask@ == (AskView {
            thinking: false,
            stall_guard: guard,
            ..AskView::prose(framed(schema.shape().text(), prompt@))
        }),
{
    if is_response_format_unsupported(error) {
        Some(schema_in_prompt(schema, prompt, guard))
    } else {
        None
    }
}

/// The texts to try to decode, in this order: the reply without a fence, the first
/// object in it, and what can be salvaged of that.
#[derive(Debug)]
pub struct Readings {
    pub cleaned: String,
    pub candidate: String,
    pub salvaged: Option<String>,
}

pub open spec fn candidate_of(text: Seq<char>) -> Seq<char> {
    match first_object(unfenced(text)) {
        Some(t) => t,
        None => unfenced(text),
    }
}

/// The readings of a reply that should hold a JSON document.
pub fn readings(text: &str) -> (r: Readings)
    ensures
        r.cleaned@ == unfenced(text@),
        r.candidate@ == candidate_of(text@),
        match r.salvaged {
            Some(t) => salvaged(candidate_of(text@)) == Some(t@),
            None => salvaged(candidate_of(text@)) is None,
        },
{
    let cleaned = strip_code_fence(text);
    let candidate = match extract_first_json_object(cleaned.as_str()) {
        Some(t) => t,
        None => cleaned.clone(),
    };
    let salvaged = salvage_truncated_json(candidate.as_str());
    Readings { cleaned, candidate, salvaged }
}

/// The complaint about a reply that none of its readings could be decoded from.
pub open spec fn decode_complaint(candidate: Seq<char>) -> Seq<char> {
    "decoding structured output: "@ + truncated(candidate, 400)
}

impl Readings {
    /// The complaint about a reply of which no reading could be decoded.
    pub fn complaint(&self) -> (r: String)
        ensures
            r@ == decode_complaint(self.candidate@),
    {
        let mut e = "decoding structured output: ".to_owned();
        e.append(truncate(self.candidate.as_str(), 400));
        e
    }
}

// ---------------------------------------------------------- what is asked --

/// The request of a call names its model, carries its prompt as the user's message and its
/// budget and temperature as they are; a schema constrains the reply, and thinking is switched
/// by the parameter that the endpoint knows.
pub proof fn law_a_request_says_what_is_asked(
    model: Seq<char>,
    control: ThinkingControl,
    ask: AskView,
)
    ensures
        ({
            let r = Shape::Object(request(model, control, ask));
            &&& r.says("model"@, Shape::Text(model))
            &&& r.says("max_tokens"@, Shape::Int(ask.max_tokens as int))
            &&& r.says("temperature"@, Shape::Real(ask.temperature.0, ask.temperature.1))
            &&& exists|m: Seq<Shape>|
                #[trigger] r.says("messages"@, Shape::List(m)) && m.len() > 0 && m.last().says(
                    "role"@,
                    Shape::Text("user"@),
                ) && m.last().says("content"@, Shape::Text(ask.prompt)) && (ask.system matches Some(
                    s,
                ) ==> m.len() == 2 && m[0].says("role"@, Shape::Text("system"@)) && m[0].says(
                    "content"@,
                    Shape::Text(s),
                ))
            &&& ask.schema matches Some(s) ==> r.says("response_format"@, response_format(s))
            &&& control == ThinkingControl::OpenRouter && ask.thinking ==> r.says(
                "reasoning"@,
                Shape::Object(seq![("effort"@, Shape::Text("medium"@))]),
            )
            &&& control == ThinkingControl::OpenRouter && !ask.thinking ==> r.says(
                "reasoning"@,
                Shape::Object(seq![("enabled"@, Shape::Bool(false))]),
            )
            &&& control == ThinkingControl::Vllm ==> r.says(
                "chat_template_kwargs"@,
                Shape::Object(seq![("enable_thinking"@, Shape::Bool(ask.thinking))]),
            )
            &&& control == ThinkingControl::Effort && ask.thinking ==> r.says(
                "reasoning_effort"@,
                Shape::Text("medium"@),
            )
            &&& control == ThinkingControl::Effort && !ask.thinking ==> r.says(
                "reasoning_effort"@,
                Shape::Text("none"@),
            )
        }),
        ask.schema matches Some(s) ==> response_format(s).says("type"@, Shape::Text("json_schema"@))
            && exists|j: Shape|
            #[trigger] response_format(s).says("json_schema"@, j) && j.says("schema"@, s)
                && j.says("strict"@, Shape::Bool(true)),
{
    lemma_request_names();
    let base = seq![
        ("max_tokens"@, Shape::Int(ask.max_tokens as int)),
        ("messages"@, Shape::List(messages(ask))),
        ("model"@, Shape::Text(model)),
        ("temperature"@, Shape::Real(ask.temperature.0, ask.temperature.1)),
    ];
    assert(base[0] == ("max_tokens"@, Shape::Int(ask.max_tokens as int)));
    assert(base[1] == ("messages"@, Shape::List(messages(ask))));
    assert(base[2] == ("model"@, Shape::Text(model)));
    assert(base[3] == ("temperature"@, Shape::Real(ask.temperature.0, ask.temperature.1)));
    let body = with_thinking(control, ask.thinking, base);
    lemma_thinking_keeps(control, ask.thinking, base);
    match ask.schema {
        Some(s) => {
            law_setting_a_member_keeps_the_others(body, "response_format"@, response_format(s));
            let f = response_format(s)->Object_0;
            let j = f[0].1;
            assert(f[0] == ("json_schema"@, j));
            assert(f[1] == ("type"@, Shape::Text("json_schema"@)));
            let w = j->Object_0;
            assert(w[1] == ("schema"@, s));
            assert(w[2] == ("strict"@, Shape::Bool(true)));
            assert(response_format(s).says("json_schema"@, j));
        },
        None => {},
    }
    let m = messages(ask);
    let r = Shape::Object(request(model, control, ask));
    assert(base.contains(base[0]) && base.contains(base[1]) && base.contains(base[2])
        && base.contains(base[3]));
    assert(body.contains(base[0]) && body.contains(base[1]) && body.contains(base[2])
        && body.contains(base[3]));
    assert(request(model, control, ask).contains(base[0]));
    assert(request(model, control, ask).contains(base[1]));
    assert(request(model, control, ask).contains(base[2]));
    assert(request(model, control, ask).contains(base[3]));
    assert(r.says("messages"@, Shape::List(m)));
    let u = m.last()->Object_0;
    assert(u[0] == ("content"@, Shape::Text(ask.prompt)));
    assert(u[1] == ("role"@, Shape::Text("user"@)));
    match ask.system {
        Some(s) => {
            let v = m[0]->Object_0;
            assert(v[0] == ("content"@, Shape::Text(s)));
            assert(v[1] == ("role"@, Shape::Text("system"@)));
        },
        None => {},
    }
}

/// Setting the reasoning parameter sets it and keeps the rest of a request.
proof fn lemma_thinking_keeps(
    control: ThinkingControl,
    thinking: bool,
    body: Seq<(Seq<char>, Shape)>,
)
    ensures
        forall|m: (Seq<char>, Shape)| #[trigger]
            body.contains(m) && m.0 != "reasoning"@ && m.0 != "chat_template_kwargs"@ && m.0
                != "reasoning_effort"@ ==> with_thinking(control, thinking, body).contains(m),
        control == ThinkingControl::OpenRouter && thinking ==> with_thinking(
            control,
            thinking,
            body,
        ).contains(("reasoning"@, Shape::Object(seq![("effort"@, Shape::Text("medium"@))]))),
        control == ThinkingControl::OpenRouter && !thinking ==> with_thinking(
            control,
            thinking,
            body,
        ).contains(("reasoning"@, Shape::Object(seq![("enabled"@, Shape::Bool(false))]))),
        control == ThinkingControl::Vllm ==> with_thinking(control, thinking, body).contains(
            (
                "chat_template_kwargs"@,
                Shape::Object(seq![("enable_thinking"@, Shape::Bool(thinking))]),
            ),
        ),
        control == ThinkingControl::Effort && thinking ==> with_thinking(
            control,
            thinking,
            body,
        ).contains(("reasoning_effort"@, Shape::Text("medium"@))),
        control == ThinkingControl::Effort && !thinking ==> with_thinking(
            control,
            thinking,
            body,
        ).contains(("reasoning_effort"@, Shape::Text("none"@))),
        control == ThinkingControl::Off ==> with_thinking(control, thinking, body) == body,
{
    match control {
        ThinkingControl::OpenRouter => {
            law_setting_a_member_keeps_the_others(
                body,
                "reasoning"@,
                Shape::Object(
                    if thinking {
                        seq![("effort"@, Shape::Text("medium"@))]
                    } else {
                        seq![("enabled"@, Shape::Bool(false))]
                    },
                ),
            );
        },
        ThinkingControl::Vllm => {
            law_setting_a_member_keeps_the_others(
                body,
                "chat_template_kwargs"@,
                Shape::Object(seq![("enable_thinking"@, Shape::Bool(thinking))]),
            );
        },
        ThinkingControl::Effort => {
            law_setting_a_member_keeps_the_others(
                body,
                "reasoning_effort"@,
                Shape::Text(
                    if thinking {
                        "medium"@
                    } else {
                        "none"@
                    },
                ),
            );
        },
        _ => {},
    }
}

/// No two parameters of a request share a name.
proof fn lemma_request_names()
    ensures
        "reasoning"@.len() == 9,
        "chat_template_kwargs"@.len() == 20,
        "reasoning_effort"@.len() == 16,
        "response_format"@.len() == 15,
        "max_tokens"@.len() == 10,
        "messages"@.len() == 8,
        "model"@.len() == 5,
        "temperature"@.len() == 11,
{
    reveal_strlit("reasoning");
    reveal_strlit("chat_template_kwargs");
    reveal_strlit("reasoning_effort");
    reveal_strlit("response_format");
    reveal_strlit("max_tokens");
    reveal_strlit("messages");
    reveal_strlit("model");
    reveal_strlit("temperature");
}

/// A streamed request asks for the stream and for its usage, and for everything else as before.
pub proof fn law_a_streamed_request_asks_the_same(body: Seq<(Seq<char>, Shape)>)
    ensures
        Shape::Object(streamed(body)).says("stream"@, Shape::Bool(true)),
        Shape::Object(streamed(body)).says(
            "stream_options"@,
            Shape::Object(seq![("include_usage"@, Shape::Bool(true))]),
        ),
        forall|m: (Seq<char>, Shape)| #[trigger]
            body.contains(m) && m.0 != "stream"@ && m.0 != "stream_options"@ ==> streamed(
                body,
            ).contains(m),
{
    reveal_strlit("stream");
    reveal_strlit("stream_options");
    let one = with_member(body, "stream"@, Shape::Bool(true));
    law_setting_a_member_keeps_the_others(body, "stream"@, Shape::Bool(true));
    law_setting_a_member_keeps_the_others(
        one,
        "stream_options"@,
        Shape::Object(seq![("include_usage"@, Shape::Bool(true))]),
    );
    assert(one.contains(("stream"@, Shape::Bool(true))));
    assert forall|m: (Seq<char>, Shape)| #[trigger]
        body.contains(m) && m.0 != "stream"@ && m.0 != "stream_options"@ implies streamed(
        body,
    ).contains(m) by {
        assert(one.contains(m));
    }
}

/// A starved reply is tried again with three times the room, up to the ceiling, and only there
/// without thinking; any other failure is tried again as it was.
pub proof fn law_only_starvation_changes_a_request(a: Attempts, error: Seq<char>)
    ensures
        !starved(error) ==> a.escalated(error) == (member_shapes(a.body@), a.thinking),
        starved(error) && budget(member_shapes(a.body@)) < TOKEN_CEILING ==> {
            let b = budget(member_shapes(a.body@));
            &&& a.escalated(error).1 == a.thinking
            &&& a.escalated(error).0.contains(
                (
                    "max_tokens"@,
                    Shape::Int(
                        if b * 3 < TOKEN_CEILING {
                            b * 3
                        } else {
                            TOKEN_CEILING as int
                        },
                    ),
                ),
            )
        },
        starved(error) && budget(member_shapes(a.body@)) >= TOKEN_CEILING && a.control
            != ThinkingControl::Off ==> !a.escalated(error).1,
{
    let body = member_shapes(a.body@);
    law_setting_a_member_keeps_the_others(body, "max_tokens"@, Shape::Int(raised(budget(body))));
}

} // verus!
